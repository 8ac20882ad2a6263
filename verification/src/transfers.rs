//! Where control goes after an instruction, told by the processor's own rules, and that the
//! edges of a traversal are those ways.

use crate::analysis::{CallEdge, FlowEdge, FlowKind};
use crate::control_flow::{
    follow, spec_direct_address, spec_relative_target, spec_resolve_direct, stub_targets,
    DirectTargetView, Image, OptionsView, Walk,
};
use crate::decoded::word_at;
use crate::jump_tables::spec_loads_target;
use crate::lvo::spec_library_vector;
use crate::m68k::{AddressingMode, Instruction, Isa, Operands};
use crate::machine::wrapped;
use crate::relocation::Rebase;
use vstd::prelude::*;

verus! {

/// The number that a word stands for, read as two's complement.
pub open spec fn signed_word(word: int) -> int {
    if word < 0x8000 {
        word
    } else {
        word - 0x1_0000
    }
}

/// Where the encoded operand of an instruction points that stands at `address`: a branch
/// counts from the word behind its opcode, an operand relative to the program counter from
/// the place of its extension word, and an absolute one is the address itself.
pub open spec fn pointed(instruction: Instruction) -> Option<int> {
    match instruction.operands {
        Operands::Displacement(distance) => Some(wrapped(instruction.pc + 2 + distance)),
        Operands::ConditionDisplacement(_, distance) => Some(
            wrapped(instruction.pc + 2 + distance),
        ),
        Operands::ConditionRegisterDisplacement(_, _, distance) => Some(
            wrapped(instruction.pc + 2 + distance),
        ),
        Operands::EffectiveAddress(AddressingMode::Pciwd(base, distance)) => Some(
            wrapped(base + distance),
        ),
        Operands::EffectiveAddress(AddressingMode::AbsLong(address)) => Some(address as int),
        _ => None,
    }
}

/// Whether an instruction calls what its operand points at.
pub open spec fn calls(instruction: Instruction, target: u32) -> bool {
    (instruction.isa == Isa::Bsr || instruction.isa == Isa::Jsr) && pointed(instruction) == Some(
        target as int,
    )
}

/// Whether an instruction may go on at what its operand points at, within its routine.
pub open spec fn branches(instruction: Instruction, target: u32) -> bool {
    (instruction.isa == Isa::Bra || instruction.isa == Isa::Bcc || instruction.isa == Isa::Dbcc
        || instruction.isa == Isa::Jmp) && pointed(instruction) == Some(target as int)
}

/// Whether an instruction may go on right behind itself: one that has been called returns
/// there, a condition may fail, and nothing else leaves but jumps and returns.
pub open spec fn falls_through(isa: Isa) -> bool {
    !matches!(isa, Isa::Bra | Isa::Jmp | Isa::Rts | Isa::Rte | Isa::Rtr)
}

/// A branch reaches the place that many bytes from the word behind its opcode.
pub proof fn branches_count_from_behind_the_opcode(address: u32, displacement: i16)
    ensures
        spec_relative_target(address, displacement) == wrapped(address + 2 + displacement),
{
}

/// An operand relative to the program counter, whose extension word stands right behind the
/// opcode at `address`, names the place that the signed extension word counts from there: the
/// same that a branch with this displacement reaches, wherever the image is mapped.
pub proof fn relative_operands_count_from_their_extension(
    address: u32,
    extension: u16,
    rebase: Option<Rebase>,
    length: nat,
    base: u32,
    displacement: i16,
)
    requires
        base == wrapped(address + 2),
        displacement == signed_word(extension as int),
    ensures
        spec_direct_address(AddressingMode::Pciwd(base, displacement), rebase, length) matches Some(
            target,
        ) && target == wrapped(address + 2 + signed_word(extension as int)) && target
            == spec_relative_target(address, displacement),
{
}

/// An absolute operand names the byte of the image that stands at this address: the image's
/// origin and the offset make up the address, and the offset lies inside the image.
pub proof fn absolute_operands_name_mapped_bytes(
    address: u32,
    origin: u32,
    length: nat,
)
    ensures
        match spec_direct_address(
            AddressingMode::AbsLong(address),
            Some(Rebase { origin }),
            length,
        ) {
            Some(offset) => origin + offset == address && offset < length,
            None => forall|offset: int| 0 <= offset < length ==> #[trigger] (origin + offset)
                != address,
        },
        spec_direct_address(AddressingMode::AbsLong(address), None, length) == Some(address),
{
}

/// Whether a traversal has only the operand to go by.
pub open spec fn is_unaided(image: Image, w: Walk, address: u32) -> bool {
    &&& image.options.relocations is None
    &&& image.options.rebase is None
    &&& !image.tables.dom().contains(address)
    &&& !spec_loads_target(w.analysis.instructions, address)
}

/// The edges that an instruction adds to a traversal are the ways that control goes: it calls
/// and branches where its operand points, and goes on behind itself where nothing makes it
/// leave. Whatever is called is a function.
pub proof fn edges_are_the_ways_of_control(
    image: Image,
    w: Walk,
    address: u32,
    owner: u32,
    edge: FlowEdge,
)
    requires
        w.analysis.instructions[address].wf(),
        w.analysis.instructions[address].address == address,
        w.analysis.instructions[address].instruction.isa != Isa::Unknown,
        is_unaided(image, w, address),
        ({
            let instruction = w.analysis.instructions[address].instruction;
            instruction.isa == Isa::Jsr || instruction.isa == Isa::Jmp ==> pointed(
                instruction,
            ) is Some
        }),
    ensures
        ({
            let decoded = w.analysis.instructions[address];
            let instruction = decoded.instruction;
            let (after, on) = follow(image, w, address, owner);
            &&& after.analysis.flows.contains(edge) <==> w.analysis.flows.contains(edge)
                || edge.owner == owner && edge.site == address && match edge.kind {
                FlowKind::Call => calls(instruction, edge.target),
                FlowKind::Branch => branches(instruction, edge.target),
                FlowKind::Fallthrough => falls_through(instruction.isa) && edge.target
                    == decoded.end,
            }
            &&& forall|callee: u32|
                #![trigger after.analysis.functions.contains(callee)]
                after.analysis.functions.contains(callee) <==> w.analysis.functions.contains(callee)
                    || calls(instruction, callee)
            &&& forall|call: CallEdge|
                #![trigger after.analysis.calls.contains(call)]
                after.analysis.calls.contains(call) <==> w.analysis.calls.contains(call)
                    || call.caller == owner && call.call_site == address && calls(
                    instruction,
                    call.callee,
                )
            &&& on == if falls_through(instruction.isa) {
                Some(decoded.end)
            } else {
                None
            }
        }),
{
    let instruction = w.analysis.instructions[address].instruction;
    match instruction.operands {
        Operands::Displacement(displacement)
        | Operands::ConditionDisplacement(_, displacement)
        | Operands::ConditionRegisterDisplacement(_, _, displacement) => {
            branches_count_from_behind_the_opcode(address, displacement);
        },
        _ => {},
    }
}

/// A relocation that patches the operand outranks what the operand holds: the transfer goes
/// to the place that the relocation names, in its hunk.
pub proof fn relocations_outrank_operands(
    code: Seq<u8>,
    options: OptionsView,
    addend: u32,
    site: u32,
)
    requires
        site + 6 <= u32::MAX,
        options.relocations is Some,
        options.relocations->0.at((site + 2) as u32, addend) is Some,
    ensures
        ({
            let index = options.relocations->0;
            let relocation = index.at((site + 2) as u32, addend)->0;
            match spec_resolve_direct(
                code,
                options,
                AddressingMode::AbsLong(addend),
                site,
                (site + 6) as u32,
            ) {
                DirectTargetView::Offset(target) => relocation.target_hunk == index.hunk && target
                    == relocation.target_offset && target % 2 == 0 && target < code.len(),
                DirectTargetView::External(found) => found == relocation && found.target_hunk
                    != index.hunk,
                DirectTargetView::Unresolved => relocation.target_hunk == index.hunk && !(
                relocation.target_offset % 2 == 0 && relocation.target_offset < code.len()),
                _ => false,
            }
        }),
{
}

/// Each entry of a table of branch stubs stands four bytes behind the one before it, is a
/// `BRA.W`, and leads where that branch would.
pub proof fn stubs_lead_where_their_branches_do(code: Seq<u8>, cursor: int, count: nat, k: int)
    requires
        0 <= cursor,
        stub_targets(code, cursor, count) is Some,
        0 <= k < stub_targets(code, cursor, count)->0.len(),
    ensures
        ({
            let at = cursor + 4 * k;
            &&& at + 4 <= code.len()
            &&& word_at(code, at) == 0x6000
            &&& stub_targets(code, cursor, count)->0[k] == wrapped(
                at + 2 + (word_at(code, at + 2) as i16),
            )
            &&& count + stub_targets(code, cursor, count)->0.len() <= 256
        }),
    decreases k,
{
    let targets = stub_targets(code, cursor, count)->0;
    let rest = stub_targets(code, cursor + 4, count + 1);
    lemma_stub_count(code, cursor, count);
    if k == 0 {
        branches_count_from_behind_the_opcode(
            cursor as u32,
            word_at(code, cursor + 2) as i16,
        );
    } else {
        assert(targets[k] == rest->0[k - 1]);
        stubs_lead_where_their_branches_do(code, cursor + 4, count + 1, k - 1);
    }
}

proof fn lemma_stub_count(code: Seq<u8>, cursor: int, count: nat)
    requires
        stub_targets(code, cursor, count) is Some,
    ensures
        stub_targets(code, cursor, count)->0.len() > 0 ==> count + stub_targets(
            code,
            cursor,
            count,
        )->0.len() <= 256,
    decreases 256 - count,
{
    if count < 256 && cursor + 4 <= code.len() && word_at(code, cursor) == 0x6000 && cursor
        <= u32::MAX {
        lemma_stub_count(code, cursor + 4, count + 1);
    }
}

/// A call or jump is a library call exactly if it goes through A6 to an address below the base.
pub proof fn library_vectors_lie_below_the_base(mode: AddressingMode)
    ensures
        match spec_library_vector(mode) {
            Some(call) => call.register == 6 && call.offset < 0 && mode == AddressingMode::Ariwd(
                6,
                call.offset,
            ),
            None => mode matches AddressingMode::Ariwd(register, distance) ==> register != 6
                || distance >= 0,
        },
{
}

} // verus!
