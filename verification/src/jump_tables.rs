//! Conservative data-table dispatch recognition over a completed traversal.
//!
//! The accepted suffix is CMP[I] / BHI, explicit index scaling, a table load,
//! and JMP. Optional LEA instructions establish table bases. The entire suffix
//! must have no other incoming edges. Table size comes from the unsigned guard,
//! never from scanning plausible-looking data until the first bad pointer.

use crate::analysis::{
    is_last_below, last_below, lemma_last_below, spec_operand_address, AnalysisView,
    ControlFlowAnalysis, FlowEdge, FlowKind, OperandAddress,
};
use crate::collections::{in_order, lemma_in_order, lemma_take_to_set, AddressMap, OrderedSet};
use crate::decoded::{
    decode, read_word, spec_decode, spec_valid_address, valid_address, word_at, DecodedInstruction,
    DecodedView, OperandRole,
};
use crate::flow_index::FlowIndex;
use crate::m68k::{AddressingMode, Direction, Instruction, Isa, Operands, Size};
use crate::relocation::Rebase;
use vstd::prelude::*;

verus! {

/// What a table load reads: the entry width, the register receiving the entry,
/// and the table's addressing mode.
pub open spec fn spec_table_load(instruction: Instruction) -> Option<(u32, u8, AddressingMode)> {
    match instruction.operands {
        Operands::SizeEffectiveAddressEffectiveAddress(
            Size::Word,
            AddressingMode::Drd(register),
            mode,
        ) => if instruction.isa == Isa::Move {
            Some((2, register, mode))
        } else {
            None
        },
        Operands::SizeRegisterEffectiveAddress(Size::Long, register, mode) => if instruction.isa
            == Isa::Movea {
            Some((4, register, mode))
        } else {
            None
        },
        _ => None,
    }
}

/// What a table load reads: the entry width, the register receiving the entry,
/// and the table's addressing mode.
pub fn table_load(instruction: Instruction) -> (r: Option<(u32, u8, AddressingMode)>)
    ensures
        r == spec_table_load(instruction),
{
    match instruction.operands {
        Operands::SizeEffectiveAddressEffectiveAddress(
            Size::Word,
            AddressingMode::Drd(register),
            mode,
        ) => if instruction.isa == Isa::Move {
            Some((2, register, mode))
        } else {
            None
        },
        Operands::SizeRegisterEffectiveAddress(Size::Long, register, mode) => if instruction.isa
            == Isa::Movea {
            Some((4, register, mode))
        } else {
            None
        },
        _ => None,
    }
}

/// Whether `jump` goes to what `load`, the instruction before it, fetched from an
/// indexed table.
pub open spec fn jumps_to_loaded(load: Instruction, jump: Instruction) -> bool {
    match spec_table_load(load) {
        Some((width, destination, mode)) => (mode is Pciwi8 || mode is Ariwi8) && (
        match jump.operands {
            Operands::EffectiveAddress(AddressingMode::Pciwi8(_, extension)) => width == 2
                && !extension.spec_index_is_address() && extension.spec_index() == destination,
            Operands::EffectiveAddress(AddressingMode::Ariwi8(_, extension)) => width == 2
                && !extension.spec_index_is_address() && extension.spec_index() == destination,
            Operands::EffectiveAddress(AddressingMode::Ari(register)) => width == 4 && register
                == destination,
            _ => false,
        }),
        None => false,
    }
}

/// Whether the jump at `site` goes to what the instruction right before it
/// fetched from an indexed table.
pub open spec fn spec_loads_target(instructions: Map<u32, DecodedView>, site: u32) -> bool {
    instructions.dom().contains(site) && match last_below(instructions, site) {
        Some(at) => instructions[at].end == site && jumps_to_loaded(
            instructions[at].instruction,
            instructions[site].instruction,
        ),
        None => false,
    }
}

fn jumps_through(load: Instruction, jump: Instruction) -> (r: bool)
    ensures
        r == jumps_to_loaded(load, jump),
{
    match table_load(load) {
        Some((width, destination, mode)) => {
            let indexed = match mode {
                AddressingMode::Pciwi8(_, _) | AddressingMode::Ariwi8(_, _) => true,
                _ => false,
            };
            indexed && match jump.operands {
                Operands::EffectiveAddress(AddressingMode::Pciwi8(_, extension)) => width == 2
                    && !extension.index_is_address() && extension.index() == destination,
                Operands::EffectiveAddress(AddressingMode::Ariwi8(_, extension)) => width == 2
                    && !extension.index_is_address() && extension.index() == destination,
                Operands::EffectiveAddress(AddressingMode::Ari(register)) => width == 4 && register
                    == destination,
                _ => false,
            }
        },
        None => false,
    }
}

/// The instructions of a table as a mathematical map.
pub open spec fn instruction_map(instructions: AddressMap<DecodedInstruction>) -> Map<
    u32,
    DecodedView,
> {
    instructions@.map_values(|decoded: DecodedInstruction| decoded@)
}

/// The position in front of the first key that is not below `bound` is the last
/// key below it.
pub proof fn lemma_below_rank(
    instructions: AddressMap<DecodedInstruction>,
    bound: u32,
    rank: int,
)
    requires
        instructions.wf(),
        0 <= rank <= instructions.keys@.len(),
        forall|i: int| 0 <= i < rank ==> #[trigger] instructions.keys@[i] < bound,
        forall|i: int| rank <= i < instructions.keys@.len() ==> #[trigger] instructions.keys@[i]
            >= bound,
    ensures
        rank == 0 ==> last_below(instruction_map(instructions), bound) is None,
        rank > 0 ==> last_below(instruction_map(instructions), bound) == Some(
            instructions.keys@[rank - 1],
        ),
        rank > 0 ==> instruction_map(instructions).dom().contains(instructions.keys@[rank - 1]),
        rank > 0 ==> instruction_map(instructions)[instructions.keys@[rank - 1]]
            == instructions.values@[rank - 1]@,
{
    let map = instruction_map(instructions);
    if rank == 0 {
        assert forall|at: u32| !#[trigger] is_last_below(map, bound, at) by {
            if map.dom().contains(at) {
                let i = instructions.lemma_position(at);
                assert(instructions.keys@[i] == at);
            }
        }
    } else {
        let at = instructions.keys@[rank - 1];
        instructions.lemma_entry(rank - 1);
        assert forall|other: u32| #[trigger]
            map.dom().contains(other) && other < bound implies other <= at by {
            let i = instructions.lemma_position(other);
            assert(instructions.keys@[i] == other);
            if i < rank - 1 {
                assert(instructions.keys@[i] < instructions.keys@[rank - 1]);
            }
        }
        assert(is_last_below(map, bound, at));
        lemma_last_below(map, bound, at);
    }
}

/// Whether the jump at `site` goes to what the instruction right before it
/// fetched from an indexed table. Such a target must not fall back to the
/// branch-stub scan if its guard or data table is malformed: nearby executable
/// bytes are not entries.
pub fn loads_target(instructions: &AddressMap<DecodedInstruction>, site: u32) -> (r: bool)
    requires
        instructions.wf(),
    ensures
        r == spec_loads_target(instruction_map(*instructions), site),
{
    let jump: Instruction = match instructions.get(site) {
        Some(decoded) => decoded.instruction,
        None => {
            return false;
        },
    };
    let rank: usize = instructions.rank(site);
    proof {
        lemma_below_rank(*instructions, site, rank as int);
    }
    if rank == 0 {
        return false;
    }
    let load = &instructions.values[rank - 1];
    load.end == site && jumps_through(load.instruction, jump)
}

/// How many instructions of a dispatch are looked at, its jump among them.
pub const MAX_PREFIX_INSTRUCTIONS: usize = 12;

/// How many entries a table may have.
pub const MAX_TABLE_ENTRIES: u32 = 256;

/// The length of the longest encoding: a `MOVE` with two absolute-long operands.
pub const MAX_INSTRUCTION_BYTES: u32 = 10;

/// The unsigned bound that an instruction compares a data register with: the
/// size, the register and the bound.
pub open spec fn spec_comparison(instruction: Instruction) -> Option<(Size, u8, u32)> {
    match instruction.operands {
        Operands::SizeEffectiveAddressImmediate(size, AddressingMode::Drd(register), maximum) =>
        if instruction.isa == Isa::Cmpi && size != Size::Byte {
            Some((size, register, maximum))
        } else {
            None
        },
        Operands::RegisterDirectionSizeEffectiveAddress(
            register,
            Direction::DstReg,
            size,
            AddressingMode::Immediate(maximum),
        ) => if instruction.isa == Isa::Cmp && size != Size::Byte {
            Some((size, register, maximum))
        } else {
            None
        },
        _ => None,
    }
}

/// The unsigned bound that an instruction compares a data register with.
pub fn comparison(instruction: Instruction) -> (r: Option<(Size, u8, u32)>)
    ensures
        r == spec_comparison(instruction),
{
    match instruction.operands {
        Operands::SizeEffectiveAddressImmediate(size, AddressingMode::Drd(register), maximum) =>
        if instruction.isa == Isa::Cmpi && size != Size::Byte {
            Some((size, register, maximum))
        } else {
            None
        },
        Operands::RegisterDirectionSizeEffectiveAddress(
            register,
            Direction::DstReg,
            size,
            AddressingMode::Immediate(maximum),
        ) => if instruction.isa == Isa::Cmp && size != Size::Byte {
            Some((size, register, maximum))
        } else {
            None
        },
        _ => None,
    }
}

/// The factor by which an instruction scales the index register.
pub open spec fn spec_scale_factor(instruction: Instruction, size: Size, register: u8) -> Option<
    u32,
> {
    match instruction.operands {
        Operands::RegisterDirectionSizeEffectiveAddress(
            destination,
            Direction::DstReg,
            actual_size,
            AddressingMode::Drd(source),
        ) => if instruction.isa == Isa::Add && source == register && destination == register
            && actual_size == size {
            Some(2)
        } else {
            None
        },
        Operands::RotationDirectionSizeModeRegister(
            count,
            Direction::Left,
            actual_size,
            false,
            destination,
        ) => if (instruction.isa == Isa::Asr || instruction.isa == Isa::Lsr) && destination
            == register && actual_size == size && (count == 1 || count == 2) {
            Some(
                if count == 1 {
                    2
                } else {
                    4
                },
            )
        } else {
            None
        },
        _ => None,
    }
}

/// The factor by which an instruction scales the index register.
pub fn scale_factor(instruction: Instruction, size: Size, register: u8) -> (r: Option<u32>)
    ensures
        r == spec_scale_factor(instruction, size, register),
{
    match instruction.operands {
        Operands::RegisterDirectionSizeEffectiveAddress(
            destination,
            Direction::DstReg,
            actual_size,
            AddressingMode::Drd(source),
        ) => if instruction.isa == Isa::Add && source == register && destination == register
            && actual_size == size {
            Some(2)
        } else {
            None
        },
        Operands::RotationDirectionSizeModeRegister(
            count,
            Direction::Left,
            actual_size,
            false,
            destination,
        ) => if matches!(instruction.isa, Isa::Asr | Isa::Lsr) && destination == register
            && actual_size == size && (count == 1 || count == 2) {
            if count == 1 {
                Some(2)
            } else {
                Some(4)
            }
        } else {
            None
        },
        _ => None,
    }
}

/// The base, the index register and its width of an indexed mode in the MC68000
/// brief format with a data-register index. Reserved bits are not read as scale
/// or full-extension fields of later processors.
pub open spec fn spec_indexed_base(mode: AddressingMode, bases: Seq<Option<u32>>) -> Option<
    (u32, u8, bool),
> {
    let found = match mode {
        AddressingMode::Pciwi8(pc, extension) => Some((pc, extension)),
        AddressingMode::Ariwi8(register, extension) => match bases[register as int] {
            Some(base) => Some((base, extension)),
            None => None,
        },
        _ => None,
    };
    match found {
        None => None,
        Some((base, extension)) => if extension.0 & 0x8700 != 0 {
            None
        } else {
            match base.checked_add_signed(extension.spec_disp() as i32) {
                None => None,
                Some(table) => Some((table, extension.spec_index(), extension.spec_index_is_long())),
            }
        },
    }
}

/// The base, the index register and its width of an indexed mode.
pub fn indexed_base(mode: AddressingMode, bases: &[Option<u32>; 8]) -> (r: Option<(u32, u8, bool)>)
    requires
        mode.in_range(),
    ensures
        r == spec_indexed_base(mode, bases@),
{
    let (base, extension) = match mode {
        AddressingMode::Pciwi8(pc, extension) => (pc, extension),
        AddressingMode::Ariwi8(register, extension) => match bases[register as usize] {
            Some(base) => (base, extension),
            None => {
                return None;
            },
        },
        _ => {
            return None;
        },
    };
    if extension.0 & 0x8700 != 0 {
        return None;
    }
    match base.checked_add_signed(extension.disp() as i32) {
        None => None,
        Some(table) => Some((table, extension.index(), extension.index_is_long())),
    }
}

/// The image offset of an unrelocated absolute address.
pub open spec fn spec_absolute_offset(length: nat, rebase: Option<Rebase>, value: u32) -> Option<
    u32,
> {
    match rebase {
        Some(rebase) => rebase.spec_to_offset(value, length),
        None => Some(value),
    }
}

/// The image offset of an unrelocated absolute address.
pub fn absolute_offset(code: &[u8], analysis: &ControlFlowAnalysis, value: u32) -> (r: Option<u32>)
    ensures
        r == spec_absolute_offset(code@.len(), analysis@.rebase, value),
{
    match analysis.rebase {
        Some(rebase) => rebase.to_offset(value, code.len()),
        None => Some(value),
    }
}

/// The address register and the image offset that a `LEA` puts into it.
pub open spec fn spec_lea_offset(
    length: nat,
    view: AnalysisView,
    decoded: DecodedView,
) -> Option<(u8, u32)> {
    if decoded.instruction.isa != Isa::Lea {
        None
    } else {
        match decoded.instruction.operands {
            Operands::RegisterEffectiveAddress(register, AddressingMode::Pciwd(pc, displacement)) =>
            match pc.checked_add_signed(displacement as i32) {
                Some(offset) => Some((register, offset)),
                None => None,
            },
            Operands::RegisterEffectiveAddress(register, AddressingMode::AbsLong(value)) =>
            match spec_operand_address(view.relocations, decoded, OperandRole::Only, value) {
                OperandAddress::ThisHunk(offset) => Some((register, offset)),
                OperandAddress::Encoded(value) => match spec_absolute_offset(
                    length,
                    view.rebase,
                    value,
                ) {
                    Some(offset) => Some((register, offset)),
                    None => None,
                },
                OperandAddress::OtherHunk { .. } => None,
            },
            _ => None,
        }
    }
}

/// The address register and the image offset that a `LEA` puts into it.
pub fn lea_offset(
    code: &[u8],
    analysis: &ControlFlowAnalysis,
    decoded: &DecodedInstruction,
) -> (r: Option<(u8, u32)>)
    requires
        analysis.wf(),
        decoded.wf(),
    ensures
        r == spec_lea_offset(code@.len(), analysis@, decoded@),
        r matches Some((register, _)) ==> register < 8,
{
    if decoded.instruction.isa != Isa::Lea {
        return None;
    }
    match decoded.instruction.operands {
        Operands::RegisterEffectiveAddress(register, AddressingMode::Pciwd(pc, displacement)) =>
        match pc.checked_add_signed(displacement as i32) {
            Some(offset) => Some((register, offset)),
            None => None,
        },
        Operands::RegisterEffectiveAddress(register, AddressingMode::AbsLong(value)) =>
        match analysis.operand_address(decoded, OperandRole::Only, value) {
            OperandAddress::ThisHunk(offset) => Some((register, offset)),
            OperandAddress::Encoded(value) => match absolute_offset(code, analysis, value) {
                Some(offset) => Some((register, offset)),
                None => None,
            },
            OperandAddress::OtherHunk { .. } => None,
        },
        _ => None,
    }
}

/// The image offset that the pointer stored at `patched` names.
pub open spec fn spec_pointer_offset(
    length: nat,
    view: AnalysisView,
    patched: u32,
    value: u32,
) -> Option<u32> {
    match view.relocations {
        Some(index) => match index.at(patched, value) {
            Some(relocation) => if relocation.target_hunk == index.hunk {
                Some(relocation.target_offset)
            } else {
                None
            },
            None => spec_absolute_offset(length, view.rebase, value),
        },
        None => spec_absolute_offset(length, view.rebase, value),
    }
}

/// The image offset that the pointer stored at `patched` names.
pub fn pointer_offset(
    code: &[u8],
    analysis: &ControlFlowAnalysis,
    patched: u32,
    value: u32,
) -> (r: Option<u32>)
    requires
        analysis.wf(),
    ensures
        r == spec_pointer_offset(code@.len(), analysis@, patched, value),
{
    match &analysis.relocations {
        Some(index) => {
            match index.at(patched, value) {
                Some(relocation) => {
                    return if relocation.target_hunk == index.hunk() {
                        Some(relocation.target_offset)
                    } else {
                        None
                    };
                },
                None => {},
            }
        },
        None => {},
    }
    absolute_offset(code, analysis, value)
}

/// Whether the instruction at `at` starts close enough before `end` and reaches
/// past `start`.
pub open spec fn overlaps(
    instructions: Map<u32, DecodedView>,
    start: u32,
    end: u32,
    at: u32,
) -> bool {
    &&& instructions.dom().contains(at)
    &&& start <= at + MAX_INSTRUCTION_BYTES
    &&& at < end
    &&& instructions[at].end > start
}

/// Whether some instruction starts before `end` and reaches past `start`.
pub fn instruction_overlaps(analysis: &ControlFlowAnalysis, start: u32, end: u32) -> (r: bool)
    requires
        analysis.wf(),
    ensures
        r == exists|at: u32| #[trigger] overlaps(analysis@.instructions, start, end, at),
{
    let first: u32 = start.saturating_sub(MAX_INSTRUCTION_BYTES);
    let from: usize = analysis.instructions.rank(first);
    let mut i: usize = from;
    while i < analysis.instructions.keys.len() && analysis.instructions.keys[i] < end
        invariant
            analysis.wf(),
            from <= i <= analysis.instructions.keys@.len(),
            first == (if start < MAX_INSTRUCTION_BYTES {
                0
            } else {
                (start - MAX_INSTRUCTION_BYTES) as u32
            }),
            forall|k: int| 0 <= k < from ==> #[trigger] analysis.instructions.keys@[k] < first,
            forall|k: int|
                from <= k < analysis.instructions.keys@.len()
                    ==> #[trigger] analysis.instructions.keys@[k] >= first,
            forall|k: int|
                from <= k < i ==> (#[trigger] analysis.instructions.values@[k]).end <= start,
        decreases analysis.instructions.keys@.len() - i,
    {
        if analysis.instructions.values[i].end > start {
            proof {
                analysis.lemma_listing(i as int);
                assert(overlaps(
                    analysis@.instructions,
                    start,
                    end,
                    analysis.instructions.keys@[i as int],
                ));
            }
            return true;
        }
        i += 1;
    }
    proof {
        assert forall|at: u32| !#[trigger] overlaps(analysis@.instructions, start, end, at) by {
            if overlaps(analysis@.instructions, start, end, at) {
                let k = analysis.instructions.lemma_position(at);
                analysis.lemma_listing(k);
                assert(analysis.instructions.keys@[k] == at);
                if k > i {
                    assert(analysis.instructions.keys@[i as int] < analysis.instructions.keys@[k]);
                }
                if from <= k < i {
                    assert(analysis.instructions.values@[k].end <= start);
                }
            }
        }
    }
    false
}

/// The position in a listing where a run of instructions that ends at position
/// `at` starts: each one ends where the next begins, and at most `room` precede
/// the last.
pub open spec fn run_start(listing: Seq<DecodedView>, at: int, room: nat) -> int
    decreases room,
{
    if room == 0 || at <= 0 || listing[at - 1].end != listing[at].address {
        at
    } else {
        run_start(listing, at - 1, (room - 1) as nat)
    }
}

/// The last of the first `n` instructions that compares a register with a bound.
pub open spec fn last_comparison(run: Seq<DecodedView>, n: int) -> Option<int>
    decreases n,
{
    if n <= 0 {
        None
    } else if spec_comparison(run[n - 1].instruction) is Some {
        Some(n - 1)
    } else {
        last_comparison(run, n - 1)
    }
}

/// `flow` is an edge that falls from `previous` into `next`.
pub open spec fn falls_into(flow: FlowEdge, previous: u32, next: u32) -> bool {
    flow.site == previous && flow.target == next && flow.kind == FlowKind::Fallthrough
}

/// Control reaches `next` only by falling out of `previous`, which goes nowhere
/// else, except that the guard may also branch away.
pub open spec fn only_falls_into(
    flows: Set<FlowEdge>,
    previous: u32,
    next: u32,
    guard: u32,
) -> bool {
    &&& exists|flow: FlowEdge| #[trigger] flows.contains(flow) && falls_into(flow, previous, next)
    &&& forall|flow: FlowEdge| #[trigger]
        flows.contains(flow) && flow.target == next ==> falls_into(flow, previous, next)
    &&& forall|flow: FlowEdge| #[trigger]
        flows.contains(flow) && flow.site == previous ==> falls_into(flow, previous, next) || (
        previous == guard && flow.kind == FlowKind::Branch)
}

/// The instructions have the same owners, none of them refused, and control goes
/// through them in order and in no other way.
pub open spec fn exclusive(view: AnalysisView, prefix: Seq<DecodedView>, guard: u32) -> bool {
    &&& forall|i: int| 0 <= i < prefix.len() ==> #[trigger] owned_alike(prefix, 0, i)
    &&& forall|i: int|
        0 < i < prefix.len() ==> #[trigger] entered_in_order(view, prefix, i, guard)
}

/// The instruction at position `i` has the owners of the one at `head`, and none
/// of them was refused.
pub open spec fn owned_alike(listing: Seq<DecodedView>, head: int, i: int) -> bool {
    listing[i].owners == listing[head].owners && listing[i].owner_total == listing[i].owners.len()
}

/// The instruction at position `i` is no function entry, and is reached only by
/// falling out of the one in front of it.
pub open spec fn entered_in_order(
    view: AnalysisView,
    listing: Seq<DecodedView>,
    i: int,
    guard: u32,
) -> bool {
    !view.functions.contains(listing[i].address) && only_falls_into(
        view.flows,
        listing[i - 1].address,
        listing[i].address,
        guard,
    )
}

pub(crate) fn only_falls(
    index: &FlowIndex,
    previous: u32,
    next: u32,
    guard: u32,
    Ghost(flows): Ghost<Set<FlowEdge>>,
) -> (r: bool)
    requires
        index.indexes(flows),
    ensures
        r == only_falls_into(flows, previous, next, guard),
{
    let arriving = match index.by_target.get(next) {
        Some(arriving) => arriving,
        None => {
            assert forall|flow: FlowEdge| #[trigger] flows.contains(flow) implies !falls_into(
                flow,
                previous,
                next,
            ) by {
                assert(index.by_target@.dom().contains(flow.target));
            }
            return false;
        },
    };
    let mut i: usize = 0;
    while i < arriving.len()
        invariant
            i <= arriving@.len(),
            index.indexes(flows),
            index.by_target@.dom().contains(next),
            *arriving == index.by_target@[next],
            forall|k: int| 0 <= k < i ==> falls_into(#[trigger] arriving@[k], previous, next),
        decreases arriving@.len() - i,
    {
        let flow = arriving[i];
        if !(flow.site == previous && flow.kind == FlowKind::Fallthrough) {
            assert(index.by_target@[next]@.contains(arriving@[i as int]));
            assert(flows.contains(flow));
            return false;
        }
        assert(index.by_target@[next]@.contains(arriving@[i as int]));
        i += 1;
    }
    assert forall|flow: FlowEdge| #[trigger] flows.contains(flow) && flow.target
        == next implies falls_into(flow, previous, next) by {
        assert(index.by_target@[next]@.contains(flow));
    }
    let leaving = match index.by_site.get(previous) {
        Some(leaving) => leaving,
        None => {
            assert forall|flow: FlowEdge| #[trigger] flows.contains(flow) implies !falls_into(
                flow,
                previous,
                next,
            ) by {
                assert(index.by_site@.dom().contains(flow.site));
            }
            return false;
        },
    };
    let mut found = false;
    let mut j: usize = 0;
    while j < leaving.len()
        invariant
            j <= leaving@.len(),
            index.indexes(flows),
            index.by_site@.dom().contains(previous),
            *leaving == index.by_site@[previous],
            forall|k: int|
                0 <= k < j ==> falls_into(#[trigger] leaving@[k], previous, next) || (previous
                    == guard && leaving@[k].kind == FlowKind::Branch),
            found == exists|k: int|
                0 <= k < j && falls_into(#[trigger] leaving@[k], previous, next),
        decreases leaving@.len() - j,
    {
        let flow = leaving[j];
        assert(index.by_site@[previous]@.contains(leaving@[j as int]));
        assert(flows.contains(flow));
        if flow.target == next && flow.kind == FlowKind::Fallthrough {
            found = true;
            assert(falls_into(leaving@[j as int], previous, next));
        } else if !(previous == guard && flow.kind == FlowKind::Branch) {
            return false;
        }
        j += 1;
    }
    proof {
        assert forall|flow: FlowEdge| #[trigger] flows.contains(flow) && flow.site
            == previous implies falls_into(flow, previous, next) || (previous == guard && flow.kind
            == FlowKind::Branch) by {
            assert(index.by_site@[previous]@.contains(flow));
        }
        if found {
            let k = choose|k: int|
                0 <= k < leaving@.len() && falls_into(#[trigger] leaving@[k], previous, next);
            assert(index.by_site@[previous]@.contains(leaving@[k]));
            assert(flows.contains(leaving@[k]));
        } else {
            assert forall|flow: FlowEdge| #[trigger] flows.contains(flow) implies !falls_into(
                flow,
                previous,
                next,
            ) by {
                if flow.site == previous {
                    assert(index.by_site@[previous]@.contains(flow));
                }
            }
        }
    }
    found
}

fn is_owned_alike(analysis: &ControlFlowAnalysis, head: usize, i: usize) -> (r: bool)
    requires
        analysis.wf(),
        head < analysis.listing().len(),
        i < analysis.listing().len(),
    ensures
        r == owned_alike(analysis.listing(), head as int, i as int),
{
    let row = &analysis.instructions.values[i];
    let first = &analysis.instructions.values[head];
    proof {
        analysis.lemma_listing(i as int);
        analysis.lemma_listing(head as int);
        assert(row.wf() && first.wf());
    }
    row.owners.same(&first.owners) && row.owner_total == row.owners.len()
}

fn is_entered_in_order(
    analysis: &ControlFlowAnalysis,
    index: &FlowIndex,
    i: usize,
    guard: u32,
) -> (r: bool)
    requires
        analysis.wf(),
        index.indexes(analysis@.flows),
        0 < i < analysis.listing().len(),
    ensures
        r == entered_in_order(analysis@, analysis.listing(), i as int, guard),
{
    proof {
        analysis.lemma_listing(i as int);
        analysis.lemma_listing(i - 1);
    }
    let previous: u32 = analysis.instructions.values[i - 1].address;
    let next: u32 = analysis.instructions.values[i].address;
    !analysis.functions.contains(&next) && only_falls(
        index,
        previous,
        next,
        guard,
        Ghost(analysis@.flows),
    )
}

/// Whether the instructions at positions `first` to `last` have the same owners,
/// none of them refused, and control goes through them in order and in no other
/// way.
pub fn exclusive_prefix(
    analysis: &ControlFlowAnalysis,
    index: &FlowIndex,
    first: usize,
    last: usize,
    guard: u32,
) -> (r: bool)
    requires
        analysis.wf(),
        index.indexes(analysis@.flows),
        first <= last < analysis.listing().len(),
    ensures
        r == exclusive(analysis@, analysis.listing().subrange(first as int, last + 1), guard),
{
    let ghost view = analysis@;
    let ghost listing = analysis.listing();
    let ghost prefix = listing.subrange(first as int, last + 1);
    let mut i: usize = first;
    while i <= last
        invariant
            analysis.wf(),
            listing == analysis.listing(),
            listing.len() == analysis.instructions.values.len(),
            first <= i <= last + 1,
            last < listing.len(),
            prefix == listing.subrange(first as int, last + 1),
            forall|k: int| first <= k < i ==> #[trigger] owned_alike(listing, first as int, k),
        decreases last + 1 - i,
    {
        if !is_owned_alike(analysis, first, i) {
            assert(prefix[i - first] == listing[i as int] && prefix[0] == listing[first as int]);
            assert(!owned_alike(prefix, 0, i - first));
            return false;
        }
        i += 1;
    }
    let mut j: usize = first;
    while j < last
        invariant
            analysis.wf(),
            index.indexes(analysis@.flows),
            view == analysis@,
            listing == analysis.listing(),
            first <= j <= last,
            last < listing.len(),
            prefix == listing.subrange(first as int, last + 1),
            forall|k: int| first < k <= j ==> #[trigger] entered_in_order(view, listing, k, guard),
        decreases last - j,
    {
        if !is_entered_in_order(analysis, index, j + 1, guard) {
            assert(prefix[j + 1 - first] == listing[j + 1] && prefix[j - first]
                == listing[j as int]);
            assert(!entered_in_order(view, prefix, j + 1 - first, guard));
            return false;
        }
        j += 1;
    }
    proof {
        assert forall|k: int| 0 <= k < prefix.len() implies #[trigger] owned_alike(
            prefix,
            0,
            k,
        ) by {
            assert(owned_alike(listing, first as int, k + first));
        }
        assert forall|k: int| 0 < k < prefix.len() implies #[trigger] entered_in_order(
            view,
            prefix,
            k,
            guard,
        ) by {
            assert(entered_in_order(view, listing, k + first, guard));
        }
    }
    true
}

/// The position of the instruction at `site` in a listing.
pub open spec fn position(listing: Seq<DecodedView>, site: u32) -> int {
    choose|i: int| 0 <= i < listing.len() && (#[trigger] listing[i]).address == site
}

/// A guarded dispatch: the instructions from its base or its comparison to its
/// jump, the addresses of the comparison and of the guard, and what is compared.
pub struct Dispatch {
    pub prefix: Seq<DecodedView>,
    pub compared: u32,
    pub guard: u32,
    pub size: Size,
    pub register: u8,
    pub maximum: u32,
}

/// Whether an instruction is `BHI`.
pub open spec fn is_unsigned_above(instruction: Instruction) -> bool {
    instruction.isa == Isa::Bcc && match instruction.operands {
        Operands::ConditionDisplacement(condition, _) => condition == 2,
        _ => false,
    }
}

/// The guarded dispatch that ends in the jump at `site`: a comparison with at
/// most 256 accepted values, a `BHI` right after it, and no other way in. A
/// `LEA` directly before the comparison belongs to it, so that a path entering
/// at the comparison cannot skip the base.
pub open spec fn spec_dispatch(view: AnalysisView, site: u32) -> Option<Dispatch> {
    if !view.instructions.dom().contains(site) || view.instructions[site].instruction.isa
        != Isa::Jmp {
        None
    } else {
        let listing = view.listing();
        let at = position(listing, site);
        let run = listing.subrange(
            run_start(listing, at, (MAX_PREFIX_INSTRUCTIONS - 1) as nat),
            at + 1,
        );
        match last_comparison(run, run.len() as int) {
            None => None,
            Some(c) => {
                let (size, register, maximum) = spec_comparison(run[c].instruction)->0;
                let guard = run[c + 1];
                let start = if c >= 1 && run[c - 1].instruction.isa == Isa::Lea {
                    c - 1
                } else {
                    c
                };
                let prefix = run.subrange(start, run.len() as int);
                if maximum < MAX_TABLE_ENTRIES && c + 1 < run.len() && is_unsigned_above(
                    guard.instruction,
                ) && exclusive(view, prefix, guard.address) {
                    Some(
                        Dispatch {
                            prefix,
                            compared: run[c].address,
                            guard: guard.address,
                            size,
                            register,
                            maximum,
                        },
                    )
                } else {
                    None
                }
            },
        }
    }
}

/// A dispatch by the positions of its first and its last instruction.
struct DispatchRows {
    first: usize,
    last: usize,
    compared: u32,
    guard: u32,
    size: Size,
    register: u8,
    maximum: u32,
}

impl DispatchRows {
    spec fn of(self, listing: Seq<DecodedView>) -> Dispatch {
        Dispatch {
            prefix: listing.subrange(self.first as int, self.last + 1),
            compared: self.compared,
            guard: self.guard,
            size: self.size,
            register: self.register,
            maximum: self.maximum,
        }
    }
}

fn find_run_start(analysis: &ControlFlowAnalysis, at: usize) -> (r: usize)
    requires
        analysis.wf(),
        at < analysis.listing().len(),
    ensures
        r <= at,
        r == run_start(analysis.listing(), at as int, (MAX_PREFIX_INSTRUCTIONS - 1) as nat),
{
    let ghost listing = analysis.listing();
    let mut first: usize = at;
    let mut room: usize = MAX_PREFIX_INSTRUCTIONS - 1;
    while room > 0 && first > 0
        invariant
            analysis.wf(),
            listing == analysis.listing(),
            first <= at < listing.len(),
            run_start(listing, at as int, (MAX_PREFIX_INSTRUCTIONS - 1) as nat) == run_start(
                listing,
                first as int,
                room as nat,
            ),
        ensures
            first <= at,
            run_start(listing, at as int, (MAX_PREFIX_INSTRUCTIONS - 1) as nat) == first,
        decreases room,
    {
        proof {
            analysis.lemma_listing(first - 1);
            analysis.lemma_listing(first as int);
        }
        if analysis.instructions.values[first - 1].end != analysis.instructions.values[first].address {
            break;
        }
        first -= 1;
        room -= 1;
    }
    first
}

fn find_last_comparison(analysis: &ControlFlowAnalysis, first: usize, last: usize) -> (r: Option<
    usize,
>)
    requires
        analysis.wf(),
        first <= last < analysis.listing().len(),
    ensures
        ({
            let run = analysis.listing().subrange(first as int, last + 1);
            match r {
                Some(at) => first <= at <= last && last_comparison(run, run.len() as int) == Some(
                    at - first,
                ) && spec_comparison(analysis.listing()[at as int].instruction) is Some,
                None => last_comparison(run, run.len() as int) is None,
            }
        }),
{
    let ghost run = analysis.listing().subrange(first as int, last + 1);
    let total: usize = analysis.instructions.keys.len();
    assert(last < total);
    let mut n: usize = last - first + 1;
    while n > 0
        invariant
            analysis.wf(),
            first <= last < analysis.listing().len(),
            n <= last - first + 1,
            run == analysis.listing().subrange(first as int, last + 1),
            last_comparison(run, run.len() as int) == last_comparison(run, n as int),
        decreases n,
    {
        let at: usize = first + (n - 1);
        proof {
            analysis.lemma_listing(at as int);
            assert(run[n - 1] == analysis.listing()[at as int]);
        }
        if comparison(analysis.instructions.values[at].instruction).is_some() {
            return Some(at);
        }
        n -= 1;
    }
    None
}

proof fn lemma_site_position(analysis: &ControlFlowAnalysis, i: int)
    requires
        analysis.wf(),
        0 <= i < analysis.listing().len(),
    ensures
        position(analysis.listing(), analysis.listing()[i].address) == i,
{
    let listing = analysis.listing();
    let site = listing[i].address;
    let chosen = position(listing, site);
    assert(0 <= chosen < listing.len() && listing[chosen].address == site);
    analysis.lemma_listing(i);
    analysis.lemma_listing(chosen);
    if chosen < i {
        assert(analysis.instructions.keys@[chosen] < analysis.instructions.keys@[i]);
    } else if i < chosen {
        assert(analysis.instructions.keys@[i] < analysis.instructions.keys@[chosen]);
    }
}

fn find_dispatch(analysis: &ControlFlowAnalysis, index: &FlowIndex, site: u32) -> (r: Option<
    DispatchRows,
>)
    requires
        analysis.wf(),
        index.indexes(analysis@.flows),
    ensures
        match r {
            Some(rows) => {
                &&& spec_dispatch(analysis@, site) == Some(rows.of(analysis.listing()))
                &&& rows.first + 2 <= rows.last < analysis.listing().len()
                &&& rows.maximum < MAX_TABLE_ENTRIES
                &&& rows.register < 8
            },
            None => spec_dispatch(analysis@, site) is None,
        },
{
    let last: usize = match analysis.instructions.find(site) {
        Some(last) => last,
        None => {
            return None;
        },
    };
    let ghost listing = analysis.listing();
    proof {
        analysis.lemma_listing_view();
        analysis.lemma_listing(last as int);
        lemma_site_position(analysis, last as int);
    }
    if analysis.instructions.values[last].instruction.isa != Isa::Jmp {
        return None;
    }
    let begin: usize = find_run_start(analysis, last);
    let ghost run = listing.subrange(begin as int, last + 1);
    let at: usize = match find_last_comparison(analysis, begin, last) {
        Some(at) => at,
        None => {
            return None;
        },
    };
    proof {
        analysis.lemma_listing(at as int);
        assert(run[at - begin] == listing[at as int]);
    }
    let compare = &analysis.instructions.values[at];
    let (size, register, maximum) = match comparison(compare.instruction) {
        Some(found) => found,
        None => {
            return None;
        },
    };
    if maximum >= MAX_TABLE_ENTRIES || at == last {
        return None;
    }
    let guard = &analysis.instructions.values[at + 1];
    proof {
        analysis.lemma_listing(at + 1);
        assert(run[at + 1 - begin] == listing[at + 1]);
    }
    let taken = match guard.instruction.operands {
        Operands::ConditionDisplacement(condition, _) => condition == 2,
        _ => false,
    };
    if !taken || guard.instruction.isa != Isa::Bcc {
        return None;
    }
    let mut first: usize = at;
    if at > begin {
        proof {
            analysis.lemma_listing(at - 1);
            assert(run[at - 1 - begin] == listing[at - 1]);
        }
        if analysis.instructions.values[at - 1].instruction.isa == Isa::Lea {
            first = at - 1;
        }
    }
    assert(run.subrange(first - begin, run.len() as int) =~= listing.subrange(
        first as int,
        last + 1,
    ));
    if !exclusive_prefix(analysis, index, first, last, guard.address) {
        return None;
    }
    assert(at + 1 != last);
    Some(
        DispatchRows {
            first,
            last,
            compared: compare.address,
            guard: guard.address,
            size,
            register,
            maximum,
        },
    )
}

/// What the first `n` instructions of a dispatch set up: the offsets in the
/// address registers, and the factor by which the index is scaled.
pub open spec fn setup(length: nat, view: AnalysisView, d: Dispatch, n: int) -> Option<
    (Seq<Option<u32>>, u32),
>
    decreases n,
{
    if n <= 0 {
        Some((Seq::new(8, |i: int| None::<u32>), 1))
    } else {
        match setup(length, view, d, n - 1) {
            None => None,
            Some((bases, stride)) => {
                let decoded = d.prefix[n - 1];
                if decoded.address == d.compared || decoded.address == d.guard {
                    Some((bases, stride))
                } else {
                    match spec_lea_offset(length, view, decoded) {
                        Some((base, offset)) => Some(
                            (bases.update(base as int, Some(offset)), stride),
                        ),
                        None => if decoded.address > d.guard {
                            match spec_scale_factor(decoded.instruction, d.size, d.register) {
                                None => None,
                                Some(factor) => match stride.checked_mul(factor) {
                                    None => None,
                                    Some(stride) => Some((bases, stride)),
                                },
                            }
                        } else {
                            None
                        },
                    }
                }
            },
        }
    }
}

fn run_setup(
    code: &[u8],
    analysis: &ControlFlowAnalysis,
    rows: &DispatchRows,
) -> (r: Option<([Option<u32>; 8], u32)>)
    requires
        analysis.wf(),
        rows.first + 2 <= rows.last < analysis.listing().len(),
    ensures
        ({
            let d = rows.of(analysis.listing());
            match r {
                Some((bases, stride)) => setup(code@.len(), analysis@, d, d.prefix.len() - 2)
                    == Some((bases@, stride)),
                None => setup(code@.len(), analysis@, d, d.prefix.len() - 2) is None,
            }
        }),
{
    let ghost listing = analysis.listing();
    let ghost d = rows.of(listing);
    let ghost wanted = d.prefix.len() - 2;
    let mut bases: [Option<u32>; 8] = [None, None, None, None, None, None, None, None];
    let mut stride: u32 = 1;
    let mut i: usize = rows.first;
    assert(bases@ =~= Seq::new(8, |i: int| None::<u32>));
    while i < rows.last - 1
        invariant
            analysis.wf(),
            listing == analysis.listing(),
            d == rows.of(listing),
            wanted == d.prefix.len() - 2,
            rows.first + 2 <= rows.last < listing.len(),
            rows.first <= i <= rows.last - 1,
            bases@.len() == 8,
            setup(code@.len(), analysis@, d, i - rows.first) == Some((bases@, stride)),
        decreases rows.last - 1 - i,
    {
        let decoded = &analysis.instructions.values[i];
        proof {
            analysis.lemma_listing(i as int);
            assert(d.prefix[i - rows.first] == listing[i as int]);
            assert(decoded.wf());
        }
        let ghost n = i - rows.first + 1;
        if decoded.address != rows.compared && decoded.address != rows.guard {
            match lea_offset(code, analysis, decoded) {
                Some((base, offset)) => {
                    bases[base as usize] = Some(offset);
                },
                None => {
                    if decoded.address <= rows.guard {
                        proof {
                            assert(setup(code@.len(), analysis@, d, n) is None);
                            lemma_setup_fails(code@.len(), analysis@, d, n, wanted);
                        }
                        return None;
                    }
                    match scale_factor(decoded.instruction, rows.size, rows.register) {
                        Some(factor) => match stride.checked_mul(factor) {
                            Some(product) => {
                                stride = product;
                            },
                            None => {
                                proof {
                                    assert(setup(code@.len(), analysis@, d, n) is None);
                                    lemma_setup_fails(code@.len(), analysis@, d, n, wanted);
                                }
                                return None;
                            },
                        },
                        None => {
                            proof {
                                assert(setup(code@.len(), analysis@, d, n) is None);
                                lemma_setup_fails(code@.len(), analysis@, d, n, wanted);
                            }
                            return None;
                        },
                    }
                },
            }
        }
        i += 1;
    }
    Some((bases, stride))
}

proof fn lemma_setup_fails(length: nat, view: AnalysisView, d: Dispatch, n: int, m: int)
    requires
        0 < n <= m,
        setup(length, view, d, n) is None,
    ensures
        setup(length, view, d, m) is None,
    decreases m,
{
    if n < m {
        lemma_setup_fails(length, view, d, n, m - 1);
    }
}

/// A table of jump targets: where its entries stand, their width and number, and
/// what word entries are relative to.
pub struct Table {
    pub start: u32,
    pub width: u32,
    pub count: u32,
    pub relative: Option<u32>,
}

impl Table {
    /// The offset behind the last entry.
    pub open spec fn end(self) -> int {
        self.start + self.count * self.width
    }
}

/// What the word entries of a table are relative to, `None` inside for pointer
/// entries. The jump must go through the register that the load filled.
pub open spec fn spec_entry_base(
    jump: Instruction,
    bases: Seq<Option<u32>>,
    width: u32,
    destination: u8,
) -> Option<Option<u32>> {
    match jump.operands {
        Operands::EffectiveAddress(mode) => if width == 2 {
            match spec_indexed_base(mode, bases) {
                Some((base, index, long)) => if index == destination && !long {
                    Some(Some(base))
                } else {
                    None
                },
                None => None,
            }
        } else if mode == AddressingMode::Ari(destination) {
            Some(None)
        } else {
            None
        },
        _ => None,
    }
}

fn entry_base(
    jump: Instruction,
    bases: &[Option<u32>; 8],
    width: u32,
    destination: u8,
) -> (r: Option<Option<u32>>)
    requires
        jump.wf(),
    ensures
        r == spec_entry_base(jump, bases@, width, destination),
{
    match jump.operands {
        Operands::EffectiveAddress(mode) => if width == 2 {
            match indexed_base(mode, bases) {
                Some((base, index, long)) => if index == destination && !long {
                    Some(Some(base))
                } else {
                    None
                },
                None => None,
            }
        } else if mode == AddressingMode::Ari(destination) {
            Some(None)
        } else {
            None
        },
        _ => None,
    }
}

/// Whether a table lies in the image, starts at an even offset and shares no byte
/// with a decoded instruction.
pub open spec fn stands_apart(length: nat, view: AnalysisView, table: Table) -> bool {
    &&& table.end() <= u32::MAX
    &&& table.end() <= length
    &&& table.start % 2 == 0
    &&& !exists|at: u32| #[trigger]
        overlaps(view.instructions, table.start, table.end() as u32, at)
}

/// The table that a dispatch reads. The scaled index must be the compared one, at
/// the compared width; brief word indices sign-extend, so the greatest scaled
/// index may not become negative.
pub open spec fn spec_table(length: nat, view: AnalysisView, d: Dispatch) -> Option<Table> {
    let load = d.prefix[d.prefix.len() - 2];
    if load.address <= d.guard {
        None
    } else {
        match (
            spec_table_load(load.instruction),
            setup(length, view, d, d.prefix.len() - 2),
        ) {
            (Some((width, destination, lookup)), Some((bases, stride))) => match (
                spec_indexed_base(lookup, bases),
                spec_entry_base(d.prefix.last().instruction, bases, width, destination),
            ) {
                (Some((start, index, long)), Some(relative)) => {
                    let table = Table { start, width, count: (d.maximum + 1) as u32, relative };
                    if stride == width && index == d.register && long == (d.size == Size::Long)
                        && d.maximum * stride <= 0x7fff && stands_apart(length, view, table) {
                        Some(table)
                    } else {
                        None
                    }
                },
                _ => None,
            },
            _ => None,
        }
    }
}

fn find_table(code: &[u8], analysis: &ControlFlowAnalysis, rows: &DispatchRows) -> (r: Option<Table>)
    requires
        analysis.wf(),
        rows.first + 2 <= rows.last < analysis.listing().len(),
        rows.maximum < MAX_TABLE_ENTRIES,
    ensures
        r == spec_table(code@.len(), analysis@, rows.of(analysis.listing())),
        r matches Some(table) ==> {
            &&& stands_apart(code@.len(), analysis@, table)
            &&& table.count == rows.maximum + 1
            &&& table.width == 2 && table.relative is Some || table.width == 4 && table.relative is None
        },
{
    let ghost listing = analysis.listing();
    let ghost d = rows.of(listing);
    proof {
        analysis.lemma_listing_view();
        analysis.lemma_listing(rows.last - 1);
        analysis.lemma_listing(rows.last as int);
        assert(d.prefix[d.prefix.len() - 2] == listing[rows.last - 1]);
        assert(d.prefix.last() == listing[rows.last as int]);
    }
    let load = &analysis.instructions.values[rows.last - 1];
    let jump = &analysis.instructions.values[rows.last];
    if load.address <= rows.guard {
        return None;
    }
    let (width, destination, lookup) = match table_load(load.instruction) {
        Some(found) => found,
        None => {
            return None;
        },
    };
    let (bases, stride) = match run_setup(code, analysis, rows) {
        Some(found) => found,
        None => {
            return None;
        },
    };
    assert(lookup.in_range());
    let (start, index, long) = match indexed_base(lookup, &bases) {
        Some(found) => found,
        None => {
            return None;
        },
    };
    let relative: Option<u32> = match entry_base(jump.instruction, &bases, width, destination) {
        Some(found) => found,
        None => {
            return None;
        },
    };
    if stride != width || index != rows.register || long != rows.size.is_long() {
        return None;
    }
    assert(width == 2 || width == 4);
    assert(rows.maximum * stride <= 255 * 4) by (nonlinear_arith)
        requires
            rows.maximum <= 255,
            stride <= 4,
    ;
    let count: u32 = rows.maximum + 1;
    assert(count * width <= 256 * 4) by (nonlinear_arith)
        requires
            count <= 256,
            width <= 4,
    ;
    let end: u32 = match start.checked_add(count * width) {
        Some(end) => end,
        None => {
            return None;
        },
    };
    if end as u64 > code.len() as u64 || start % 2 != 0 || instruction_overlaps(
        analysis,
        start,
        end,
    ) {
        return None;
    }
    Some(Table { start, width, count, relative })
}

/// The target that entry `i` of a table names.
pub open spec fn entry_target(code: Seq<u8>, view: AnalysisView, table: Table, i: int) -> Option<
    u32,
> {
    let at = table.start + i * table.width;
    match table.relative {
        Some(base) => base.checked_add_signed(word_at(code, at) as i16 as i32),
        None => spec_pointer_offset(code.len(), view, at as u32, long_at(code, at)),
    }
}

/// Four bytes as a big-endian longword.
pub open spec fn long_at(bytes: Seq<u8>, at: int) -> u32 {
    (word_at(bytes, at) * 0x10000 + word_at(bytes, at + 2)) as u32
}

/// Read four bytes as a big-endian longword.
pub fn read_long(bytes: &[u8], at: usize) -> (r: u32)
    requires
        at + 4 <= bytes@.len(),
    ensures
        r == long_at(bytes@, at as int),
{
    let length: usize = bytes.len();
    assert(at + 4 <= length);
    (read_word(bytes, at) as u32) * 0x10000 + read_word(bytes, at + 2) as u32
}

/// Whether a dispatch may go to `target`: a complete known instruction, neither
/// in the table nor in the dispatch, nor inside another instruction.
pub open spec fn acceptable(
    code: Seq<u8>,
    view: AnalysisView,
    d: Dispatch,
    table: Table,
    target: u32,
) -> bool {
    &&& spec_valid_address(code, target)
    &&& !(table.start <= target < table.end())
    &&& !(d.prefix[0].address <= target < d.prefix.last().end)
    &&& !exists|at: u32| #[trigger] overlaps(view.instructions, target, target, at)
    &&& match spec_decode(code, target, target) {
        Some(decoded) => decoded.instruction.isa != Isa::Unknown || decoded.is_opaque_fallthrough(),
        None => false,
    }
}

/// Whether entry `i` of a table names a target that the dispatch may go to.
pub open spec fn entry_holds(
    code: Seq<u8>,
    view: AnalysisView,
    d: Dispatch,
    table: Table,
    i: int,
) -> bool {
    match entry_target(code, view, table, i) {
        Some(target) => acceptable(code, view, d, table, target),
        None => false,
    }
}

/// The targets that the entries of a table name, in order of the entries.
pub open spec fn entries(code: Seq<u8>, view: AnalysisView, table: Table) -> Seq<u32> {
    Seq::new(table.count as nat, |i: int| entry_target(code, view, table, i)->0)
}

/// The targets of the jump at `site` in ascending order: those of its table, when
/// its dispatch is guarded and every entry of the table holds.
pub open spec fn spec_targets(code: Seq<u8>, view: AnalysisView, site: u32) -> Option<Seq<u32>> {
    match spec_dispatch(view, site) {
        None => None,
        Some(d) => match spec_table(code.len(), view, d) {
            None => None,
            Some(table) => if forall|i: int|
                0 <= i < table.count ==> #[trigger] entry_holds(code, view, d, table, i) {
                Some(in_order(entries(code, view, table).to_set()))
            } else {
                None
            },
        },
    }
}

fn read_entry(code: &[u8], analysis: &ControlFlowAnalysis, table: &Table, i: u32) -> (r: Option<u32>)
    requires
        analysis.wf(),
        table.end() <= u32::MAX,
        table.end() <= code@.len(),
        i < table.count,
        table.width == 2 && table.relative is Some || table.width == 4 && table.relative is None,
    ensures
        r == entry_target(code@, analysis@, *table, i as int),
{
    assert(i * table.width + table.width <= table.count * table.width) by (nonlinear_arith)
        requires
            i + 1 <= table.count,
    ;
    let at: u32 = table.start + i * table.width;
    match table.relative {
        Some(base) => base.checked_add_signed(read_word(code, at as usize) as i16 as i32),
        None => pointer_offset(code, analysis, at, read_long(code, at as usize)),
    }
}

fn is_acceptable(
    code: &[u8],
    analysis: &ControlFlowAnalysis,
    rows: &DispatchRows,
    table: &Table,
    target: u32,
) -> (r: bool)
    requires
        analysis.wf(),
        rows.first + 2 <= rows.last < analysis.listing().len(),
        table.end() <= u32::MAX,
    ensures
        r == acceptable(code@, analysis@, rows.of(analysis.listing()), *table, target),
{
    let ghost listing = analysis.listing();
    let ghost d = rows.of(listing);
    proof {
        analysis.lemma_listing(rows.first as int);
        analysis.lemma_listing(rows.last as int);
        assert(d.prefix[0] == listing[rows.first as int]);
        assert(d.prefix.last() == listing[rows.last as int]);
        assert(0 <= table.count * table.width) by (nonlinear_arith);
    }
    if !valid_address(code, target) {
        return false;
    }
    let end: u32 = table.start + table.count * table.width;
    if table.start <= target && target < end {
        return false;
    }
    if analysis.instructions.values[rows.first].address <= target && target
        < analysis.instructions.values[rows.last].end {
        return false;
    }
    if instruction_overlaps(analysis, target, target) {
        return false;
    }
    match decode(code, target, target) {
        Some(decoded) => decoded.instruction.isa != Isa::Unknown || decoded.is_opaque_fallthrough(),
        None => false,
    }
}

/// Recover a complete table, or nothing, so that the caller keeps the dispatch's
/// unresolved-flow warning.
pub fn targets(code: &[u8], analysis: &ControlFlowAnalysis, index: &FlowIndex, site: u32) -> (r:
    Option<Vec<u32>>)
    requires
        analysis.wf(),
        index.indexes(analysis@.flows),
    ensures
        match r {
            Some(list) => spec_targets(code@, analysis@, site) == Some(list@),
            None => spec_targets(code@, analysis@, site) is None,
        },
{
    let rows = match find_dispatch(analysis, index, site) {
        Some(rows) => rows,
        None => {
            return None;
        },
    };
    let ghost d = rows.of(analysis.listing());
    let table = match find_table(code, analysis, &rows) {
        Some(table) => table,
        None => {
            return None;
        },
    };
    let ghost named = entries(code@, analysis@, table);
    let mut found: OrderedSet<u32> = OrderedSet::new();
    let mut i: u32 = 0;
    proof {
        assert(named.take(0).to_set() =~= Set::empty());
    }
    while i < table.count
        invariant
            analysis.wf(),
            rows.first + 2 <= rows.last < analysis.listing().len(),
            d == rows.of(analysis.listing()),
            spec_dispatch(analysis@, site) == Some(d),
            spec_table(code@.len(), analysis@, d) == Some(table),
            stands_apart(code@.len(), analysis@, table),
            table.width == 2 && table.relative is Some || table.width == 4 && table.relative is None,
            named == entries(code@, analysis@, table),
            i <= table.count,
            found.wf(),
            found@ == named.take(i as int).to_set(),
            forall|k: int|
                0 <= k < i ==> #[trigger] entry_holds(code@, analysis@, d, table, k),
        decreases table.count - i,
    {
        let target: u32 = match read_entry(code, analysis, &table, i) {
            Some(target) => target,
            None => {
                assert(!entry_holds(code@, analysis@, d, table, i as int));
                return None;
            },
        };
        if !is_acceptable(code, analysis, &rows, &table, target) {
            assert(!entry_holds(code@, analysis@, d, table, i as int));
            return None;
        }
        found.insert(target);
        proof {
            lemma_take_to_set(named, i as int);
            assert(named[i as int] == target);
        }
        i += 1;
    }
    proof {
        assert(named.take(i as int) =~= named);
        lemma_in_order(found.items@);
    }
    Some(found.items)
}

} // verus!
