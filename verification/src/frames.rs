//! That stack coordinates follow the stack pointer, and that slots are where they are said to
//! be.

use crate::decoded::DecodedView;
use crate::dependence::{agree, in_lanes, lanes_read_settle_lanes_written, lemma_bytes};
use crate::derived::spec_listed;
use crate::effects::{spec_lanes_of, spec_operand_effects, spec_register_effects};
use crate::globals::{spec_operand_accesses, AccessKind, OperandAccess};
use crate::m68k::{AddressingMode, Instruction, Isa, Operands, Size};
use crate::machine::{
    executed, formed, lists, low, moves_stack, signed, slots, stepped, wrapped, Machine,
};
use crate::meaning::is_encodable;
use crate::register_write::spec_bits_below;
use crate::stack::{
    spec_classify_stack_slot, spec_explicit_adjustment, spec_frame_pointer_slot,
    spec_operand_adjustment, spec_operand_step, spec_stack_adjustment, spec_stack_pointer_slot,
    spec_stack_transfer, spec_unbalanced_return, spec_unmodeled_stack_pointer_write, FrameStyle,
    StackAdjustment, StackDepth, StackSlotKind,
};
use vstd::prelude::*;

verus! {

/// Whether stack coordinates are true of a machine in a function that was entered with the
/// stack pointer at `entry`: the stack pointer is that far below the entry, and a link register
/// stands at the word that its frame saved it to.
pub open spec fn is_at(state: StackDepth, m: Machine, entry: int) -> bool {
    match state {
        StackDepth::Exact(position) => {
            &&& m.address(7) == wrapped(entry - position.depth)
            &&& position.link matches Some(link) ==> link.register < 7 && m.address(link.register)
                == wrapped(entry - link.depth - 4)
        },
        _ => true,
    }
}

/// Whether an instruction leaves alone the register that a frame is reached through.
pub open spec fn keeps_link(state: StackDepth, m: Machine, instruction: Instruction) -> bool {
    state matches StackDepth::Exact(position) ==> (position.link matches Some(link)
        ==> instruction.isa == Isa::Link || instruction.isa == Isa::Unlk || executed(
        m,
        instruction,
    ).address(link.register) == m.address(link.register))
}

/// By how much an adjustment moves the stack pointer down, if it says so.
spec fn is_moved_by(adjustment: StackAdjustment, before: int, after: int) -> bool {
    match adjustment {
        StackAdjustment::Unchanged => after == before,
        StackAdjustment::Adjust { depth, .. } => after == wrapped(before - depth),
        _ => true,
    }
}

proof fn lemma_unwritten(m: Machine, instruction: Instruction)
    requires
        m.wf(),
        instruction.wf(),
        is_encodable(instruction),
        spec_operand_effects(instruction).complete,
        !moves_stack(instruction.isa),
        spec_lanes_of(spec_operand_effects(instruction).writes, 15) == 0,
        0 <= executed(m, instruction).address(7) < 0x1_0000_0000,
    ensures
        executed(m, instruction).address(7) == m.address(7),
{
    let writes = spec_operand_effects(instruction).writes;
    lemma_no_lanes(writes);
    assert(agree(m, m, spec_operand_effects(instruction).reads));
    lanes_read_settle_lanes_written(m, m, instruction, 15, 0);
    lanes_read_settle_lanes_written(m, m, instruction, 15, 1);
    lanes_read_settle_lanes_written(m, m, instruction, 15, 2);
    lanes_read_settle_lanes_written(m, m, instruction, 15, 3);
    assert(0 <= m.registers[15] < 0x1_0000_0000);
    lemma_bytes(m.address(7));
    lemma_bytes(executed(m, instruction).address(7));
}

proof fn lemma_no_lanes(lanes: u64)
    requires
        spec_lanes_of(lanes, 15) == 0,
    ensures
        !in_lanes(lanes, 15, 0),
        !in_lanes(lanes, 15, 1),
        !in_lanes(lanes, 15, 2),
        !in_lanes(lanes, 15, 3),
{
    assert(((lanes >> 60u32) & 0xf) as u8 == 0 ==> lanes & (1u64 << 60u64) == 0 && lanes & (1u64
        << 61u64) == 0 && lanes & (1u64 << 62u64) == 0 && lanes & (1u64 << 63u64) == 0)
        by (bit_vector);
}

/// Two ways to count the registers of a list agree.
pub(crate) proof fn lemma_slots(list: u16, n: u16)
    requires
        n <= 16,
    ensures
        spec_bits_below(list, n) == slots(list, n as int),
        0 <= slots(list, n as int) <= n,
    decreases n,
{
    if n > 0 {
        lemma_slots(list, (n - 1) as u16);
        assert(lists(list, n - 1) == spec_listed(list, (n - 1) as u16));
    }
}

/// Signed immediates are the signed numbers that they encode.
proof fn lemma_immediate(value: u32)
    ensures
        value as u16 as i16 as i32 == signed(value as int, Size::Word),
        value as i32 == signed(value as int, Size::Long),
        signed(low(value as int, Size::Word), Size::Word) == signed(value as int, Size::Word),
        signed(low(value as int, Size::Long), Size::Long) == signed(value as int, Size::Long),
{
    assert({
        &&& value as u16 as i16 as i32 == if value % 0x1_0000 < 0x8000 {
            value % 0x1_0000 + 0
        } else {
            value % 0x1_0000 - 0x1_0000
        }
        &&& value as i32 == if value < 0x8000_0000 {
            value + 0
        } else {
            value - 0x1_0000_0000
        }
    }) by (bit_vector);
}

spec fn is_asked(m: Machine, decoded: DecodedView) -> bool {
    &&& m.wf()
    &&& decoded.instruction.wf()
    &&& is_encodable(decoded.instruction)
    &&& spec_operand_effects(decoded.instruction).complete
    &&& !matches!(decoded.instruction.isa, Isa::Rts | Isa::Rtr | Isa::Rte)
}

proof fn lemma_explicit(m: Machine, decoded: DecodedView)
    requires
        is_asked(m, decoded),
        spec_explicit_adjustment(decoded.instruction) is Some,
    ensures
        is_moved_by(
            spec_explicit_adjustment(decoded.instruction)->0,
            m.address(7),
            executed(m, decoded.instruction).address(7),
        ),
{
    let instruction = decoded.instruction;
    assert(0 <= m.registers[15] < 0x1_0000_0000);
    match instruction.operands {
        Operands::RegisterSizeEffectiveAddress(_, _, AddressingMode::Immediate(value)) => {
            lemma_immediate(value);
        },
        Operands::DirectionSizeEffectiveAddressList(direction, size, mode, list) => {
            lemma_slots(list, 16);
            assert(lists(list, 15) == spec_listed(list, 15));
        },
        _ => {},
    }
}

/// What one operand does to the stack pointer.
proof fn lemma_one_step(m: Machine, mode: AddressingMode, size: Size, kind: AccessKind)
    requires
        m.wf(),
        mode.in_range(),
    ensures
        match spec_operand_step(
            Some(OperandAccess { mode, size: Some(size.spec_bytes()), kind }),
        ) {
            None => stepped(m, mode, size).address(7) == m.address(7),
            Some(Some(depth)) => stepped(m, mode, size).address(7) == wrapped(m.address(7) - depth)
                && -4 <= depth <= 4,
            Some(None) => true,
        },
        0 <= stepped(m, mode, size).address(7) < 0x1_0000_0000,
{
    assert(0 <= m.registers[15] < 0x1_0000_0000);
}

proof fn lemma_step_of_movea(m: Machine, decoded: DecodedView)
    requires
        is_stepping(m, decoded),
        decoded.instruction.operands is SizeRegisterEffectiveAddress,
    ensures
        is_stepped_right(m, decoded),
{
    let instruction = decoded.instruction;
    let accesses = spec_operand_accesses(instruction.isa, instruction.operands);
    if let Operands::SizeRegisterEffectiveAddress(size, _, mode) = instruction.operands {
        lemma_one_step(m, mode, size, accesses.first->0.kind);
        assert(executed(m, instruction).address(7) == stepped(m, mode, size).address(7)
            || spec_operand_step(accesses.first) is None);
    }
}

proof fn lemma_step_of_unary(m: Machine, decoded: DecodedView)
    requires
        is_stepping(m, decoded),
        decoded.instruction.operands is SizeEffectiveAddress,
    ensures
        is_stepped_right(m, decoded),
{
    let instruction = decoded.instruction;
    let accesses = spec_operand_accesses(instruction.isa, instruction.operands);
    if let Operands::SizeEffectiveAddress(size, mode) = instruction.operands {
        lemma_one_step(m, mode, size, accesses.first->0.kind);
        assert(executed(m, instruction).address(7) == stepped(m, mode, size).address(7)
            || spec_operand_step(accesses.first) is None);
    }
}

proof fn lemma_step_of_immediate(m: Machine, decoded: DecodedView)
    requires
        is_stepping(m, decoded),
        decoded.instruction.operands is SizeEffectiveAddressImmediate,
    ensures
        is_stepped_right(m, decoded),
{
    let instruction = decoded.instruction;
    let accesses = spec_operand_accesses(instruction.isa, instruction.operands);
    if let Operands::SizeEffectiveAddressImmediate(size, mode, _) = instruction.operands {
        lemma_one_step(m, mode, size, accesses.first->0.kind);
        assert(executed(m, instruction).address(7) == stepped(m, mode, size).address(7)
            || spec_operand_step(accesses.first) is None);
    }
}

proof fn lemma_step_of_bit(m: Machine, decoded: DecodedView)
    requires
        is_stepping(m, decoded),
        decoded.instruction.operands is EffectiveAddressCount,
    ensures
        is_stepped_right(m, decoded),
{
    let instruction = decoded.instruction;
    let accesses = spec_operand_accesses(instruction.isa, instruction.operands);
    if let Operands::EffectiveAddressCount(mode, _) = instruction.operands {
        lemma_one_step(m, mode, Size::Byte, accesses.first->0.kind);
        assert(executed(m, instruction).address(7) == stepped(m, mode, Size::Byte).address(7)
            || spec_operand_step(accesses.first) is None);
    }
}

proof fn lemma_step_of_quick(m: Machine, decoded: DecodedView)
    requires
        is_stepping(m, decoded),
        decoded.instruction.operands is DataSizeEffectiveAddress,
    ensures
        is_stepped_right(m, decoded),
{
    let instruction = decoded.instruction;
    let accesses = spec_operand_accesses(instruction.isa, instruction.operands);
    if let Operands::DataSizeEffectiveAddress(_, size, mode) = instruction.operands {
        lemma_one_step(m, mode, size, accesses.first->0.kind);
        assert(executed(m, instruction).address(7) == stepped(m, mode, size).address(7)
            || spec_operand_step(accesses.first) is None);
    }
}

proof fn lemma_step_of_condition(m: Machine, decoded: DecodedView)
    requires
        is_stepping(m, decoded),
        decoded.instruction.operands is ConditionEffectiveAddress,
    ensures
        is_stepped_right(m, decoded),
{
    let instruction = decoded.instruction;
    let accesses = spec_operand_accesses(instruction.isa, instruction.operands);
    if let Operands::ConditionEffectiveAddress(_, mode) = instruction.operands {
        lemma_one_step(m, mode, Size::Byte, accesses.first->0.kind);
        assert(executed(m, instruction).address(7) == stepped(m, mode, Size::Byte).address(7)
            || spec_operand_step(accesses.first) is None);
    }
}

proof fn lemma_step_of_arithmetic(m: Machine, decoded: DecodedView)
    requires
        is_stepping(m, decoded),
        decoded.instruction.operands is RegisterDirectionSizeEffectiveAddress,
    ensures
        is_stepped_right(m, decoded),
{
    let instruction = decoded.instruction;
    let accesses = spec_operand_accesses(instruction.isa, instruction.operands);
    if let Operands::RegisterDirectionSizeEffectiveAddress(_, _, size, mode) = instruction.operands {
        lemma_one_step(m, mode, size, accesses.first->0.kind);
        assert(executed(m, instruction).address(7) == stepped(m, mode, size).address(7)
            || spec_operand_step(accesses.first) is None);
    }
}

proof fn lemma_step_of_address_arithmetic(m: Machine, decoded: DecodedView)
    requires
        is_stepping(m, decoded),
        decoded.instruction.operands is RegisterSizeEffectiveAddress,
    ensures
        is_stepped_right(m, decoded),
{
    let instruction = decoded.instruction;
    let accesses = spec_operand_accesses(instruction.isa, instruction.operands);
    if let Operands::RegisterSizeEffectiveAddress(_, size, mode) = instruction.operands {
        lemma_one_step(m, mode, size, accesses.first->0.kind);
        assert(executed(m, instruction).address(7) == stepped(m, mode, size).address(7)
            || spec_operand_step(accesses.first) is None);
    }
}

proof fn lemma_step_of_memory_shift(m: Machine, decoded: DecodedView)
    requires
        is_stepping(m, decoded),
        decoded.instruction.operands is DirectionEffectiveAddress,
    ensures
        is_stepped_right(m, decoded),
{
    let instruction = decoded.instruction;
    let accesses = spec_operand_accesses(instruction.isa, instruction.operands);
    if let Operands::DirectionEffectiveAddress(_, mode) = instruction.operands {
        lemma_one_step(m, mode, Size::Word, accesses.first->0.kind);
        assert(executed(m, instruction).address(7) == stepped(m, mode, Size::Word).address(7)
            || spec_operand_step(accesses.first) is None);
    }
}

proof fn lemma_step_of_lone(m: Machine, decoded: DecodedView)
    requires
        is_stepping(m, decoded),
        decoded.instruction.operands is EffectiveAddress,
    ensures
        is_stepped_right(m, decoded),
{
    let instruction = decoded.instruction;
    let accesses = spec_operand_accesses(instruction.isa, instruction.operands);
    if let Operands::EffectiveAddress(mode) = instruction.operands {
        lemma_one_step(m, mode, Size::Byte, accesses.first->0.kind);
        lemma_one_step(m, mode, Size::Word, accesses.first->0.kind);
    }
}

proof fn lemma_twice(from: int, first: int, second: int)
    ensures
        wrapped(wrapped(from - first) - second) == wrapped(from - (second + first)),
        wrapped(wrapped(from - first) - second) == wrapped(from - (first + second)),
{
    vstd::arithmetic::div_mod::lemma_sub_mod_noop(from - first, second, 0x1_0000_0000);
    vstd::arithmetic::div_mod::lemma_sub_mod_noop_right(
        wrapped(from - first),
        second,
        0x1_0000_0000,
    );
    assert(from - first - second == from - (second + first));
}

proof fn lemma_stepped_wf(m: Machine, mode: AddressingMode, size: Size)
    requires
        m.wf(),
        mode.in_range(),
    ensures
        stepped(m, mode, size).wf(),
{
    let on = stepped(m, mode, size);
    assert forall|i: int| 0 <= i < 16 implies 0 <= #[trigger] on.registers[i] < 0x1_0000_0000 by {
        assert(0 <= m.registers[i] < 0x1_0000_0000);
    }
}

/// What two operands, one after the other, do to the stack pointer.
proof fn lemma_two_steps(
    m: Machine,
    before: AddressingMode,
    behind: AddressingMode,
    size: Size,
    kind: AccessKind,
    other: AccessKind,
)
    requires
        m.wf(),
        before.in_range(),
        behind.in_range(),
    ensures
        ({
            let bytes = Some(size.spec_bytes());
            let one = spec_operand_step(Some(OperandAccess { mode: before, size: bytes, kind }));
            let two = spec_operand_step(
                Some(OperandAccess { mode: behind, size: bytes, kind: other }),
            );
            let after = stepped(stepped(m, before, size), behind, size).address(7);
            match (one, two) {
                (None, None) => after == m.address(7),
                (Some(Some(depth)), None) => after == wrapped(m.address(7) - depth),
                (None, Some(Some(depth))) => after == wrapped(m.address(7) - depth),
                (Some(Some(first)), Some(Some(second))) => after == wrapped(
                    m.address(7) - (first + second) as i32,
                ) && after == wrapped(m.address(7) - (second + first) as i32),
                _ => true,
            }
        }),
{
    let on = stepped(m, before, size);
    lemma_one_step(m, before, size, kind);
    lemma_stepped_wf(m, before, size);
    lemma_one_step(on, behind, size, other);
    let bytes = Some(size.spec_bytes());
    if let (Some(Some(first)), Some(Some(second))) = (
        spec_operand_step(Some(OperandAccess { mode: before, size: bytes, kind })),
        spec_operand_step(Some(OperandAccess { mode: behind, size: bytes, kind: other })),
    ) {
        lemma_twice(m.address(7), first as int, second as int);
        assert((first + second) as i32 == first + second);
    }
}

proof fn lemma_step_of_move(m: Machine, decoded: DecodedView)
    requires
        is_stepping(m, decoded),
        decoded.instruction.operands is SizeEffectiveAddressEffectiveAddress,
    ensures
        is_stepped_right(m, decoded),
{
    let instruction = decoded.instruction;
    if let Operands::SizeEffectiveAddressEffectiveAddress(size, destination, source) =
        instruction.operands {
        lemma_two_steps(m, source, destination, size, AccessKind::Read, AccessKind::Write);
        let on = stepped(m, source, size);
        assert(executed(m, instruction).address(7) == stepped(on, destination, size).address(7));
    }
}

proof fn lemma_step_of_pairs(m: Machine, decoded: DecodedView)
    requires
        is_stepping(m, decoded),
        decoded.instruction.operands is RegisterSizeModeRegister
            || decoded.instruction.operands is RegisterSizeRegister,
    ensures
        is_stepped_right(m, decoded),
{
    let instruction = decoded.instruction;
    match instruction.operands {
        Operands::RegisterSizeModeRegister(left, size, _, right) => {
            lemma_two_steps(
                m,
                AddressingMode::Ariwpr(right),
                AddressingMode::Ariwpr(left),
                size,
                AccessKind::Read,
                AccessKind::Modify,
            );
        },
        Operands::RegisterSizeRegister(left, size, right) => {
            lemma_two_steps(
                m,
                AddressingMode::Ariwpo(right),
                AddressingMode::Ariwpo(left),
                size,
                AccessKind::Read,
                AccessKind::Read,
            );
        },
        _ => {},
    }
}

spec fn is_stepping(m: Machine, decoded: DecodedView) -> bool {
    &&& is_asked(m, decoded)
    &&& spec_explicit_adjustment(decoded.instruction) is None
    &&& !spec_unmodeled_stack_pointer_write(
        decoded.instruction.isa,
        decoded.instruction.operands,
    )
    &&& spec_operand_adjustment(decoded.instruction.isa, decoded.instruction.operands) is Some
}

spec fn is_stepped_right(m: Machine, decoded: DecodedView) -> bool {
    is_moved_by(
        spec_operand_adjustment(decoded.instruction.isa, decoded.instruction.operands)->0,
        m.address(7),
        executed(m, decoded.instruction).address(7),
    )
}

proof fn lemma_operand_step(m: Machine, decoded: DecodedView)
    requires
        is_stepping(m, decoded),
    ensures
        is_stepped_right(m, decoded),
{
    match decoded.instruction.operands {
        Operands::SizeEffectiveAddressEffectiveAddress(_, _, _) => {
            lemma_step_of_move(m, decoded);
        },
        Operands::EffectiveAddress(_) => {
            lemma_step_of_lone(m, decoded);
        },
        Operands::RegisterSizeModeRegister(_, _, _, _) | Operands::RegisterSizeRegister(_, _, _) => {
            lemma_step_of_pairs(m, decoded);
        },
        Operands::SizeRegisterEffectiveAddress(_, _, _) => {
            lemma_step_of_movea(m, decoded);
        },
        Operands::SizeEffectiveAddress(_, _) => {
            lemma_step_of_unary(m, decoded);
        },
        Operands::SizeEffectiveAddressImmediate(_, _, _) => {
            lemma_step_of_immediate(m, decoded);
        },
        Operands::EffectiveAddressCount(_, _) => {
            lemma_step_of_bit(m, decoded);
        },
        Operands::DataSizeEffectiveAddress(_, _, _) => {
            lemma_step_of_quick(m, decoded);
        },
        Operands::ConditionEffectiveAddress(_, _) => {
            lemma_step_of_condition(m, decoded);
        },
        Operands::RegisterDirectionSizeEffectiveAddress(_, _, _, _) => {
            lemma_step_of_arithmetic(m, decoded);
        },
        Operands::RegisterSizeEffectiveAddress(_, _, _) => {
            lemma_step_of_address_arithmetic(m, decoded);
        },
        Operands::DirectionEffectiveAddress(_, _) => {
            lemma_step_of_memory_shift(m, decoded);
        },
        _ => {},
    }
}

#[verifier::spinoff_prover]
#[verifier::rlimit(60)]
proof fn lemma_in_range(m: Machine, instruction: Instruction)
    requires
        m.wf(),
        instruction.wf(),
        is_encodable(instruction),
        spec_operand_effects(instruction).complete,
        !moves_stack(instruction.isa),
    ensures
        0 <= executed(m, instruction).address(7) < 0x1_0000_0000,
{
    assert(0 <= m.registers[15] < 0x1_0000_0000);
    match instruction.operands {
        Operands::RegisterOpmodeRegister(_, _, _) => {
            lemma_exchange_in_range(m, instruction);
        },
        Operands::DirectionSizeEffectiveAddressList(_, _, _, _) => {
            lemma_list_in_range(m, instruction);
        },
        Operands::SizeEffectiveAddressEffectiveAddress(size, _, source) => {
            lemma_stepped_wf(m, source, size);
            assert(0 <= stepped(m, source, size).registers[15] < 0x1_0000_0000);
        },
        Operands::RegisterEffectiveAddress(_, mode) => {
            lemma_place_in_range(m, mode);
        },
        _ => {},
    }
}

proof fn lemma_exchange_in_range(m: Machine, instruction: Instruction)
    requires
        m.wf(),
        instruction.wf(),
        instruction.operands is RegisterOpmodeRegister,
    ensures
        0 <= executed(m, instruction).address(7) < 0x1_0000_0000,
{
    if let Operands::RegisterOpmodeRegister(left, _, right) = instruction.operands {
        assert(0 <= m.registers[15] < 0x1_0000_0000);
        assert(0 <= m.registers[left as int] < 0x1_0000_0000);
        assert(0 <= m.registers[8 + left] < 0x1_0000_0000);
        assert(0 <= m.registers[right as int] < 0x1_0000_0000);
        assert(0 <= m.registers[8 + right] < 0x1_0000_0000);
    }
}

proof fn lemma_list_in_range(m: Machine, instruction: Instruction)
    requires
        m.wf(),
        instruction.wf(),
        instruction.operands is DirectionSizeEffectiveAddressList,
    ensures
        0 <= executed(m, instruction).address(7) < 0x1_0000_0000,
{
    assert(0 <= m.registers[15] < 0x1_0000_0000);
}

proof fn lemma_place_in_range(m: Machine, mode: AddressingMode)
    requires
        m.wf(),
        mode.in_range(),
    ensures
        0 <= formed(m, mode, Size::Long) < 0x1_0000_0000,
        0 <= stepped(m, mode, Size::Long).address(7) < 0x1_0000_0000,
        0 <= stepped(m, mode, Size::Word).address(7) < 0x1_0000_0000,
{
    assert(0 <= m.registers[15] < 0x1_0000_0000);
    match mode {
        AddressingMode::Ari(register)
        | AddressingMode::Ariwpo(register)
        | AddressingMode::Ard(register) => {
            assert(0 <= m.registers[8 + register] < 0x1_0000_0000);
        },
        AddressingMode::Drd(register) => {
            assert(0 <= m.registers[register as int] < 0x1_0000_0000);
        },
        _ => {},
    }
}

/// How an instruction moves the stack pointer is what is said of it: an adjustment by that
/// many bytes, or none.
pub proof fn adjustments_move_the_stack_pointer(m: Machine, decoded: DecodedView)
    requires
        m.wf(),
        decoded.instruction.wf(),
        is_encodable(decoded.instruction),
        spec_operand_effects(decoded.instruction).complete,
        !matches!(decoded.instruction.isa, Isa::Rts | Isa::Rtr | Isa::Rte),
    ensures
        match spec_stack_adjustment(decoded) {
            StackAdjustment::Unchanged => executed(m, decoded.instruction).address(7) == m.address(
                7,
            ),
            StackAdjustment::Adjust { depth, .. } => executed(m, decoded.instruction).address(7)
                == wrapped(m.address(7) - depth),
            _ => true,
        },
{
    let instruction = decoded.instruction;
    if spec_explicit_adjustment(instruction) is Some {
        lemma_explicit(m, decoded);
    } else if !spec_unmodeled_stack_pointer_write(instruction.isa, instruction.operands) {
        if spec_operand_adjustment(instruction.isa, instruction.operands) is Some {
            lemma_operand_step(m, decoded);
        } else if !moves_stack(instruction.isa) {
            lemma_in_range(m, instruction);
            if spec_lanes_of(spec_register_effects(instruction).writes, 15) == 0 {
                lemma_unwritten(m, instruction);
            }
        }
    }
}

/// Stack coordinates stay true from instruction to instruction: where they were true before
/// one, and it leaves the link register alone, what they are said to become is true after it.
pub proof fn coordinates_follow_the_stack_pointer(
    m: Machine,
    decoded: DecodedView,
    state: StackDepth,
    entry: int,
)
    requires
        m.wf(),
        decoded.instruction.wf(),
        is_encodable(decoded.instruction),
        spec_operand_effects(decoded.instruction).complete,
        !matches!(decoded.instruction.isa, Isa::Rts | Isa::Rtr | Isa::Rte),
        is_at(state, m, entry),
        keeps_link(state, m, decoded.instruction),
    ensures
        is_at(
            spec_stack_transfer(spec_stack_adjustment(decoded), state),
            executed(m, decoded.instruction),
            entry,
        ),
{
    let instruction = decoded.instruction;
    adjustments_move_the_stack_pointer(m, decoded);
    if let StackDepth::Exact(position) = state {
        match spec_stack_adjustment(decoded) {
            StackAdjustment::Adjust { depth, .. } => {
                lemma_moved(entry, position.depth as int, depth as int);
                assert(instruction.isa != Isa::Link && instruction.isa != Isa::Unlk);
            },
            StackAdjustment::Link { register, displacement } => {
                lemma_moved(entry, position.depth as int, 4);
                lemma_moved(entry, position.depth + 4, -displacement);
                assert(instruction.operands == Operands::RegisterDisplacement(
                    register,
                    displacement,
                ));
            },
            StackAdjustment::Unlink { register } => {
                assert(instruction.operands == Operands::Register(register));
                if let Some(link) = position.link {
                    lemma_moved(entry, link.depth + 4, -4);
                }
            },
            StackAdjustment::Unchanged => {
                assert(instruction.isa != Isa::Link && instruction.isa != Isa::Unlk);
            },
            _ => {},
        }
    }
}

proof fn lemma_moved(entry: int, depth: int, by: int)
    ensures
        wrapped(wrapped(entry - depth) - by) == wrapped(entry - (depth + by)),
        wrapped(wrapped(entry - depth) - by) == wrapped(entry - depth - by),
{
    lemma_twice(entry, depth, by);
}

/// A slot that is found through the stack pointer lies where it is said to lie: an argument
/// that many bytes above the stack pointer at entry, a local in the part of the frame that is
/// reserved for locals, counted from the frame's base.
pub proof fn stack_pointer_slots_lie_there(
    m: Machine,
    frame: FrameStyle,
    depth: StackDepth,
    displacement: i16,
    entry: int,
)
    requires
        is_at(depth, m, entry),
        spec_stack_pointer_slot(frame, depth, displacement) is Some,
    ensures
        lies_there(
            frame,
            spec_stack_pointer_slot(frame, depth, displacement)->0,
            formed(m, AddressingMode::Ariwd(7, displacement), Size::Long),
            entry,
        ),
{
    if let StackDepth::Exact(position) = depth {
        lemma_moved(entry, position.depth as int, -displacement);
    }
}

/// A slot that is found through the frame pointer lies where it is said to lie.
pub proof fn frame_pointer_slots_lie_there(
    m: Machine,
    frame: FrameStyle,
    depth: StackDepth,
    base: u8,
    displacement: i16,
    entry: int,
)
    requires
        is_at(depth, m, entry),
        spec_frame_pointer_slot(frame, depth, base, displacement) is Some,
    ensures
        lies_there(
            frame,
            spec_frame_pointer_slot(frame, depth, base, displacement)->0,
            formed(m, AddressingMode::Ariwd(base, displacement), Size::Long),
            entry,
        ),
{
    if let StackDepth::Exact(position) = depth {
        if let Some(link) = position.link {
            lemma_moved(entry, link.depth + 4, -displacement);
        }
    }
}

/// Whether a slot names the byte at an address, in a function that was entered with the stack
/// pointer at `entry`.
pub open spec fn lies_there(
    frame: FrameStyle,
    slot: (StackSlotKind, i32),
    address: int,
    entry: int,
) -> bool {
    let (kind, offset) = slot;
    match kind {
        StackSlotKind::Argument => offset >= 4 && address == wrapped(entry + offset),
        StackSlotKind::Local => match frame {
            FrameStyle::Link { local_bytes, .. } => {
                &&& -local_bytes <= offset < 0
                &&& address == wrapped(entry - 4 + offset)
            },
            FrameStyle::StackPointer { local_bytes } => {
                &&& 0 <= offset < local_bytes
                &&& address == wrapped(entry - local_bytes + offset)
            },
            FrameStyle::PathDependent { maximum_local_bytes } => {
                &&& 0 <= offset < maximum_local_bytes
                &&& address == wrapped(entry - maximum_local_bytes + offset)
            },
            _ => false,
        },
    }
}

/// Every byte above the return address is an argument, and every byte of the locals a local.
pub proof fn slots_are_classified(frame: FrameStyle, entry_offset: i32)
    ensures
        entry_offset >= 4 ==> spec_classify_stack_slot(frame, entry_offset) is Some,
        0 <= entry_offset < 4 ==> spec_classify_stack_slot(frame, entry_offset) is None,
        frame matches FrameStyle::Link { local_bytes, .. } ==> (local_bytes <= 0x7fff_fffb && -4
            - local_bytes <= entry_offset < -4 <==> entry_offset < 0 && spec_classify_stack_slot(
            frame,
            entry_offset,
        ) is Some),
        frame matches FrameStyle::StackPointer { local_bytes } ==> (local_bytes <= 0x7fff_ffff
            && -local_bytes <= entry_offset < 0 <==> entry_offset < 0 && spec_classify_stack_slot(
            frame,
            entry_offset,
        ) is Some),
{
}

/// What is pushed is no local, and what is subtracted from the stack pointer is: only the
/// explicit arithmetic on the stack pointer reserves bytes, as many as it moves it by.
pub proof fn locals_are_what_arithmetic_reserves(decoded: DecodedView)
    requires
        spec_stack_adjustment(decoded) is Adjust,
    ensures
        ({
            let adjustment = spec_stack_adjustment(decoded);
            adjustment->locals == match decoded.instruction.operands {
                Operands::RegisterSizeEffectiveAddress(_, _, AddressingMode::Immediate(_))
                | Operands::DataSizeEffectiveAddress(_, _, AddressingMode::Ard(_))
                | Operands::RegisterEffectiveAddress(_, AddressingMode::Ariwd(_, _)) => {
                    adjustment->depth
                },
                _ => 0,
            }
        }),
{
}

/// A return that is not reported as unbalanced finds the stack pointer where it was at entry.
pub proof fn balanced_returns_find_the_entry(m: Machine, state: StackDepth, isa: Isa, entry: int)
    requires
        isa == Isa::Rts || isa == Isa::Rte || isa == Isa::Rtr,
        is_at(state, m, entry),
    ensures
        !spec_unbalanced_return(isa, state) ==> m.address(7) == wrapped(entry),
        state matches StackDepth::Exact(position) ==> (spec_unbalanced_return(isa, state)
            <==> position.depth != 0 || position.locals != 0),
{
}

} // verus!
