//! That the lanes an instruction is said to read and write are those it depends on and
//! changes.

use crate::derived::spec_listed;
use crate::effects::{
    lanes_of_first, reads_first, spec_address_bit, spec_address_ea, spec_lane_mask,
    spec_lanes_for_registers, spec_modify_ea, spec_no_effect, spec_operand_effects, spec_read_ea,
    spec_read_index, spec_reads, spec_reads_list, spec_register_lanes,
    spec_reversed_list, spec_steps, spec_write_ea, spec_writes_lanes, reversed_list_mirrors,
    Effects,
};
use crate::m68k::{AddressingMode, BriefExtensionWord, Direction, Instruction, Isa, Operands, Size};
use crate::machine::{
    bit_lane, byte_of, computed, emitted, executed, fetched, formed, formed_or_none, index_position,
    is_dynamic, list_stores,
    lists, low, moves_stack, operated, overwrites, quick, replaced, result, shifted, shown, signed,
    stepped,
    weight, wrapped, Machine,
};
use crate::meaning::{extension_fields, is_encodable};
use vstd::prelude::*;

verus! {

/// Whether lanes hold one byte of a register.
pub open spec fn in_lanes(lanes: u64, register: int, lane: int) -> bool {
    lanes & (1u64 << ((4 * register + lane) as u64)) != 0
}

/// Whether two machines have the same bytes in some lanes.
pub open spec fn agree(m: Machine, n: Machine, lanes: u64) -> bool {
    forall|register: int, lane: int|
        0 <= register < 16 && 0 <= lane < 4 && #[trigger] in_lanes(lanes, register, lane) ==> byte_of(
            m.registers[register],
            lane,
        ) == byte_of(n.registers[register], lane)
}

/// Whether two machines differ in their registers only.
pub open spec fn alike(m: Machine, n: Machine) -> bool {
    &&& m.wf()
    &&& n.wf()
    &&& m.memory == n.memory
    &&& m.user_stack == n.user_stack
    &&& m.origin == n.origin
    &&& m.unit == n.unit
}

/// How many lanes a size fills in a register. Address registers are used whole.
pub open spec fn lane_count(register: int, size: Option<Size>) -> int {
    if register >= 8 {
        4
    } else {
        match size {
            Some(Size::Byte) => 1,
            Some(Size::Word) => 2,
            _ => 4,
        }
    }
}

/// Whether lanes hold the low bytes of a register.
pub open spec fn holds_low(lanes: u64, register: int, size: Option<Size>) -> bool {
    forall|lane: int|
        0 <= lane < lane_count(register, size) ==> #[trigger] in_lanes(lanes, register, lane)
}

/// Whether lanes hold the registers that form an address.
pub open spec fn holds_base(lanes: u64, mode: AddressingMode) -> bool {
    match mode {
        AddressingMode::Ari(base)
        | AddressingMode::Ariwpo(base)
        | AddressingMode::Ariwpr(base)
        | AddressingMode::Ariwd(base, _) => holds_low(lanes, 8 + base, None),
        AddressingMode::Ariwi8(base, extension) => holds_low(lanes, 8 + base, None) && holds_low(
            lanes,
            index_position(extension),
            None,
        ),
        AddressingMode::Pciwi8(_, extension) => holds_low(lanes, index_position(extension), None),
        _ => true,
    }
}

/// Whether lanes hold all that an operand is read from.
pub open spec fn holds_operand(lanes: u64, mode: AddressingMode, size: Option<Size>) -> bool {
    match mode {
        AddressingMode::Drd(register) => holds_low(lanes, register as int, size),
        AddressingMode::Ard(register) => holds_low(lanes, 8 + register, None),
        _ => holds_base(lanes, mode),
    }
}

/// Whether some lanes are among others.
pub open spec fn within(lanes: u64, others: u64) -> bool {
    forall|register: int, lane: int|
        #![trigger in_lanes(lanes, register, lane)]
        #![trigger in_lanes(others, register, lane)]
        0 <= register < 16 && 0 <= lane < 4 && in_lanes(lanes, register, lane) ==> in_lanes(
            others,
            register,
            lane,
        )
}

pub(crate) proof fn lemma_has_either(lanes: u64, more: u64, register: int, lane: int)
    requires
        0 <= register < 16,
        0 <= lane < 4,
    ensures
        in_lanes(lanes | more, register, lane) == (in_lanes(lanes, register, lane) || in_lanes(
            more,
            register,
            lane,
        )),
{
    let shift: u64 = (4 * register + lane) as u64;
    assert(((lanes | more) & (1u64 << shift) != 0) == (lanes & (1u64 << shift) != 0 || more & (1u64
        << shift) != 0)) by (bit_vector);
}

pub(crate) proof fn lemma_has_register(named: u8, size: Option<Size>, register: int, lane: int)
    requires
        named < 16,
        0 <= register < 16,
        0 <= lane < 4,
    ensures
        in_lanes(spec_register_lanes(named, size), register, lane) == (named == register && lane
            < lane_count(register, size)),
{
    let shift: u64 = (4 * register + lane) as u64;
    let up: u32 = ((named as u32) * 4) as u32;
    let mask: u64 = if named >= 8 {
        0xf
    } else {
        spec_lane_mask(size)
    };
    assert(spec_register_lanes(named, size) == mask << up);
    assert(((mask << up) & (1u64 << shift) != 0) == (up <= shift && shift < up + 4 && mask & (1u64
        << ((shift - up) as u64)) != 0)) by (bit_vector)
        requires
            mask < 16,
            up <= 60,
            shift < 64,
    ;
    if up <= shift && shift < up + 4 {
        assert(named == register);
        let within: u64 = (shift - up) as u64;
        assert(within == lane);
        lemma_mask_bits(mask, within);
    }
}

proof fn lemma_mask_bits(mask: u64, lane: u64)
    requires
        lane < 4,
        mask == 1 || mask == 3 || mask == 15,
    ensures
        (mask & (1u64 << lane) != 0) == (mask == 15 || mask == 3 && lane < 2 || lane == 0),
{
    assert((mask & (1u64 << lane) != 0) == (mask == 15 || mask == 3 && lane < 2 || lane == 0))
        by (bit_vector)
        requires
            lane < 4,
            mask == 1 || mask == 3 || mask == 15,
    ;
}

pub(crate) proof fn lemma_has_nothing(register: int, lane: int)
    ensures
        !in_lanes(0, register, lane),
{
    let shift: u64 = (4 * register + lane) as u64;
    assert(0u64 & (1u64 << shift) == 0) by (bit_vector);
}

/// Reading one more register keeps what was read and adds its low bytes.
pub(crate) proof fn lemma_reads(e: Effects, named: u8, size: Option<Size>, pointer: bool)
    requires
        named < 16,
    ensures
        within(e.reads, spec_reads(e, named, size, pointer).reads),
        holds_low(spec_reads(e, named, size, pointer).reads, named as int, size),
        spec_reads(e, named, size, pointer).writes == e.writes,
{
    let after = spec_reads(e, named, size, pointer);
    assert forall|register: int, lane: int|
        0 <= register < 16 && 0 <= lane < 4 && #[trigger] in_lanes(e.reads, register, lane) implies in_lanes(
        after.reads,
        register,
        lane,
    ) by {
        lemma_has_either(e.reads, spec_register_lanes(named, size), register, lane);
    }
    assert forall|lane: int| 0 <= lane < lane_count(named as int, size) implies #[trigger] in_lanes(
        after.reads,
        named as int,
        lane,
    ) by {
        lemma_has_either(e.reads, spec_register_lanes(named, size), named as int, lane);
        lemma_has_register(named, size, named as int, lane);
    }
}

/// Writing one more register adds its low bytes to what is written.
pub(crate) proof fn lemma_writes(e: Effects, named: u8, size: Option<Size>)
    requires
        named < 16,
    ensures
        spec_writes_lanes(e, named, size).reads == e.reads,
        forall|register: int, lane: int|
            #![trigger in_lanes(spec_writes_lanes(e, named, size).writes, register, lane)]
            0 <= register < 16 && 0 <= lane < 4 ==> in_lanes(
                spec_writes_lanes(e, named, size).writes,
                register,
                lane,
            ) == (in_lanes(e.writes, register, lane) || named == register && lane < lane_count(
                register,
                size,
            )),
{
    assert forall|register: int, lane: int|
        #![trigger in_lanes(spec_writes_lanes(e, named, size).writes, register, lane)]
        0 <= register < 16 && 0 <= lane < 4 implies in_lanes(
        spec_writes_lanes(e, named, size).writes,
        register,
        lane,
    ) == (in_lanes(e.writes, register, lane) || named == register && lane < lane_count(register, size)) by {
        lemma_has_either(e.writes, spec_register_lanes(named, size), register, lane);
        lemma_has_register(named, size, register, lane);
    }
}

proof fn lemma_index(e: Effects, extension: BriefExtensionWord)
    ensures
        within(e.reads, spec_read_index(e, extension).reads),
        holds_low(spec_read_index(e, extension).reads, index_position(extension), None),
        spec_read_index(e, extension).writes == e.writes,
        0 <= index_position(extension) < 16,
{
    extension_fields(extension);
    if extension.spec_index_is_address() {
        lemma_reads(e, spec_address_bit(extension.spec_index()), None, true);
    } else {
        lemma_reads(e, extension.spec_index(), None, false);
    }
}

/// The register that an operand steps.
pub open spec fn steps(mode: AddressingMode, register: int) -> bool {
    match mode {
        AddressingMode::Ariwpo(base) | AddressingMode::Ariwpr(base) => register == 8 + base,
        _ => false,
    }
}

/// The low longword of a register is all of it.
proof fn lemma_whole(lanes: u64, register: int)
    requires
        holds_low(lanes, register, Some(Size::Long)),
    ensures
        holds_low(lanes, register, None),
{
    assert forall|lane: int| 0 <= lane < lane_count(register, None) implies #[trigger] in_lanes(
        lanes,
        register,
        lane,
    ) by {
        assert(lane_count(register, None) == lane_count(register, Some(Size::Long)));
    }
}

/// Forming an address keeps what was read, reads the registers that form it and writes the
/// one that steps.
proof fn lemma_address(e: Effects, mode: AddressingMode)
    requires
        mode.in_range(),
    ensures
        within(e.reads, spec_address_ea(e, mode).reads),
        holds_base(spec_address_ea(e, mode).reads, mode),
        holds_operand(spec_address_ea(e, mode).reads, mode, None),
        forall|register: int, lane: int|
            #![trigger in_lanes(spec_address_ea(e, mode).writes, register, lane)]
            0 <= register < 16 && 0 <= lane < 4 ==> in_lanes(
                spec_address_ea(e, mode).writes,
                register,
                lane,
            ) == (in_lanes(e.writes, register, lane) || steps(mode, register)),
{
    match mode {
        AddressingMode::Ari(base) | AddressingMode::Ariwd(base, _) => {
            lemma_reads(e, spec_address_bit(base), Some(Size::Long), true);
            lemma_whole(spec_address_ea(e, mode).reads, 8 + base);
        },
        AddressingMode::Ariwpo(base) | AddressingMode::Ariwpr(base) => {
            let bit = spec_address_bit(base);
            lemma_reads(e, bit, Some(Size::Long), true);
            lemma_writes(spec_reads(e, bit, Some(Size::Long), true), bit, None);
            lemma_whole(spec_address_ea(e, mode).reads, 8 + base);
        },
        AddressingMode::Ariwi8(base, extension) => {
            let based = spec_reads(e, spec_address_bit(base), Some(Size::Long), true);
            lemma_reads(e, spec_address_bit(base), Some(Size::Long), true);
            lemma_whole(based.reads, 8 + base);
            lemma_index(based, extension);
        },
        AddressingMode::Pciwi8(_, extension) => {
            lemma_index(e, extension);
        },
        AddressingMode::Drd(register) => {
            lemma_reads(e, register, None, false);
        },
        AddressingMode::Ard(register) => {
            lemma_reads(e, spec_address_bit(register), None, false);
        },
        _ => {},
    }
}

/// Whether an operand is a register, with a lane of it that a size fills.
pub open spec fn fills(mode: AddressingMode, size: Option<Size>, register: int, lane: int) -> bool {
    match mode {
        AddressingMode::Drd(named) => register == named && lane < lane_count(register, size),
        AddressingMode::Ard(named) => register == 8 + named,
        _ => false,
    }
}

/// Reading, writing and modifying an operand keep what was read; all but writing read it, and
/// all but reading write it.
pub(crate) proof fn lemma_operand(e: Effects, mode: AddressingMode, size: Option<Size>)
    requires
        mode.in_range(),
    ensures
        within(e.reads, spec_read_ea(e, mode, size).reads),
        within(e.reads, spec_write_ea(e, mode, size).reads),
        within(e.reads, spec_modify_ea(e, mode, size).reads),
        holds_operand(spec_read_ea(e, mode, size).reads, mode, size),
        holds_operand(spec_modify_ea(e, mode, size).reads, mode, size),
        holds_base(spec_write_ea(e, mode, size).reads, mode),
        forall|register: int, lane: int|
            #![trigger in_lanes(spec_read_ea(e, mode, size).writes, register, lane)]
            0 <= register < 16 && 0 <= lane < 4 ==> in_lanes(
                spec_read_ea(e, mode, size).writes,
                register,
                lane,
            ) == (in_lanes(e.writes, register, lane) || steps(mode, register)),
        forall|register: int, lane: int|
            #![trigger in_lanes(spec_write_ea(e, mode, size).writes, register, lane)]
            0 <= register < 16 && 0 <= lane < 4 ==> in_lanes(
                spec_write_ea(e, mode, size).writes,
                register,
                lane,
            ) == (in_lanes(e.writes, register, lane) || steps(mode, register) || fills(
                mode,
                size,
                register,
                lane,
            )),
        forall|register: int, lane: int|
            #![trigger in_lanes(spec_modify_ea(e, mode, size).writes, register, lane)]
            0 <= register < 16 && 0 <= lane < 4 ==> in_lanes(
                spec_modify_ea(e, mode, size).writes,
                register,
                lane,
            ) == (in_lanes(e.writes, register, lane) || steps(mode, register) || fills(
                mode,
                size,
                register,
                lane,
            )),
{
    lemma_address(e, mode);
    match mode {
        AddressingMode::Drd(register) => {
            lemma_reads(e, register, size, false);
            lemma_writes(e, register, size);
            lemma_writes(spec_reads(e, register, size, false), register, size);
        },
        AddressingMode::Ard(register) => {
            let bit = spec_address_bit(register);
            lemma_reads(e, bit, size, false);
            lemma_writes(e, bit, None);
            lemma_writes(spec_reads(e, bit, size, false), bit, None);
        },
        _ => {},
    }
}

/// A number is made up of its bytes.
pub(crate) proof fn lemma_bytes(value: int)
    requires
        0 <= value < 0x1_0000_0000,
    ensures
        value == byte_of(value, 0) + 0x100 * byte_of(value, 1) + 0x1_0000 * byte_of(value, 2)
            + 0x100_0000 * byte_of(value, 3),
        low(value, Size::Byte) == byte_of(value, 0),
        low(value, Size::Word) == byte_of(value, 0) + 0x100 * byte_of(value, 1),
        low(value, Size::Long) == value,
        forall|lane: int| 0 <= #[trigger] byte_of(value, lane) < 0x100,
{
}

/// Machines that agree on the low bytes of a register have the same number there.
proof fn lemma_same(m: Machine, n: Machine, lanes: u64, register: int, size: Option<Size>)
    requires
        alike(m, n),
        agree(m, n, lanes),
        0 <= register < 16,
        holds_low(lanes, register, size),
    ensures
        match size {
            Some(size) => low(m.registers[register], size) == low(n.registers[register], size),
            None => m.registers[register] == n.registers[register],
        },
        register >= 8 ==> m.registers[register] == n.registers[register],
        size == Some(Size::Long) ==> m.registers[register] == n.registers[register],
{
    lemma_bytes(m.registers[register]);
    lemma_bytes(n.registers[register]);
    assert(in_lanes(lanes, register, 0));
    if lane_count(register, size) >= 2 {
        assert(in_lanes(lanes, register, 1));
    }
    if lane_count(register, size) == 4 {
        assert(in_lanes(lanes, register, 2));
        assert(in_lanes(lanes, register, 3));
    }
}

/// Machines that agree on what an operand is read from find it at the same place and find the
/// same in it.
proof fn lemma_same_operand(m: Machine, n: Machine, lanes: u64, mode: AddressingMode, size: Size)
    requires
        alike(m, n),
        agree(m, n, lanes),
        mode.in_range(),
        holds_base(lanes, mode),
    ensures
        !(mode is Drd) && !(mode is Ard) ==> formed(m, mode, size) == formed(n, mode, size),
        holds_operand(lanes, mode, None) ==> formed(m, mode, size) == formed(n, mode, size),
        holds_operand(lanes, mode, Some(size)) ==> fetched(m, mode, size) == fetched(n, mode, size),
        forall|register: int|
            steps(mode, register) ==> #[trigger] stepped(m, mode, size).registers[register]
                == stepped(n, mode, size).registers[register],
        mode is Ard && holds_operand(lanes, mode, Some(size)) ==> m.address(mode->Ard_0)
            == n.address(mode->Ard_0),
{
    match mode {
        AddressingMode::Ari(base)
        | AddressingMode::Ariwpo(base)
        | AddressingMode::Ariwpr(base)
        | AddressingMode::Ariwd(base, _) => {
            lemma_same(m, n, lanes, 8 + base, None);
        },
        AddressingMode::Ariwi8(base, extension) => {
            lemma_same(m, n, lanes, 8 + base, None);
            extension_fields(extension);
            lemma_same(m, n, lanes, index_position(extension), None);
        },
        AddressingMode::Pciwi8(_, extension) => {
            extension_fields(extension);
            lemma_same(m, n, lanes, index_position(extension), None);
        },
        AddressingMode::Drd(register) => {
            if holds_operand(lanes, mode, Some(size)) {
                lemma_same(m, n, lanes, register as int, Some(size));
            }
            if holds_operand(lanes, mode, None) {
                lemma_same(m, n, lanes, register as int, None);
            }
        },
        AddressingMode::Ard(register) => {
            if holds_operand(lanes, mode, None) {
                lemma_same(m, n, lanes, 8 + register, None);
            }
        },
        _ => {},
    }
}

/// Putting other low bytes into a number changes those bytes and no others.
proof fn lemma_replaced(held: int, size: Size, value: int, lane: int)
    requires
        0 <= held < 0x1_0000_0000,
        0 <= lane < 4,
    ensures
        0 <= replaced(held, size, value) < 0x1_0000_0000,
        lane >= lane_count(0, Some(size)) ==> byte_of(replaced(held, size, value), lane) == byte_of(
            held,
            lane,
        ),
        lane < lane_count(0, Some(size)) ==> byte_of(replaced(held, size, value), lane) == byte_of(
            low(value, size),
            lane,
        ),
{
    let new = low(value, size);
    match size {
        Size::Byte => {
            lemma_split(held / 0x100, new);
            lemma_split(held / 0x100, held % 0x100);
        },
        Size::Word => {
            lemma_split_word(held / 0x1_0000, new);
            lemma_split_word(held / 0x1_0000, held % 0x1_0000);
        },
        Size::Long => {},
    }
}

proof fn lemma_split(upper: int, lower: int)
    requires
        0 <= upper < 0x100_0000,
        0 <= lower < 0x100,
    ensures
        byte_of(upper * 0x100 + lower, 0) == lower,
        byte_of(lower, 0) == lower,
        byte_of(upper * 0x100 + lower, 1) == upper % 0x100,
        byte_of(upper * 0x100 + lower, 2) == (upper / 0x100) % 0x100,
        byte_of(upper * 0x100 + lower, 3) == (upper / 0x1_0000) % 0x100,
{
}

proof fn lemma_split_word(upper: int, lower: int)
    requires
        0 <= upper < 0x1_0000,
        0 <= lower < 0x1_0000,
    ensures
        byte_of(upper * 0x1_0000 + lower, 0) == byte_of(lower, 0),
        byte_of(upper * 0x1_0000 + lower, 1) == byte_of(lower, 1),
        byte_of(upper * 0x1_0000 + lower, 2) == upper % 0x100,
        byte_of(upper * 0x1_0000 + lower, 3) == (upper / 0x100) % 0x100,
{
}

/// What the law on lanes asks of its inputs.
spec fn is_asked(m: Machine, n: Machine, instruction: Instruction, register: int, lane: int) -> bool {
    &&& alike(m, n)
    &&& instruction.wf()
    &&& is_encodable(instruction)
    &&& spec_operand_effects(instruction).complete
    &&& agree(m, n, spec_operand_effects(instruction).reads)
    &&& 0 <= register < 16
    &&& 0 <= lane < 4
}

/// What the law on lanes states.
spec fn is_right(m: Machine, n: Machine, instruction: Instruction, register: int, lane: int) -> bool {
    let writes = spec_operand_effects(instruction).writes;
    let after = executed(m, instruction).registers[register];
    &&& emitted(m, instruction) == emitted(n, instruction)
    &&& register == 15 && moves_stack(instruction.isa) || if in_lanes(writes, register, lane) {
        byte_of(after, lane) == byte_of(executed(n, instruction).registers[register], lane)
    } else {
        byte_of(after, lane) == byte_of(m.registers[register], lane)
    }
}

/// The lanes of an instruction are right: whatever it leaves in the lanes that it is said to
/// write, and whatever it stores, reaches or compares, is settled by the lanes that it is said
/// to read, so that machines with the same bytes there come out the same; and every other lane
/// keeps its byte. The stack pointer is left out where the instruction moves it besides.
pub proof fn lanes_read_settle_lanes_written(
    m: Machine,
    n: Machine,
    instruction: Instruction,
    register: int,
    lane: int,
)
    requires
        alike(m, n),
        instruction.wf(),
        is_encodable(instruction),
        spec_operand_effects(instruction).complete,
        agree(m, n, spec_operand_effects(instruction).reads),
        0 <= register < 16,
        0 <= lane < 4,
    ensures
        emitted(m, instruction) == emitted(n, instruction),
        register == 15 && moves_stack(instruction.isa) || if in_lanes(
            spec_operand_effects(instruction).writes,
            register,
            lane,
        ) {
            byte_of(executed(m, instruction).registers[register], lane) == byte_of(
                executed(n, instruction).registers[register],
                lane,
            )
        } else {
            byte_of(executed(m, instruction).registers[register], lane) == byte_of(
                m.registers[register],
                lane,
            )
        },
{
    match instruction.operands {
        Operands::NoOperands => {
            lemma_right_no_operands(m, n, instruction, register, lane);
        },
        Operands::Immediate(_) => {
            lemma_right_status(m, n, instruction, register, lane);
        },
        Operands::Vector(_) => {
            lemma_right_vector(m, n, instruction, register, lane);
        },
        Operands::Displacement(_) => {
            lemma_right_branch(m, n, instruction, register, lane);
        },
        Operands::ConditionDisplacement(_, _) => {
            lemma_right_conditional(m, n, instruction, register, lane);
        },
        Operands::RegisterData(_, _) => {
            lemma_right_data(m, n, instruction, register, lane);
        },
        Operands::RegisterEffectiveAddress(_, _) => {
            lemma_right_register_source(m, n, instruction, register, lane);
        },
        Operands::RegisterSizeEffectiveAddress(_, _, _) => {
            lemma_right_address_arithmetic(m, n, instruction, register, lane);
        },
        Operands::RegisterOpmodeRegister(_, _, _) => {
            lemma_right_exchange(m, n, instruction, register, lane);
        },
        Operands::SizeEffectiveAddressImmediate(_, _, _) => {
            lemma_right_immediate(m, n, instruction, register, lane);
        },
        Operands::EffectiveAddressCount(_, _) => {
            lemma_right_bit(m, n, instruction, register, lane);
        },
        Operands::EffectiveAddress(_) => {
            lemma_right_lone(m, n, instruction, register, lane);
        },
        Operands::SizeEffectiveAddress(_, _) => {
            lemma_right_unary(m, n, instruction, register, lane);
        },
        Operands::RegisterDirectionSizeRegisterDisplacement(_, _, _, _, _) => {
            lemma_right_movep(m, n, instruction, register, lane);
        },
        Operands::OpmodeRegister(_, _) => {
            lemma_right_extension(m, n, instruction, register, lane);
        },
        Operands::RegisterDisplacement(_, _) => {
            lemma_right_link(m, n, instruction, register, lane);
        },
        Operands::Register(_) => {
            lemma_right_swap(m, n, instruction, register, lane);
        },
        Operands::DirectionRegister(_, _) => {
            lemma_right_user_stack(m, n, instruction, register, lane);
        },
        Operands::DataSizeEffectiveAddress(_, _, _) => {
            lemma_right_quick(m, n, instruction, register, lane);
        },
        Operands::ConditionEffectiveAddress(_, _) => {
            lemma_right_condition(m, n, instruction, register, lane);
        },
        Operands::ConditionRegisterDisplacement(_, _, _) => {
            lemma_right_loop(m, n, instruction, register, lane);
        },
        Operands::RegisterDirectionSizeEffectiveAddress(_, _, _, _) => {
            lemma_right_arithmetic(m, n, instruction, register, lane);
        },
        Operands::RegisterSizeModeRegister(_, _, _, _) => {
            lemma_right_extended(m, n, instruction, register, lane);
        },
        Operands::RegisterSizeRegister(_, _, _) => {
            lemma_right_comparison(m, n, instruction, register, lane);
        },
        Operands::DirectionEffectiveAddress(_, _) => {
            lemma_right_memory_shift(m, n, instruction, register, lane);
        },
        Operands::RotationDirectionSizeModeRegister(_, _, _, _, _) => {
            lemma_right_shift(m, n, instruction, register, lane);
        },
        Operands::SizeEffectiveAddressEffectiveAddress(_, _, _) => {
            lemma_right_move(m, n, instruction, register, lane);
        },
        Operands::SizeRegisterEffectiveAddress(_, _, _) => {
            lemma_right_movea(m, n, instruction, register, lane);
        },
        Operands::DirectionSizeEffectiveAddressList(_, _, _, _) => {
            lemma_right_movem(m, n, instruction, register, lane);
        },
    }
}

/// What was held of an operand is still held.
proof fn lemma_passed(before: u64, after: u64, mode: AddressingMode, size: Option<Size>)
    requires
        within(before, after),
        mode.in_range(),
        holds_operand(before, mode, size),
    ensures
        holds_operand(after, mode, size),
        holds_base(after, mode),
{
    match mode {
        AddressingMode::Ariwi8(_, extension) | AddressingMode::Pciwi8(_, extension) => {
            extension_fields(extension);
        },
        _ => {},
    }
}

proof fn lemma_low_of_whole(lanes: u64, register: int, size: Size)
    requires
        holds_low(lanes, register, None),
    ensures
        holds_low(lanes, register, Some(size)),
{
    assert forall|lane: int| 0 <= lane < lane_count(register, Some(size)) implies #[trigger] in_lanes(
        lanes,
        register,
        lane,
    ) by {
        assert(lane < lane_count(register, None));
    }
}

/// Machines that agree on what forms an address still do when it has stepped.
proof fn lemma_stepped(m: Machine, n: Machine, lanes: u64, mode: AddressingMode, size: Size)
    requires
        alike(m, n),
        agree(m, n, lanes),
        mode.in_range(),
        holds_base(lanes, mode),
    ensures
        alike(stepped(m, mode, size), stepped(n, mode, size)),
        agree(stepped(m, mode, size), stepped(n, mode, size), lanes),
{
    lemma_same_operand(m, n, lanes, mode, size);
    let a = stepped(m, mode, size);
    let b = stepped(n, mode, size);
    assert forall|register: int, lane: int|
        0 <= register < 16 && 0 <= lane < 4 && #[trigger] in_lanes(
            lanes,
            register,
            lane,
        ) implies byte_of(a.registers[register], lane) == byte_of(b.registers[register], lane) by {
        if steps(mode, register) {
            assert(a.registers[register] == b.registers[register]);
        } else {
            assert(a.registers[register] == m.registers[register]);
            assert(b.registers[register] == n.registers[register]);
        }
    }
}

/// An operation on an operand that machines agree on changes the operand alike and leaves the
/// rest.
proof fn lemma_operated(
    m: Machine,
    n: Machine,
    lanes: u64,
    isa: Isa,
    mode: AddressingMode,
    size: Size,
    source: int,
    register: int,
    lane: int,
)
    requires
        alike(m, n),
        agree(m, n, lanes),
        mode.in_range(),
        holds_base(lanes, mode),
        overwrites(isa) || holds_operand(lanes, mode, Some(size)),
        0 <= register < 16,
        0 <= lane < 4,
    ensures
        shown(m, isa, mode, size, source) == shown(n, isa, mode, size, source),
        formed_or_none(m, mode, size) == formed_or_none(n, mode, size),
        holds_operand(lanes, mode, Some(size)) ==> fetched(m, mode, size) == fetched(n, mode, size),
        steps(mode, register) ==> stepped(m, mode, size).registers[register] == stepped(
            n,
            mode,
            size,
        ).registers[register],
        !steps(mode, register) ==> stepped(m, mode, size).registers[register]
            == m.registers[register],
        steps(mode, register) || fills(mode, Some(size), register, lane) ==> byte_of(
            operated(m, isa, mode, size, source).registers[register],
            lane,
        ) == byte_of(operated(n, isa, mode, size, source).registers[register], lane),
        !steps(mode, register) && !fills(mode, Some(size), register, lane) ==> byte_of(
            operated(m, isa, mode, size, source).registers[register],
            lane,
        ) == byte_of(m.registers[register], lane),
{
    lemma_same_operand(m, n, lanes, mode, size);
    assert(result(m, isa, mode, size, source) == result(n, isa, mode, size, source));
    if let AddressingMode::Drd(named) = mode {
        let value = result(m, isa, mode, size, source);
        lemma_replaced(m.data(named), size, value, lane);
        lemma_replaced(n.data(named), size, value, lane);
    }
}

/// Two operands that step are read and written whole.
proof fn lemma_both(m: Machine, n: Machine, lanes: u64, left: u8, right: u8)
    requires
        left < 8,
        right < 8,
        alike(m, n),
        lanes == spec_steps(
            spec_steps(spec_no_effect(), spec_address_bit(left)),
            spec_address_bit(right),
        ).reads,
        agree(m, n, lanes),
    ensures
        m.address(left) == n.address(left),
        m.address(right) == n.address(right),
        forall|register: int, lane: int|
            #![trigger in_lanes(
                spec_steps(
                    spec_steps(spec_no_effect(), spec_address_bit(left)),
                    spec_address_bit(right),
                ).writes,
                register,
                lane,
            )]
            0 <= register < 16 && 0 <= lane < 4 ==> in_lanes(
                spec_steps(
                    spec_steps(spec_no_effect(), spec_address_bit(left)),
                    spec_address_bit(right),
                ).writes,
                register,
                lane,
            ) == (register == 8 + left || register == 8 + right),
{
    let none = spec_no_effect();
    let one = spec_address_bit(left);
    let other = spec_address_bit(right);
    let first = spec_steps(none, one);
    lemma_reads(none, one, Some(Size::Long), true);
    lemma_writes(spec_reads(none, one, Some(Size::Long), true), one, None);
    lemma_reads(first, other, Some(Size::Long), true);
    lemma_writes(spec_reads(first, other, Some(Size::Long), true), other, None);
    lemma_same(m, n, lanes, 8 + left, Some(Size::Long));
    lemma_same(m, n, lanes, 8 + right, Some(Size::Long));
    assert forall|register: int, lane: int| !in_lanes(none.writes, register, lane) by {
        lemma_has_nothing(register, lane);
    }
}

#[verifier::spinoff_prover]
#[verifier::rlimit(40)]
proof fn lemma_right_no_operands(
    m: Machine,
    n: Machine,
    instruction: Instruction,
    register: int,
    lane: int,
)
    requires
        is_asked(m, n, instruction, register, lane),
        instruction.operands is NoOperands,
    ensures
        is_right(m, n, instruction, register, lane),
{
    lemma_has_nothing(register, lane);
}

#[verifier::spinoff_prover]
#[verifier::rlimit(40)]
proof fn lemma_right_status(
    m: Machine,
    n: Machine,
    instruction: Instruction,
    register: int,
    lane: int,
)
    requires
        is_asked(m, n, instruction, register, lane),
        instruction.operands is Immediate,
    ensures
        is_right(m, n, instruction, register, lane),
{
    lemma_has_nothing(register, lane);
}

#[verifier::spinoff_prover]
#[verifier::rlimit(40)]
proof fn lemma_right_vector(
    m: Machine,
    n: Machine,
    instruction: Instruction,
    register: int,
    lane: int,
)
    requires
        is_asked(m, n, instruction, register, lane),
        instruction.operands is Vector,
    ensures
        is_right(m, n, instruction, register, lane),
{
    lemma_has_nothing(register, lane);
}

#[verifier::spinoff_prover]
#[verifier::rlimit(40)]
proof fn lemma_right_branch(
    m: Machine,
    n: Machine,
    instruction: Instruction,
    register: int,
    lane: int,
)
    requires
        is_asked(m, n, instruction, register, lane),
        instruction.operands is Displacement,
    ensures
        is_right(m, n, instruction, register, lane),
{
    lemma_has_nothing(register, lane);
}

#[verifier::spinoff_prover]
#[verifier::rlimit(40)]
proof fn lemma_right_conditional(
    m: Machine,
    n: Machine,
    instruction: Instruction,
    register: int,
    lane: int,
)
    requires
        is_asked(m, n, instruction, register, lane),
        instruction.operands is ConditionDisplacement,
    ensures
        is_right(m, n, instruction, register, lane),
{
    lemma_has_nothing(register, lane);
}

#[verifier::spinoff_prover]
#[verifier::rlimit(40)]
proof fn lemma_right_data(
    m: Machine,
    n: Machine,
    instruction: Instruction,
    register: int,
    lane: int,
)
    requires
        is_asked(m, n, instruction, register, lane),
        instruction.operands is RegisterData,
    ensures
        is_right(m, n, instruction, register, lane),
{
    lemma_has_nothing(register, lane);
    let isa = instruction.isa;
    let none = spec_no_effect();
    let lanes = spec_operand_effects(instruction).reads;
    if let Operands::RegisterData(named, _) = instruction.operands {
        lemma_writes(none, named, None);
    }
}

#[verifier::spinoff_prover]
#[verifier::rlimit(40)]
proof fn lemma_right_register_source(
    m: Machine,
    n: Machine,
    instruction: Instruction,
    register: int,
    lane: int,
)
    requires
        is_asked(m, n, instruction, register, lane),
        instruction.operands is RegisterEffectiveAddress,
    ensures
        is_right(m, n, instruction, register, lane),
{
    lemma_has_nothing(register, lane);
    let isa = instruction.isa;
    let none = spec_no_effect();
    let lanes = spec_operand_effects(instruction).reads;
    if let Operands::RegisterEffectiveAddress(named, mode) = instruction.operands {
        lemma_address(none, mode);
        lemma_operand(none, mode, Some(Size::Word));
        let read = spec_read_ea(none, mode, Some(Size::Word));
        lemma_reads(read, named, Some(Size::Word), false);
        lemma_reads(read, named, Some(Size::Long), false);
        lemma_writes(spec_reads(read, named, Some(Size::Word), false), named, None);
        lemma_writes(spec_reads(read, named, Some(Size::Long), false), named, None);
        lemma_writes(spec_address_ea(none, mode), spec_address_bit(named), None);
        if isa != Isa::Lea {
            lemma_passed(read.reads, lanes, mode, Some(Size::Word));
        }
        lemma_same_operand(m, n, lanes, mode, Size::Long);
        lemma_same_operand(m, n, lanes, mode, Size::Word);
        if isa == Isa::Chk || isa == Isa::Muls || isa == Isa::Mulu {
            lemma_same(m, n, lanes, named as int, Some(Size::Word));
        } else if isa != Isa::Lea {
            lemma_same(m, n, lanes, named as int, Some(Size::Long));
        }
    }
}

#[verifier::spinoff_prover]
#[verifier::rlimit(40)]
proof fn lemma_right_address_arithmetic(
    m: Machine,
    n: Machine,
    instruction: Instruction,
    register: int,
    lane: int,
)
    requires
        is_asked(m, n, instruction, register, lane),
        instruction.operands is RegisterSizeEffectiveAddress,
    ensures
        is_right(m, n, instruction, register, lane),
{
    lemma_has_nothing(register, lane);
    let isa = instruction.isa;
    let none = spec_no_effect();
    let lanes = spec_operand_effects(instruction).reads;
    if let Operands::RegisterSizeEffectiveAddress(named, size, mode) = instruction.operands {
        let bit = spec_address_bit(named);
        let fetch = spec_read_ea(none, mode, Some(size));
        let read = spec_reads(fetch, bit, Some(Size::Long), false);
        lemma_operand(none, mode, Some(size));
        lemma_reads(fetch, bit, Some(Size::Long), false);
        lemma_writes(read, bit, None);
        lemma_passed(fetch.reads, lanes, mode, Some(size));
        lemma_same_operand(m, n, lanes, mode, size);
        lemma_same(m, n, lanes, 8 + named, Some(Size::Long));
        assert(stepped(m, mode, size).address(named) == stepped(n, mode, size).address(named));
    }
}

#[verifier::spinoff_prover]
#[verifier::rlimit(40)]
proof fn lemma_right_exchange(
    m: Machine,
    n: Machine,
    instruction: Instruction,
    register: int,
    lane: int,
)
    requires
        is_asked(m, n, instruction, register, lane),
        instruction.operands is RegisterOpmodeRegister,
    ensures
        is_right(m, n, instruction, register, lane),
{
    lemma_has_nothing(register, lane);
    let isa = instruction.isa;
    let none = spec_no_effect();
    let lanes = spec_operand_effects(instruction).reads;
    if let Operands::RegisterOpmodeRegister(left, direction, right) = instruction.operands {
        let one: u8 = if direction == Direction::ExchangeAddress {
            spec_address_bit(left)
        } else {
            left
        };
        let other: u8 = if direction == Direction::ExchangeData {
            right
        } else {
            spec_address_bit(right)
        };
        let first = spec_reads(none, one, Some(Size::Long), false);
        let second = spec_reads(first, other, Some(Size::Long), false);
        lemma_reads(none, one, Some(Size::Long), false);
        lemma_reads(first, other, Some(Size::Long), false);
        lemma_writes(second, one, None);
        lemma_writes(spec_writes_lanes(second, one, None), other, None);
        lemma_whole(first.reads, one as int);
        lemma_whole(lanes, other as int);
        lemma_same(m, n, lanes, one as int, None);
        lemma_same(m, n, lanes, other as int, None);
    }
}

#[verifier::spinoff_prover]
#[verifier::rlimit(40)]
proof fn lemma_right_immediate(
    m: Machine,
    n: Machine,
    instruction: Instruction,
    register: int,
    lane: int,
)
    requires
        is_asked(m, n, instruction, register, lane),
        instruction.operands is SizeEffectiveAddressImmediate,
    ensures
        is_right(m, n, instruction, register, lane),
{
    lemma_has_nothing(register, lane);
    let isa = instruction.isa;
    let none = spec_no_effect();
    let lanes = spec_operand_effects(instruction).reads;
    if let Operands::SizeEffectiveAddressImmediate(size, mode, value) = instruction.operands {
        lemma_operand(none, mode, Some(size));
        lemma_operated(m, n, lanes, isa, mode, size, low(value as int, size), register, lane);
    }
}

#[verifier::spinoff_prover]
#[verifier::rlimit(40)]
proof fn lemma_right_bit(
    m: Machine,
    n: Machine,
    instruction: Instruction,
    register: int,
    lane: int,
)
    requires
        is_asked(m, n, instruction, register, lane),
        instruction.operands is EffectiveAddressCount,
    ensures
        is_right(m, n, instruction, register, lane),
{
    lemma_has_nothing(register, lane);
    let isa = instruction.isa;
    let none = spec_no_effect();
    let lanes = spec_operand_effects(instruction).reads;
    if let Operands::EffectiveAddressCount(mode, count) = instruction.operands {
        lemma_bit(m, n, instruction, mode, count, register, lane);
    }
}

#[verifier::spinoff_prover]
#[verifier::rlimit(40)]
proof fn lemma_right_lone(
    m: Machine,
    n: Machine,
    instruction: Instruction,
    register: int,
    lane: int,
)
    requires
        is_asked(m, n, instruction, register, lane),
        instruction.operands is EffectiveAddress,
    ensures
        is_right(m, n, instruction, register, lane),
{
    lemma_has_nothing(register, lane);
    let isa = instruction.isa;
    let none = spec_no_effect();
    let lanes = spec_operand_effects(instruction).reads;
    if let Operands::EffectiveAddress(mode) = instruction.operands {
        lemma_address(none, mode);
        lemma_operand(none, mode, Some(Size::Word));
        lemma_operand(none, mode, Some(Size::Byte));
        lemma_same_operand(m, n, lanes, mode, Size::Long);
        lemma_same_operand(m, n, lanes, mode, Size::Word);
        if isa == Isa::Movefsr {
            lemma_operated(m, n, lanes, isa, mode, Size::Word, 0, register, lane);
        } else if isa == Isa::Nbcd || isa == Isa::Tas {
            lemma_operated(m, n, lanes, isa, mode, Size::Byte, 0, register, lane);
        }
    }
}

#[verifier::spinoff_prover]
#[verifier::rlimit(40)]
proof fn lemma_right_unary(
    m: Machine,
    n: Machine,
    instruction: Instruction,
    register: int,
    lane: int,
)
    requires
        is_asked(m, n, instruction, register, lane),
        instruction.operands is SizeEffectiveAddress,
    ensures
        is_right(m, n, instruction, register, lane),
{
    lemma_has_nothing(register, lane);
    let isa = instruction.isa;
    let none = spec_no_effect();
    let lanes = spec_operand_effects(instruction).reads;
    if let Operands::SizeEffectiveAddress(size, mode) = instruction.operands {
        lemma_operand(none, mode, Some(size));
        lemma_operated(m, n, lanes, isa, mode, size, 0, register, lane);
    }
}

#[verifier::spinoff_prover]
#[verifier::rlimit(40)]
proof fn lemma_right_movep(
    m: Machine,
    n: Machine,
    instruction: Instruction,
    register: int,
    lane: int,
)
    requires
        is_asked(m, n, instruction, register, lane),
        instruction.operands is RegisterDirectionSizeRegisterDisplacement,
    ensures
        is_right(m, n, instruction, register, lane),
{
    lemma_has_nothing(register, lane);
    let isa = instruction.isa;
    let none = spec_no_effect();
    let lanes = spec_operand_effects(instruction).reads;
    if let Operands::RegisterDirectionSizeRegisterDisplacement(data, direction, size, base, _) = instruction.operands {
        let bit = spec_address_bit(base);
        let based = spec_reads(none, bit, Some(Size::Long), true);
        lemma_reads(none, bit, Some(Size::Long), true);
        lemma_reads(based, data, Some(size), false);
        lemma_writes(based, data, Some(size));
        lemma_same(m, n, lanes, 8 + base, Some(Size::Long));
        if direction == Direction::RegisterToMemory {
            lemma_same(m, n, lanes, data as int, Some(size));
        } else {
            let value = m.load_spread(wrapped(m.address(base) + operands_distance(instruction)), size);
            lemma_replaced(m.data(data), size, value, lane);
            lemma_replaced(n.data(data), size, value, lane);
        }
    }
}

#[verifier::spinoff_prover]
#[verifier::rlimit(40)]
proof fn lemma_right_extension(
    m: Machine,
    n: Machine,
    instruction: Instruction,
    register: int,
    lane: int,
)
    requires
        is_asked(m, n, instruction, register, lane),
        instruction.operands is OpmodeRegister,
    ensures
        is_right(m, n, instruction, register, lane),
{
    lemma_has_nothing(register, lane);
    let isa = instruction.isa;
    let none = spec_no_effect();
    let lanes = spec_operand_effects(instruction).reads;
    if let Operands::OpmodeRegister(opmode, named) = instruction.operands {
        let size = if opmode == 2 {
            Size::Byte
        } else {
            Size::Word
        };
        let read = spec_reads(none, named, Some(size), false);
        lemma_reads(none, named, Some(size), false);
        lemma_writes(read, named, Some(Size::Word));
        lemma_writes(read, named, Some(Size::Long));
        lemma_same(m, n, lanes, named as int, Some(size));
        let value = signed(m.data(named), Size::Byte);
        lemma_replaced(m.data(named), Size::Word, value, lane);
        lemma_replaced(n.data(named), Size::Word, value, lane);
    }
}

#[verifier::spinoff_prover]
#[verifier::rlimit(40)]
proof fn lemma_right_link(
    m: Machine,
    n: Machine,
    instruction: Instruction,
    register: int,
    lane: int,
)
    requires
        is_asked(m, n, instruction, register, lane),
        instruction.operands is RegisterDisplacement,
    ensures
        is_right(m, n, instruction, register, lane),
{
    lemma_has_nothing(register, lane);
    let isa = instruction.isa;
    let none = spec_no_effect();
    let lanes = spec_operand_effects(instruction).reads;
    if let Operands::RegisterDisplacement(named, _) = instruction.operands {
        let bit = spec_address_bit(named);
        let read = spec_reads(none, bit, Some(Size::Long), false);
        let written = spec_writes_lanes(read, bit, None);
        lemma_reads(none, bit, Some(Size::Long), false);
        lemma_writes(read, bit, None);
        lemma_reads(written, 15, Some(Size::Long), true);
        lemma_writes(spec_reads(written, 15, Some(Size::Long), true), 15, None);
        lemma_whole(read.reads, 8 + named);
        lemma_whole(lanes, 15);
        lemma_same(m, n, lanes, 8 + named, None);
        lemma_same(m, n, lanes, 15, None);
    }
}

#[verifier::spinoff_prover]
#[verifier::rlimit(40)]
proof fn lemma_right_swap(
    m: Machine,
    n: Machine,
    instruction: Instruction,
    register: int,
    lane: int,
)
    requires
        is_asked(m, n, instruction, register, lane),
        instruction.operands is Register,
    ensures
        is_right(m, n, instruction, register, lane),
{
    lemma_has_nothing(register, lane);
    let isa = instruction.isa;
    let none = spec_no_effect();
    let lanes = spec_operand_effects(instruction).reads;
    if let Operands::Register(named) = instruction.operands {
        let bit: u8 = if isa == Isa::Swap {
            named
        } else {
            spec_address_bit(named)
        };
        let read = spec_reads(none, bit, None, false);
        lemma_reads(none, bit, None, false);
        lemma_writes(read, bit, None);
        lemma_writes(spec_writes_lanes(read, bit, None), 15, None);
        lemma_same(m, n, lanes, bit as int, None);
    }
}

#[verifier::spinoff_prover]
#[verifier::rlimit(40)]
proof fn lemma_right_user_stack(
    m: Machine,
    n: Machine,
    instruction: Instruction,
    register: int,
    lane: int,
)
    requires
        is_asked(m, n, instruction, register, lane),
        instruction.operands is DirectionRegister,
    ensures
        is_right(m, n, instruction, register, lane),
{
    lemma_has_nothing(register, lane);
    let isa = instruction.isa;
    let none = spec_no_effect();
    let lanes = spec_operand_effects(instruction).reads;
    if let Operands::DirectionRegister(direction, named) = instruction.operands {
        let bit = spec_address_bit(named);
        lemma_reads(none, bit, Some(Size::Long), false);
        lemma_writes(none, bit, None);
        if direction == Direction::RegisterToUsp {
            lemma_same(m, n, lanes, 8 + named, Some(Size::Long));
        }
    }
}

#[verifier::spinoff_prover]
#[verifier::rlimit(40)]
proof fn lemma_right_quick(
    m: Machine,
    n: Machine,
    instruction: Instruction,
    register: int,
    lane: int,
)
    requires
        is_asked(m, n, instruction, register, lane),
        instruction.operands is DataSizeEffectiveAddress,
    ensures
        is_right(m, n, instruction, register, lane),
{
    lemma_has_nothing(register, lane);
    let isa = instruction.isa;
    let none = spec_no_effect();
    let lanes = spec_operand_effects(instruction).reads;
    if let Operands::DataSizeEffectiveAddress(amount, size, mode) = instruction.operands {
        lemma_operand(none, mode, Some(size));
        lemma_operated(m, n, lanes, isa, mode, size, quick(amount), register, lane);
    }
}

#[verifier::spinoff_prover]
#[verifier::rlimit(40)]
proof fn lemma_right_condition(
    m: Machine,
    n: Machine,
    instruction: Instruction,
    register: int,
    lane: int,
)
    requires
        is_asked(m, n, instruction, register, lane),
        instruction.operands is ConditionEffectiveAddress,
    ensures
        is_right(m, n, instruction, register, lane),
{
    lemma_has_nothing(register, lane);
    let isa = instruction.isa;
    let none = spec_no_effect();
    let lanes = spec_operand_effects(instruction).reads;
    if let Operands::ConditionEffectiveAddress(condition, mode) = instruction.operands {
        lemma_operand(none, mode, Some(Size::Byte));
        lemma_operated(m, n, lanes, isa, mode, Size::Byte, condition as int, register, lane);
    }
}

#[verifier::spinoff_prover]
#[verifier::rlimit(40)]
proof fn lemma_right_loop(
    m: Machine,
    n: Machine,
    instruction: Instruction,
    register: int,
    lane: int,
)
    requires
        is_asked(m, n, instruction, register, lane),
        instruction.operands is ConditionRegisterDisplacement,
    ensures
        is_right(m, n, instruction, register, lane),
{
    lemma_has_nothing(register, lane);
    let isa = instruction.isa;
    let none = spec_no_effect();
    let lanes = spec_operand_effects(instruction).reads;
    if let Operands::ConditionRegisterDisplacement(condition, named, _) = instruction.operands {
        let read = spec_reads(none, named, Some(Size::Word), false);
        lemma_reads(none, named, Some(Size::Word), false);
        lemma_writes(read, named, Some(Size::Word));
        lemma_same(m, n, lanes, named as int, Some(Size::Word));
        let value = (m.unit)(isa, condition as int, low(m.data(named), Size::Word));
        lemma_replaced(m.data(named), Size::Word, value, lane);
        lemma_replaced(n.data(named), Size::Word, value, lane);
    }
}

#[verifier::spinoff_prover]
#[verifier::rlimit(40)]
proof fn lemma_right_arithmetic(
    m: Machine,
    n: Machine,
    instruction: Instruction,
    register: int,
    lane: int,
)
    requires
        is_asked(m, n, instruction, register, lane),
        instruction.operands is RegisterDirectionSizeEffectiveAddress,
    ensures
        is_right(m, n, instruction, register, lane),
{
    lemma_has_nothing(register, lane);
    let isa = instruction.isa;
    let none = spec_no_effect();
    let lanes = spec_operand_effects(instruction).reads;
    if let Operands::RegisterDirectionSizeEffectiveAddress(named, direction, size, mode) = instruction.operands {
        if direction == Direction::DstEa {
            let read = spec_reads(none, named, Some(size), false);
            lemma_reads(none, named, Some(size), false);
            lemma_operand(read, mode, Some(size));
            lemma_same(m, n, lanes, named as int, Some(size));
            lemma_operated(m, n, lanes, isa, mode, size, low(m.data(named), size), register, lane);
        } else {
            let fetch = spec_read_ea(none, mode, Some(size));
            let read = spec_reads(fetch, named, Some(size), false);
            lemma_operand(none, mode, Some(size));
            lemma_reads(fetch, named, Some(size), false);
            lemma_writes(read, named, Some(size));
            lemma_passed(fetch.reads, lanes, mode, Some(size));
            lemma_same_operand(m, n, lanes, mode, size);
            lemma_same(m, n, lanes, named as int, Some(size));
            let value = computed(m, isa, fetched(m, mode, size), low(m.data(named), size));
            lemma_replaced(m.data(named), size, value, lane);
            lemma_replaced(n.data(named), size, value, lane);
        }
    }
}

#[verifier::spinoff_prover]
#[verifier::rlimit(40)]
proof fn lemma_right_extended(
    m: Machine,
    n: Machine,
    instruction: Instruction,
    register: int,
    lane: int,
)
    requires
        is_asked(m, n, instruction, register, lane),
        instruction.operands is RegisterSizeModeRegister,
    ensures
        is_right(m, n, instruction, register, lane),
{
    lemma_has_nothing(register, lane);
    let isa = instruction.isa;
    let none = spec_no_effect();
    let lanes = spec_operand_effects(instruction).reads;
    if let Operands::RegisterSizeModeRegister(left, size, direction, right) = instruction.operands {
        if direction == Direction::RegisterToRegister {
            let first = spec_reads(none, left, Some(size), false);
            let second = spec_reads(first, right, Some(size), false);
            lemma_reads(none, left, Some(size), false);
            lemma_reads(first, right, Some(size), false);
            lemma_writes(second, left, Some(size));
            lemma_same(m, n, lanes, left as int, Some(size));
            lemma_same(m, n, lanes, right as int, Some(size));
            let value = (m.unit)(isa, low(m.data(right), size), low(m.data(left), size));
            lemma_replaced(m.data(left), size, value, lane);
            lemma_replaced(n.data(left), size, value, lane);
        } else {
            lemma_both(m, n, lanes, left, right);
        }
    }
}

#[verifier::spinoff_prover]
#[verifier::rlimit(40)]
proof fn lemma_right_comparison(
    m: Machine,
    n: Machine,
    instruction: Instruction,
    register: int,
    lane: int,
)
    requires
        is_asked(m, n, instruction, register, lane),
        instruction.operands is RegisterSizeRegister,
    ensures
        is_right(m, n, instruction, register, lane),
{
    lemma_has_nothing(register, lane);
    let isa = instruction.isa;
    let none = spec_no_effect();
    let lanes = spec_operand_effects(instruction).reads;
    if let Operands::RegisterSizeRegister(left, _, right) = instruction.operands {
        lemma_both(m, n, lanes, left, right);
    }
}

#[verifier::spinoff_prover]
#[verifier::rlimit(40)]
proof fn lemma_right_memory_shift(
    m: Machine,
    n: Machine,
    instruction: Instruction,
    register: int,
    lane: int,
)
    requires
        is_asked(m, n, instruction, register, lane),
        instruction.operands is DirectionEffectiveAddress,
    ensures
        is_right(m, n, instruction, register, lane),
{
    lemma_has_nothing(register, lane);
    let isa = instruction.isa;
    let none = spec_no_effect();
    let lanes = spec_operand_effects(instruction).reads;
    if let Operands::DirectionEffectiveAddress(_, mode) = instruction.operands {
        lemma_operand(none, mode, None);
        if let AddressingMode::Drd(named) = mode {
            lemma_low_of_whole(lanes, named as int, Size::Word);
            lemma_same(m, n, lanes, named as int, None);
        }
        lemma_operated(m, n, lanes, isa, mode, Size::Word, 1, register, lane);
    }
}

#[verifier::spinoff_prover]
#[verifier::rlimit(40)]
proof fn lemma_right_shift(
    m: Machine,
    n: Machine,
    instruction: Instruction,
    register: int,
    lane: int,
)
    requires
        is_asked(m, n, instruction, register, lane),
        instruction.operands is RotationDirectionSizeModeRegister,
    ensures
        is_right(m, n, instruction, register, lane),
{
    lemma_has_nothing(register, lane);
    let isa = instruction.isa;
    let none = spec_no_effect();
    let lanes = spec_operand_effects(instruction).reads;
    if let Operands::RotationDirectionSizeModeRegister(count, direction, size, from_register, named) =
        instruction.operands {
        let counted = if from_register {
            spec_reads(none, count, Some(Size::Long), false)
        } else {
            none
        };
        let read = spec_reads(counted, named, Some(size), false);
        lemma_reads(none, count, Some(Size::Long), false);
        lemma_reads(counted, named, Some(size), false);
        lemma_writes(read, named, Some(size));
        lemma_same(m, n, lanes, named as int, Some(size));
        if from_register {
            lemma_same(m, n, lanes, count as int, Some(Size::Long));
        }
        let value = shifted(
            m,
            isa,
            direction,
            size,
            if from_register {
                m.data(count) % 64
            } else {
                quick(count)
            },
            m.data(named),
        );
        lemma_replaced(m.data(named), size, value, lane);
        lemma_replaced(n.data(named), size, value, lane);
    }
}

#[verifier::spinoff_prover]
#[verifier::rlimit(40)]
proof fn lemma_right_move(
    m: Machine,
    n: Machine,
    instruction: Instruction,
    register: int,
    lane: int,
)
    requires
        is_asked(m, n, instruction, register, lane),
        instruction.operands is SizeEffectiveAddressEffectiveAddress,
    ensures
        is_right(m, n, instruction, register, lane),
{
    lemma_has_nothing(register, lane);
    let isa = instruction.isa;
    let none = spec_no_effect();
    let lanes = spec_operand_effects(instruction).reads;
    if let Operands::SizeEffectiveAddressEffectiveAddress(size, destination, source) = instruction.operands {
        let read = spec_read_ea(none, source, Some(size));
        lemma_operand(none, source, Some(size));
        lemma_operand(read, destination, Some(size));
        lemma_passed(read.reads, lanes, source, Some(size));
        lemma_same_operand(m, n, lanes, source, size);
        lemma_stepped(m, n, lanes, source, size);
        lemma_operated(
            stepped(m, source, size),
            stepped(n, source, size),
            lanes,
            isa,
            destination,
            size,
            fetched(m, source, size),
            register,
            lane,
        );
    }
}

#[verifier::spinoff_prover]
#[verifier::rlimit(40)]
proof fn lemma_right_movea(
    m: Machine,
    n: Machine,
    instruction: Instruction,
    register: int,
    lane: int,
)
    requires
        is_asked(m, n, instruction, register, lane),
        instruction.operands is SizeRegisterEffectiveAddress,
    ensures
        is_right(m, n, instruction, register, lane),
{
    lemma_has_nothing(register, lane);
    let isa = instruction.isa;
    let none = spec_no_effect();
    let lanes = spec_operand_effects(instruction).reads;
    if let Operands::SizeRegisterEffectiveAddress(size, named, mode) = instruction.operands {
        lemma_operand(none, mode, Some(size));
        lemma_writes(spec_read_ea(none, mode, Some(size)), spec_address_bit(named), None);
        lemma_same_operand(m, n, lanes, mode, size);
    }
}

#[verifier::spinoff_prover]
#[verifier::rlimit(40)]
proof fn lemma_right_movem(
    m: Machine,
    n: Machine,
    instruction: Instruction,
    register: int,
    lane: int,
)
    requires
        is_asked(m, n, instruction, register, lane),
        instruction.operands is DirectionSizeEffectiveAddressList,
    ensures
        is_right(m, n, instruction, register, lane),
{
    lemma_has_nothing(register, lane);
    let isa = instruction.isa;
    let none = spec_no_effect();
    let lanes = spec_operand_effects(instruction).reads;
    if let Operands::DirectionSizeEffectiveAddressList(direction, size, mode, list) = instruction.operands {
        lemma_list(m, n, instruction, register, lane);
    }
}

/// The distance of a `MOVEP`.
spec fn operands_distance(instruction: Instruction) -> i16 {
    instruction.operands->RegisterDirectionSizeRegisterDisplacement_4
}

pub(crate) proof fn lemma_dynamic(instruction: Instruction)
    ensures
        (instruction.opcode & 0x0100 != 0) == is_dynamic(instruction),
{
    let opcode = instruction.opcode;
    assert((opcode & 0x0100 != 0) == ((opcode / 0x100) % 2 == 1)) by (bit_vector);
}

pub(crate) proof fn lemma_one_lane(named: u8, chosen: u8, register: int, lane: int)
    requires
        named < 8,
        chosen < 4,
        0 <= register < 16,
        0 <= lane < 4,
    ensures
        in_lanes(1u64 << ((named as u32 * 4 + chosen as u32) as u32), register, lane) == (register
            == named && lane == chosen),
{
    let shift: u64 = (4 * register + lane) as u64;
    let up: u32 = (named as u32 * 4 + chosen as u32) as u32;
    assert(((1u64 << up) & (1u64 << shift) != 0) == (up == shift)) by (bit_vector)
        requires
            up < 64,
            shift < 64,
    ;
}

/// Changing one byte of a number leaves the others.
proof fn lemma_one_byte(held: int, chosen: int, now: int, lane: int)
    requires
        0 <= held < 0x1_0000_0000,
        0 <= chosen < 4,
        0 <= lane < 4,
        0 <= now < 0x100,
    ensures
        ({
            let after = held + (now - byte_of(held, chosen)) * weight(chosen);
            byte_of(after, lane) == if lane == chosen {
                now
            } else {
                byte_of(held, lane)
            }
        }),
{
    lemma_bytes(held);
    let b0 = byte_of(held, 0);
    let b1 = byte_of(held, 1);
    let b2 = byte_of(held, 2);
    let b3 = byte_of(held, 3);
    assert(chosen == 0 || chosen == 1 || chosen == 2 || chosen == 3);
    assert(lane == 0 || lane == 1 || lane == 2 || lane == 3);
    let change = now - byte_of(held, chosen);
    assert(change * weight(chosen) == if chosen == 0 {
        change
    } else if chosen == 1 {
        change * 0x100
    } else if chosen == 2 {
        change * 0x1_0000
    } else {
        change * 0x100_0000
    });
    if chosen == 0 {
        lemma_joined(now, b1, b2, b3);
        assert(held + (now - byte_of(held, chosen)) * weight(chosen) == now + 0x100 * b1 + 0x1_0000 * b2
            + 0x100_0000 * b3);
    } else if chosen == 1 {
        lemma_joined(b0, now, b2, b3);
        assert(held + (now - byte_of(held, chosen)) * weight(chosen) == b0 + 0x100 * now + 0x1_0000 * b2
            + 0x100_0000 * b3);
    } else if chosen == 2 {
        lemma_joined(b0, b1, now, b3);
        assert(held + (now - byte_of(held, chosen)) * weight(chosen) == b0 + 0x100 * b1 + 0x1_0000 * now
            + 0x100_0000 * b3);
    } else {
        lemma_joined(b0, b1, b2, now);
        assert(held + (now - byte_of(held, chosen)) * weight(chosen) == b0 + 0x100 * b1 + 0x1_0000 * b2
            + 0x100_0000 * now);
    }
}

proof fn lemma_joined(b0: int, b1: int, b2: int, b3: int)
    requires
        0 <= b0 < 0x100,
        0 <= b1 < 0x100,
        0 <= b2 < 0x100,
        0 <= b3 < 0x100,
    ensures
        byte_of(b0 + 0x100 * b1 + 0x1_0000 * b2 + 0x100_0000 * b3, 0) == b0,
        byte_of(b0 + 0x100 * b1 + 0x1_0000 * b2 + 0x100_0000 * b3, 1) == b1,
        byte_of(b0 + 0x100 * b1 + 0x1_0000 * b2 + 0x100_0000 * b3, 2) == b2,
        byte_of(b0 + 0x100 * b1 + 0x1_0000 * b2 + 0x100_0000 * b3, 3) == b3,
{
}

#[verifier::spinoff_prover]
#[verifier::rlimit(60)]
proof fn lemma_bit(
    m: Machine,
    n: Machine,
    instruction: Instruction,
    mode: AddressingMode,
    count: u8,
    register: int,
    lane: int,
)
    requires
        is_asked(m, n, instruction, register, lane),
        instruction.operands == Operands::EffectiveAddressCount(mode, count),
    ensures
        is_right(m, n, instruction, register, lane),
{
    let isa = instruction.isa;
    let none = spec_no_effect();
    let lanes = spec_operand_effects(instruction).reads;
    lemma_dynamic(instruction);
    lemma_has_nothing(register, lane);
    if is_dynamic(instruction) {
        let counted = spec_reads(none, count, Some(Size::Long), false);
        lemma_reads(none, count, Some(Size::Long), false);
        lemma_operand(counted, mode, Some(Size::Long));
        lemma_operand(counted, mode, Some(Size::Byte));
        lemma_same(m, n, lanes, count as int, Some(Size::Long));
        if let AddressingMode::Drd(named) = mode {
            lemma_same(m, n, lanes, named as int, Some(Size::Long));
        } else {
            lemma_same_operand(m, n, lanes, mode, Size::Byte);
        }
    } else {
        lemma_operand(none, mode, Some(Size::Byte));
        if let AddressingMode::Drd(named) = mode {
            let chosen: u8 = ((count % 32) / 8) as u8;
            lemma_one_lane(named, chosen, register, lane);
            lemma_one_lane(named, chosen, named as int, chosen as int);
            assert(in_lanes(lanes, named as int, chosen as int));
            assert(bit_lane(count) == chosen);
            let held = byte_of(m.data(named), chosen as int);
            let now = low((m.unit)(isa, count as int % 8, held), Size::Byte);
            lemma_one_byte(m.data(named), chosen as int, now, lane);
            lemma_one_byte(n.data(named), chosen as int, now, lane);
        } else {
            lemma_same_operand(m, n, lanes, mode, Size::Byte);
        }
    }
}

/// The lanes of a list are those of its registers.
pub(crate) proof fn lemma_list_lanes(list: u16, count: u8, register: int, lane: int)
    requires
        count <= 16,
        0 <= register < 16,
        0 <= lane < 4,
    ensures
        in_lanes(lanes_of_first(list, count), register, lane) == (register < count && lists(
            list,
            register,
        )),
    decreases count,
{
    if count == 0 {
        lemma_has_nothing(register, lane);
    } else {
        let last = (count - 1) as u8;
        lemma_list_lanes(list, last, register, lane);
        assert(lists(list, last as int) == spec_listed(list, last as u16));
        if spec_listed(list, last as u16) {
            lemma_has_either(
                lanes_of_first(list, last),
                spec_register_lanes(last, None),
                register,
                lane,
            );
            lemma_has_register(last, None, register, lane);
        }
    }
}

/// The registers of a list that is stored are read.
proof fn lemma_list_reads(e: Effects, list: u16, size: Size, count: u8, register: int)
    requires
        count <= 16,
        0 <= register < count,
        lists(list, register),
    ensures
        holds_low(reads_first(e, list, size, count).reads, register, Some(size)),
    decreases count,
{
    let last = (count - 1) as u8;
    let before = reads_first(e, list, size, last);
    assert(lists(list, last as int) == spec_listed(list, last as u16));
    if spec_listed(list, last as u16) {
        lemma_reads(before, last, Some(size), false);
    }
    if register < last {
        lemma_list_reads(e, list, size, last, register);
    }
}

proof fn lemma_list_writes_nothing(e: Effects, list: u16, size: Size, count: u8)
    requires
        count <= 16,
    ensures
        reads_first(e, list, size, count).writes == e.writes,
    decreases count,
{
    if count > 0 {
        lemma_list_writes_nothing(e, list, size, (count - 1) as u8);
    }
}

#[verifier::spinoff_prover]
#[verifier::rlimit(60)]
proof fn lemma_list(m: Machine, n: Machine, instruction: Instruction, register: int, lane: int)
    requires
        is_asked(m, n, instruction, register, lane),
        instruction.operands is DirectionSizeEffectiveAddressList,
    ensures
        is_right(m, n, instruction, register, lane),
{
    let none = spec_no_effect();
    let lanes = spec_operand_effects(instruction).reads;
    lemma_has_nothing(register, lane);
    if let Operands::DirectionSizeEffectiveAddressList(direction, size, mode, list) =
        instruction.operands {
        if direction == Direction::MemoryToRegister {
            let read = spec_read_ea(none, mode, Some(size));
            lemma_operand(none, mode, Some(size));
            lemma_same_operand(m, n, lanes, mode, size);
            lemma_list_lanes(list, 16, register, lane);
            lemma_has_either(read.writes, spec_lanes_for_registers(list), register, lane);
            if let AddressingMode::Ariwpo(base) = mode {
                lemma_same(m, n, lanes, 8 + base, None);
            } else if let AddressingMode::Ariwpr(base) = mode {
                lemma_same(m, n, lanes, 8 + base, None);
            }
        } else {
            let shown = match mode {
                AddressingMode::Ariwpr(_) => spec_reversed_list(list),
                _ => list,
            };
            let read = spec_reads_list(none, shown, size);
            lemma_list_writes_nothing(none, shown, size, 16);
            lemma_operand(read, mode, Some(size));
            lemma_same_operand(m, n, lanes, mode, size);
            if let AddressingMode::Ariwpo(base) = mode {
                lemma_same(m, n, lanes, 8 + base, None);
            } else if let AddressingMode::Ariwpr(base) = mode {
                lemma_same(m, n, lanes, 8 + base, None);
            }
            assert forall|i: int| 0 <= i < 16 && list_stores(mode, list, i) implies low(
                #[trigger] m.registers[i],
                size,
            ) == low(n.registers[i], size) by {
                if mode is Ariwpr {
                    reversed_list_mirrors(list, i as u16);
                    assert((15 - i) as u16 == (15 - i as u16) as u16);
                    assert(lists(shown, i) == spec_listed(shown, i as u16));
                    assert(lists(list, 15 - i) == spec_listed(list, (15 - i) as u16));
                }
                lemma_list_reads(none, shown, size, 16, i);
                lemma_same(m, n, lanes, i, Some(size));
            }
            assert(emitted(m, instruction) =~= emitted(n, instruction));
        }
    }
}

} // verus!
