//! That what is claimed of a register is what the processor puts there.

use crate::analysis::{spec_operand_address, AnalysisView, OperandAddress};
use crate::decoded::{DecodedView, OperandRole};
use crate::derived::spec_listed;
use crate::globals::spec_sign_extend_word;
use crate::m68k::{AddressingMode, BriefExtensionWord, Direction, Instruction, Isa, Operands, Size};
use crate::machine::{
    executed, fetched, formed, index_position, indexed, is_dynamic, lemma_unsigned, list_loaded,
    low, lists, moves_stack, replaced, signed, slot_width, slots, span_of, stepped, stride, wrapped,
    Machine,
};
use crate::register_write::{
    spec_bits_below, spec_exchanges, spec_list_bit, spec_register_write, spec_symbolic_memory,
};
use crate::tracking::lemma_low_word;
use crate::values::{
    spec_apply, ExactOperation, RegisterKind, RegisterWrite, SymbolicLocation, SymbolicSubject,
};
use vstd::prelude::*;

verus! {

/// The place of a register among the sixteen.
pub open spec fn position(kind: RegisterKind, register: u8) -> int {
    match kind {
        RegisterKind::Data => register as int,
        RegisterKind::Address => 8 + register,
    }
}

/// The address that a location stands for, read by an access of a size before its
/// instruction stepped anything. What another hunk holds stands nowhere here.
pub open spec fn named(m: Machine, location: SymbolicLocation, size: Size) -> int
    decreases location,
{
    match location {
        SymbolicLocation::Absolute { address } => address as int,
        SymbolicLocation::ImageRelative { offset, .. } => wrapped(m.origin + offset),
        SymbolicLocation::HunkRelative { .. } => 0,
        SymbolicLocation::RegisterRelative { register, displacement } => wrapped(
            m.address(register) + displacement,
        ),
        SymbolicLocation::RegisterPostincrement { register, .. } => m.address(register),
        SymbolicLocation::RegisterPredecrement { register, .. } => wrapped(
            m.address(register) - stride(register, size),
        ),
        SymbolicLocation::Indexed {
            base,
            index_address,
            index_register,
            index_bytes,
            displacement,
            ..
        } => {
            let held = m.registers[if index_address {
                8 + index_register
            } else {
                index_register as int
            }];
            wrapped(
                named(m, *base, size) + (if index_bytes == 4 {
                    held
                } else {
                    signed(held, Size::Word)
                }) + displacement,
            )
        },
        SymbolicLocation::MovemSlot { base, byte_offset, .. } => wrapped(
            named(m, *base, size) + byte_offset,
        ),
    }
}

/// The size of what a value is read as.
pub open spec fn read_size(subject: SymbolicSubject) -> Size {
    match subject {
        SymbolicSubject::Contents => Size::Long,
        SymbolicSubject::SignExtendedWord => Size::Word,
        SymbolicSubject::PreserveHigh { low_bytes, .. } => if low_bytes == 1 {
            Size::Byte
        } else {
            Size::Word
        },
        SymbolicSubject::Address => Size::Long,
    }
}

/// The number that a symbolic value stands for.
pub open spec fn meant(m: Machine, subject: SymbolicSubject, location: SymbolicLocation) -> int {
    let size = read_size(subject);
    let at = named(m, location, size);
    match subject {
        SymbolicSubject::Contents => m.load(at, size),
        SymbolicSubject::SignExtendedWord => wrapped(signed(m.load(at, size), size)),
        SymbolicSubject::PreserveHigh { register, .. } => replaced(
            m.data(register),
            size,
            m.load(at, size),
        ),
        SymbolicSubject::Address => at,
    }
}

/// What an operation on a whole register makes of it.
pub open spec fn applied(operation: ExactOperation, held: int) -> int {
    match operation {
        ExactOperation::Add(amount) => wrapped(held + amount),
        ExactOperation::Subtract(amount) => wrapped(held - amount),
        ExactOperation::And(mask) => ((held as u32) & mask) as int,
        ExactOperation::Or(mask) => ((held as u32) | mask) as int,
        ExactOperation::ExclusiveOr(mask) => ((held as u32) ^ mask) as int,
        ExactOperation::Negate => wrapped(-held),
        ExactOperation::Not => 0xffff_ffff - held,
    }
}

/// Operations on exact values are those of the processor, modulo 2^32.
pub proof fn operations_are_the_processors(operation: ExactOperation, value: u32)
    ensures
        spec_apply(operation, value) == applied(operation, value as int),
{
    assert(!value == 0xffff_ffff - value) by (bit_vector);
}

/// Whether a claim about a register is true of what it held before and holds after.
pub open spec fn is_true(
    claim: Option<RegisterWrite>,
    m: Machine,
    before: int,
    after: int,
) -> bool {
    match claim {
        None => after == before,
        Some(RegisterWrite::Exact(value)) => after == value,
        Some(RegisterWrite::Copy(kind, register)) => after == m.registers[position(kind, register)],
        Some(RegisterWrite::Transform(operation)) => after == applied(operation, before),
        Some(RegisterWrite::Symbolic(subject, location)) => after == meant(m, subject, location),
        Some(RegisterWrite::Unknown) => true,
    }
}

/// A word is extended by its sign.
pub proof fn words_are_extended_by_their_sign(word: u16)
    ensures
        spec_sign_extend_word(word) == wrapped(signed(word as int, Size::Word)),
{
    assert(word as i16 as i32 as u32 == if word < 0x8000 {
        word + 0
    } else {
        word + 0xffff_0000
    }) by (bit_vector);
}

/// The fields of an extension word: its top bit tells address registers from data registers,
/// the next three number the register, the next says whether it is used whole, and the low
/// byte is a signed distance.
pub proof fn extension_fields(extension: BriefExtensionWord)
    ensures
        index_position(extension) == extension.spec_index() + (if extension.spec_index_is_address() {
            8int
        } else {
            0int
        }),
        extension.spec_index() < 8,
        extension.spec_index_is_long() == ((extension.0 as int / 0x800) % 2 == 1),
        extension.spec_disp() == signed(extension.0 as int, Size::Byte),
{
    let word = extension.0;
    assert({
        &&& ((word >> 12) & 7) as u8 as u16 == word / 0x1000 - (if word & 0x8000 != 0 {
            8u16
        } else {
            0u16
        })
        &&& (((word >> 12) & 7) as u8) < 8
        &&& (word & 0x0800 != 0) == ((word / 0x800) % 2 == 1)
        &&& word as i8 == if word % 0x100 < 0x80 {
            word % 0x100 + 0
        } else {
            word % 0x100 - 0x100
        }
    }) by (bit_vector);
}

proof fn lemma_load(m: Machine, at: int, size: Size)
    requires
        m.wf(),
    ensures
        0 <= m.load(at, size) < span_of(size),
        low(m.load(at, size), size) == m.load(at, size),
        m.load(wrapped(at), size) == m.load(at, size),
{
    let byte = |k: int| (m.memory)(wrapped(at + k));
    assert(0 <= byte(0) < 0x100);
    assert(0 <= byte(1) < 0x100);
    assert(0 <= byte(2) < 0x100);
    assert(0 <= byte(3) < 0x100);
    assert(wrapped(wrapped(at) + 0) == wrapped(at + 0));
    assert(wrapped(wrapped(at) + 1) == wrapped(at + 1));
    assert(wrapped(wrapped(at) + 2) == wrapped(at + 2));
    assert(wrapped(wrapped(at) + 3) == wrapped(at + 3));
}

/// The location that an operand is read from is the place where the operand stands.
proof fn lemma_symbolic(
    analysis: AnalysisView,
    image_origin: Option<u32>,
    decoded: DecodedView,
    mode: AddressingMode,
    m: Machine,
    size: Size,
)
    requires
        m.wf(),
        analysis.relocations is None,
        stands_at(m, image_origin),
        mode.in_range(),
        spec_symbolic_memory(analysis, image_origin, decoded, mode) is Some,
    ensures
        named(m, spec_symbolic_memory(analysis, image_origin, decoded, mode)->0, size) == formed(
            m,
            mode,
            size,
        ),
        !(mode is Drd) && !(mode is Ard) && !(mode is Immediate),
{
    match mode {
        AddressingMode::AbsShort(word) => {
            words_are_extended_by_their_sign(word);
        },
        AddressingMode::Ariwi8(register, extension) => {
            extension_fields(extension);
            reveal_with_fuel(named, 2);
            assert(m.address(register) == m.registers[8 + register]);
            assert(wrapped(m.address(register) + 0) == m.address(register));
        },
        AddressingMode::Pciwi8(base, extension) => {
            extension_fields(extension);
            reveal_with_fuel(named, 2);
            assert(wrapped(
                wrapped(m.origin + base) + indexed(m, extension),
            ) == wrapped(m.origin + base + indexed(m, extension)));
        },
        AddressingMode::Ari(register) => {
            assert(wrapped(m.registers[8 + register] + 0) == m.registers[8 + register]);
        },
        _ => {},
    }
}

/// Whether the image stands at its origin, or at the bottom of memory if none is given.
pub open spec fn stands_at(m: Machine, image_origin: Option<u32>) -> bool {
    m.origin == match image_origin {
        Some(origin) => origin as int,
        None => 0,
    }
}

/// Whether the registers of an exchange are those of its opcode word.
pub open spec fn exchange_is_encoded(instruction: Instruction) -> bool {
    instruction.operands matches Operands::RegisterOpmodeRegister(left, direction, right) ==> {
        let opcode = instruction.opcode as int;
        &&& left == (opcode / 0x200) % 8
        &&& right == opcode % 8
        &&& (opcode / 8) % 0x20 == match direction {
            Direction::ExchangeData => 8int,
            Direction::ExchangeAddress => 9int,
            _ => 17int,
        }
        &&& direction == Direction::ExchangeData || direction == Direction::ExchangeAddress
            || direction == Direction::ExchangeDataAddress
    }
}

/// Whether the destination of an instruction is one that it can be encoded with: only the
/// address forms and the quick operations write an address register.
pub open spec fn is_encodable(instruction: Instruction) -> bool {
    match instruction.operands {
        Operands::SizeEffectiveAddressEffectiveAddress(_, destination, _) => !(destination is Ard),
        Operands::SizeEffectiveAddress(_, mode) => !(mode is Ard),
        Operands::SizeEffectiveAddressImmediate(_, mode, _) => !(mode is Ard),
        Operands::EffectiveAddressCount(mode, count) => !(mode is Ard) && (is_dynamic(instruction)
            ==> count < 8),
        Operands::DataSizeEffectiveAddress(amount, size, mode) => amount < 8 && (mode is Ard ==> size
            != Size::Byte),
        Operands::RegisterSizeEffectiveAddress(_, size, _) => size != Size::Byte,
        Operands::SizeRegisterEffectiveAddress(size, _, _) => size != Size::Byte,
        Operands::RegisterDirectionSizeEffectiveAddress(_, direction, _, mode) => (direction
            == Direction::DstEa || direction == Direction::DstReg) && (direction == Direction::DstEa
            ==> !(mode is Ard)),
        Operands::RegisterOpmodeRegister(_, _, _) => exchange_is_encoded(instruction),
        Operands::RegisterSizeModeRegister(_, _, direction, _) => direction
            == Direction::RegisterToRegister || direction == Direction::MemoryToMemory,
        Operands::DirectionSizeEffectiveAddressList(direction, size, mode, _) => size != Size::Byte
            && match direction {
            Direction::RegisterToMemory => is_place(mode) || mode is Ariwpr,
            Direction::MemoryToRegister => is_place(mode) || mode is Ariwpo,
            _ => false,
        },
        Operands::EffectiveAddress(mode) => !(mode is Ard) && (matches!(
            instruction.isa,
            Isa::Pea | Isa::Jmp | Isa::Jsr
        ) ==> is_place(mode)),
        Operands::ConditionEffectiveAddress(_, mode) => !(mode is Ard),
        Operands::DirectionEffectiveAddress(_, mode) => !(mode is Ard) && !(mode is Drd),
        Operands::RegisterEffectiveAddress(_, mode) => instruction.isa == Isa::Lea ==> is_place(mode),
        _ => true,
    }
}

/// Whether an operand stands at a place in memory, and reaching it steps nothing.
pub open spec fn is_place(mode: AddressingMode) -> bool {
    match mode {
        AddressingMode::Ari(_)
        | AddressingMode::Ariwd(_, _)
        | AddressingMode::Ariwi8(_, _)
        | AddressingMode::AbsShort(_)
        | AddressingMode::AbsLong(_)
        | AddressingMode::Pciwd(_, _)
        | AddressingMode::Pciwi8(_, _) => true,
        _ => false,
    }
}

proof fn lemma_slots(list: u16, n: u16)
    requires
        n <= 16,
    ensures
        spec_bits_below(list, n) == slots(list, n as int),
        0 <= slots(list, n as int) <= n,
    decreases n,
{
    if n > 0 {
        lemma_slots(list, (n - 1) as u16);
        assert(lists(list, n - 1) == spec_listed(list, (n - 1) as u16));
    }
}

proof fn lemma_exchange(instruction: Instruction, kind: RegisterKind, register: u8)
    requires
        instruction.isa == Isa::Exg,
        instruction.isa.takes(instruction.operands),
        exchange_is_encoded(instruction),
        register < 8,
    ensures
        instruction.operands matches Operands::RegisterOpmodeRegister(left, direction, right)
            && spec_exchanges(instruction, kind, register) == (match direction {
            Direction::ExchangeData => kind == RegisterKind::Data && (register == left || register
                == right),
            Direction::ExchangeAddress => kind == RegisterKind::Address && (register == left
                || register == right),
            _ => kind == RegisterKind::Data && register == left || kind == RegisterKind::Address
                && register == right,
        }),
{
    let opcode = instruction.opcode;
    assert({
        &&& ((opcode >> 9) & 7) as u8 as u16 == (opcode / 0x200) % 8
        &&& (opcode & 7) as u8 as u16 == opcode % 8
        &&& (opcode & 0x00f8) == ((opcode / 8) % 0x20) * 8
    }) by (bit_vector);
}

/// What the law on claims asks of its inputs.
spec fn is_asked(
    analysis: AnalysisView,
    image_origin: Option<u32>,
    decoded: DecodedView,
    kind: RegisterKind,
    register: u8,
    m: Machine,
) -> bool {
    &&& m.wf()
    &&& stands_at(m, image_origin)
    &&& analysis.relocations is None
    &&& decoded.instruction.wf()
    &&& is_encodable(decoded.instruction)
    &&& register < 8
    &&& kind == RegisterKind::Address && register == 7 ==> !moves_stack(decoded.instruction.isa)
}

/// What the law on claims states.
spec fn is_right(
    analysis: AnalysisView,
    image_origin: Option<u32>,
    decoded: DecodedView,
    kind: RegisterKind,
    register: u8,
    m: Machine,
) -> bool {
    is_true(
        spec_register_write(analysis, image_origin, decoded, kind, register),
        m,
        m.registers[position(kind, register)],
        executed(m, decoded.instruction).registers[position(kind, register)],
    )
}

/// What is claimed of a register is true: an exact value is the value that the register then
/// holds, a copy that of the other register, an operation what it makes of the old value, a
/// symbolic value what stands at the address it names, and where nothing is claimed the
/// register is as it was. The image stands at its origin, and the operand is as encoded.
pub proof fn claims_are_what_the_processor_does(
    analysis: AnalysisView,
    image_origin: Option<u32>,
    decoded: DecodedView,
    kind: RegisterKind,
    register: u8,
    m: Machine,
)
    requires
        m.wf(),
        stands_at(m, image_origin),
        analysis.relocations is None,
        decoded.instruction.wf(),
        is_encodable(decoded.instruction),
        register < 8,
        kind == RegisterKind::Address && register == 7 ==> !moves_stack(decoded.instruction.isa),
    ensures
        is_true(
            spec_register_write(analysis, image_origin, decoded, kind, register),
            m,
            m.registers[position(kind, register)],
            executed(m, decoded.instruction).registers[position(kind, register)],
        ),
{
    match decoded.instruction.operands {
        Operands::SizeEffectiveAddressEffectiveAddress(_, _, _) => {
            lemma_claimed_move(analysis, image_origin, decoded, kind, register, m);
        },
        Operands::SizeRegisterEffectiveAddress(_, _, _) => {
            lemma_claimed_movea(analysis, image_origin, decoded, kind, register, m);
        },
        Operands::DirectionSizeEffectiveAddressList(_, _, _, _) => {
            lemma_claimed_movem(analysis, image_origin, decoded, kind, register, m);
        },
        Operands::RegisterData(_, _) => {
            lemma_claimed_data(analysis, image_origin, decoded, kind, register, m);
        },
        Operands::RegisterEffectiveAddress(_, _) => {
            lemma_claimed_lea(analysis, image_origin, decoded, kind, register, m);
        },
        Operands::RegisterSizeEffectiveAddress(_, _, _) => {
            lemma_claimed_address_arithmetic_form(analysis, image_origin, decoded, kind, register, m);
        },
        Operands::RegisterOpmodeRegister(_, _, _) => {
            lemma_claimed_exchange(analysis, image_origin, decoded, kind, register, m);
        },
        Operands::SizeEffectiveAddressImmediate(_, _, _) => {
            lemma_claimed_immediate(analysis, image_origin, decoded, kind, register, m);
        },
        Operands::EffectiveAddressCount(_, _) => {
            lemma_claimed_bit(analysis, image_origin, decoded, kind, register, m);
        },
        Operands::EffectiveAddress(_) => {
            lemma_claimed_lone(analysis, image_origin, decoded, kind, register, m);
        },
        Operands::SizeEffectiveAddress(_, _) => {
            lemma_claimed_unary(analysis, image_origin, decoded, kind, register, m);
        },
        Operands::RegisterDirectionSizeRegisterDisplacement(_, _, _, _, _) => {
            lemma_claimed_movep(analysis, image_origin, decoded, kind, register, m);
        },
        Operands::OpmodeRegister(_, _) => {
            lemma_claimed_extension(analysis, image_origin, decoded, kind, register, m);
        },
        Operands::RegisterDisplacement(_, _) => {
            lemma_claimed_link(analysis, image_origin, decoded, kind, register, m);
        },
        Operands::Register(_) => {
            lemma_claimed_swap(analysis, image_origin, decoded, kind, register, m);
        },
        Operands::DirectionRegister(_, _) => {
            lemma_claimed_user_stack(analysis, image_origin, decoded, kind, register, m);
        },
        Operands::DataSizeEffectiveAddress(_, _, _) => {
            lemma_claimed_quick(analysis, image_origin, decoded, kind, register, m);
        },
        Operands::ConditionEffectiveAddress(_, _) => {
            lemma_claimed_condition(analysis, image_origin, decoded, kind, register, m);
        },
        Operands::ConditionRegisterDisplacement(_, _, _) => {
            lemma_claimed_loop(analysis, image_origin, decoded, kind, register, m);
        },
        Operands::RegisterDirectionSizeEffectiveAddress(_, _, _, _) => {
            lemma_claimed_arithmetic(analysis, image_origin, decoded, kind, register, m);
        },
        Operands::RegisterSizeModeRegister(_, _, _, _) => {
            lemma_claimed_extended(analysis, image_origin, decoded, kind, register, m);
        },
        Operands::RegisterSizeRegister(_, _, _) => {
            lemma_claimed_comparison(analysis, image_origin, decoded, kind, register, m);
        },
        Operands::DirectionEffectiveAddress(_, _) => {
            lemma_claimed_memory_shift(analysis, image_origin, decoded, kind, register, m);
        },
        Operands::RotationDirectionSizeModeRegister(_, _, _, _, _) => {
            lemma_claimed_shift(analysis, image_origin, decoded, kind, register, m);
        },
        Operands::NoOperands
        | Operands::Immediate(_)
        | Operands::Vector(_)
        | Operands::Displacement(_)
        | Operands::ConditionDisplacement(_, _) => {},
    }
}

proof fn lemma_claimed_data(
    analysis: AnalysisView,
    image_origin: Option<u32>,
    decoded: DecodedView,
    kind: RegisterKind,
    register: u8,
    m: Machine,
)
    requires
        is_asked(analysis, image_origin, decoded, kind, register, m),
        decoded.instruction.operands is RegisterData,
    ensures
        is_right(analysis, image_origin, decoded, kind, register, m),
{
    if let Operands::RegisterData(_, value) = decoded.instruction.operands {
        lemma_unsigned(value as i32);
    }
}

proof fn lemma_claimed_lea(
    analysis: AnalysisView,
    image_origin: Option<u32>,
    decoded: DecodedView,
    kind: RegisterKind,
    register: u8,
    m: Machine,
)
    requires
        is_asked(analysis, image_origin, decoded, kind, register, m),
        decoded.instruction.operands is RegisterEffectiveAddress,
    ensures
        is_right(analysis, image_origin, decoded, kind, register, m),
{
    if let Operands::RegisterEffectiveAddress(_, mode) = decoded.instruction.operands {
        if let AddressingMode::AbsShort(word) = mode {
            words_are_extended_by_their_sign(word);
        }
    }
}

#[verifier::spinoff_prover]
#[verifier::rlimit(60)]
proof fn lemma_claimed_address_arithmetic_form(
    analysis: AnalysisView,
    image_origin: Option<u32>,
    decoded: DecodedView,
    kind: RegisterKind,
    register: u8,
    m: Machine,
)
    requires
        is_asked(analysis, image_origin, decoded, kind, register, m),
        decoded.instruction.operands is RegisterSizeEffectiveAddress,
    ensures
        is_right(analysis, image_origin, decoded, kind, register, m),
{
    if let Operands::RegisterSizeEffectiveAddress(_, size, mode) = decoded.instruction.operands {
        if let AddressingMode::Immediate(value) = mode {
            lemma_claimed_address_arithmetic(size, value);
            let held = m.registers[position(kind, register)];
            lemma_wrapped_sum(held, signed(value as int, size));
        }
    }
}

/// What is cut off may be cut off before or after.
proof fn lemma_wrapped_sum(left: int, right: int)
    ensures
        wrapped(left + wrapped(right)) == wrapped(left + right),
        wrapped(left - wrapped(right)) == wrapped(left - right),
{
    vstd::arithmetic::div_mod::lemma_add_mod_noop_right(left, right, 0x1_0000_0000);
    vstd::arithmetic::div_mod::lemma_sub_mod_noop_right(left, right, 0x1_0000_0000);
}

proof fn lemma_claimed_exchange(
    analysis: AnalysisView,
    image_origin: Option<u32>,
    decoded: DecodedView,
    kind: RegisterKind,
    register: u8,
    m: Machine,
)
    requires
        is_asked(analysis, image_origin, decoded, kind, register, m),
        decoded.instruction.operands is RegisterOpmodeRegister,
    ensures
        is_right(analysis, image_origin, decoded, kind, register, m),
{
    if let Operands::RegisterOpmodeRegister(_, _, _) = decoded.instruction.operands {
        lemma_exchange(decoded.instruction, kind, register);
    }
}

proof fn lemma_claimed_immediate(
    analysis: AnalysisView,
    image_origin: Option<u32>,
    decoded: DecodedView,
    kind: RegisterKind,
    register: u8,
    m: Machine,
)
    requires
        is_asked(analysis, image_origin, decoded, kind, register, m),
        decoded.instruction.operands is SizeEffectiveAddressImmediate,
    ensures
        is_right(analysis, image_origin, decoded, kind, register, m),
{
    if let Operands::SizeEffectiveAddressImmediate(_, _, value) = decoded.instruction.operands {
        let held = m.registers[position(kind, register)];
        assert(0 <= held < 0x1_0000_0000);
        lemma_masks(held, value);
        assert(low(held, Size::Long) == held);
        assert(low(value as int, Size::Long) == value);
    }
}

proof fn lemma_claimed_bit(
    analysis: AnalysisView,
    image_origin: Option<u32>,
    decoded: DecodedView,
    kind: RegisterKind,
    register: u8,
    m: Machine,
)
    requires
        is_asked(analysis, image_origin, decoded, kind, register, m),
        decoded.instruction.operands is EffectiveAddressCount,
    ensures
        is_right(analysis, image_origin, decoded, kind, register, m),
{
}

proof fn lemma_claimed_lone(
    analysis: AnalysisView,
    image_origin: Option<u32>,
    decoded: DecodedView,
    kind: RegisterKind,
    register: u8,
    m: Machine,
)
    requires
        is_asked(analysis, image_origin, decoded, kind, register, m),
        decoded.instruction.operands is EffectiveAddress,
    ensures
        is_right(analysis, image_origin, decoded, kind, register, m),
{
}

proof fn lemma_claimed_unary(
    analysis: AnalysisView,
    image_origin: Option<u32>,
    decoded: DecodedView,
    kind: RegisterKind,
    register: u8,
    m: Machine,
)
    requires
        is_asked(analysis, image_origin, decoded, kind, register, m),
        decoded.instruction.operands is SizeEffectiveAddress,
    ensures
        is_right(analysis, image_origin, decoded, kind, register, m),
{
}

proof fn lemma_claimed_movep(
    analysis: AnalysisView,
    image_origin: Option<u32>,
    decoded: DecodedView,
    kind: RegisterKind,
    register: u8,
    m: Machine,
)
    requires
        is_asked(analysis, image_origin, decoded, kind, register, m),
        decoded.instruction.operands is RegisterDirectionSizeRegisterDisplacement,
    ensures
        is_right(analysis, image_origin, decoded, kind, register, m),
{
}

proof fn lemma_claimed_extension(
    analysis: AnalysisView,
    image_origin: Option<u32>,
    decoded: DecodedView,
    kind: RegisterKind,
    register: u8,
    m: Machine,
)
    requires
        is_asked(analysis, image_origin, decoded, kind, register, m),
        decoded.instruction.operands is OpmodeRegister,
    ensures
        is_right(analysis, image_origin, decoded, kind, register, m),
{
}

proof fn lemma_claimed_link(
    analysis: AnalysisView,
    image_origin: Option<u32>,
    decoded: DecodedView,
    kind: RegisterKind,
    register: u8,
    m: Machine,
)
    requires
        is_asked(analysis, image_origin, decoded, kind, register, m),
        decoded.instruction.operands is RegisterDisplacement,
    ensures
        is_right(analysis, image_origin, decoded, kind, register, m),
{
}

proof fn lemma_claimed_swap(
    analysis: AnalysisView,
    image_origin: Option<u32>,
    decoded: DecodedView,
    kind: RegisterKind,
    register: u8,
    m: Machine,
)
    requires
        is_asked(analysis, image_origin, decoded, kind, register, m),
        decoded.instruction.operands is Register,
    ensures
        is_right(analysis, image_origin, decoded, kind, register, m),
{
}

proof fn lemma_claimed_user_stack(
    analysis: AnalysisView,
    image_origin: Option<u32>,
    decoded: DecodedView,
    kind: RegisterKind,
    register: u8,
    m: Machine,
)
    requires
        is_asked(analysis, image_origin, decoded, kind, register, m),
        decoded.instruction.operands is DirectionRegister,
    ensures
        is_right(analysis, image_origin, decoded, kind, register, m),
{
}

proof fn lemma_claimed_quick(
    analysis: AnalysisView,
    image_origin: Option<u32>,
    decoded: DecodedView,
    kind: RegisterKind,
    register: u8,
    m: Machine,
)
    requires
        is_asked(analysis, image_origin, decoded, kind, register, m),
        decoded.instruction.operands is DataSizeEffectiveAddress,
    ensures
        is_right(analysis, image_origin, decoded, kind, register, m),
{
}

proof fn lemma_claimed_condition(
    analysis: AnalysisView,
    image_origin: Option<u32>,
    decoded: DecodedView,
    kind: RegisterKind,
    register: u8,
    m: Machine,
)
    requires
        is_asked(analysis, image_origin, decoded, kind, register, m),
        decoded.instruction.operands is ConditionEffectiveAddress,
    ensures
        is_right(analysis, image_origin, decoded, kind, register, m),
{
}

proof fn lemma_claimed_loop(
    analysis: AnalysisView,
    image_origin: Option<u32>,
    decoded: DecodedView,
    kind: RegisterKind,
    register: u8,
    m: Machine,
)
    requires
        is_asked(analysis, image_origin, decoded, kind, register, m),
        decoded.instruction.operands is ConditionRegisterDisplacement,
    ensures
        is_right(analysis, image_origin, decoded, kind, register, m),
{
}

proof fn lemma_claimed_arithmetic(
    analysis: AnalysisView,
    image_origin: Option<u32>,
    decoded: DecodedView,
    kind: RegisterKind,
    register: u8,
    m: Machine,
)
    requires
        is_asked(analysis, image_origin, decoded, kind, register, m),
        decoded.instruction.operands is RegisterDirectionSizeEffectiveAddress,
    ensures
        is_right(analysis, image_origin, decoded, kind, register, m),
{
}

proof fn lemma_claimed_extended(
    analysis: AnalysisView,
    image_origin: Option<u32>,
    decoded: DecodedView,
    kind: RegisterKind,
    register: u8,
    m: Machine,
)
    requires
        is_asked(analysis, image_origin, decoded, kind, register, m),
        decoded.instruction.operands is RegisterSizeModeRegister,
    ensures
        is_right(analysis, image_origin, decoded, kind, register, m),
{
}

proof fn lemma_claimed_comparison(
    analysis: AnalysisView,
    image_origin: Option<u32>,
    decoded: DecodedView,
    kind: RegisterKind,
    register: u8,
    m: Machine,
)
    requires
        is_asked(analysis, image_origin, decoded, kind, register, m),
        decoded.instruction.operands is RegisterSizeRegister,
    ensures
        is_right(analysis, image_origin, decoded, kind, register, m),
{
}

proof fn lemma_claimed_memory_shift(
    analysis: AnalysisView,
    image_origin: Option<u32>,
    decoded: DecodedView,
    kind: RegisterKind,
    register: u8,
    m: Machine,
)
    requires
        is_asked(analysis, image_origin, decoded, kind, register, m),
        decoded.instruction.operands is DirectionEffectiveAddress,
    ensures
        is_right(analysis, image_origin, decoded, kind, register, m),
{
}

proof fn lemma_claimed_shift(
    analysis: AnalysisView,
    image_origin: Option<u32>,
    decoded: DecodedView,
    kind: RegisterKind,
    register: u8,
    m: Machine,
)
    requires
        is_asked(analysis, image_origin, decoded, kind, register, m),
        decoded.instruction.operands is RotationDirectionSizeModeRegister,
    ensures
        is_right(analysis, image_origin, decoded, kind, register, m),
{
}

proof fn lemma_masks(held: int, mask: u32)
    requires
        0 <= held < 0x1_0000_0000,
    ensures
        0 <= ((held as u32) & mask) as int,
        ((held as u32) & mask) as int % 0x1_0000_0000 == ((held as u32) & mask) as int,
        ((held as u32) | mask) as int % 0x1_0000_0000 == ((held as u32) | mask) as int,
        ((held as u32) ^ mask) as int % 0x1_0000_0000 == ((held as u32) ^ mask) as int,
{
}

proof fn lemma_claimed_address_arithmetic(size: Size, value: u32)
    ensures
        size == Size::Word ==> spec_sign_extend_word(value as u16) == wrapped(
            signed(value as int, Size::Word),
        ),
        size == Size::Long ==> value == wrapped(signed(value as int, Size::Long)),
        size != Size::Byte ==> signed(low(value as int, size), size) == signed(value as int, size),
{
    words_are_extended_by_their_sign(value as u16);
    lemma_low_word(value);
}

#[verifier::spinoff_prover]
#[verifier::rlimit(60)]
proof fn lemma_claimed_move(
    analysis: AnalysisView,
    image_origin: Option<u32>,
    decoded: DecodedView,
    kind: RegisterKind,
    register: u8,
    m: Machine,
)
    requires
        is_asked(analysis, image_origin, decoded, kind, register, m),
        decoded.instruction.operands is SizeEffectiveAddressEffectiveAddress,
    ensures
        is_right(analysis, image_origin, decoded, kind, register, m),
{
    if let Operands::SizeEffectiveAddressEffectiveAddress(size, destination, source) =
        decoded.instruction.operands {
        let place = position(kind, register);
        let before = m.registers[place];
        let value = fetched(m, source, size);
        let on = stepped(m, source, size);
        assert(0 <= before < 0x1_0000_0000);
        assert(decoded.instruction.isa == Isa::Move);
        if destination == AddressingMode::Drd(register) && kind == RegisterKind::Data {
            assert(on.data(register) == before);
            assert(executed(m, decoded.instruction).registers[place] == replaced(
                before,
                size,
                value,
            ));
            if spec_symbolic_memory(analysis, image_origin, decoded, source) is Some {
                lemma_symbolic(analysis, image_origin, decoded, source, m, size);
                lemma_load(m, formed(m, source, size), size);
                assert(value == m.load(formed(m, source, size), size));
                match size {
                    Size::Byte => {
                        assert(replaced(before, Size::Byte, value) == before - before % 0x100 + value);
                    },
                    Size::Word => {
                        assert(replaced(before, Size::Word, value) == before - before % 0x1_0000
                            + value);
                    },
                    Size::Long => {
                        assert(replaced(before, Size::Long, value) == value);
                    },
                }
            } else if let AddressingMode::Drd(other) = source {
                assert(0 <= m.registers[other as int] < 0x1_0000_0000);
            } else if let AddressingMode::Ard(other) = source {
                assert(0 <= m.registers[8 + other] < 0x1_0000_0000);
            }
        } else if kind == RegisterKind::Data {
            assert(on.registers[place] == before);
            assert(executed(m, decoded.instruction).registers[place] == before);
        } else if !crate::register_write::spec_adjusts(source, register)
            && !crate::register_write::spec_adjusts(destination, register) {
            assert(on.registers[place] == before);
            assert(executed(m, decoded.instruction).registers[place] == before);
        }
    }
}

#[verifier::spinoff_prover]
#[verifier::rlimit(60)]
proof fn lemma_claimed_movea(
    analysis: AnalysisView,
    image_origin: Option<u32>,
    decoded: DecodedView,
    kind: RegisterKind,
    register: u8,
    m: Machine,
)
    requires
        is_asked(analysis, image_origin, decoded, kind, register, m),
        decoded.instruction.operands is SizeRegisterEffectiveAddress,
    ensures
        is_right(analysis, image_origin, decoded, kind, register, m),
{
    if let Operands::SizeRegisterEffectiveAddress(size, destination, source) =
        decoded.instruction.operands {
        if spec_symbolic_memory(analysis, image_origin, decoded, source) is Some {
            lemma_symbolic(analysis, image_origin, decoded, source, m, size);
            lemma_load(m, formed(m, source, size), size);
        }
        if let AddressingMode::Immediate(value) = source {
            lemma_claimed_address_arithmetic(size, value);
        }
    }
}

#[verifier::spinoff_prover]
#[verifier::rlimit(60)]
proof fn lemma_claimed_movem(
    analysis: AnalysisView,
    image_origin: Option<u32>,
    decoded: DecodedView,
    kind: RegisterKind,
    register: u8,
    m: Machine,
)
    requires
        is_asked(analysis, image_origin, decoded, kind, register, m),
        decoded.instruction.operands is DirectionSizeEffectiveAddressList,
    ensures
        is_right(analysis, image_origin, decoded, kind, register, m),
{
    if let Operands::DirectionSizeEffectiveAddressList(direction, size, source, list) =
        decoded.instruction.operands {
        let bit = spec_list_bit(kind, register);
        let place = position(kind, register);
        let before = m.registers[place];
        let after = executed(m, decoded.instruction).registers[place];
        lemma_slots(list, 16);
        lemma_slots(list, bit);
        assert(bit == place);
        assert(lists(list, place) == spec_listed(list, bit));
        if direction == Direction::MemoryToRegister {
            lemma_list_loaded(m, size, source, list, place);
            if spec_symbolic_memory(analysis, image_origin, decoded, source) is Some {
                lemma_symbolic(analysis, image_origin, decoded, source, m, size);
                let offset = slots(list, place) * slot_width(size);
                let at = formed(m, source, size) + offset;
                lemma_load(m, at, size);
                lemma_fits(m.load(at, size), size);
            }
        } else {
            assert(after == before || source is Ariwpo || source is Ariwpr);
        }
    }
}

proof fn lemma_fits(value: int, size: Size)
    requires
        0 <= value < span_of(size),
    ensures
        size == Size::Long ==> wrapped(signed(value, size)) == value,
{
}

/// What a loaded list leaves in one register.
proof fn lemma_list_loaded(m: Machine, size: Size, mode: AddressingMode, list: u16, place: int)
    requires
        m.wf(),
        mode.in_range(),
        0 <= place < 16,
    ensures
        ({
            let after = list_loaded(m, size, mode, list).registers[place];
            let at = formed(m, mode, size) + slots(list, place) * slot_width(size);
            let unit = if size == Size::Long {
                Size::Long
            } else {
                Size::Word
            };
            match mode {
                AddressingMode::Ariwpo(base) => if place == 8 + base {
                    after == wrapped(m.registers[place] + slots(list, 16) * slot_width(size))
                } else if lists(list, place) {
                    after == wrapped(signed(m.load(at, unit), unit))
                } else {
                    after == m.registers[place]
                },
                AddressingMode::Ariwpr(base) => place == 8 + base || after == if lists(
                    list,
                    place,
                ) {
                    wrapped(signed(m.load(at, unit), unit))
                } else {
                    m.registers[place]
                },
                _ => after == if lists(list, place) {
                    wrapped(signed(m.load(at, unit), unit))
                } else {
                    m.registers[place]
                },
            }
        }),
{
}

/// With the image standing at `origin`, `LEA (d,PC),An` leaves in the register the address at
/// which the operand stands in memory: the origin, the place of the extension word in the
/// image and its distance, added up.
pub proof fn loaded_addresses_are_where_things_stand(
    analysis: AnalysisView,
    origin: u32,
    decoded: DecodedView,
    register: u8,
    base: u32,
    distance: i16,
)
    requires
        decoded.instruction.isa == Isa::Lea,
        decoded.instruction.operands == Operands::RegisterEffectiveAddress(
            register,
            AddressingMode::Pciwd(base, distance),
        ),
        base == decoded.address + 2,
        0 <= base + distance,
        origin + base + distance <= u32::MAX,
    ensures
        spec_register_write(analysis, Some(origin), decoded, RegisterKind::Address, register)
            matches Some(RegisterWrite::Exact(value)) && value == origin + decoded.address + 2
            + distance,
{
}

/// A longword operand that a relocation patches is what the loader makes of it: an address in
/// this image, counted from where it stands, or a place in another hunk.
pub proof fn relocated_operands_are_loaded_addresses(
    analysis: AnalysisView,
    origin: u32,
    decoded: DecodedView,
    register: u8,
    addend: u32,
)
    requires
        decoded.instruction.isa == Isa::Lea && decoded.instruction.operands
            == Operands::RegisterEffectiveAddress(register, AddressingMode::AbsLong(addend))
            || decoded.instruction.isa == Isa::Movea && decoded.instruction.operands
            == Operands::SizeRegisterEffectiveAddress(
            Size::Long,
            register,
            AddressingMode::Immediate(addend),
        ),
    ensures
        ({
            let claim = spec_register_write(
                analysis,
                Some(origin),
                decoded,
                RegisterKind::Address,
                register,
            );
            match spec_operand_address(analysis.relocations, decoded, OperandRole::Source, addend) {
                OperandAddress::ThisHunk(offset) => if origin + offset <= u32::MAX {
                    claim matches Some(RegisterWrite::Exact(value)) && value == origin + offset
                } else {
                    claim == Some(RegisterWrite::Unknown)
                },
                OperandAddress::OtherHunk { hunk, offset } => claim == Some(
                    RegisterWrite::Symbolic(
                        SymbolicSubject::Address,
                        SymbolicLocation::HunkRelative { hunk, offset },
                    ),
                ),
                OperandAddress::Encoded(value) => value == addend && claim == Some(
                    RegisterWrite::Exact(addend),
                ),
            }
        }),
{
}

/// Whether an operand stands in memory, in the image or at a register.
pub open spec fn is_readable(mode: AddressingMode) -> bool {
    match mode {
        AddressingMode::Drd(_) | AddressingMode::Ard(_) | AddressingMode::Immediate(_) => false,
        AddressingMode::Pciwd(base, distance) => 0 <= base + distance <= u32::MAX,
        AddressingMode::Ariwi8(_, extension) | AddressingMode::Pciwi8(_, extension) => extension.0
            & 0x0700 == 0,
        _ => true,
    }
}

/// Whether an instruction gives a register a value that can be told from its operands alone.
pub open spec fn is_tellable(instruction: Instruction, kind: RegisterKind, register: u8) -> bool {
    match instruction.operands {
        Operands::RegisterData(destination, _) => kind == RegisterKind::Data && destination
            == register,
        Operands::SizeEffectiveAddressEffectiveAddress(size, destination, source) => kind
            == RegisterKind::Data && destination == AddressingMode::Drd(register) && (is_readable(
            source,
        ) || size == Size::Long && !(source is Pciwd) && !(source is Ariwi8) && !(
        source is Pciwi8)),
        Operands::SizeRegisterEffectiveAddress(size, destination, source) => kind
            == RegisterKind::Address && destination == register && (source is Immediate
            || is_readable(source) && !(source is Ariwpo) && !(source is Ariwpr)),
        Operands::SizeEffectiveAddress(size, mode) => instruction.isa == Isa::Clr && size
            == Size::Long && kind == RegisterKind::Data && mode == AddressingMode::Drd(register)
            || (instruction.isa == Isa::Neg || instruction.isa == Isa::Not) && size == Size::Long
            && kind == RegisterKind::Data && mode == AddressingMode::Drd(register),
        Operands::SizeEffectiveAddressImmediate(size, mode, _) => instruction.isa != Isa::Cmpi
            && size == Size::Long && kind == RegisterKind::Data && mode == AddressingMode::Drd(
            register,
        ),
        Operands::DataSizeEffectiveAddress(_, size, mode) => mode == AddressingMode::Ard(register)
            && kind == RegisterKind::Address || size == Size::Long && kind == RegisterKind::Data
            && mode == AddressingMode::Drd(register),
        Operands::RegisterSizeEffectiveAddress(destination, _, source) => instruction.isa
            != Isa::Cmpa && kind == RegisterKind::Address && destination == register
            && source is Immediate,
        Operands::DirectionSizeEffectiveAddressList(direction, _, mode, list) => direction
            == Direction::MemoryToRegister && lists(list, position(kind, register)) && is_readable(
            mode,
        ) && !(mode is Ariwpr),
        _ => false,
    }
}

/// What can be told from the operands is claimed.
pub proof fn tellable_values_are_claimed(
    analysis: AnalysisView,
    image_origin: Option<u32>,
    decoded: DecodedView,
    kind: RegisterKind,
    register: u8,
)
    requires
        decoded.instruction.wf(),
        analysis.relocations is None,
        register < 8,
        is_tellable(decoded.instruction, kind, register),
    ensures
        spec_register_write(analysis, image_origin, decoded, kind, register) matches Some(claim)
            && !(claim is Unknown),
{
    let bit = spec_list_bit(kind, register);
    assert(bit == position(kind, register));
    if let Operands::DirectionSizeEffectiveAddressList(_, _, _, list) =
        decoded.instruction.operands {
        assert(lists(list, position(kind, register)) == spec_listed(list, bit));
    }
}

} // verus!
