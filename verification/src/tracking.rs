//! That tracked address registers hold what they are said to hold, and that derived targets
//! are the effective addresses.

use crate::analysis::AnalysisView;
use crate::constants::ValueOptions;
use crate::decoded::DecodedView;
use crate::derived::{
    is_reset_site, nothing_known, passed, spec_address_immediate, spec_clobbers_tracked_registers,
    spec_effective_address, spec_is_reversed, spec_listed, spec_resolve, transferred, Derivation,
    DerivedTarget,
};
use crate::effects::spec_operand_effects;
use crate::frames::lemma_slots;
use crate::globals::{spec_operand_accesses, OperandAccess};
use crate::m68k::{AddressingMode, Direction, Isa, Operands, Size};
use crate::machine::{
    executed, formed, lists, low, signed, slot_width, slots, stepped, wrapped, Machine,
};
use crate::meaning::{extension_fields, is_encodable, words_are_extended_by_their_sign};
use vstd::prelude::*;

verus! {

/// Whether every register that is known holds what is known of it.
pub open spec fn is_known(registers: Seq<Option<u32>>, m: Machine) -> bool {
    &&& registers.len() == 8
    &&& forall|i: int|
        #![trigger registers[i]]
        0 <= i < 8 ==> (registers[i] matches Some(value) ==> m.registers[8 + i] == value)
}

/// The size of an access. Where none is given, it is a word.
pub open spec fn access_size(size: Option<u8>) -> Size {
    match size {
        Some(bytes) => if bytes == 1 {
            Size::Byte
        } else if bytes == 2 {
            Size::Word
        } else {
            Size::Long
        },
        None => Size::Word,
    }
}

/// Whether a number of bytes is a size.
pub open spec fn is_size(size: Option<u8>) -> bool {
    size matches Some(bytes) ==> bytes == 1 || bytes == 2 || bytes == 4
}

/// The derived target of an operand.
pub open spec fn target_of(
    mode: AddressingMode,
    size: Option<u8>,
    registers: Seq<Option<u32>>,
) -> DerivedTarget {
    match spec_resolve(mode, size, registers) {
        Some((_, target)) => target,
        None => DerivedTarget::Unknown,
    }
}

/// The register that the derived target of an operand rests on.
pub open spec fn base_of(
    mode: AddressingMode,
    size: Option<u8>,
    registers: Seq<Option<u32>>,
) -> u8 {
    match spec_resolve(mode, size, registers) {
        Some((register, _)) => register,
        None => 0,
    }
}

/// A derived target is where the operand stands: exactly, or between the ends of its range.
pub proof fn targets_are_effective_addresses(
    mode: AddressingMode,
    size: Option<u8>,
    registers: Seq<Option<u32>>,
    m: Machine,
)
    requires
        m.wf(),
        mode.in_range(),
        is_known(registers, m),
        is_size(size),
        spec_resolve(mode, size, registers) is Some,
    ensures
        match target_of(mode, size, registers) {
            DerivedTarget::Exact(address) => formed(m, mode, access_size(size)) == address,
            DerivedTarget::Range { start, end } => start <= formed(m, mode, access_size(size)) <= end
                && end - start == 0xffff,
            DerivedTarget::Unknown => true,
        },
        match mode {
            AddressingMode::Ari(register)
            | AddressingMode::Ariwd(register, _)
            | AddressingMode::Ariwpo(register)
            | AddressingMode::Ariwpr(register)
            | AddressingMode::Ariwi8(register, _) => base_of(mode, size, registers) == register,
            _ => false,
        },
{
    match mode {
        AddressingMode::Ariwi8(register, extension) => {
            extension_fields(extension);
            assert(registers[register as int] matches Some(value) ==> m.registers[8 + register]
                == value);
        },
        AddressingMode::Ari(register)
        | AddressingMode::Ariwd(register, _)
        | AddressingMode::Ariwpo(register)
        | AddressingMode::Ariwpr(register) => {
            assert(registers[register as int] matches Some(value) ==> m.registers[8 + register]
                == value);
        },
        _ => {},
    }
}

/// A derived target is as exact as what is known of its register allows.
pub proof fn known_registers_give_targets(
    mode: AddressingMode,
    size: Option<u8>,
    registers: Seq<Option<u32>>,
)
    requires
        registers.len() == 8,
        mode.in_range(),
    ensures
        match mode {
            AddressingMode::Ari(register) | AddressingMode::Ariwpo(register) => registers[register as int]
                is Some ==> target_of(mode, size, registers) is Exact,
            AddressingMode::Ariwd(register, distance) => (registers[register as int] matches Some(
                value,
            ) && 0 <= value + distance <= u32::MAX) ==> target_of(mode, size, registers)
                is Exact,
            AddressingMode::Ariwi8(register, extension) => (registers[register as int] matches Some(
                value,
            ) && 0x8080 <= value <= 0xffff_7f80 && (extension.0 as int / 0x800) % 2 == 0)
                ==> target_of(mode, size, registers) is Range,
            _ => true,
        },
{
    if let AddressingMode::Ariwi8(_, extension) = mode {
        extension_fields(extension);
    }
}

spec fn is_asked(decoded: DecodedView, view: AnalysisView, m: Machine) -> bool {
    &&& m.wf()
    &&& m.origin == 0
    &&& view.relocations is None
    &&& decoded.instruction.wf()
    &&& is_encodable(decoded.instruction)
    &&& spec_operand_effects(decoded.instruction).complete
    &&& !matches!(decoded.instruction.isa, Isa::Rts | Isa::Rtr | Isa::Rte)
}

/// What is known after an operand has stepped.
proof fn lemma_passed(
    operands: Operands,
    access: OperandAccess,
    registers: Seq<Option<u32>>,
    m: Machine,
    size: Size,
)
    requires
        m.wf(),
        access.mode.in_range(),
        is_known(registers, m),
        is_size(access.size),
        size == access_size(access.size),
        !(operands is DirectionSizeEffectiveAddressList),
    ensures
        is_known(passed(operands, Some(access), registers), stepped(m, access.mode, size)),
{
    let after = passed(operands, Some(access), registers);
    let on = stepped(m, access.mode, size);
    assert forall|i: int|
        #![trigger after[i]]
        0 <= i < 8 implies (after[i] matches Some(value) ==> on.registers[8 + i] == value) by {
        assert(registers[i] matches Some(value) ==> m.registers[8 + i] == value);
    }
}

/// Knowing less is knowing.
proof fn lemma_updated(registers: Seq<Option<u32>>, m: Machine, after: Machine, i: int, value: Option<u32>)
    requires
        is_known(registers, m),
        0 <= i < 8,
        after.registers.len() == 16,
        m.registers.len() == 16,
        forall|j: int|
            #![trigger after.registers[j]]
            8 <= j < 16 && j != 8 + i ==> after.registers[j] == m.registers[j],
        value matches Some(value) ==> after.registers[8 + i] == value,
    ensures
        is_known(registers.update(i, value), after),
{
    let now = registers.update(i, value);
    assert forall|k: int|
        #![trigger now[k]]
        0 <= k < 8 implies (now[k] matches Some(value) ==> after.registers[8 + k] == value) by {
        assert(registers[k] matches Some(value) ==> m.registers[8 + k] == value);
        if k != i {
            assert(after.registers[8 + k] == m.registers[8 + k]);
        }
    }
}

/// What is known after the operands of an instruction have stepped.
spec fn settled(decoded: DecodedView, registers: Seq<Option<u32>>) -> Seq<Option<u32>> {
    let operands = decoded.instruction.operands;
    let accesses = spec_operand_accesses(decoded.instruction.isa, operands);
    if spec_is_reversed(operands) {
        passed(operands, accesses.first, passed(operands, accesses.second, registers))
    } else {
        passed(operands, accesses.second, passed(operands, accesses.first, registers))
    }
}

/// What the law on tracked registers states.
spec fn is_right(
    view: AnalysisView,
    decoded: DecodedView,
    registers: Seq<Option<u32>>,
    options: ValueOptions,
    m: Machine,
) -> bool {
    is_known(
        transferred(view, decoded, settled(decoded, registers), options),
        executed(m, decoded.instruction),
    )
}

proof fn lemma_same_addresses(registers: Seq<Option<u32>>, m: Machine, after: Machine)
    requires
        is_known(registers, m),
        forall|j: int|
            #![trigger after.registers[j]]
            8 <= j < 16 ==> after.registers[j] == m.registers[j],
    ensures
        is_known(registers, after),
{
    assert forall|k: int|
        #![trigger registers[k]]
        0 <= k < 8 implies (registers[k] matches Some(value) ==> after.registers[8 + k]
        == value) by {
        assert(after.registers[8 + k] == m.registers[8 + k]);
    }
}

proof fn lemma_on(m: Machine, mode: AddressingMode, size: Size)
    requires
        m.wf(),
        mode.in_range(),
    ensures
        stepped(m, mode, size).wf(),
{
    let on = stepped(m, mode, size);
    assert forall|i: int| 0 <= i < 16 implies 0 <= #[trigger] on.registers[i] < 0x1_0000_0000 by {
        assert(0 <= m.registers[i] < 0x1_0000_0000);
    }
}

/// What `LEA` is known to load is where its operand stands.
proof fn lemma_loaded(
    view: AnalysisView,
    decoded: DecodedView,
    mode: AddressingMode,
    registers: Seq<Option<u32>>,
    options: ValueOptions,
    m: Machine,
)
    requires
        is_asked(decoded, view, m),
        is_known(registers, m),
        mode.in_range(),
    ensures
        spec_effective_address(view, decoded, mode, registers, options) matches Some(value)
            ==> formed(m, mode, Size::Long) == value,
{
    match mode {
        AddressingMode::AbsShort(word) => {
            words_are_extended_by_their_sign(word);
        },
        AddressingMode::Ari(register) | AddressingMode::Ariwd(register, _) => {
            assert(registers[register as int] matches Some(value) ==> m.registers[8 + register]
                == value);
        },
        _ => {},
    }
}

/// What `MOVEA` is known to move is what the register then holds.
proof fn lemma_moved_address(
    view: AnalysisView,
    decoded: DecodedView,
    registers: Seq<Option<u32>>,
    options: ValueOptions,
    m: Machine,
)
    requires
        is_asked(decoded, view, m),
        is_known(registers, m),
        decoded.instruction.operands is SizeRegisterEffectiveAddress,
    ensures
        decoded.instruction.operands matches Operands::SizeRegisterEffectiveAddress(
            _,
            destination,
            _,
        ) && (transferred(view, decoded, settled(decoded, registers), options)[destination as int]
            matches Some(value) ==> executed(m, decoded.instruction).registers[8 + destination]
            == value),
{
    if let Operands::SizeRegisterEffectiveAddress(size, destination, mode) =
        decoded.instruction.operands {
        match mode {
            AddressingMode::Immediate(value) => {
                words_are_extended_by_their_sign(value as u16);
                lemma_low_word(value);
            },
            AddressingMode::Ard(register) => {
                if let Some(value) = registers[register as int] {
                    assert(m.registers[8 + register] == value);
                    words_are_extended_by_their_sign(value as u16);
                    lemma_low_word(value);
                }
            },
            _ => {},
        }
    }
}

/// The low bytes of a longword, unsigned and signed.
pub(crate) proof fn lemma_low_word(value: u32)
    ensures
        value as u16 == low(value as int, Size::Word),
        value as i16 == signed(value as int, Size::Word),
        value as i32 == signed(value as int, Size::Long),
        signed(low(value as int, Size::Word), Size::Word) == signed(value as int, Size::Word),
        wrapped(signed(value as int, Size::Long)) == value,
        low(value as int, Size::Long) == value,
{
    assert({
        &&& value as u16 == value % 0x1_0000
        &&& value as i16 == if value % 0x1_0000 < 0x8000 {
            value % 0x1_0000 + 0
        } else {
            value % 0x1_0000 - 0x1_0000
        }
        &&& value as i32 == if value < 0x8000_0000 {
            value + 0
        } else {
            value - 0x1_0000_0000
        }
    }) by (bit_vector);
}

/// What adding to an address register is known to give is what it then holds.
proof fn lemma_summed(
    view: AnalysisView,
    decoded: DecodedView,
    registers: Seq<Option<u32>>,
    options: ValueOptions,
    m: Machine,
)
    requires
        is_asked(decoded, view, m),
        is_known(registers, m),
        decoded.instruction.operands is RegisterSizeEffectiveAddress,
        decoded.instruction.isa != Isa::Cmpa,
    ensures
        decoded.instruction.operands matches Operands::RegisterSizeEffectiveAddress(
            destination,
            _,
            _,
        ) && (transferred(view, decoded, settled(decoded, registers), options)[destination as int]
            matches Some(value) ==> executed(m, decoded.instruction).registers[8 + destination]
            == value),
{
    if let Operands::RegisterSizeEffectiveAddress(destination, size, mode) =
        decoded.instruction.operands {
        assert(registers[destination as int] matches Some(value) ==> m.registers[8 + destination]
            == value);
        if let AddressingMode::Immediate(value) = mode {
            lemma_low_word(value);
            assert(spec_address_immediate(view, decoded, size, value) == Some(
                signed(value as int, size) as i32,
            ));
        }
    }
}

#[verifier::spinoff_prover]
#[verifier::rlimit(60)]
proof fn lemma_listed(
    view: AnalysisView,
    decoded: DecodedView,
    registers: Seq<Option<u32>>,
    options: ValueOptions,
    m: Machine,
)
    requires
        is_asked(decoded, view, m),
        is_known(registers, m),
        decoded.instruction.operands is DirectionSizeEffectiveAddressList,
    ensures
        is_right(view, decoded, registers, options, m),
{
    if let Operands::DirectionSizeEffectiveAddressList(direction, size, mode, list) =
        decoded.instruction.operands {
        lemma_slots(list, 16);
        let after = transferred(view, decoded, settled(decoded, registers), options);
        let done = executed(m, decoded.instruction);
        assert(slots(list, 16) * slot_width(size) == slots(list, 16) * size.spec_bytes());
        assert forall|i: int|
            #![trigger after[i]]
            0 <= i < 8 implies (after[i] matches Some(value) ==> done.registers[8 + i]
            == value) by {
            assert(registers[i] matches Some(value) ==> m.registers[8 + i] == value);
            assert(lists(list, 8 + i) == spec_listed(list, (i + 8) as u16));
        }
    }
}

#[verifier::spinoff_prover]
#[verifier::rlimit(40)]
proof fn lemma_tracked_no_operands(
    view: AnalysisView,
    decoded: DecodedView,
    registers: Seq<Option<u32>>,
    options: ValueOptions,
    m: Machine,
)
    requires
        is_asked(decoded, view, m),
        is_known(registers, m),
        decoded.instruction.operands is NoOperands,
    ensures
        is_right(view, decoded, registers, options, m),
{
}

#[verifier::spinoff_prover]
#[verifier::rlimit(40)]
proof fn lemma_tracked_status(
    view: AnalysisView,
    decoded: DecodedView,
    registers: Seq<Option<u32>>,
    options: ValueOptions,
    m: Machine,
)
    requires
        is_asked(decoded, view, m),
        is_known(registers, m),
        decoded.instruction.operands is Immediate,
    ensures
        is_right(view, decoded, registers, options, m),
{
}

#[verifier::spinoff_prover]
#[verifier::rlimit(40)]
proof fn lemma_tracked_vector(
    view: AnalysisView,
    decoded: DecodedView,
    registers: Seq<Option<u32>>,
    options: ValueOptions,
    m: Machine,
)
    requires
        is_asked(decoded, view, m),
        is_known(registers, m),
        decoded.instruction.operands is Vector,
    ensures
        is_right(view, decoded, registers, options, m),
{
}

#[verifier::spinoff_prover]
#[verifier::rlimit(40)]
proof fn lemma_tracked_branch(
    view: AnalysisView,
    decoded: DecodedView,
    registers: Seq<Option<u32>>,
    options: ValueOptions,
    m: Machine,
)
    requires
        is_asked(decoded, view, m),
        is_known(registers, m),
        decoded.instruction.operands is Displacement,
    ensures
        is_right(view, decoded, registers, options, m),
{
}

#[verifier::spinoff_prover]
#[verifier::rlimit(40)]
proof fn lemma_tracked_conditional(
    view: AnalysisView,
    decoded: DecodedView,
    registers: Seq<Option<u32>>,
    options: ValueOptions,
    m: Machine,
)
    requires
        is_asked(decoded, view, m),
        is_known(registers, m),
        decoded.instruction.operands is ConditionDisplacement,
    ensures
        is_right(view, decoded, registers, options, m),
{
}

#[verifier::spinoff_prover]
#[verifier::rlimit(40)]
proof fn lemma_tracked_data(
    view: AnalysisView,
    decoded: DecodedView,
    registers: Seq<Option<u32>>,
    options: ValueOptions,
    m: Machine,
)
    requires
        is_asked(decoded, view, m),
        is_known(registers, m),
        decoded.instruction.operands is RegisterData,
    ensures
        is_right(view, decoded, registers, options, m),
{
    let instruction = decoded.instruction;
    let accesses = spec_operand_accesses(instruction.isa, instruction.operands);
    let after = settled(decoded, registers);
    if let Operands::RegisterData(_, _) = instruction.operands {
        lemma_same_addresses(registers, m, executed(m, instruction));
    }
}

#[verifier::spinoff_prover]
#[verifier::rlimit(40)]
proof fn lemma_tracked_register_source(
    view: AnalysisView,
    decoded: DecodedView,
    registers: Seq<Option<u32>>,
    options: ValueOptions,
    m: Machine,
)
    requires
        is_asked(decoded, view, m),
        is_known(registers, m),
        decoded.instruction.operands is RegisterEffectiveAddress,
    ensures
        is_right(view, decoded, registers, options, m),
{
    let instruction = decoded.instruction;
    let accesses = spec_operand_accesses(instruction.isa, instruction.operands);
    let after = settled(decoded, registers);
    if let Operands::RegisterEffectiveAddress(destination, mode) = instruction.operands {
        lemma_passed(instruction.operands, accesses.first->0, registers, m, Size::Word);
        if instruction.isa == Isa::Lea {
            let value = spec_effective_address(view, decoded, mode, after, options);
            lemma_loaded(view, decoded, mode, after, options, m);
            lemma_updated(after, m, executed(m, instruction), destination as int, value);
        } else {
            lemma_same_addresses(after, stepped(m, mode, Size::Word), executed(m, instruction));
        }
    }
}

#[verifier::spinoff_prover]
#[verifier::rlimit(40)]
proof fn lemma_tracked_address_arithmetic(
    view: AnalysisView,
    decoded: DecodedView,
    registers: Seq<Option<u32>>,
    options: ValueOptions,
    m: Machine,
)
    requires
        is_asked(decoded, view, m),
        is_known(registers, m),
        decoded.instruction.operands is RegisterSizeEffectiveAddress,
    ensures
        is_right(view, decoded, registers, options, m),
{
    let instruction = decoded.instruction;
    let accesses = spec_operand_accesses(instruction.isa, instruction.operands);
    let after = settled(decoded, registers);
    if let Operands::RegisterSizeEffectiveAddress(destination, size, mode) = instruction.operands {
        lemma_passed(instruction.operands, accesses.first->0, registers, m, size);
        if instruction.isa == Isa::Cmpa {
            lemma_same_addresses(after, stepped(m, mode, size), executed(m, instruction));
        } else {
            let value = transferred(view, decoded, after, options)[destination as int];
            lemma_summed(view, decoded, registers, options, m);
            lemma_updated(
                after,
                stepped(m, mode, size),
                executed(m, instruction),
                destination as int,
                value,
            );
        }
    }
}

#[verifier::spinoff_prover]
#[verifier::rlimit(40)]
proof fn lemma_tracked_exchange(
    view: AnalysisView,
    decoded: DecodedView,
    registers: Seq<Option<u32>>,
    options: ValueOptions,
    m: Machine,
)
    requires
        is_asked(decoded, view, m),
        is_known(registers, m),
        decoded.instruction.operands is RegisterOpmodeRegister,
    ensures
        is_right(view, decoded, registers, options, m),
{
    let instruction = decoded.instruction;
    let accesses = spec_operand_accesses(instruction.isa, instruction.operands);
    let after = settled(decoded, registers);
    if let Operands::RegisterOpmodeRegister(left, direction, right) = instruction.operands {
        assert(registers[left as int] matches Some(value) ==> m.registers[8 + left] == value);
        assert(registers[right as int] matches Some(value) ==> m.registers[8 + right] == value);
    }
}

#[verifier::spinoff_prover]
#[verifier::rlimit(40)]
proof fn lemma_tracked_immediate(
    view: AnalysisView,
    decoded: DecodedView,
    registers: Seq<Option<u32>>,
    options: ValueOptions,
    m: Machine,
)
    requires
        is_asked(decoded, view, m),
        is_known(registers, m),
        decoded.instruction.operands is SizeEffectiveAddressImmediate,
    ensures
        is_right(view, decoded, registers, options, m),
{
    let instruction = decoded.instruction;
    let accesses = spec_operand_accesses(instruction.isa, instruction.operands);
    let after = settled(decoded, registers);
    if let Operands::SizeEffectiveAddressImmediate(size, mode, _) = instruction.operands {
        lemma_passed(instruction.operands, accesses.first->0, registers, m, size);
        lemma_same_addresses(after, stepped(m, mode, size), executed(m, instruction));
    }
}

#[verifier::spinoff_prover]
#[verifier::rlimit(40)]
proof fn lemma_tracked_bit(
    view: AnalysisView,
    decoded: DecodedView,
    registers: Seq<Option<u32>>,
    options: ValueOptions,
    m: Machine,
)
    requires
        is_asked(decoded, view, m),
        is_known(registers, m),
        decoded.instruction.operands is EffectiveAddressCount,
    ensures
        is_right(view, decoded, registers, options, m),
{
    let instruction = decoded.instruction;
    let accesses = spec_operand_accesses(instruction.isa, instruction.operands);
    let after = settled(decoded, registers);
    if let Operands::EffectiveAddressCount(mode, _) = instruction.operands {
        lemma_passed(instruction.operands, accesses.first->0, registers, m, Size::Byte);
        lemma_same_addresses(after, stepped(m, mode, Size::Byte), executed(m, instruction));
    }
}

#[verifier::spinoff_prover]
#[verifier::rlimit(40)]
proof fn lemma_tracked_lone(
    view: AnalysisView,
    decoded: DecodedView,
    registers: Seq<Option<u32>>,
    options: ValueOptions,
    m: Machine,
)
    requires
        is_asked(decoded, view, m),
        is_known(registers, m),
        decoded.instruction.operands is EffectiveAddress,
    ensures
        is_right(view, decoded, registers, options, m),
{
    let instruction = decoded.instruction;
    let accesses = spec_operand_accesses(instruction.isa, instruction.operands);
    let after = settled(decoded, registers);
    if let Operands::EffectiveAddress(mode) = instruction.operands {
        if instruction.isa == Isa::Nbcd || instruction.isa == Isa::Tas {
            lemma_passed(instruction.operands, accesses.first->0, registers, m, Size::Byte);
            lemma_same_addresses(
                after,
                stepped(m, mode, Size::Byte),
                executed(m, instruction),
            );
        } else {
            lemma_passed(instruction.operands, accesses.first->0, registers, m, Size::Word);
            if instruction.isa == Isa::Pea {
                lemma_updated(after, m, executed(m, instruction), 7, None);
            } else {
                lemma_same_addresses(
                    after,
                    stepped(m, mode, Size::Word),
                    executed(m, instruction),
                );
            }
        }
    }
}

#[verifier::spinoff_prover]
#[verifier::rlimit(40)]
proof fn lemma_tracked_unary(
    view: AnalysisView,
    decoded: DecodedView,
    registers: Seq<Option<u32>>,
    options: ValueOptions,
    m: Machine,
)
    requires
        is_asked(decoded, view, m),
        is_known(registers, m),
        decoded.instruction.operands is SizeEffectiveAddress,
    ensures
        is_right(view, decoded, registers, options, m),
{
    let instruction = decoded.instruction;
    let accesses = spec_operand_accesses(instruction.isa, instruction.operands);
    let after = settled(decoded, registers);
    if let Operands::SizeEffectiveAddress(size, mode) = instruction.operands {
        lemma_passed(instruction.operands, accesses.first->0, registers, m, size);
        lemma_same_addresses(after, stepped(m, mode, size), executed(m, instruction));
    }
}

#[verifier::spinoff_prover]
#[verifier::rlimit(40)]
proof fn lemma_tracked_movep(
    view: AnalysisView,
    decoded: DecodedView,
    registers: Seq<Option<u32>>,
    options: ValueOptions,
    m: Machine,
)
    requires
        is_asked(decoded, view, m),
        is_known(registers, m),
        decoded.instruction.operands is RegisterDirectionSizeRegisterDisplacement,
    ensures
        is_right(view, decoded, registers, options, m),
{
    let instruction = decoded.instruction;
    let accesses = spec_operand_accesses(instruction.isa, instruction.operands);
    let after = settled(decoded, registers);
    if let Operands::RegisterDirectionSizeRegisterDisplacement(_, _, _, _, _) = instruction.operands {
        lemma_same_addresses(registers, m, executed(m, instruction));
    }
}

#[verifier::spinoff_prover]
#[verifier::rlimit(40)]
proof fn lemma_tracked_extension(
    view: AnalysisView,
    decoded: DecodedView,
    registers: Seq<Option<u32>>,
    options: ValueOptions,
    m: Machine,
)
    requires
        is_asked(decoded, view, m),
        is_known(registers, m),
        decoded.instruction.operands is OpmodeRegister,
    ensures
        is_right(view, decoded, registers, options, m),
{
    let instruction = decoded.instruction;
    let accesses = spec_operand_accesses(instruction.isa, instruction.operands);
    let after = settled(decoded, registers);
    if let Operands::OpmodeRegister(_, _) = instruction.operands {
        lemma_same_addresses(registers, m, executed(m, instruction));
    }
}

#[verifier::spinoff_prover]
#[verifier::rlimit(40)]
proof fn lemma_tracked_link(
    view: AnalysisView,
    decoded: DecodedView,
    registers: Seq<Option<u32>>,
    options: ValueOptions,
    m: Machine,
)
    requires
        is_asked(decoded, view, m),
        is_known(registers, m),
        decoded.instruction.operands is RegisterDisplacement,
    ensures
        is_right(view, decoded, registers, options, m),
{
    let instruction = decoded.instruction;
    let accesses = spec_operand_accesses(instruction.isa, instruction.operands);
    let after = settled(decoded, registers);
    if let Operands::RegisterDisplacement(named, _) = instruction.operands {
        assert(forall|i: int|
            #![trigger registers[i]]
            0 <= i < 8 && i != named && i != 7 ==> executed(m, instruction).registers[8 + i]
                == m.registers[8 + i]);
    }
}

#[verifier::spinoff_prover]
#[verifier::rlimit(40)]
proof fn lemma_tracked_swap(
    view: AnalysisView,
    decoded: DecodedView,
    registers: Seq<Option<u32>>,
    options: ValueOptions,
    m: Machine,
)
    requires
        is_asked(decoded, view, m),
        is_known(registers, m),
        decoded.instruction.operands is Register,
    ensures
        is_right(view, decoded, registers, options, m),
{
    let instruction = decoded.instruction;
    let accesses = spec_operand_accesses(instruction.isa, instruction.operands);
    let after = settled(decoded, registers);
    if let Operands::Register(named) = instruction.operands {
        assert(forall|i: int|
            #![trigger registers[i]]
            0 <= i < 8 && i != named && i != 7 ==> executed(m, instruction).registers[8 + i]
                == m.registers[8 + i]);
    }
}

#[verifier::spinoff_prover]
#[verifier::rlimit(40)]
proof fn lemma_tracked_user_stack(
    view: AnalysisView,
    decoded: DecodedView,
    registers: Seq<Option<u32>>,
    options: ValueOptions,
    m: Machine,
)
    requires
        is_asked(decoded, view, m),
        is_known(registers, m),
        decoded.instruction.operands is DirectionRegister,
    ensures
        is_right(view, decoded, registers, options, m),
{
    let instruction = decoded.instruction;
    let accesses = spec_operand_accesses(instruction.isa, instruction.operands);
    let after = settled(decoded, registers);
    if let Operands::DirectionRegister(direction, named) = instruction.operands {
        if direction == Direction::UspToRegister {
            lemma_updated(registers, m, executed(m, instruction), named as int, None);
        }
    }
}

#[verifier::spinoff_prover]
#[verifier::rlimit(40)]
proof fn lemma_tracked_quick(
    view: AnalysisView,
    decoded: DecodedView,
    registers: Seq<Option<u32>>,
    options: ValueOptions,
    m: Machine,
)
    requires
        is_asked(decoded, view, m),
        is_known(registers, m),
        decoded.instruction.operands is DataSizeEffectiveAddress,
    ensures
        is_right(view, decoded, registers, options, m),
{
    let instruction = decoded.instruction;
    let accesses = spec_operand_accesses(instruction.isa, instruction.operands);
    let after = settled(decoded, registers);
    if let Operands::DataSizeEffectiveAddress(amount, size, mode) = instruction.operands {
        lemma_passed(instruction.operands, accesses.first->0, registers, m, size);
        if let AddressingMode::Ard(destination) = mode {
            assert(registers[destination as int] matches Some(value) ==> m.registers[8
                + destination] == value);
            let value = transferred(view, decoded, after, options)[destination as int];
            lemma_updated(after, m, executed(m, instruction), destination as int, value);
        } else {
            lemma_same_addresses(after, stepped(m, mode, size), executed(m, instruction));
        }
    }
}

#[verifier::spinoff_prover]
#[verifier::rlimit(40)]
proof fn lemma_tracked_condition(
    view: AnalysisView,
    decoded: DecodedView,
    registers: Seq<Option<u32>>,
    options: ValueOptions,
    m: Machine,
)
    requires
        is_asked(decoded, view, m),
        is_known(registers, m),
        decoded.instruction.operands is ConditionEffectiveAddress,
    ensures
        is_right(view, decoded, registers, options, m),
{
    let instruction = decoded.instruction;
    let accesses = spec_operand_accesses(instruction.isa, instruction.operands);
    let after = settled(decoded, registers);
    if let Operands::ConditionEffectiveAddress(_, mode) = instruction.operands {
        lemma_passed(instruction.operands, accesses.first->0, registers, m, Size::Byte);
        lemma_same_addresses(after, stepped(m, mode, Size::Byte), executed(m, instruction));
    }
}

#[verifier::spinoff_prover]
#[verifier::rlimit(40)]
proof fn lemma_tracked_loop(
    view: AnalysisView,
    decoded: DecodedView,
    registers: Seq<Option<u32>>,
    options: ValueOptions,
    m: Machine,
)
    requires
        is_asked(decoded, view, m),
        is_known(registers, m),
        decoded.instruction.operands is ConditionRegisterDisplacement,
    ensures
        is_right(view, decoded, registers, options, m),
{
    let instruction = decoded.instruction;
    let accesses = spec_operand_accesses(instruction.isa, instruction.operands);
    let after = settled(decoded, registers);
    if let Operands::ConditionRegisterDisplacement(_, _, _) = instruction.operands {
        lemma_same_addresses(registers, m, executed(m, instruction));
    }
}

#[verifier::spinoff_prover]
#[verifier::rlimit(40)]
proof fn lemma_tracked_arithmetic(
    view: AnalysisView,
    decoded: DecodedView,
    registers: Seq<Option<u32>>,
    options: ValueOptions,
    m: Machine,
)
    requires
        is_asked(decoded, view, m),
        is_known(registers, m),
        decoded.instruction.operands is RegisterDirectionSizeEffectiveAddress,
    ensures
        is_right(view, decoded, registers, options, m),
{
    let instruction = decoded.instruction;
    let accesses = spec_operand_accesses(instruction.isa, instruction.operands);
    let after = settled(decoded, registers);
    if let Operands::RegisterDirectionSizeEffectiveAddress(_, _, size, mode) = instruction.operands {
        lemma_passed(instruction.operands, accesses.first->0, registers, m, size);
        lemma_same_addresses(after, stepped(m, mode, size), executed(m, instruction));
    }
}

#[verifier::spinoff_prover]
#[verifier::rlimit(40)]
proof fn lemma_tracked_extended(
    view: AnalysisView,
    decoded: DecodedView,
    registers: Seq<Option<u32>>,
    options: ValueOptions,
    m: Machine,
)
    requires
        is_asked(decoded, view, m),
        is_known(registers, m),
        decoded.instruction.operands is RegisterSizeModeRegister,
    ensures
        is_right(view, decoded, registers, options, m),
{
    let instruction = decoded.instruction;
    let accesses = spec_operand_accesses(instruction.isa, instruction.operands);
    let after = settled(decoded, registers);
    if let Operands::RegisterSizeModeRegister(left, size, direction, right) = instruction.operands {
        if direction == Direction::MemoryToMemory {
            let on = stepped(m, AddressingMode::Ariwpr(right), size);
            let between = passed(instruction.operands, accesses.first, registers);
            lemma_passed(instruction.operands, accesses.first->0, registers, m, size);
            lemma_on(m, AddressingMode::Ariwpr(right), size);
            lemma_passed(instruction.operands, accesses.second->0, between, on, size);
        } else {
            lemma_same_addresses(registers, m, executed(m, instruction));
        }
    }
}

#[verifier::spinoff_prover]
#[verifier::rlimit(40)]
proof fn lemma_tracked_comparison(
    view: AnalysisView,
    decoded: DecodedView,
    registers: Seq<Option<u32>>,
    options: ValueOptions,
    m: Machine,
)
    requires
        is_asked(decoded, view, m),
        is_known(registers, m),
        decoded.instruction.operands is RegisterSizeRegister,
    ensures
        is_right(view, decoded, registers, options, m),
{
    let instruction = decoded.instruction;
    let accesses = spec_operand_accesses(instruction.isa, instruction.operands);
    let after = settled(decoded, registers);
    if let Operands::RegisterSizeRegister(left, size, right) = instruction.operands {
        let on = stepped(m, AddressingMode::Ariwpo(right), size);
        let between = passed(instruction.operands, accesses.first, registers);
        lemma_passed(instruction.operands, accesses.first->0, registers, m, size);
        lemma_on(m, AddressingMode::Ariwpo(right), size);
        lemma_passed(instruction.operands, accesses.second->0, between, on, size);
    }
}

#[verifier::spinoff_prover]
#[verifier::rlimit(40)]
proof fn lemma_tracked_memory_shift(
    view: AnalysisView,
    decoded: DecodedView,
    registers: Seq<Option<u32>>,
    options: ValueOptions,
    m: Machine,
)
    requires
        is_asked(decoded, view, m),
        is_known(registers, m),
        decoded.instruction.operands is DirectionEffectiveAddress,
    ensures
        is_right(view, decoded, registers, options, m),
{
    let instruction = decoded.instruction;
    let accesses = spec_operand_accesses(instruction.isa, instruction.operands);
    let after = settled(decoded, registers);
    if let Operands::DirectionEffectiveAddress(_, mode) = instruction.operands {
        lemma_passed(instruction.operands, accesses.first->0, registers, m, Size::Word);
        lemma_same_addresses(after, stepped(m, mode, Size::Word), executed(m, instruction));
    }
}

#[verifier::spinoff_prover]
#[verifier::rlimit(40)]
proof fn lemma_tracked_shift(
    view: AnalysisView,
    decoded: DecodedView,
    registers: Seq<Option<u32>>,
    options: ValueOptions,
    m: Machine,
)
    requires
        is_asked(decoded, view, m),
        is_known(registers, m),
        decoded.instruction.operands is RotationDirectionSizeModeRegister,
    ensures
        is_right(view, decoded, registers, options, m),
{
    let instruction = decoded.instruction;
    let accesses = spec_operand_accesses(instruction.isa, instruction.operands);
    let after = settled(decoded, registers);
    if let Operands::RotationDirectionSizeModeRegister(_, _, _, _, _) = instruction.operands {
        lemma_same_addresses(registers, m, executed(m, instruction));
    }
}

#[verifier::spinoff_prover]
#[verifier::rlimit(40)]
proof fn lemma_tracked_move(
    view: AnalysisView,
    decoded: DecodedView,
    registers: Seq<Option<u32>>,
    options: ValueOptions,
    m: Machine,
)
    requires
        is_asked(decoded, view, m),
        is_known(registers, m),
        decoded.instruction.operands is SizeEffectiveAddressEffectiveAddress,
    ensures
        is_right(view, decoded, registers, options, m),
{
    let instruction = decoded.instruction;
    let accesses = spec_operand_accesses(instruction.isa, instruction.operands);
    let after = settled(decoded, registers);
    if let Operands::SizeEffectiveAddressEffectiveAddress(size, destination, source) = instruction.operands {
        let on = stepped(m, source, size);
        let between = passed(instruction.operands, accesses.second, registers);
        lemma_passed(instruction.operands, accesses.second->0, registers, m, size);
        lemma_on(m, source, size);
        lemma_passed(instruction.operands, accesses.first->0, between, on, size);
        lemma_same_addresses(
            after,
            stepped(on, destination, size),
            executed(m, instruction),
        );
    }
}

#[verifier::spinoff_prover]
#[verifier::rlimit(40)]
proof fn lemma_tracked_movea(
    view: AnalysisView,
    decoded: DecodedView,
    registers: Seq<Option<u32>>,
    options: ValueOptions,
    m: Machine,
)
    requires
        is_asked(decoded, view, m),
        is_known(registers, m),
        decoded.instruction.operands is SizeRegisterEffectiveAddress,
    ensures
        is_right(view, decoded, registers, options, m),
{
    let instruction = decoded.instruction;
    let accesses = spec_operand_accesses(instruction.isa, instruction.operands);
    let after = settled(decoded, registers);
    if let Operands::SizeRegisterEffectiveAddress(size, destination, mode) = instruction.operands {
        lemma_passed(instruction.operands, accesses.first->0, registers, m, size);
        let value = transferred(view, decoded, after, options)[destination as int];
        lemma_moved_address(view, decoded, registers, options, m);
        lemma_updated(
            after,
            stepped(m, mode, size),
            executed(m, instruction),
            destination as int,
            value,
        );
    }
}

#[verifier::spinoff_prover]
#[verifier::rlimit(40)]
proof fn lemma_tracked_movem(
    view: AnalysisView,
    decoded: DecodedView,
    registers: Seq<Option<u32>>,
    options: ValueOptions,
    m: Machine,
)
    requires
        is_asked(decoded, view, m),
        is_known(registers, m),
        decoded.instruction.operands is DirectionSizeEffectiveAddressList,
    ensures
        is_right(view, decoded, registers, options, m),
{
    let instruction = decoded.instruction;
    let accesses = spec_operand_accesses(instruction.isa, instruction.operands);
    let after = settled(decoded, registers);
    if let Operands::DirectionSizeEffectiveAddressList(direction, size, mode, list) = instruction.operands {
        lemma_listed(view, decoded, registers, options, m);
    }
}

/// What is known of the address registers stays true from instruction to instruction, in the
/// image's own coordinates: what is known after one holds of the machine that it leaves.
pub proof fn tracked_registers_stay_true(
    derivation: Derivation,
    view: AnalysisView,
    decoded: DecodedView,
    options: ValueOptions,
    m: Machine,
)
    requires
        m.wf(),
        m.origin == 0,
        view.relocations is None,
        decoded.instruction.wf(),
        is_encodable(decoded.instruction),
        spec_operand_effects(decoded.instruction).complete,
        !matches!(decoded.instruction.isa, Isa::Rts | Isa::Rtr | Isa::Rte),
        is_known(derivation.registers, m),
    ensures
        is_known(
            derivation.with_instruction(view, decoded, options).registers,
            executed(m, decoded.instruction),
        ),
{
    let after = derivation.with_instruction(view, decoded, options);
    let registers = if derivation.end != Some(decoded.address) || is_reset_site(
        view,
        decoded.address,
    ) {
        nothing_known()
    } else {
        derivation.registers
    };
    assert(is_known(registers, m));
    if !spec_clobbers_tracked_registers(decoded.instruction.isa) {
        assert(after.registers == transferred(view, decoded, settled(decoded, registers), options));
        match decoded.instruction.operands {
            Operands::NoOperands => {
                lemma_tracked_no_operands(view, decoded, registers, options, m);
            },
            Operands::Immediate(_) => {
                lemma_tracked_status(view, decoded, registers, options, m);
            },
            Operands::Vector(_) => {
                lemma_tracked_vector(view, decoded, registers, options, m);
            },
            Operands::Displacement(_) => {
                lemma_tracked_branch(view, decoded, registers, options, m);
            },
            Operands::ConditionDisplacement(_, _) => {
                lemma_tracked_conditional(view, decoded, registers, options, m);
            },
            Operands::RegisterData(_, _) => {
                lemma_tracked_data(view, decoded, registers, options, m);
            },
            Operands::RegisterEffectiveAddress(_, _) => {
                lemma_tracked_register_source(view, decoded, registers, options, m);
            },
            Operands::RegisterSizeEffectiveAddress(_, _, _) => {
                lemma_tracked_address_arithmetic(view, decoded, registers, options, m);
            },
            Operands::RegisterOpmodeRegister(_, _, _) => {
                lemma_tracked_exchange(view, decoded, registers, options, m);
            },
            Operands::SizeEffectiveAddressImmediate(_, _, _) => {
                lemma_tracked_immediate(view, decoded, registers, options, m);
            },
            Operands::EffectiveAddressCount(_, _) => {
                lemma_tracked_bit(view, decoded, registers, options, m);
            },
            Operands::EffectiveAddress(_) => {
                lemma_tracked_lone(view, decoded, registers, options, m);
            },
            Operands::SizeEffectiveAddress(_, _) => {
                lemma_tracked_unary(view, decoded, registers, options, m);
            },
            Operands::RegisterDirectionSizeRegisterDisplacement(_, _, _, _, _) => {
                lemma_tracked_movep(view, decoded, registers, options, m);
            },
            Operands::OpmodeRegister(_, _) => {
                lemma_tracked_extension(view, decoded, registers, options, m);
            },
            Operands::RegisterDisplacement(_, _) => {
                lemma_tracked_link(view, decoded, registers, options, m);
            },
            Operands::Register(_) => {
                lemma_tracked_swap(view, decoded, registers, options, m);
            },
            Operands::DirectionRegister(_, _) => {
                lemma_tracked_user_stack(view, decoded, registers, options, m);
            },
            Operands::DataSizeEffectiveAddress(_, _, _) => {
                lemma_tracked_quick(view, decoded, registers, options, m);
            },
            Operands::ConditionEffectiveAddress(_, _) => {
                lemma_tracked_condition(view, decoded, registers, options, m);
            },
            Operands::ConditionRegisterDisplacement(_, _, _) => {
                lemma_tracked_loop(view, decoded, registers, options, m);
            },
            Operands::RegisterDirectionSizeEffectiveAddress(_, _, _, _) => {
                lemma_tracked_arithmetic(view, decoded, registers, options, m);
            },
            Operands::RegisterSizeModeRegister(_, _, _, _) => {
                lemma_tracked_extended(view, decoded, registers, options, m);
            },
            Operands::RegisterSizeRegister(_, _, _) => {
                lemma_tracked_comparison(view, decoded, registers, options, m);
            },
            Operands::DirectionEffectiveAddress(_, _) => {
                lemma_tracked_memory_shift(view, decoded, registers, options, m);
            },
            Operands::RotationDirectionSizeModeRegister(_, _, _, _, _) => {
                lemma_tracked_shift(view, decoded, registers, options, m);
            },
            Operands::SizeEffectiveAddressEffectiveAddress(_, _, _) => {
                lemma_tracked_move(view, decoded, registers, options, m);
            },
            Operands::SizeRegisterEffectiveAddress(_, _, _) => {
                lemma_tracked_movea(view, decoded, registers, options, m);
            },
            Operands::DirectionSizeEffectiveAddressList(_, _, _, _) => {
                lemma_tracked_movem(view, decoded, registers, options, m);
            },
        }
    }
}

} // verus!
