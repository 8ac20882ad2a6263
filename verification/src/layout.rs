//! Where the operands of an instruction stand in its encoding.

use crate::decoded::{
    spec_ea_extension_bytes, spec_movec_fields, spec_operand_layout, word_at, DecodedView,
    OperandRole,
};
use crate::globals::{spec_operand_accesses, OperandAccess};
use crate::m68k::{AddressingMode, Instruction, Operands, Size};
use vstd::prelude::*;

verus! {

/// How many extension words an operand takes: none for a register and what it points at, one
/// for a word of distance, index or address, two for a longword.
pub open spec fn extension_words(mode: AddressingMode, size: Size) -> int {
    match mode {
        AddressingMode::AbsLong(_) => 2,
        AddressingMode::Immediate(_) => if size == Size::Long {
            2
        } else {
            1
        },
        AddressingMode::Ariwd(_, _)
        | AddressingMode::Ariwi8(_, _)
        | AddressingMode::AbsShort(_)
        | AddressingMode::Pciwd(_, _)
        | AddressingMode::Pciwi8(_, _) => 1,
        _ => 0,
    }
}

/// The displacement of an operand behind the opcode word.
pub open spec fn displacement_of(instruction: Instruction, role: OperandRole) -> int {
    match spec_operand_layout(instruction, role) {
        Some((relative, _, _)) => relative as int,
        None => -1,
    }
}

/// The role that an access is given is that of its own operand.
pub proof fn roles_name_their_operands(instruction: Instruction, access: OperandAccess)
    requires
        instruction.wf(),
        spec_operand_accesses(instruction.isa, instruction.operands).list().contains(access),
        !(instruction.operands is RegisterDirectionSizeRegisterDisplacement),
        !(instruction.operands is RegisterSizeModeRegister),
        !(instruction.operands is RegisterSizeRegister),
    ensures
        spec_operand_layout(
            instruction,
            OperandRole::spec_for_access(instruction.operands, access.kind),
        ) matches Some((_, mode, _)) && mode == access.mode,
{
    let list = spec_operand_accesses(instruction.isa, instruction.operands).list();
    let i = choose|i: int| 0 <= i < list.len() && list[i] == access;
    assert(i == 0 || i == 1);
}

/// Operands stand one behind the other: the source right behind the opcode word, and the
/// destination right behind the source. A register list and a fixed bit number take a word
/// before the operand.
pub proof fn operands_stand_one_behind_the_other(instruction: Instruction)
    requires
        instruction.wf(),
    ensures
        match instruction.operands {
            Operands::SizeEffectiveAddressEffectiveAddress(size, _, source) => {
                &&& displacement_of(instruction, OperandRole::Source) == 0
                &&& displacement_of(instruction, OperandRole::Destination) == 2 * extension_words(
                    source,
                    size,
                )
            },
            Operands::SizeEffectiveAddressImmediate(size, _, value) => {
                &&& displacement_of(instruction, OperandRole::Source) == 0
                &&& displacement_of(instruction, OperandRole::Destination) == 2 * extension_words(
                    AddressingMode::Immediate(value),
                    size,
                )
            },
            Operands::DirectionSizeEffectiveAddressList(_, _, _, _) => displacement_of(
                instruction,
                OperandRole::Only,
            ) == 2,
            Operands::EffectiveAddressCount(_, _) => displacement_of(instruction, OperandRole::Only)
                == if instruction.opcode / 0x100 == 8 {
                2int
            } else {
                0int
            },
            _ => spec_operand_layout(instruction, OperandRole::Only) is Some ==> displacement_of(
                instruction,
                OperandRole::Only,
            ) == 0,
        },
{
    let opcode = instruction.opcode;
    assert((opcode & 0xff00 == 0x0800) == (opcode / 0x100 == 8)) by (bit_vector);
}

/// The extension of an operand is as long as its words.
pub proof fn extensions_are_as_long_as_their_words(mode: AddressingMode, size: Size)
    ensures
        spec_ea_extension_bytes(mode, size) == 2 * extension_words(mode, size),
{
}

/// The longword of an operand that a relocation may patch lies inside the instruction, at the
/// place where the operand stands.
pub proof fn longwords_stand_where_their_operands_do(decoded: DecodedView, role: OperandRole)
    ensures
        decoded.operand_longword_position(role) matches Some(at) ==> {
            &&& at == decoded.address + 2 + displacement_of(decoded.instruction, role)
            &&& at + 4 <= decoded.end
            &&& spec_operand_layout(decoded.instruction, role) matches Some((_, mode, size))
                && extension_words(mode, size) == 2
        },
        (spec_operand_layout(decoded.instruction, role) matches Some((relative, mode, size)) && (
        extension_words(mode, size) == 2 && decoded.address + 2 + relative + 4 <= decoded.end
            && decoded.end <= u32::MAX)) ==> decoded.operand_longword_position(role) is Some,
{
}

/// The fields of `MOVEC`: the top four bits of its extension word count the sixteen general
/// registers, and the other twelve number the control register. The two directions differ in
/// the last bit of the opcode, and only one of them writes the general register.
pub proof fn control_moves_name_their_registers(decoded: DecodedView)
    ensures
        spec_movec_fields(decoded.instruction.opcode, decoded.encoded) matches Some(
            (address, register, _),
        ) ==> {
            let extension = word_at(decoded.encoded, 2) as int;
            &&& register + (if address {
                8int
            } else {
                0int
            }) == extension / 0x1000
            &&& register < 8
            &&& (decoded.instruction.opcode == 0x4e7a ==> decoded.movec_destination() == Some(
                (address, register),
            ))
            &&& (decoded.instruction.opcode != 0x4e7a ==> decoded.movec_destination() is None)
        },
        decoded.is_opaque_fallthrough() ==> {
            let control = word_at(decoded.encoded, 2) as int % 0x1000;
            control <= 2 || 0x800 <= control <= 0x804
        },
{
    let extension = word_at(decoded.encoded, 2);
    assert({
        &&& ((extension >> 12) & 7) as u8 as u16 == extension / 0x1000 - (if extension & 0x8000
            != 0 {
            8u16
        } else {
            0u16
        })
        &&& (((extension >> 12) & 7) as u8) < 8
        &&& extension & 0x0fff == extension % 0x1000
    }) by (bit_vector);
}

} // verus!
