//! How operands are used: that every operand is classified as the lanes of a register in its
//! place would be, that nothing is read which is only overwritten, and that what a call may
//! overwrite is given up.

use crate::dependence::{
    in_lanes, lemma_dynamic, lemma_has_either, lemma_has_nothing, lemma_list_lanes, lemma_one_lane,
    lemma_operand, lemma_reads, lemma_writes,
};
use crate::effects::{
    reversed_list_mirrors, spec_address_bit, spec_lanes_for_registers, spec_no_effect,
    spec_operand_effects, spec_read_ea, spec_reads, spec_register_effects,
    spec_restored_register_mask, spec_saved_register_mask, GENERAL_REGISTERS,
};
use crate::globals::{spec_operand_accesses, AccessKind, OperandAccess};
use crate::m68k::{AddressingMode, Direction, Instruction, Isa, Operands, Size};
use crate::machine::{bit_lane, is_dynamic, list_stores, lists};
use crate::meaning::is_encodable;
use vstd::prelude::*;

verus! {

/// The data register that an instruction uses as the operand that an access classifies, and
/// for nothing else.
pub open spec fn is_lone_operand(instruction: Instruction, register: u8) -> bool {
    match instruction.operands {
        Operands::SizeEffectiveAddressImmediate(_, mode, _) => mode == AddressingMode::Drd(register),
        Operands::EffectiveAddressCount(mode, count) => mode == AddressingMode::Drd(register) && (
        is_dynamic(instruction) ==> count != register),
        Operands::EffectiveAddress(mode) => mode == AddressingMode::Drd(register) && !matches!(
            instruction.isa,
            Isa::Pea | Isa::Jmp | Isa::Jsr
        ),
        Operands::SizeEffectiveAddress(_, mode) => mode == AddressingMode::Drd(register),
        Operands::RegisterEffectiveAddress(other, mode) => mode == AddressingMode::Drd(register)
            && other != register && instruction.isa != Isa::Lea,
        Operands::SizeRegisterEffectiveAddress(_, _, mode) => mode == AddressingMode::Drd(register),
        Operands::DataSizeEffectiveAddress(_, _, mode) => mode == AddressingMode::Drd(register),
        Operands::ConditionEffectiveAddress(_, mode) => mode == AddressingMode::Drd(register),
        Operands::RegisterDirectionSizeEffectiveAddress(other, _, _, mode) => mode
            == AddressingMode::Drd(register) && other != register,
        Operands::RegisterSizeEffectiveAddress(_, _, mode) => mode == AddressingMode::Drd(register),
        _ => false,
    }
}

/// The lane of the register that tells how it is used.
pub open spec fn telling_lane(instruction: Instruction) -> int {
    match instruction.operands {
        Operands::EffectiveAddressCount(_, count) => if is_dynamic(instruction) {
            0
        } else {
            bit_lane(count)
        },
        _ => 0,
    }
}

/// Whether an access goes the way that lanes are read and written.
pub open spec fn goes_as(kind: AccessKind, read: bool, written: bool) -> bool {
    match kind {
        AccessKind::Read => read && !written,
        AccessKind::Write => written && !read,
        AccessKind::Modify => read && written,
        AccessKind::Address | AccessKind::Other => false,
    }
}

/// An operand is said to be read, written or modified exactly as the lanes of a register in
/// its place are.
#[verifier::spinoff_prover]
#[verifier::rlimit(60)]
pub proof fn accesses_go_as_lanes_do(instruction: Instruction, register: u8)
    requires
        instruction.wf(),
        is_encodable(instruction),
        register < 8,
        is_lone_operand(instruction, register),
    ensures
        ({
            let e = spec_operand_effects(instruction);
            let lane = telling_lane(instruction);
            spec_operand_accesses(instruction.isa, instruction.operands).first matches Some(access)
                && access.mode == AddressingMode::Drd(register) && goes_as(
                access.kind,
                in_lanes(e.reads, register as int, lane),
                in_lanes(e.writes, register as int, lane),
            )
        }),
{
    let none = spec_no_effect();
    let lane = telling_lane(instruction);
    lemma_has_nothing(register as int, lane);
    match instruction.operands {
        Operands::SizeEffectiveAddressImmediate(size, mode, _)
        | Operands::SizeEffectiveAddress(size, mode)
        | Operands::DataSizeEffectiveAddress(_, size, mode) => {
            lemma_operand(none, mode, Some(size));
        },
        Operands::EffectiveAddressCount(mode, count) => {
            lemma_dynamic(instruction);
            if is_dynamic(instruction) {
                lemma_reads(none, count, Some(Size::Long), false);
                lemma_operand(
                    spec_reads(none, count, Some(Size::Long), false),
                    mode,
                    Some(Size::Long),
                );
            } else {
                let chosen: u8 = ((count % 32) / 8) as u8;
                lemma_one_lane(register, chosen, register as int, chosen as int);
            }
        },
        Operands::EffectiveAddress(mode) => {
            lemma_operand(none, mode, Some(Size::Word));
            lemma_operand(none, mode, Some(Size::Byte));
        },
        Operands::RegisterEffectiveAddress(other, mode) => {
            lemma_operand(none, mode, Some(Size::Word));
            let read = spec_read_ea(none, mode, Some(Size::Word));
            lemma_reads(read, other, Some(Size::Word), false);
            lemma_reads(read, other, Some(Size::Long), false);
            lemma_writes(spec_reads(read, other, Some(Size::Word), false), other, None);
            lemma_writes(spec_reads(read, other, Some(Size::Long), false), other, None);
        },
        Operands::SizeRegisterEffectiveAddress(size, other, mode) => {
            lemma_operand(none, mode, Some(size));
            lemma_writes(spec_read_ea(none, mode, Some(size)), spec_address_bit(other), None);
        },
        Operands::ConditionEffectiveAddress(_, mode) => {
            lemma_operand(none, mode, Some(Size::Byte));
        },
        Operands::RegisterDirectionSizeEffectiveAddress(other, direction, size, mode) => {
            if direction == Direction::DstEa {
                let read = spec_reads(none, other, Some(size), false);
                lemma_reads(none, other, Some(size), false);
                lemma_operand(read, mode, Some(size));
            } else {
                let fetch = spec_read_ea(none, mode, Some(size));
                let read = spec_reads(fetch, other, Some(size), false);
                lemma_operand(none, mode, Some(size));
                lemma_reads(fetch, other, Some(size), false);
                lemma_writes(read, other, Some(size));
            }
        },
        Operands::RegisterSizeEffectiveAddress(other, size, mode) => {
            let bit = spec_address_bit(other);
            let fetch = spec_read_ea(none, mode, Some(size));
            let read = spec_reads(fetch, bit, Some(Size::Long), false);
            lemma_operand(none, mode, Some(size));
            lemma_reads(fetch, bit, Some(Size::Long), false);
            lemma_writes(read, bit, None);
        },
        _ => {},
    }
}

/// A move reads its source and writes its destination, each as wide as the move.
pub proof fn moves_read_and_write(isa: Isa, size: Size, destination: AddressingMode, source: AddressingMode)
    ensures
        ({
            let accesses = spec_operand_accesses(
                isa,
                Operands::SizeEffectiveAddressEffectiveAddress(size, destination, source),
            );
            let width: u8 = match size {
                Size::Byte => 1,
                Size::Word => 2,
                Size::Long => 4,
            };
            &&& accesses.list().contains(
                OperandAccess { mode: source, size: Some(width), kind: AccessKind::Read },
            )
            &&& accesses.list().contains(
                OperandAccess { mode: destination, size: Some(width), kind: AccessKind::Write },
            )
            &&& accesses.list().len() == 2
        }),
{
    let accesses = spec_operand_accesses(
        isa,
        Operands::SizeEffectiveAddressEffectiveAddress(size, destination, source),
    );
    assert(accesses.list()[0].mode == destination);
    assert(accesses.list()[1].mode == source);
}

/// A call, a trap or an unknown word gives up every register but the stack pointer, and every
/// other instruction only what its operands write.
pub proof fn calls_give_up_all_but_the_stack_pointer(
    instruction: Instruction,
    register: int,
    lane: int,
)
    requires
        0 <= register < 16,
        0 <= lane < 4,
    ensures
        ({
            let e = spec_register_effects(instruction);
            let own = spec_operand_effects(instruction);
            &&& matches!(
                instruction.isa,
                Isa::Jsr | Isa::Bsr | Isa::Trap | Isa::Trapv | Isa::Unknown
            ) ==> (in_lanes(e.writes, register, lane) <==> register != 15 || in_lanes(
                own.writes,
                register,
                lane,
            ))
            &&& !matches!(
                instruction.isa,
                Isa::Jsr | Isa::Bsr | Isa::Trap | Isa::Trapv | Isa::Unknown
            ) ==> e.writes == own.writes
            &&& e.reads == own.reads
            &&& e.meaningful_writes == own.meaningful_writes
            &&& e.complete <==> own.complete && instruction.isa != Isa::Unknown
        }),
{
    let own = spec_operand_effects(instruction);
    lemma_has_either(own.writes, spec_lanes_for_registers(GENERAL_REGISTERS), register, lane);
    lemma_list_lanes(GENERAL_REGISTERS, 16, register, lane);
    lemma_general(register as u16);
}

proof fn lemma_general(register: u16)
    requires
        register < 16,
    ensures
        (GENERAL_REGISTERS & (1u16 << register) != 0) == (register != 15),
{
    assert((0x7fffu16 & (1u16 << register) != 0) == (register != 15)) by (bit_vector)
        requires
            register < 16,
    ;
}

/// The registers that a store onto the stack saves are those that it stores, and a load from
/// the stack restores those that it loads: a list saved by a predecrementing store is restored
/// by a postincrementing load of the mirrored list.
pub proof fn saved_lists_are_restored_mirrored(
    opcode: u16,
    pc: u32,
    size: Size,
    list: u16,
    mirrored: u16,
    position: int,
)
    requires
        0 <= position < 16,
        forall|i: int| 0 <= i < 16 ==> #[trigger] lists(mirrored, i) == lists(list, 15 - i),
    ensures
        ({
            let save = Instruction {
                opcode,
                pc,
                isa: Isa::Movem,
                operands: Operands::DirectionSizeEffectiveAddressList(
                    Direction::RegisterToMemory,
                    size,
                    AddressingMode::Ariwpr(7),
                    list,
                ),
            };
            let restore = Instruction {
                operands: Operands::DirectionSizeEffectiveAddressList(
                    Direction::MemoryToRegister,
                    size,
                    AddressingMode::Ariwpo(7),
                    mirrored,
                ),
                ..save
            };
            &&& lists(spec_saved_register_mask(save), position) == list_stores(
                AddressingMode::Ariwpr(7),
                list,
                position,
            )
            &&& lists(spec_restored_register_mask(restore), position) == lists(mirrored, position)
            &&& lists(spec_saved_register_mask(save), position) == lists(
                spec_restored_register_mask(restore),
                position,
            )
        }),
{
    reversed_list_mirrors(list, position as u16);
    assert((15 - position) as u16 == (15 - position as u16) as u16);
}

/// A push of a register saves that register and no other, and the pop of it restores it.
pub proof fn pushed_registers_are_popped(
    opcode: u16,
    pc: u32,
    operand: AddressingMode,
    position: int,
)
    requires
        operand.in_range(),
        0 <= position < 16,
    ensures
        ({
            let push = Instruction {
                opcode,
                pc,
                isa: Isa::Move,
                operands: Operands::SizeEffectiveAddressEffectiveAddress(
                    Size::Long,
                    AddressingMode::Ariwpr(7),
                    operand,
                ),
            };
            let pop = Instruction {
                operands: Operands::SizeEffectiveAddressEffectiveAddress(
                    Size::Long,
                    operand,
                    AddressingMode::Ariwpo(7),
                ),
                ..push
            };
            let is_it = operand == AddressingMode::Drd(position as u8) && position < 8 || operand
                == AddressingMode::Ard((position - 8) as u8) && position >= 8;
            &&& lists(spec_saved_register_mask(push), position) == is_it
            &&& lists(spec_restored_register_mask(pop), position) == is_it
        }),
{
    match operand {
        AddressingMode::Drd(register) => {
            lemma_one_bit(register as u16, position as u16);
        },
        AddressingMode::Ard(register) => {
            lemma_one_bit((8 + register) as u16, position as u16);
        },
        _ => {
            let at = position as u16;
            assert(0u16 & (1u16 << at) == 0) by (bit_vector);
        },
    }
}

pub(crate) proof fn lemma_one_bit(bit: u16, position: u16)
    requires
        bit < 16,
        position < 16,
    ensures
        ((1u16 << bit) & (1u16 << position) != 0) == (bit == position),
{
    assert(((1u16 << bit) & (1u16 << position) != 0) == (bit == position)) by (bit_vector)
        requires
            bit < 16,
            position < 16,
    ;
}

} // verus!
