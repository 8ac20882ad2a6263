//! Finding base-register-relative (small-data) global accesses.
//!
//! Amiga programs built for the small-data model reach their globals through a
//! base address register (conventionally `A5`, sometimes `A4`) with a 16-bit
//! displacement, e.g. `MOVE.W D0,(850,A5)`. This enumerates every such access
//! reached by the control-flow analysis, classifying it as read, write, modify,
//! or address-of, and recording the operand size where the encoding gives one.
//!
//! Read/write direction is derived from the operand form (and, for the shared
//! forms, the mnemonic the decoder recovered); instructions whose direction is
//! genuinely ambiguous are reported as `Other` rather than guessed. `MOVEM`
//! reports only its base slot, not each register it transfers.

use crate::analysis::{spec_operand_address, AnalysisView, ControlFlowAnalysis, OperandAddress};
use crate::collections::OrderedSet;
use crate::decoded::{DecodedInstruction, DecodedView, OperandRole};
use crate::lvo::library_call;
use crate::m68k::{AddressingMode, Direction, Isa, Operands, Size};
use vstd::prelude::*;

verus! {

/// How a memory operand is touched.
#[derive(Clone, Copy, Debug, PartialEq, Eq, Structural)]
pub enum AccessKind {
    Read,
    Write,
    /// Read-modify-write (e.g. `NEG`, `ADDQ`, `BCHG`).
    Modify,
    /// The slot's address is taken (`LEA`/`PEA`); a hint it is a buffer/pointer.
    Address,
    /// The direction could not be determined.
    Other,
}

/// One base-register-relative access.
#[derive(Clone, Copy, Debug, PartialEq, Eq, Structural)]
pub struct GlobalAccess {
    /// Address (hunk offset) of the accessing instruction.
    pub site: u32,
    /// Signed displacement from the base register.
    pub offset: i16,
    /// Operand size in bytes (1/2/4), where the encoding specifies one.
    pub size: Option<u8>,
    pub kind: AccessKind,
    /// Constant stored by a direct `MOVE #value,slot` (or zero by `CLR`).
    pub value: Option<u32>,
    /// The slot is loaded into an address register used for an LVO call.
    pub library_base: bool,
}

/// One absolute-addressed access whose target lies inside the loaded image: a
/// global of a copied-to-fixed-address program, which reaches its variables as
/// absolute longs instead of through a base register.
#[derive(Clone, Copy, Debug, PartialEq, Eq, Structural)]
pub struct AbsoluteAccess {
    /// Address (hunk offset) of the accessing instruction.
    pub site: u32,
    /// The absolute target address of the access.
    pub address: u32,
    /// Operand size in bytes (1/2/4), where the encoding specifies one.
    pub size: Option<u8>,
    pub kind: AccessKind,
    /// Constant stored by a direct `MOVE #value,slot` (or zero by `CLR`).
    pub value: Option<u32>,
    /// The slot is loaded into an address register used for an LVO call.
    pub library_base: bool,
}

/// One memory operand of an instruction: its addressing mode, its size in bytes
/// where the encoding gives one, and how it is accessed.
#[derive(Clone, Copy, Debug, PartialEq, Eq, Structural)]
pub struct OperandAccess {
    pub mode: AddressingMode,
    pub size: Option<u8>,
    pub kind: AccessKind,
}

/// The memory operands of an instruction in the order they are reported: the
/// destination of a `MOVE` comes before its source. An instruction touches at most
/// two.
#[derive(Clone, Copy, Debug, PartialEq, Eq, Structural)]
pub struct OperandAccesses {
    pub first: Option<OperandAccess>,
    pub second: Option<OperandAccess>,
}

impl OperandAccesses {
    /// The operands as a list.
    pub open spec fn list(self) -> Seq<OperandAccess> {
        match (self.first, self.second) {
            (Some(first), Some(second)) => seq![first, second],
            (Some(first), None) => seq![first],
            (None, _) => Seq::empty(),
        }
    }
}

/// An absolute-short address as the 68000 forms it: the word is sign-extended,
/// so `($FFFF).W` is `$FFFFFFFF` and not `$0000FFFF`.
pub open spec fn spec_sign_extend_word(address: u16) -> u32 {
    address as i16 as i32 as u32
}

/// An absolute-short address as the 68000 forms it: the word is sign-extended,
/// so `($FFFF).W` is `$FFFFFFFF` and not `$0000FFFF`.
pub fn sign_extend_word(address: u16) -> (r: u32)
    ensures
        r == spec_sign_extend_word(address),
{
    address as i16 as i32 as u32
}

/// No memory operand.
pub open spec fn spec_no_access() -> OperandAccesses {
    OperandAccesses { first: None, second: None }
}

/// No memory operand.
pub fn no_access() -> (r: OperandAccesses)
    ensures
        r == spec_no_access(),
{
    OperandAccesses { first: None, second: None }
}

/// One memory operand.
pub open spec fn spec_one_access(mode: AddressingMode, size: Option<u8>, kind: AccessKind) -> OperandAccesses {
    OperandAccesses { first: Some(OperandAccess { mode, size, kind }), second: None }
}

/// One memory operand.
pub fn one_access(mode: AddressingMode, size: Option<u8>, kind: AccessKind) -> (r: OperandAccesses)
    ensures
        r == spec_one_access(mode, size, kind),
{
    OperandAccesses { first: Some(OperandAccess { mode, size, kind }), second: None }
}

/// Two memory operands of one size.
pub open spec fn spec_two_accesses(
    first: AddressingMode,
    first_kind: AccessKind,
    second: AddressingMode,
    second_kind: AccessKind,
    size: Size,
) -> OperandAccesses {
    OperandAccesses {
        first: Some(OperandAccess { mode: first, size: Some(size.spec_bytes()), kind: first_kind }),
        second: Some(OperandAccess { mode: second, size: Some(size.spec_bytes()), kind: second_kind }),
    }
}

/// Two memory operands of one size.
pub fn two_accesses(
    first: AddressingMode,
    first_kind: AccessKind,
    second: AddressingMode,
    second_kind: AccessKind,
    size: Size,
) -> (r: OperandAccesses)
    ensures
        r == spec_two_accesses(first, first_kind, second, second_kind, size),
{
    OperandAccesses {
        first: Some(OperandAccess { mode: first, size: Some(size.bytes()), kind: first_kind }),
        second: Some(OperandAccess { mode: second, size: Some(size.bytes()), kind: second_kind }),
    }
}

/// How the memory operand of a one-operand instruction is accessed: `PEA` takes
/// its address, `TAS` and `NBCD` modify it, `MOVE SR,<ea>` writes it, `MOVE
/// <ea>,CCR` and `MOVE <ea>,SR` read it.
pub open spec fn spec_lone_operand_access(isa: Isa, mode: AddressingMode) -> OperandAccesses {
    match isa {
        Isa::Pea => spec_one_access(mode, None, AccessKind::Address),
        Isa::Tas | Isa::Nbcd => spec_one_access(mode, Some(1), AccessKind::Modify),
        Isa::Movefsr => spec_one_access(mode, Some(2), AccessKind::Write),
        Isa::Moveccr | Isa::Movesr => spec_one_access(mode, Some(2), AccessKind::Read),
        _ => spec_one_access(mode, None, AccessKind::Other),
    }
}

/// How the memory operand of a one-operand instruction is accessed: `PEA` takes
/// its address, `TAS` and `NBCD` modify it, `MOVE SR,<ea>` writes it, `MOVE
/// <ea>,CCR` and `MOVE <ea>,SR` read it.
pub fn lone_operand_access(isa: Isa, mode: AddressingMode) -> (r: OperandAccesses)
    ensures
        r == spec_lone_operand_access(isa, mode),
{
    match isa {
        Isa::Pea => one_access(mode, None, AccessKind::Address),
        Isa::Tas | Isa::Nbcd => one_access(mode, Some(1), AccessKind::Modify),
        Isa::Movefsr => one_access(mode, Some(2), AccessKind::Write),
        Isa::Moveccr | Isa::Movesr => one_access(mode, Some(2), AccessKind::Read),
        _ => one_access(mode, None, AccessKind::Other),
    }
}

/// Which way a transfer between memory and registers goes.
pub open spec fn spec_transfer_kind(direction: Direction) -> AccessKind {
    if direction == Direction::MemoryToRegister {
        AccessKind::Read
    } else {
        AccessKind::Write
    }
}

/// Which way a transfer between memory and registers goes.
pub fn transfer_kind(direction: Direction) -> (r: AccessKind)
    ensures
        r == spec_transfer_kind(direction),
{
    if direction == Direction::MemoryToRegister {
        AccessKind::Read
    } else {
        AccessKind::Write
    }
}

/// Every memory effective-address operand an instruction touches, with the
/// operand size (where the encoding gives one) and how it is accessed.
///
/// Every operand form is named, also those that address no memory through an
/// operand. Some of these do reach memory implicitly (LINK and TRAP push through
/// A7, and so do BSR/JSR), but that traffic is not an operand.
pub open spec fn spec_operand_accesses(isa: Isa, operands: Operands) -> OperandAccesses {
    match operands {
        Operands::SizeEffectiveAddressEffectiveAddress(size, destination, source) => spec_two_accesses(
            destination,
            AccessKind::Write,
            source,
            AccessKind::Read,
            size,
        ),
        Operands::SizeRegisterEffectiveAddress(size, _, ea) => spec_one_access(
            ea,
            Some(size.spec_bytes()),
            AccessKind::Read,
        ),
        // LEA (address-of) shares this form with CHK/DIVx/MULx (which read).
        Operands::RegisterEffectiveAddress(_, ea) => spec_one_access(
            ea,
            None,
            if isa == Isa::Lea {
                AccessKind::Address
            } else {
                AccessKind::Read
            },
        ),
        Operands::EffectiveAddress(ea) => spec_lone_operand_access(isa, ea),
        // CLR (write) / TST (read) / NEG/NEGX/NOT (modify).
        Operands::SizeEffectiveAddress(size, ea) => spec_one_access(
            ea,
            Some(size.spec_bytes()),
            if isa == Isa::Tst {
                AccessKind::Read
            } else if isa == Isa::Clr {
                AccessKind::Write
            } else {
                AccessKind::Modify
            },
        ),
        // ADDI/ANDI/EORI/ORI/SUBI (modify) vs CMPI (read).
        Operands::SizeEffectiveAddressImmediate(size, ea, _) => spec_one_access(
            ea,
            Some(size.spec_bytes()),
            if isa == Isa::Cmpi {
                AccessKind::Read
            } else {
                AccessKind::Modify
            },
        ),
        // BTST (read) vs BCHG/BCLR/BSET (modify); memory bit ops are byte-sized.
        Operands::EffectiveAddressCount(ea, _) => spec_one_access(
            ea,
            Some(1),
            if isa == Isa::Btst {
                AccessKind::Read
            } else {
                AccessKind::Modify
            },
        ),
        Operands::DataSizeEffectiveAddress(_, size, ea) => spec_one_access(
            ea,
            Some(size.spec_bytes()),
            AccessKind::Modify,
        ),
        Operands::ConditionEffectiveAddress(_, ea) => spec_one_access(ea, Some(1), AccessKind::Write),
        Operands::DirectionSizeEffectiveAddressList(direction, size, ea, _) => spec_one_access(
            ea,
            Some(size.spec_bytes()),
            spec_transfer_kind(direction),
        ),
        // ADD/AND/OR/SUB read the EA when the destination is a register and
        // modify it when the destination is the EA. CMP always reads; EOR uses
        // the destination-EA encoding and modifies it.
        Operands::RegisterDirectionSizeEffectiveAddress(_, direction, size, ea) => spec_one_access(
            ea,
            Some(size.spec_bytes()),
            if direction == Direction::DstEa {
                AccessKind::Modify
            } else {
                AccessKind::Read
            },
        ),
        Operands::RegisterSizeEffectiveAddress(_, size, ea) => spec_one_access(
            ea,
            Some(size.spec_bytes()),
            AccessKind::Read,
        ),
        // Memory shift/rotate forms read-modify-write one word.
        Operands::DirectionEffectiveAddress(_, ea) => spec_one_access(ea, Some(2), AccessKind::Modify),
        // MOVEP addresses memory as (d16,An).
        Operands::RegisterDirectionSizeRegisterDisplacement(_, direction, size, register, offset) =>
        spec_one_access(
            AddressingMode::Ariwd(register, offset),
            Some(size.spec_bytes()),
            spec_transfer_kind(direction),
        ),
        // ABCD/ADDX/SBCD/SUBX -(Ay),-(Ax). The destination is read, combined and
        // written back. The `Dy,Dx` form touches no memory.
        Operands::RegisterSizeModeRegister(destination, size, direction, source) =>
        if direction == Direction::MemoryToMemory {
            spec_two_accesses(
                AddressingMode::Ariwpr(source),
                AccessKind::Read,
                AddressingMode::Ariwpr(destination),
                AccessKind::Modify,
                size,
            )
        } else {
            spec_no_access()
        },
        // CMPM (Ay)+,(Ax)+ compares two memory operands and writes neither.
        Operands::RegisterSizeRegister(destination, size, source) => spec_two_accesses(
            AddressingMode::Ariwpo(source),
            AccessKind::Read,
            AddressingMode::Ariwpo(destination),
            AccessKind::Read,
            size,
        ),
        Operands::NoOperands
        | Operands::Immediate(_)
        | Operands::Vector(_)
        | Operands::Register(_)
        | Operands::RegisterData(_, _)
        | Operands::RegisterDisplacement(_, _)
        | Operands::RegisterOpmodeRegister(_, _, _)
        | Operands::OpmodeRegister(_, _)
        | Operands::DirectionRegister(_, _)
        | Operands::Displacement(_)
        | Operands::ConditionDisplacement(_, _)
        | Operands::ConditionRegisterDisplacement(_, _, _)
        | Operands::RotationDirectionSizeModeRegister(_, _, _, _, _) => spec_no_access(),
    }
}

/// Every memory effective-address operand an instruction touches, with the
/// operand size (where the encoding gives one) and how it is accessed.
///
/// Every operand form is named, also those that address no memory through an
/// operand. Some of these do reach memory implicitly (LINK and TRAP push through
/// A7, and so do BSR/JSR), but that traffic is not an operand.
pub fn operand_accesses(isa: Isa, operands: Operands) -> (r: OperandAccesses)
    ensures
        r == spec_operand_accesses(isa, operands),
{
    match operands {
        Operands::SizeEffectiveAddressEffectiveAddress(size, destination, source) => two_accesses(
            destination,
            AccessKind::Write,
            source,
            AccessKind::Read,
            size,
        ),
        Operands::SizeRegisterEffectiveAddress(size, _, ea) => one_access(
            ea,
            Some(size.bytes()),
            AccessKind::Read,
        ),
        // LEA (address-of) shares this form with CHK/DIVx/MULx (which read).
        Operands::RegisterEffectiveAddress(_, ea) => one_access(
            ea,
            None,
            if isa == Isa::Lea {
                AccessKind::Address
            } else {
                AccessKind::Read
            },
        ),
        Operands::EffectiveAddress(ea) => lone_operand_access(isa, ea),
        // CLR (write) / TST (read) / NEG/NEGX/NOT (modify).
        Operands::SizeEffectiveAddress(size, ea) => one_access(
            ea,
            Some(size.bytes()),
            if isa == Isa::Tst {
                AccessKind::Read
            } else if isa == Isa::Clr {
                AccessKind::Write
            } else {
                AccessKind::Modify
            },
        ),
        // ADDI/ANDI/EORI/ORI/SUBI (modify) vs CMPI (read).
        Operands::SizeEffectiveAddressImmediate(size, ea, _) => one_access(
            ea,
            Some(size.bytes()),
            if isa == Isa::Cmpi {
                AccessKind::Read
            } else {
                AccessKind::Modify
            },
        ),
        // BTST (read) vs BCHG/BCLR/BSET (modify); memory bit ops are byte-sized.
        Operands::EffectiveAddressCount(ea, _) => one_access(
            ea,
            Some(1),
            if isa == Isa::Btst {
                AccessKind::Read
            } else {
                AccessKind::Modify
            },
        ),
        Operands::DataSizeEffectiveAddress(_, size, ea) => one_access(
            ea,
            Some(size.bytes()),
            AccessKind::Modify,
        ),
        Operands::ConditionEffectiveAddress(_, ea) => one_access(ea, Some(1), AccessKind::Write),
        Operands::DirectionSizeEffectiveAddressList(direction, size, ea, _) => one_access(
            ea,
            Some(size.bytes()),
            transfer_kind(direction),
        ),
        // ADD/AND/OR/SUB read the EA when the destination is a register and
        // modify it when the destination is the EA. CMP always reads; EOR uses
        // the destination-EA encoding and modifies it.
        Operands::RegisterDirectionSizeEffectiveAddress(_, direction, size, ea) => one_access(
            ea,
            Some(size.bytes()),
            if direction == Direction::DstEa {
                AccessKind::Modify
            } else {
                AccessKind::Read
            },
        ),
        Operands::RegisterSizeEffectiveAddress(_, size, ea) => one_access(
            ea,
            Some(size.bytes()),
            AccessKind::Read,
        ),
        // Memory shift/rotate forms read-modify-write one word.
        Operands::DirectionEffectiveAddress(_, ea) => one_access(ea, Some(2), AccessKind::Modify),
        // MOVEP addresses memory as (d16,An).
        Operands::RegisterDirectionSizeRegisterDisplacement(_, direction, size, register, offset) =>
        one_access(
            AddressingMode::Ariwd(register, offset),
            Some(size.bytes()),
            transfer_kind(direction),
        ),
        // ABCD/ADDX/SBCD/SUBX -(Ay),-(Ax). The destination is read, combined and
        // written back. The `Dy,Dx` form touches no memory.
        Operands::RegisterSizeModeRegister(destination, size, direction, source) =>
        if direction == Direction::MemoryToMemory {
            two_accesses(
                AddressingMode::Ariwpr(source),
                AccessKind::Read,
                AddressingMode::Ariwpr(destination),
                AccessKind::Modify,
                size,
            )
        } else {
            no_access()
        },
        // CMPM (Ay)+,(Ax)+ compares two memory operands and writes neither.
        Operands::RegisterSizeRegister(destination, size, source) => two_accesses(
            AddressingMode::Ariwpo(source),
            AccessKind::Read,
            AddressingMode::Ariwpo(destination),
            AccessKind::Read,
            size,
        ),
        Operands::NoOperands
        | Operands::Immediate(_)
        | Operands::Vector(_)
        | Operands::Register(_)
        | Operands::RegisterData(_, _)
        | Operands::RegisterDisplacement(_, _)
        | Operands::RegisterOpmodeRegister(_, _, _)
        | Operands::OpmodeRegister(_, _)
        | Operands::DirectionRegister(_, _)
        | Operands::Displacement(_)
        | Operands::ConditionDisplacement(_, _)
        | Operands::ConditionRegisterDisplacement(_, _, _)
        | Operands::RotationDirectionSizeModeRegister(_, _, _, _, _) => no_access(),
    }
}

/// A classified operand names registers that exist.
pub proof fn lemma_accesses_in_range(isa: Isa, operands: Operands)
    requires
        operands.in_range(),
    ensures
        spec_operand_accesses(isa, operands).first matches Some(access) ==> access.mode.in_range(),
        spec_operand_accesses(isa, operands).second matches Some(access) ==> access.mode.in_range(),
        spec_operand_accesses(isa, operands).second is Some ==> spec_operand_accesses(
            isa,
            operands,
        ).first is Some,
{
}

/// A destination and the constant value an instruction stores there.
pub open spec fn spec_constant_write(
    analysis: AnalysisView,
    decoded: DecodedView,
    image_origin: Option<u32>,
) -> Option<(AddressingMode, u32)> {
    match decoded.instruction.operands {
        Operands::SizeEffectiveAddressEffectiveAddress(
            size,
            destination,
            AddressingMode::Immediate(value),
        ) => if size == Size::Long {
            match spec_operand_address(analysis.relocations, decoded, OperandRole::Source, value) {
                OperandAddress::Encoded(value) => Some((destination, value)),
                OperandAddress::ThisHunk(offset) => match image_origin {
                    Some(origin) => match origin.checked_add(offset) {
                        Some(value) => Some((destination, value)),
                        None => None,
                    },
                    None => None,
                },
                OperandAddress::OtherHunk { .. } => None,
            }
        } else {
            Some((destination, value))
        },
        Operands::SizeEffectiveAddress(_, destination) => if decoded.instruction.isa == Isa::Clr {
            Some((destination, 0))
        } else {
            None
        },
        _ => None,
    }
}

/// A destination and the constant value an instruction stores there.
pub fn constant_write(
    analysis: &ControlFlowAnalysis,
    decoded: &DecodedInstruction,
    image_origin: Option<u32>,
) -> (r: Option<(AddressingMode, u32)>)
    requires
        analysis.wf(),
    ensures
        r == spec_constant_write(analysis@, decoded@, image_origin),
{
    match decoded.instruction.operands {
        Operands::SizeEffectiveAddressEffectiveAddress(
            size,
            destination,
            AddressingMode::Immediate(value),
        ) => if size == Size::Long {
            match analysis.operand_address(decoded, OperandRole::Source, value) {
                OperandAddress::Encoded(value) => Some((destination, value)),
                OperandAddress::ThisHunk(offset) => match image_origin {
                    Some(origin) => match origin.checked_add(offset) {
                        Some(value) => Some((destination, value)),
                        None => None,
                    },
                    None => None,
                },
                OperandAddress::OtherHunk { .. } => None,
            }
        } else {
            Some((destination, value))
        },
        Operands::SizeEffectiveAddress(_, destination) => if decoded.instruction.isa == Isa::Clr {
            Some((destination, 0))
        } else {
            None
        },
        _ => None,
    }
}

/// The constant of a write to `mode`.
pub open spec fn spec_value_for(constant: Option<(AddressingMode, u32)>, mode: AddressingMode) -> Option<u32> {
    match constant {
        Some((destination, value)) => if destination == mode {
            Some(value)
        } else {
            None
        },
        None => None,
    }
}

/// The constant of a write to `mode`.
pub fn value_for(constant: Option<(AddressingMode, u32)>, mode: AddressingMode) -> (r: Option<u32>)
    ensures
        r == spec_value_for(constant, mode),
{
    match constant {
        Some((destination, value)) => if destination == mode {
            Some(value)
        } else {
            None
        },
        None => None,
    }
}

/// The displacement of `mode` from the base register.
pub open spec fn spec_displacement(mode: AddressingMode, base_register: u8) -> Option<i16> {
    match mode {
        AddressingMode::Ariwd(register, displacement) => if register == base_register {
            Some(displacement)
        } else {
            None
        },
        _ => None,
    }
}

/// The displacement of `mode` from the base register.
pub fn displacement(mode: AddressingMode, base_register: u8) -> (r: Option<i16>)
    ensures
        r == spec_displacement(mode, base_register),
{
    match mode {
        AddressingMode::Ariwd(register, displacement) => if register == base_register {
            Some(displacement)
        } else {
            None
        },
        _ => None,
    }
}

/// The absolute address in the loaded image that an absolute-long operand names.
pub open spec fn spec_absolute_address(
    analysis: AnalysisView,
    decoded: DecodedView,
    encoded: u32,
    role: OperandRole,
    load: u32,
    size: u32,
) -> Option<u32> {
    match spec_operand_address(analysis.relocations, decoded, role, encoded) {
        OperandAddress::Encoded(address) => match address.checked_sub(load) {
            Some(offset) => if offset < size {
                Some(address)
            } else {
                None
            },
            None => None,
        },
        OperandAddress::ThisHunk(offset) => if offset < size {
            load.checked_add(offset)
        } else {
            None
        },
        OperandAddress::OtherHunk { .. } => None,
    }
}

/// The absolute address in the loaded image that an absolute-long operand names.
pub fn absolute_address(
    analysis: &ControlFlowAnalysis,
    decoded: &DecodedInstruction,
    encoded: u32,
    role: OperandRole,
    load: u32,
    size: u32,
) -> (r: Option<u32>)
    requires
        analysis.wf(),
    ensures
        r == spec_absolute_address(analysis@, decoded@, encoded, role, load, size),
{
    match analysis.operand_address(decoded, role, encoded) {
        OperandAddress::Encoded(address) => match address.checked_sub(load) {
            Some(offset) => if offset < size {
                Some(address)
            } else {
                None
            },
            None => None,
        },
        OperandAddress::ThisHunk(offset) => if offset < size {
            load.checked_add(offset)
        } else {
            None
        },
        OperandAddress::OtherHunk { .. } => None,
    }
}

/// Whether an instruction makes a library call through the address register.
pub open spec fn calls_through(decoded: DecodedView, register: u8) -> bool {
    match decoded.library_call() {
        Some(call) => call.register == register,
        None => false,
    }
}

/// Whether some instruction that `owner` reaches makes a library call through
/// the address register.
pub open spec fn calls_library(view: AnalysisView, register: u8, owner: u32) -> bool {
    exists|site: u32| #[trigger] view.instructions.dom().contains(site)
        && view.instructions[site].owners.contains(owner)
        && calls_through(view.instructions[site], register)
}

/// The function owners in which the address register is used for a library call.
pub open spec fn library_callers(view: AnalysisView, register: u8) -> Set<u32> {
    Set::new(|owner: u32| calls_library(view, register, owner))
}

/// The memory operand that is loaded into a register used for a library call by
/// one of the instruction's owners.
pub open spec fn spec_library_base_source(view: AnalysisView, decoded: DecodedView) -> Option<
    AddressingMode,
> {
    match decoded.instruction.operands {
        Operands::SizeRegisterEffectiveAddress(_, register, source) => if exists|owner: u32|
            #[trigger] decoded.owners.contains(owner) && calls_library(view, register, owner) {
            Some(source)
        } else {
            None
        },
        _ => None,
    }
}

/// Function owners in which the library base register is used for a library
/// call. No other register makes one.
pub fn library_registers(analysis: &ControlFlowAnalysis) -> (r: OrderedSet<u32>)
    requires
        analysis.wf(),
    ensures
        r.wf(),
        r@ == library_callers(analysis@, crate::lvo::LIBRARY_BASE_REGISTER),
{
    let register: u8 = crate::lvo::LIBRARY_BASE_REGISTER;
    let mut r: OrderedSet<u32> = OrderedSet::new();
    let mut i: usize = 0;
    let ghost view = analysis@;
    while i < analysis.instructions.values.len()
        invariant
            analysis.wf(),
            view == analysis@,
            register == crate::lvo::LIBRARY_BASE_REGISTER,
            r.wf(),
            i <= analysis.instructions.values@.len(),
            forall|owner: u32| #[trigger] r@.contains(owner) ==> calls_library(view, register, owner),
            forall|k: int, owner: u32|
                0 <= k < i && #[trigger] analysis.instructions.values@[k]@.owners.contains(owner)
                    && analysis.instructions.values@[k]@.library_call() is Some ==> r@.contains(
                    owner,
                ),
        decreases analysis.instructions.values@.len() - i,
    {
        let decoded = &analysis.instructions.values[i];
        proof {
            analysis.lemma_listing(i as int);
        }
        if let Some(call) = library_call(decoded) {
            let mut j: usize = 0;
            while j < decoded.owners.items.len()
                invariant
                    analysis.wf(),
                    view == analysis@,
                    r.wf(),
                    i < analysis.instructions.values@.len(),
                    *decoded == analysis.instructions.values@[i as int],
                    decoded@.library_call() == Some(call),
                    call.register == register,
                    j <= decoded.owners.items@.len(),
                    forall|owner: u32| #[trigger]
                        r@.contains(owner) ==> calls_library(view, register, owner),
                    forall|k: int, owner: u32|
                        0 <= k < i && #[trigger] analysis.instructions.values@[k]@.owners.contains(
                            owner,
                        ) && analysis.instructions.values@[k]@.library_call() is Some
                            ==> r@.contains(owner),
                    forall|k: int|
                        0 <= k < j ==> r@.contains(#[trigger] decoded.owners.items@[k]),
                decreases decoded.owners.items@.len() - j,
            {
                proof {
                    analysis.lemma_listing(i as int);
                    let owner = decoded.owners.items@[j as int];
                    let site = analysis.instructions.keys@[i as int];
                    assert(decoded@.owners.contains(owner));
                    assert(view.instructions.dom().contains(site));
                    assert(calls_library(view, register, owner));
                }
                r.insert(decoded.owners.items[j]);
                j += 1;
            }
            proof {
                assert forall|owner: u32| #[trigger]
                    decoded@.owners.contains(owner) implies r@.contains(owner) by {
                    let k = choose|k: int|
                        0 <= k < decoded.owners.items@.len() && decoded.owners.items@[k] == owner;
                    assert(r@.contains(decoded.owners.items@[k]));
                }
            }
        }
        i += 1;
    }
    proof {
        assert forall|owner: u32| calls_library(view, register, owner) implies r@.contains(
            owner,
        ) by {
            let site = choose|site: u32| #[trigger] view.instructions.dom().contains(site)
                && view.instructions[site].owners.contains(owner)
                && calls_through(view.instructions[site], register);
            let k = analysis.instructions.lemma_position(site);
            analysis.lemma_listing(k);
            assert(analysis.instructions.values@[k]@.owners.contains(owner));
        }
        assert(r@ =~= library_callers(view, register));
    }
    r
}

/// A memory operand loaded into a register that is used for a library call, given
/// the callers through the library base register.
pub fn library_base_source(
    analysis: &ControlFlowAnalysis,
    decoded: &DecodedInstruction,
    callers: &OrderedSet<u32>,
) -> (r: Option<AddressingMode>)
    requires
        analysis.wf(),
        decoded.wf(),
        callers.wf(),
        callers@ == library_callers(analysis@, crate::lvo::LIBRARY_BASE_REGISTER),
    ensures
        r == spec_library_base_source(analysis@, decoded@),
{
    match decoded.instruction.operands {
        Operands::SizeRegisterEffectiveAddress(_, register, source) => {
            if register == crate::lvo::LIBRARY_BASE_REGISTER {
                let meets = decoded.owners.meets(callers);
                proof {
                    assert forall|owner: u32| callers@.contains(owner) == calls_library(
                        analysis@,
                        register,
                        owner,
                    ) by {}
                    if meets {
                        let owner = choose|owner: u32| #[trigger]
                            decoded.owners@.contains(owner) && callers@.contains(owner);
                        assert(decoded@.owners.contains(owner));
                    }
                }
                if meets {
                    Some(source)
                } else {
                    None
                }
            } else {
                proof {
                    assert forall|owner: u32| !calls_library(analysis@, register, owner) by {}
                }
                None
            }
        },
        _ => None,
    }
}

/// The base-relative access of one operand.
pub open spec fn spec_global_access(
    site: u32,
    access: Option<OperandAccess>,
    base_register: u8,
    constant: Option<(AddressingMode, u32)>,
    library_source: Option<AddressingMode>,
) -> Option<GlobalAccess> {
    match access {
        Some(access) => match spec_displacement(access.mode, base_register) {
            Some(offset) => Some(
                GlobalAccess {
                    site,
                    offset,
                    size: access.size,
                    kind: access.kind,
                    value: spec_value_for(constant, access.mode),
                    library_base: library_source == Some(access.mode),
                },
            ),
            None => None,
        },
        None => None,
    }
}

/// The base-relative access of one operand.
pub fn global_access(
    site: u32,
    access: Option<OperandAccess>,
    base_register: u8,
    constant: Option<(AddressingMode, u32)>,
    library_source: Option<AddressingMode>,
) -> (r: Option<GlobalAccess>)
    ensures
        r == spec_global_access(site, access, base_register, constant, library_source),
{
    match access {
        Some(access) => match displacement(access.mode, base_register) {
            Some(offset) => Some(
                GlobalAccess {
                    site,
                    offset,
                    size: access.size,
                    kind: access.kind,
                    value: value_for(constant, access.mode),
                    library_base: library_source == Some(access.mode),
                },
            ),
            None => None,
        },
        None => None,
    }
}

/// What is there of two things, in order.
pub open spec fn both<T>(first: Option<T>, second: Option<T>) -> Seq<T> {
    match (first, second) {
        (Some(first), Some(second)) => seq![first, second],
        (Some(first), None) => seq![first],
        (None, Some(second)) => seq![second],
        (None, None) => Seq::empty(),
    }
}

/// Append what is there of two things, in order.
pub fn push_both<T>(list: &mut Vec<T>, first: Option<T>, second: Option<T>)
    ensures
        final(list)@ == old(list)@ + both(first, second),
{
    if let Some(first) = first {
        list.push(first);
    }
    if let Some(second) = second {
        list.push(second);
    }
    assert(list@ =~= old(list)@ + both(first, second));
}

/// The base-relative accesses of one instruction.
pub open spec fn instruction_globals(
    view: AnalysisView,
    decoded: DecodedView,
    base_register: u8,
    image_origin: Option<u32>,
) -> Seq<GlobalAccess> {
    let accesses = spec_operand_accesses(decoded.instruction.isa, decoded.instruction.operands);
    let constant = spec_constant_write(view, decoded, image_origin);
    let source = spec_library_base_source(view, decoded);
    both(
        spec_global_access(decoded.address, accesses.first, base_register, constant, source),
        spec_global_access(decoded.address, accesses.second, base_register, constant, source),
    )
}

/// Collect every access made through `base_register` (e.g. 5 for `A5`) in
/// `analysis`, ordered by referencing site. `image_origin` maps same-hunk
/// relocated constants stored into a slot; without it those values are omitted
/// rather than reported as raw addends.
pub fn global_accesses(
    analysis: &ControlFlowAnalysis,
    base_register: u8,
    image_origin: Option<u32>,
) -> (r: Vec<GlobalAccess>)
    requires
        analysis.wf(),
    ensures
        r@ == analysis@.listing().flat_map(
            |decoded: DecodedView|
                instruction_globals(analysis@, decoded, base_register, image_origin),
        ),
{
    let callers = library_registers(analysis);
    let mut found: Vec<GlobalAccess> = Vec::new();
    let mut i: usize = 0;
    let ghost listing = analysis.listing();
    let ghost each = |decoded: DecodedView|
        instruction_globals(analysis@, decoded, base_register, image_origin);
    proof {
        analysis.lemma_listing_view();
        assert(listing.take(0).flat_map(each) =~= Seq::empty());
    }
    while i < analysis.instructions.values.len()
        invariant
            analysis.wf(),
            callers.wf(),
            callers@ == library_callers(analysis@, crate::lvo::LIBRARY_BASE_REGISTER),
            listing == analysis.listing(),
            i <= listing.len(),
            listing.len() == analysis.instructions.values@.len(),
            each == (|decoded: DecodedView|
                instruction_globals(analysis@, decoded, base_register, image_origin)),
            found@ == listing.take(i as int).flat_map(each),
        decreases listing.len() - i,
    {
        let decoded = &analysis.instructions.values[i];
        proof {
            analysis.lemma_listing(i as int);
            listing.lemma_flat_map_take_append(each, i as int);
        }
        let accesses = operand_accesses(decoded.instruction.isa, decoded.instruction.operands);
        let constant = constant_write(analysis, decoded, image_origin);
        let source = library_base_source(analysis, decoded, &callers);
        let site: u32 = decoded.address;
        let first = global_access(site, accesses.first, base_register, constant, source);
        let second = global_access(site, accesses.second, base_register, constant, source);
        push_both(&mut found, first, second);
        i += 1;
    }
    assert(listing.take(i as int) =~= listing);
    found
}

/// The absolute access of one operand.
pub open spec fn spec_image_access(
    analysis: AnalysisView,
    decoded: DecodedView,
    access: Option<OperandAccess>,
    load: u32,
    size: u32,
    constant: Option<(AddressingMode, u32)>,
    library_source: Option<AddressingMode>,
) -> Option<AbsoluteAccess> {
    match access {
        Some(access) => match access.mode {
            AddressingMode::AbsLong(encoded) => match spec_absolute_address(
                analysis,
                decoded,
                encoded,
                OperandRole::spec_for_access(decoded.instruction.operands, access.kind),
                load,
                size,
            ) {
                Some(address) => Some(
                    AbsoluteAccess {
                        site: decoded.address,
                        address,
                        size: access.size,
                        kind: access.kind,
                        value: spec_value_for(constant, access.mode),
                        library_base: library_source == Some(access.mode),
                    },
                ),
                None => None,
            },
            _ => None,
        },
        None => None,
    }
}

/// The absolute access of one operand.
pub fn image_access(
    analysis: &ControlFlowAnalysis,
    decoded: &DecodedInstruction,
    access: Option<OperandAccess>,
    load: u32,
    size: u32,
    constant: Option<(AddressingMode, u32)>,
    library_source: Option<AddressingMode>,
) -> (r: Option<AbsoluteAccess>)
    requires
        analysis.wf(),
    ensures
        r == spec_image_access(analysis@, decoded@, access, load, size, constant, library_source),
{
    match access {
        Some(access) => match access.mode {
            AddressingMode::AbsLong(encoded) => match absolute_address(
                analysis,
                decoded,
                encoded,
                OperandRole::for_access(decoded.instruction.operands, access.kind),
                load,
                size,
            ) {
                Some(address) => Some(
                    AbsoluteAccess {
                        site: decoded.address,
                        address,
                        size: access.size,
                        kind: access.kind,
                        value: value_for(constant, access.mode),
                        library_base: library_source == Some(access.mode),
                    },
                ),
                None => None,
            },
            _ => None,
        },
        None => None,
    }
}

/// The absolute accesses of one instruction.
pub open spec fn instruction_absolutes(
    view: AnalysisView,
    decoded: DecodedView,
    load: u32,
    size: u32,
) -> Seq<AbsoluteAccess> {
    let accesses = spec_operand_accesses(decoded.instruction.isa, decoded.instruction.operands);
    let constant = spec_constant_write(view, decoded, Some(load));
    let source = spec_library_base_source(view, decoded);
    both(
        spec_image_access(view, decoded, accesses.first, load, size, constant, source),
        spec_image_access(view, decoded, accesses.second, load, size, constant, source),
    )
}

/// Collect every absolute-long memory access whose resolved target falls
/// within the loaded image. A relocation into this hunk resolves its stored
/// addend as an image offset; one into another hunk contributes no access here.
/// Ordered by referencing site.
pub fn absolute_accesses(analysis: &ControlFlowAnalysis, load: u32, size: u32) -> (r: Vec<
    AbsoluteAccess,
>)
    requires
        analysis.wf(),
    ensures
        r@ == analysis@.listing().flat_map(
            |decoded: DecodedView| instruction_absolutes(analysis@, decoded, load, size),
        ),
{
    let callers = library_registers(analysis);
    let mut found: Vec<AbsoluteAccess> = Vec::new();
    let mut i: usize = 0;
    let ghost listing = analysis.listing();
    let ghost each = |decoded: DecodedView| instruction_absolutes(analysis@, decoded, load, size);
    proof {
        analysis.lemma_listing_view();
        assert(listing.take(0).flat_map(each) =~= Seq::empty());
    }
    while i < analysis.instructions.values.len()
        invariant
            analysis.wf(),
            callers.wf(),
            callers@ == library_callers(analysis@, crate::lvo::LIBRARY_BASE_REGISTER),
            listing == analysis.listing(),
            i <= listing.len(),
            listing.len() == analysis.instructions.values@.len(),
            each == (|decoded: DecodedView|
                instruction_absolutes(analysis@, decoded, load, size)),
            found@ == listing.take(i as int).flat_map(each),
        decreases listing.len() - i,
    {
        let decoded = &analysis.instructions.values[i];
        proof {
            analysis.lemma_listing(i as int);
            listing.lemma_flat_map_take_append(each, i as int);
        }
        let accesses = operand_accesses(decoded.instruction.isa, decoded.instruction.operands);
        let constant = constant_write(analysis, decoded, Some(load));
        let source = library_base_source(analysis, decoded, &callers);
        let first = image_access(analysis, decoded, accesses.first, load, size, constant, source);
        let second = image_access(analysis, decoded, accesses.second, load, size, constant, source);
        push_both(&mut found, first, second);
        i += 1;
    }
    assert(listing.take(i as int) =~= listing);
    found
}

} // verus!
