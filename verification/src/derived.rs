//! Conservative address-register propagation for indirect memory accesses.
//!
//! The pass deliberately limits itself to straight-line facts. Branch targets,
//! function entries, calls, and discontinuities clear the register state, so a
//! value is never guessed across an unresolved control-flow join.

use crate::analysis::{
    spec_operand_address, AnalysisView, ControlFlowAnalysis, FlowEdge, FlowKind, OperandAddress,
};
use crate::collections::OrderedSet;
use crate::constants::ValueOptions;
use crate::decoded::{DecodedInstruction, DecodedView, OperandRole};
use crate::globals::{
    lemma_accesses_in_range, operand_accesses, sign_extend_word, spec_operand_accesses,
    spec_sign_extend_word, AccessKind, OperandAccess, OperandAccesses,
};
use crate::m68k::{AddressingMode, BriefExtensionWord, Direction, Isa, Operands, Size};
use crate::register_write::{bits_below, spec_bits_below};
use vstd::prelude::*;

verus! {

/// The effective address inferred for an indirect memory access.
#[derive(Clone, Copy, Debug, PartialEq, Eq, Structural)]
pub enum DerivedTarget {
    /// One exact effective address.
    Exact(u32),
    /// An inclusive range produced by a word-sized index register.
    Range { start: u32, end: u32 },
    /// The base or index value is not known at this control-flow point.
    Unknown,
}

/// One memory access resolved through a propagated address register.
#[derive(Clone, Copy, Debug, PartialEq, Eq, Structural)]
pub struct DerivedAccess {
    /// Hunk-relative instruction address.
    pub site: u32,
    /// Address register used by the memory operand.
    pub register: u8,
    pub target: DerivedTarget,
    pub size: Option<u8>,
    pub kind: AccessKind,
}

/// The sum of an address and a signed distance, where it is an address.
pub open spec fn spec_add_signed(value: u32, delta: i32) -> Option<u32> {
    value.checked_add_signed(delta)
}

/// The sum of an address and a signed distance, where it is an address.
pub fn add_signed(value: u32, delta: i32) -> (r: Option<u32>)
    ensures
        r == spec_add_signed(value, delta),
{
    value.checked_add_signed(delta)
}

/// The bytes by which one operand steps its address register. Byte accesses
/// through A7 keep the stack word-aligned on MC68000, and the operands whose size
/// the encoding does not give (`CHK`, `DIVx`, `MULx`) are words.
pub open spec fn spec_increment_bytes(register: u8, size: Option<u8>) -> u32 {
    match size {
        Some(size) => if register == 7 && size == 1 {
            2
        } else {
            size as u32
        },
        None => 2,
    }
}

/// The bytes by which one operand steps its address register. Byte accesses
/// through A7 keep the stack word-aligned on MC68000, and the operands whose size
/// the encoding does not give (`CHK`, `DIVx`, `MULx`) are words.
pub fn increment_bytes(register: u8, size: Option<u8>) -> (r: u32)
    ensures
        r == spec_increment_bytes(register, size),
{
    match size {
        Some(size) => if register == 7 && size == 1 {
            2
        } else {
            size as u32
        },
        None => 2,
    }
}

/// A known address as a target.
pub open spec fn spec_target_at(address: Option<u32>) -> DerivedTarget {
    match address {
        Some(address) => DerivedTarget::Exact(address),
        None => DerivedTarget::Unknown,
    }
}

/// A known address as a target.
pub fn target_at(address: Option<u32>) -> (r: DerivedTarget)
    ensures
        r == spec_target_at(address),
{
    match address {
        Some(address) => DerivedTarget::Exact(address),
        None => DerivedTarget::Unknown,
    }
}

/// What a known address plus a signed distance is.
pub open spec fn spec_moved(address: Option<u32>, delta: i32) -> Option<u32> {
    match address {
        Some(address) => spec_add_signed(address, delta),
        None => None,
    }
}

/// What a known address plus a signed distance is.
pub fn moved(address: Option<u32>, delta: i32) -> (r: Option<u32>)
    ensures
        r == spec_moved(address, delta),
{
    match address {
        Some(address) => add_signed(address, delta),
        None => None,
    }
}

/// What a known address plus a number of bytes is.
pub open spec fn spec_raised(address: Option<u32>, bytes: u32) -> Option<u32> {
    match address {
        Some(address) => address.checked_add(bytes),
        None => None,
    }
}

/// What a known address plus a number of bytes is.
pub fn raised(address: Option<u32>, bytes: u32) -> (r: Option<u32>)
    ensures
        r == spec_raised(address, bytes),
{
    match address {
        Some(address) => address.checked_add(bytes),
        None => None,
    }
}

/// What a known address less a number of bytes is.
pub open spec fn spec_lowered(address: Option<u32>, bytes: u32) -> Option<u32> {
    match address {
        Some(address) => address.checked_sub(bytes),
        None => None,
    }
}

/// What a known address less a number of bytes is.
pub fn lowered(address: Option<u32>, bytes: u32) -> (r: Option<u32>)
    ensures
        r == spec_lowered(address, bytes),
{
    match address {
        Some(address) => address.checked_sub(bytes),
        None => None,
    }
}

/// The target of an indexed access. A long index spans the whole address space
/// and carries no useful conservative bound.
pub open spec fn spec_indexed_target(base: Option<u32>, extension: BriefExtensionWord) -> DerivedTarget {
    if extension.spec_index_is_long() {
        DerivedTarget::Unknown
    } else {
        match (
            spec_moved(base, (extension.spec_disp() as i32 - 0x8000) as i32),
            spec_moved(base, (extension.spec_disp() as i32 + 0x7fff) as i32),
        ) {
            (Some(start), Some(end)) => DerivedTarget::Range { start, end },
            _ => DerivedTarget::Unknown,
        }
    }
}

/// The target of an indexed access. A long index spans the whole address space
/// and carries no useful conservative bound.
pub fn indexed_target(base: Option<u32>, extension: BriefExtensionWord) -> (r: DerivedTarget)
    ensures
        r == spec_indexed_target(base, extension),
{
    if extension.index_is_long() {
        DerivedTarget::Unknown
    } else {
        match (
            moved(base, (extension.disp() as i32 - 0x8000) as i32),
            moved(base, (extension.disp() as i32 + 0x7fff) as i32),
        ) {
            (Some(start), Some(end)) => DerivedTarget::Range { start, end },
            _ => DerivedTarget::Unknown,
        }
    }
}

/// The address register of a memory operand and where the operand is. A
/// predecrement has happened by then, a postincrement has not.
pub open spec fn spec_resolve(mode: AddressingMode, size: Option<u8>, registers: Seq<Option<u32>>) -> Option<(u8, DerivedTarget)> {
    match mode {
        AddressingMode::Ari(register) => Some((register, spec_target_at(registers[register as int]))),
        AddressingMode::Ariwd(register, displacement) => Some(
            (register, spec_target_at(spec_moved(registers[register as int], displacement as i32))),
        ),
        AddressingMode::Ariwpo(register) => Some(
            (register, spec_target_at(registers[register as int])),
        ),
        AddressingMode::Ariwpr(register) => Some(
            (
                register,
                spec_target_at(spec_lowered(registers[register as int], spec_increment_bytes(register, size))),
            ),
        ),
        AddressingMode::Ariwi8(register, extension) => Some(
            (register, spec_indexed_target(registers[register as int], extension)),
        ),
        _ => None,
    }
}

/// The address register of a memory operand and where the operand is. A
/// predecrement has happened by then, a postincrement has not.
pub fn resolve(mode: AddressingMode, size: Option<u8>, registers: &[Option<u32>; 8]) -> (r: Option<(u8, DerivedTarget)>)
    requires
        mode.in_range(),
    ensures
        r == spec_resolve(mode, size, registers@),
{
    match mode {
        AddressingMode::Ari(register) => Some((register, target_at(registers[register as usize]))),
        AddressingMode::Ariwd(register, displacement) => Some(
            (register, target_at(moved(registers[register as usize], displacement as i32))),
        ),
        AddressingMode::Ariwpo(register) => Some(
            (register, target_at(registers[register as usize])),
        ),
        AddressingMode::Ariwpr(register) => Some(
            (
                register,
                target_at(lowered(registers[register as usize], increment_bytes(register, size))),
            ),
        ),
        AddressingMode::Ariwi8(register, extension) => Some(
            (register, indexed_target(registers[register as usize], extension)),
        ),
        _ => None,
    }
}

/// The bytes by which an instruction steps an address register: those of the operand, or
/// of every register that a `MOVEM` transfers.
pub open spec fn spec_stride(operands: Operands, register: u8, size: Option<u8>) -> u32 {
    match operands {
        Operands::DirectionSizeEffectiveAddressList(_, each, _, list) => (each.spec_bytes()
            * spec_bits_below(list, 16)) as u32,
        _ => spec_increment_bytes(register, size),
    }
}

/// The bytes by which an instruction steps an address register: those of the operand, or
/// of every register that a `MOVEM` transfers.
pub fn stride(operands: Operands, register: u8, size: Option<u8>) -> (r: u32)
    ensures
        r == spec_stride(operands, register, size),
{
    match operands {
        Operands::DirectionSizeEffectiveAddressList(_, each, _, list) => {
            let count: u32 = bits_below(list, 16);
            let bytes: u32 = each.bytes() as u32;
            assert(bytes * count <= 4 * 16) by (nonlinear_arith)
                requires
                    bytes <= 4,
                    count <= 16,
            ;
            bytes * count
        },
        _ => increment_bytes(register, size),
    }
}

/// The address registers after a memory operand was accessed.
pub open spec fn stepped(
    operands: Operands,
    access: OperandAccess,
    registers: Seq<Option<u32>>,
) -> Seq<Option<u32>> {
    match access.mode {
        AddressingMode::Ariwpo(register) => registers.update(
            register as int,
            spec_raised(
                registers[register as int],
                spec_stride(operands, register, access.size),
            ),
        ),
        AddressingMode::Ariwpr(register) => registers.update(
            register as int,
            spec_lowered(
                registers[register as int],
                spec_stride(operands, register, access.size),
            ),
        ),
        _ => registers,
    }
}

fn step(operands: Operands, access: OperandAccess, registers: &mut [Option<u32>; 8])
    requires
        access.mode.in_range(),
    ensures
        final(registers)@ == stepped(operands, access, old(registers)@),
{
    match access.mode {
        AddressingMode::Ariwpo(register) => {
            registers[register as usize] =
            raised(registers[register as usize], stride(operands, register, access.size));
        },
        AddressingMode::Ariwpr(register) => {
            registers[register as usize] =
            lowered(registers[register as usize], stride(operands, register, access.size));
        },
        _ => {},
    }
}

/// The address that a longword operand names, with the analyzed hunk at its
/// origin.
pub open spec fn spec_resolved_address(
    analysis: AnalysisView,
    decoded: DecodedView,
    encoded: u32,
    image_origin: Option<u32>,
) -> Option<u32> {
    match spec_operand_address(analysis.relocations, decoded, OperandRole::Source, encoded) {
        OperandAddress::Encoded(address) => Some(address),
        OperandAddress::ThisHunk(offset) => match image_origin {
            Some(origin) => origin.checked_add(offset),
            None => Some(offset),
        },
        OperandAddress::OtherHunk { .. } => None,
    }
}

/// The address that a longword operand names, with the analyzed hunk at its
/// origin.
pub fn resolved_address(
    analysis: &ControlFlowAnalysis,
    decoded: &DecodedInstruction,
    encoded: u32,
    image_origin: Option<u32>,
) -> (r: Option<u32>)
    requires
        analysis.wf(),
    ensures
        r == spec_resolved_address(analysis@, decoded@, encoded, image_origin),
{
    match analysis.operand_address(decoded, OperandRole::Source, encoded) {
        OperandAddress::Encoded(address) => Some(address),
        OperandAddress::ThisHunk(offset) => match image_origin {
            Some(origin) => origin.checked_add(offset),
            None => Some(offset),
        },
        OperandAddress::OtherHunk { .. } => None,
    }
}

/// The signed distance that an immediate operand of address arithmetic gives.
pub open spec fn spec_address_immediate(analysis: AnalysisView, decoded: DecodedView, size: Size, value: u32) -> Option<i32> {
    if size == Size::Word {
        Some(value as i16 as i32)
    } else {
        match spec_operand_address(analysis.relocations, decoded, OperandRole::Source, value) {
            OperandAddress::Encoded(_) => Some(value as i32),
            _ => None,
        }
    }
}

/// The signed distance that an immediate operand of address arithmetic gives.
pub fn address_immediate(
    analysis: &ControlFlowAnalysis,
    decoded: &DecodedInstruction,
    size: Size,
    value: u32,
) -> (r: Option<i32>)
    requires
        analysis.wf(),
    ensures
        r == spec_address_immediate(analysis@, decoded@, size, value),
{
    if size == Size::Word {
        Some(value as i16 as i32)
    } else {
        match analysis.operand_address(decoded, OperandRole::Source, value) {
            OperandAddress::Encoded(_) => Some(value as i32),
            _ => None,
        }
    }
}

/// The value that a `MOVEA` puts into its register. The word form sign-extends into the
/// whole register.
pub open spec fn spec_address_value(
    analysis: AnalysisView,
    decoded: DecodedView,
    size: Size,
    mode: AddressingMode,
    registers: Seq<Option<u32>>,
    options: ValueOptions,
) -> Option<u32> {
    match mode {
        AddressingMode::Immediate(value) => if size == Size::Long {
            spec_resolved_address(analysis, decoded, value, options.image_origin)
        } else {
            Some(spec_sign_extend_word(value as u16))
        },
        AddressingMode::Ard(register) => match registers[register as int] {
            Some(value) => if size == Size::Long {
                Some(value)
            } else {
                Some(spec_sign_extend_word(value as u16))
            },
            None => None,
        },
        _ => None,
    }
}

/// The value that a `MOVEA` puts into its register. The word form sign-extends into the
/// whole register.
pub fn address_value(
    analysis: &ControlFlowAnalysis,
    decoded: &DecodedInstruction,
    size: Size,
    mode: AddressingMode,
    registers: &[Option<u32>; 8],
    options: ValueOptions,
) -> (r: Option<u32>)
    requires
        analysis.wf(),
        mode.in_range(),
    ensures
        r == spec_address_value(analysis@, decoded@, size, mode, registers@, options),
{
    match mode {
        AddressingMode::Immediate(value) => if size == Size::Long {
            resolved_address(analysis, decoded, value, options.image_origin)
        } else {
            Some(sign_extend_word(value as u16))
        },
        AddressingMode::Ard(register) => match registers[register as usize] {
            Some(value) => if size == Size::Long {
                Some(value)
            } else {
                Some(sign_extend_word(value as u16))
            },
            None => None,
        },
        _ => None,
    }
}

/// The address that a `LEA` puts into its register.
pub open spec fn spec_effective_address(
    analysis: AnalysisView,
    decoded: DecodedView,
    mode: AddressingMode,
    registers: Seq<Option<u32>>,
    options: ValueOptions,
) -> Option<u32> {
    match mode {
        AddressingMode::AbsLong(address) => spec_resolved_address(
            analysis,
            decoded,
            address,
            options.image_origin,
        ),
        AddressingMode::AbsShort(address) => Some(spec_sign_extend_word(address)),
        AddressingMode::Pciwd(pc, displacement) => spec_add_signed(pc, displacement as i32),
        AddressingMode::Ari(register) => registers[register as int],
        AddressingMode::Ariwd(register, displacement) => spec_moved(
            registers[register as int],
            displacement as i32,
        ),
        _ => None,
    }
}

/// The address that a `LEA` puts into its register.
pub fn effective_address(
    analysis: &ControlFlowAnalysis,
    decoded: &DecodedInstruction,
    mode: AddressingMode,
    registers: &[Option<u32>; 8],
    options: ValueOptions,
) -> (r: Option<u32>)
    requires
        analysis.wf(),
        mode.in_range(),
    ensures
        r == spec_effective_address(analysis@, decoded@, mode, registers@, options),
{
    match mode {
        AddressingMode::AbsLong(address) => resolved_address(
            analysis,
            decoded,
            address,
            options.image_origin,
        ),
        AddressingMode::AbsShort(address) => Some(sign_extend_word(address)),
        AddressingMode::Pciwd(pc, displacement) => add_signed(pc, displacement as i32),
        AddressingMode::Ari(register) => registers[register as usize],
        AddressingMode::Ariwd(register, displacement) => moved(
            registers[register as usize],
            displacement as i32,
        ),
        _ => None,
    }
}

/// What address arithmetic with an immediate operand makes of a register.
pub open spec fn spec_immediate_sum(
    analysis: AnalysisView,
    decoded: DecodedView,
    size: Size,
    value: u32,
    register: Option<u32>,
) -> Option<u32> {
    match spec_address_immediate(analysis, decoded, size, value) {
        None => None,
        Some(delta) => if decoded.instruction.isa == Isa::Adda {
            spec_moved(register, delta)
        } else if delta == i32::MIN {
            None
        } else {
            spec_moved(register, (0 - delta) as i32)
        },
    }
}

/// What address arithmetic with an immediate operand makes of a register.
pub fn immediate_sum(
    analysis: &ControlFlowAnalysis,
    decoded: &DecodedInstruction,
    size: Size,
    value: u32,
    register: Option<u32>,
) -> (r: Option<u32>)
    requires
        analysis.wf(),
    ensures
        r == spec_immediate_sum(analysis@, decoded@, size, value, register),
{
    match address_immediate(analysis, decoded, size, value) {
        None => None,
        Some(delta) => if decoded.instruction.isa == Isa::Adda {
            moved(register, delta)
        } else if delta == i32::MIN {
            None
        } else {
            moved(register, (0 - delta) as i32)
        },
    }
}

/// The amount of `ADDQ`/`SUBQ`: the 3-bit quick field encodes 8 as 0.
pub open spec fn spec_quick_amount(value: u8) -> u32 {
    if value == 0 {
        8
    } else {
        value as u32
    }
}

/// The amount of `ADDQ`/`SUBQ`: the 3-bit quick field encodes 8 as 0.
pub fn quick_amount(value: u8) -> (r: u32)
    ensures
        r == spec_quick_amount(value),
{
    if value == 0 {
        8
    } else {
        value as u32
    }
}

/// Whether a register list holds the register of a bit.
pub open spec fn spec_listed(list: u16, bit: u16) -> bool {
    list & (1u16 << bit) != 0
}

/// Whether a register list holds the register of a bit.
pub fn listed(list: u16, bit: u16) -> (r: bool)
    requires
        bit < 16,
    ensures
        r == spec_listed(list, bit),
{
    list & (1u16 << bit) != 0
}

/// The address registers after `MOVEM` has loaded those of its list.
pub open spec fn unloaded(list: u16, registers: Seq<Option<u32>>) -> Seq<Option<u32>> {
    Seq::new(
        8,
        |i: int|
            if spec_listed(list, (i + 8) as u16) {
                None
            } else {
                registers[i]
            },
    )
}

/// The address registers after an instruction. Only facts built by `LEA`,
/// `MOVEA`, address-register copies and constant arithmetic are retained: what moves the
/// stack pointer without naming it (`PEA`, `LINK`, `UNLK`) loses it.
pub open spec fn transferred(
    view: AnalysisView,
    decoded: DecodedView,
    registers: Seq<Option<u32>>,
    options: ValueOptions,
) -> Seq<Option<u32>> {
    let isa = decoded.instruction.isa;
    match decoded.instruction.operands {
        Operands::RegisterEffectiveAddress(destination, source) => if isa == Isa::Lea {
            registers.update(
                destination as int,
                spec_effective_address(view, decoded, source, registers, options),
            )
        } else {
            registers
        },
        Operands::SizeRegisterEffectiveAddress(size, destination, source) => registers.update(
            destination as int,
            spec_address_value(view, decoded, size, source, registers, options),
        ),
        Operands::RegisterSizeEffectiveAddress(destination, size, source) => if isa == Isa::Adda
            || isa == Isa::Suba {
            registers.update(
                destination as int,
                match source {
                    AddressingMode::Immediate(value) => spec_immediate_sum(
                        view,
                        decoded,
                        size,
                        value,
                        registers[destination as int],
                    ),
                    _ => None,
                },
            )
        } else {
            registers
        },
        Operands::DataSizeEffectiveAddress(value, _, AddressingMode::Ard(destination)) =>
        registers.update(
            destination as int,
            if isa == Isa::Addq {
                spec_raised(registers[destination as int], spec_quick_amount(value))
            } else {
                spec_lowered(registers[destination as int], spec_quick_amount(value))
            },
        ),
        Operands::RegisterOpmodeRegister(left, direction, right) => if direction
            == Direction::ExchangeAddress {
            registers.update(left as int, registers[right as int]).update(
                right as int,
                registers[left as int],
            )
        } else if direction == Direction::ExchangeDataAddress {
            registers.update(right as int, None)
        } else {
            registers
        },
        Operands::RegisterDisplacement(register, _) => registers.update(
            register as int,
            None,
        ).update(7, None),
        Operands::Register(register) => if isa == Isa::Unlk {
            registers.update(register as int, None).update(7, None)
        } else {
            registers
        },
        Operands::EffectiveAddress(_) => if isa == Isa::Pea {
            registers.update(7, None)
        } else {
            registers
        },
        Operands::DirectionRegister(direction, register) => if direction
            == Direction::UspToRegister {
            registers.update(register as int, None)
        } else {
            registers
        },
        Operands::DirectionSizeEffectiveAddressList(direction, _, _, list) => if direction
            == Direction::MemoryToRegister {
            unloaded(list, registers)
        } else {
            registers
        },
        _ => registers,
    }
}

fn unload(list: u16, registers: &mut [Option<u32>; 8])
    ensures
        final(registers)@ == unloaded(list, old(registers)@),
{
    let mut i: usize = 0;
    while i < 8
        invariant
            i <= 8,
            registers@.len() == 8,
            forall|k: int| 0 <= k < i ==> #[trigger] registers@[k] == unloaded(list, old(registers)@)[k],
            forall|k: int| i <= k < 8 ==> #[trigger] registers@[k] == old(registers)@[k],
        decreases 8 - i,
    {
        if listed(list, (i + 8) as u16) {
            registers[i] = None;
        }
        i += 1;
    }
    assert(registers@ =~= unloaded(list, old(registers)@));
}

fn transfer(
    analysis: &ControlFlowAnalysis,
    decoded: &DecodedInstruction,
    registers: &mut [Option<u32>; 8],
    options: ValueOptions,
)
    requires
        analysis.wf(),
        decoded.wf(),
    ensures
        final(registers)@ == transferred(analysis@, decoded@, old(registers)@, options),
{
    let isa = decoded.instruction.isa;
    match decoded.instruction.operands {
        Operands::RegisterEffectiveAddress(destination, source) => {
            if isa == Isa::Lea {
                registers[destination as usize] =
                effective_address(analysis, decoded, source, registers, options);
            }
        },
        Operands::SizeRegisterEffectiveAddress(size, destination, source) => {
            registers[destination as usize] =
            address_value(analysis, decoded, size, source, registers, options);
        },
        Operands::RegisterSizeEffectiveAddress(destination, size, source) => {
            if isa == Isa::Adda || isa == Isa::Suba {
                registers[destination as usize] =
                match source {
                    AddressingMode::Immediate(value) => immediate_sum(
                        analysis,
                        decoded,
                        size,
                        value,
                        registers[destination as usize],
                    ),
                    _ => None,
                };
            }
        },
        Operands::DataSizeEffectiveAddress(value, _, AddressingMode::Ard(destination)) => {
            let current = registers[destination as usize];
            registers[destination as usize] =
            if isa == Isa::Addq {
                raised(current, quick_amount(value))
            } else {
                lowered(current, quick_amount(value))
            };
        },
        Operands::RegisterOpmodeRegister(left, direction, right) => {
            if direction == Direction::ExchangeAddress {
                let kept = registers[left as usize];
                registers[left as usize] = registers[right as usize];
                registers[right as usize] = kept;
            } else if direction == Direction::ExchangeDataAddress {
                registers[right as usize] = None;
            }
        },
        Operands::RegisterDisplacement(register, _) => {
            registers[register as usize] = None;
            registers[7] = None;
        },
        Operands::Register(register) => {
            if isa == Isa::Unlk {
                registers[register as usize] = None;
                registers[7] = None;
            }
        },
        Operands::EffectiveAddress(_) => {
            if isa == Isa::Pea {
                registers[7] = None;
            }
        },
        Operands::DirectionRegister(direction, register) => {
            if direction == Direction::UspToRegister {
                registers[register as usize] = None;
            }
        },
        Operands::DirectionSizeEffectiveAddressList(direction, _, _, list) => {
            if direction == Direction::MemoryToRegister {
                unload(list, registers);
            }
        },
        _ => {},
    }
}

/// Whether control may arrive at `at` other than by falling into it: at a
/// function entry or at a branch target.
pub open spec fn is_reset_site(view: AnalysisView, at: u32) -> bool {
    view.functions.contains(at) || exists|flow: FlowEdge| #[trigger]
        view.flows.contains(flow) && flow.kind == FlowKind::Branch && flow.target == at
}

/// The addresses at which control may arrive other than by falling into them:
/// function entries and branch targets.
pub fn reset_sites(analysis: &ControlFlowAnalysis) -> (r: OrderedSet<u32>)
    requires
        analysis.wf(),
    ensures
        r.wf(),
        forall|at: u32| #[trigger] r@.contains(at) <==> is_reset_site(analysis@, at),
{
    let mut sites = analysis.functions.duplicate();
    let mut i: usize = 0;
    let ghost view = analysis@;
    while i < analysis.flows.items.len()
        invariant
            analysis.wf(),
            view == analysis@,
            sites.wf(),
            i <= analysis.flows.items@.len(),
            forall|at: u32| #[trigger] sites@.contains(at) ==> is_reset_site(view, at),
            forall|at: u32| #[trigger] view.functions.contains(at) ==> sites@.contains(at),
            forall|k: int|
                0 <= k < i && (#[trigger] analysis.flows.items@[k]).kind == FlowKind::Branch
                    ==> sites@.contains(analysis.flows.items@[k].target),
        decreases analysis.flows.items@.len() - i,
    {
        let flow = analysis.flows.items[i];
        if flow.kind == FlowKind::Branch {
            assert(view.flows.contains(flow));
            sites.insert(flow.target);
        }
        i += 1;
    }
    proof {
        assert forall|at: u32| is_reset_site(view, at) implies #[trigger] sites@.contains(at) by {
            if !view.functions.contains(at) {
                let flow = choose|flow: FlowEdge| #[trigger]
                    view.flows.contains(flow) && flow.kind == FlowKind::Branch && flow.target == at;
                let k = choose|k: int|
                    0 <= k < analysis.flows.items@.len() && analysis.flows.items@[k] == flow;
                assert(analysis.flows.items@[k].kind == FlowKind::Branch);
            }
        }
    }
    sites
}

/// Whether this instruction leaves every tracked register value unusable.
///
/// A call may clobber anything by ABI. A word the decoder cannot name is the
/// same answer for the opposite reason: not that it certainly writes, but that
/// nothing here can say it does not, and a tracker that kept its values across
/// one would report a stale address as current.
pub open spec fn spec_clobbers_tracked_registers(isa: Isa) -> bool {
    matches!(isa, Isa::Jsr | Isa::Bsr | Isa::Unknown)
}

/// Whether this instruction leaves every tracked register value unusable.
///
/// A call may clobber anything by ABI. A word the decoder cannot name is the
/// same answer for the opposite reason: not that it certainly writes, but that
/// nothing here can say it does not, and a tracker that kept its values across
/// one would report a stale address as current.
pub fn clobbers_tracked_registers(isa: Isa) -> (r: bool)
    ensures
        r == spec_clobbers_tracked_registers(isa),
{
    matches!(isa, Isa::Jsr | Isa::Bsr | Isa::Unknown)
}

/// No address register is known.
pub open spec fn nothing_known() -> Seq<Option<u32>> {
    Seq::new(8, |i: int| None::<u32>)
}

/// A propagation in progress: the address registers, where the last instruction
/// ended, and the accesses found.
#[verifier::ext_equal]
pub struct Derivation {
    pub registers: Seq<Option<u32>>,
    pub end: Option<u32>,
    pub found: Seq<DerivedAccess>,
}

/// What is reported of a memory operand, if there is one.
pub open spec fn reports(
    site: u32,
    access: Option<OperandAccess>,
    registers: Seq<Option<u32>>,
) -> Seq<DerivedAccess> {
    match access {
        Some(access) => match spec_resolve(access.mode, access.size, registers) {
            Some((register, target)) => seq![
                DerivedAccess { site, register, target, size: access.size, kind: access.kind },
            ],
            None => Seq::empty(),
        },
        None => Seq::empty(),
    }
}

/// The address registers after a memory operand, if there is one.
pub open spec fn passed(
    operands: Operands,
    access: Option<OperandAccess>,
    registers: Seq<Option<u32>>,
) -> Seq<Option<u32>> {
    match access {
        Some(access) => stepped(operands, access, registers),
        None => registers,
    }
}

/// Whether the first operand that is named is touched last: `MOVE` names its destination
/// first and reads its source first.
pub open spec fn spec_is_reversed(operands: Operands) -> bool {
    operands is SizeEffectiveAddressEffectiveAddress
}

/// Whether the first operand that is named is touched last.
fn is_reversed(operands: Operands) -> (r: bool)
    ensures
        r == spec_is_reversed(operands),
{
    matches!(operands, Operands::SizeEffectiveAddressEffectiveAddress(..))
}

impl Derivation {
    /// The memory operands of one more instruction, each where the registers stand when
    /// it is touched.
    pub open spec fn with_accesses(
        self,
        site: u32,
        operands: Operands,
        accesses: OperandAccesses,
    ) -> Derivation {
        let (first, second) = (accesses.first, accesses.second);
        if spec_is_reversed(operands) {
            let between = passed(operands, second, self.registers);
            Derivation {
                registers: passed(operands, first, between),
                found: self.found + reports(site, first, between) + reports(
                    site,
                    second,
                    self.registers,
                ),
                ..self
            }
        } else {
            let between = passed(operands, first, self.registers);
            Derivation {
                registers: passed(operands, second, between),
                found: self.found + reports(site, first, self.registers) + reports(
                    site,
                    second,
                    between,
                ),
                ..self
            }
        }
    }

    /// One more instruction.
    pub open spec fn with_instruction(
        self,
        view: AnalysisView,
        decoded: DecodedView,
        options: ValueOptions,
    ) -> Derivation {
        let accesses = spec_operand_accesses(decoded.instruction.isa, decoded.instruction.operands);
        let fresh = if self.end != Some(decoded.address) || is_reset_site(view, decoded.address) {
            Derivation { registers: nothing_known(), ..self }
        } else {
            self
        };
        let seen = fresh.with_accesses(
            decoded.address,
            decoded.instruction.operands,
            accesses,
        );
        Derivation {
            registers: if spec_clobbers_tracked_registers(decoded.instruction.isa) {
                nothing_known()
            } else {
                transferred(view, decoded, seen.registers, options)
            },
            end: Some(decoded.end),
            found: seen.found,
        }
    }

    /// The instructions of a listing, one after the other.
    pub open spec fn over(
        view: AnalysisView,
        listing: Seq<DecodedView>,
        options: ValueOptions,
    ) -> Derivation
        decreases listing.len(),
    {
        if listing.len() == 0 {
            Derivation { registers: nothing_known(), end: None, found: Seq::empty() }
        } else {
            Derivation::over(view, listing.drop_last(), options).with_instruction(
                view,
                listing.last(),
                options,
            )
        }
    }
}

/// No address register is known.
fn forget(registers: &mut [Option<u32>; 8])
    ensures
        final(registers)@ == nothing_known(),
{
    *registers = [None, None, None, None, None, None, None, None];
    assert(registers@ =~= nothing_known());
}

/// Report a memory operand, if there is one.
fn report(
    site: u32,
    access: Option<OperandAccess>,
    registers: &[Option<u32>; 8],
    found: &mut Vec<DerivedAccess>,
)
    requires
        access matches Some(access) ==> access.mode.in_range(),
    ensures
        final(found)@ == old(found)@ + reports(site, access, registers@),
{
    if let Some(access) = access {
        if let Some((register, target)) = resolve(access.mode, access.size, registers) {
            found.push(
                DerivedAccess { site, register, target, size: access.size, kind: access.kind },
            );
        }
    }
    assert(found@ =~= old(found)@ + reports(site, access, registers@));
}

/// Step over a memory operand, if there is one.
fn pass(operands: Operands, access: Option<OperandAccess>, registers: &mut [Option<u32>; 8])
    requires
        access matches Some(access) ==> access.mode.in_range(),
    ensures
        final(registers)@ == passed(operands, access, old(registers)@),
{
    if let Some(access) = access {
        step(operands, access, registers);
    }
}

/// Look at the memory operands of an instruction.
fn look_at(
    site: u32,
    operands: Operands,
    accesses: OperandAccesses,
    registers: &mut [Option<u32>; 8],
    found: &mut Vec<DerivedAccess>,
    Ghost(end): Ghost<Option<u32>>,
)
    requires
        accesses.first matches Some(access) ==> access.mode.in_range(),
        accesses.second matches Some(access) ==> access.mode.in_range(),
    ensures
        (Derivation { registers: final(registers)@, end, found: final(found)@ }) == (Derivation {
            registers: old(registers)@,
            end,
            found: old(found)@,
        }).with_accesses(site, operands, accesses),
{
    if is_reversed(operands) {
        let before: [Option<u32>; 8] = *registers;
        pass(operands, accesses.second, registers);
        report(site, accesses.first, registers, found);
        report(site, accesses.second, &before, found);
        pass(operands, accesses.first, registers);
    } else {
        report(site, accesses.first, registers, found);
        pass(operands, accesses.first, registers);
        report(site, accesses.second, registers, found);
        pass(operands, accesses.second, registers);
    }
}

/// Propagate exact address-register values through straight-line code and
/// resolve indirect memory operands. Only facts built by `LEA`, immediate
/// `MOVEA`, address-register copies, and constant `ADDA`/`SUBA`/`ADDQ`/`SUBQ`
/// are retained.
pub fn derived_accesses(analysis: &ControlFlowAnalysis, options: ValueOptions) -> (r: Vec<
    DerivedAccess,
>)
    requires
        analysis.wf(),
    ensures
        r@ == Derivation::over(analysis@, analysis@.listing(), options).found,
{
    let sites = reset_sites(analysis);
    let mut registers: [Option<u32>; 8] = [None, None, None, None, None, None, None, None];
    let mut end: Option<u32> = None;
    let mut found: Vec<DerivedAccess> = Vec::new();
    let mut i: usize = 0;
    let ghost listing = analysis.listing();
    proof {
        analysis.lemma_listing_view();
        assert(registers@ =~= nothing_known());
        assert(listing.take(0) =~= Seq::empty());
    }
    while i < analysis.instructions.values.len()
        invariant
            analysis.wf(),
            sites.wf(),
            forall|at: u32| #[trigger] sites@.contains(at) <==> is_reset_site(analysis@, at),
            listing == analysis.listing(),
            i <= listing.len(),
            listing.len() == analysis.instructions.values@.len(),
            (Derivation { registers: registers@, end, found: found@ }) == Derivation::over(
                analysis@,
                listing.take(i as int),
                options,
            ),
        decreases listing.len() - i,
    {
        let decoded = &analysis.instructions.values[i];
        proof {
            analysis.lemma_listing(i as int);
            let more = listing.take(i + 1);
            assert(more.drop_last() =~= listing.take(i as int));
            assert(more.last() == decoded@);
            lemma_accesses_in_range(decoded.instruction.isa, decoded.instruction.operands);
        }
        let site: u32 = decoded.address;
        if end != Some(site) || sites.contains(&site) {
            forget(&mut registers);
        }
        let accesses = operand_accesses(decoded.instruction.isa, decoded.instruction.operands);
        look_at(
            site,
            decoded.instruction.operands,
            accesses,
            &mut registers,
            &mut found,
            Ghost(end),
        );
        transfer(analysis, decoded, &mut registers, options);
        if clobbers_tracked_registers(decoded.instruction.isa) {
            forget(&mut registers);
        }
        end = Some(decoded.end);
        i += 1;
    }
    assert(listing.take(i as int) =~= listing);
    found
}

/// No value is carried across a control-flow join: at a function entry or at a
/// branch target, what an instruction does to the registers and which accesses
/// it adds are the same whatever was known before it.
pub proof fn nothing_crosses_a_join(
    view: AnalysisView,
    decoded: DecodedView,
    options: ValueOptions,
    one: Derivation,
    other: Derivation,
)
    requires
        is_reset_site(view, decoded.address),
        one.found == other.found,
    ensures
        one.with_instruction(view, decoded, options) == other.with_instruction(
            view,
            decoded,
            options,
        ),
{
}

} // verus!
