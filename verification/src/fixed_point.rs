//! Recognising fixed-point (Q-format) arithmetic idioms.
//!
//! Integer fixed-point math is invisible in a raw listing: a `MULS` followed by
//! an `ASR #k` is a Q-format multiply renormalised by `k` fractional bits, and an
//! `ASL #k` feeding a `DIVS` pre-scales the dividend for a Q-format quotient.
//! Reading a routine's Q split otherwise means inferring it by hand. The
//! analysis flags those arithmetic idioms, recognises common compare/branch
//! saturation clamps, and conservatively propagates known Q scales through
//! register copies and explicit scaling shifts along the control-flow graph.

use crate::analysis::{AnalysisView, ControlFlowAnalysis};
use crate::collections::{gathered, in_order, lemma_in_order, AddressMap};
use crate::constants::{
    owner_has_invalidating_unresolved_flow, spec_owner_has_invalidating_unresolved_flow,
};
use crate::dataflow::{forward, outcome, state_map, Domain, Flow, NoLog, Schedule};
use crate::decoded::{DecodedInstruction, DecodedView};
use crate::derived::{listed, spec_listed};
use crate::effects::operands_write;
use crate::fixpoint::only_loses_precision;
use crate::flow_index::FlowIndex;
use crate::jump_tables::{only_falls, only_falls_into};
use crate::m68k::{AddressingMode, Direction, Instruction, Isa, Operands, Size};
use crate::register_write::{register_write, spec_register_write};
use crate::values::RegisterKind;
use vstd::prelude::*;

verus! {

/// How many instructions apart a multiply/divide and its normalising shift may
/// sit and still be paired.
pub const WINDOW: usize = 4;

/// The fixed-point idiom a [`FixedPointHint`] flags.
#[derive(Clone, Copy, Debug, PartialEq, Eq, Structural)]
pub enum FixedPointKind {
    /// `MULS`/`MULU` followed by a right shift that renormalises the product.
    ScaledMultiply,
    /// A left shift that pre-scales the dividend, followed by `DIVS`/`DIVU`.
    ScaledDivide,
}

impl FixedPointKind {
    /// A short label for display.
    pub fn as_str(self) -> (r: &'static str)
        ensures
            r@ == match self {
                FixedPointKind::ScaledMultiply => "scaled multiply"@,
                FixedPointKind::ScaledDivide => "scaled divide"@,
            },
    {
        match self {
            FixedPointKind::ScaledMultiply => "scaled multiply",
            FixedPointKind::ScaledDivide => "scaled divide",
        }
    }
}

/// A detected fixed-point idiom: a multiply or divide paired with its
/// normalising shift.
#[derive(Clone, Copy, Debug, PartialEq, Eq, Structural)]
pub struct FixedPointHint {
    /// Address of the multiply (for a multiply idiom) or divide (for a divide).
    pub site: u32,
    /// Address of the normalising shift.
    pub shift_site: u32,
    pub kind: FixedPointKind,
    /// The data register carrying the fixed-point value.
    pub register: u8,
    /// The Q fractional bit count, when the shift is by an immediate.
    pub fractional_bits: Option<u8>,
}

/// Which side of a fixed-point value a clamp bounds.
#[derive(Clone, Copy, Debug, PartialEq, Eq, Structural)]
pub enum ClampKind {
    Lower,
    Upper,
}

/// A compare/branch/constant-write sequence that clamps a data register.
#[derive(Clone, Copy, Debug, PartialEq, Eq, Structural)]
pub struct ClampHint {
    /// Address of the comparison or overflow-producing arithmetic operation.
    pub site: u32,
    pub assign_site: u32,
    pub register: u8,
    pub size: u8,
    pub bound: u32,
    pub kind: ClampKind,
}

/// A point where a data register acquires a known Q fractional-bit scale.
#[derive(Clone, Copy, Debug, PartialEq, Eq, Structural)]
pub struct FixedPointScale {
    pub site: u32,
    pub register: u8,
    pub fractional_bits: u8,
}

/// A register-form arithmetic/logical shift, decomposed.
#[derive(Clone, Copy, Debug, PartialEq, Eq, Structural)]
pub struct ShiftInfo {
    pub register: u8,
    pub right: bool,
    /// The shift amount when it is an immediate (register-count shifts give `None`).
    pub amount: Option<u8>,
}

/// The data register of a multiply or divide.
pub open spec fn spec_register_operand(operands: Operands) -> Option<u8> {
    match operands {
        Operands::RegisterEffectiveAddress(register, _) => Some(register),
        _ => None,
    }
}

/// The data register of a multiply or divide.
pub fn register_operand(operands: Operands) -> (r: Option<u8>)
    ensures
        r == spec_register_operand(operands),
{
    match operands {
        Operands::RegisterEffectiveAddress(register, _) => Some(register),
        _ => None,
    }
}

/// The destination data register of a `MULS`/`MULU`, or `None`.
pub open spec fn spec_mul_register(isa: Isa, operands: Operands) -> Option<u8> {
    match isa {
        Isa::Mulu | Isa::Muls => spec_register_operand(operands),
        _ => None,
    }
}

/// The destination data register of a `MULS`/`MULU`, or `None`.
pub fn mul_register(isa: Isa, operands: Operands) -> (r: Option<u8>)
    ensures
        r == spec_mul_register(isa, operands),
{
    match isa {
        Isa::Mulu | Isa::Muls => register_operand(operands),
        _ => None,
    }
}

/// The destination data register of a `DIVS`/`DIVU`, or `None`.
pub open spec fn spec_div_register(isa: Isa, operands: Operands) -> Option<u8> {
    match isa {
        Isa::Divu | Isa::Divs => spec_register_operand(operands),
        _ => None,
    }
}

/// The destination data register of a `DIVS`/`DIVU`, or `None`.
pub fn div_register(isa: Isa, operands: Operands) -> (r: Option<u8>)
    ensures
        r == spec_div_register(isa, operands),
{
    match isa {
        Isa::Divu | Isa::Divs => register_operand(operands),
        _ => None,
    }
}

/// Decompose a register-form arithmetic or logical shift (the only shifts that
/// scale; rotates do not). Returns `None` for a memory shift, a rotate, or a
/// non-shift. The immediate 0 encodes a shift of 8.
pub open spec fn spec_scaling_shift(isa: Isa, operands: Operands) -> Option<ShiftInfo> {
    match operands {
        Operands::RotationDirectionSizeModeRegister(
            count,
            direction,
            _,
            register_count,
            register,
        ) => if matches!(isa, Isa::Asr | Isa::Lsr) {
            Some(
                ShiftInfo {
                    register,
                    right: direction == Direction::Right,
                    amount: if register_count {
                        None
                    } else if count == 0 {
                        Some(8)
                    } else {
                        Some(count)
                    },
                },
            )
        } else {
            None
        },
        _ => None,
    }
}

/// Decompose a register-form arithmetic or logical shift (the only shifts that
/// scale; rotates do not). Returns `None` for a memory shift, a rotate, or a
/// non-shift. The immediate 0 encodes a shift of 8.
pub fn scaling_shift(isa: Isa, operands: Operands) -> (r: Option<ShiftInfo>)
    ensures
        r == spec_scaling_shift(isa, operands),
{
    match operands {
        Operands::RotationDirectionSizeModeRegister(
            count,
            direction,
            _,
            register_count,
            register,
        ) => if matches!(isa, Isa::Asr | Isa::Lsr) {
            Some(
                ShiftInfo {
                    register,
                    right: direction == Direction::Right,
                    amount: if register_count {
                        None
                    } else if count == 0 {
                        Some(8)
                    } else {
                        Some(count)
                    },
                },
            )
        } else {
            None
        },
        _ => None,
    }
}

/// Whether an instruction may replace what a register holds. A callee or a trap
/// handler may replace any.
pub open spec fn spec_writes_register(
    analysis: AnalysisView,
    decoded: DecodedView,
    kind: RegisterKind,
    register: u8,
) -> bool {
    if decoded.is_opaque_fallthrough() {
        match decoded.movec_destination() {
            Some((address, written)) => address == (kind == RegisterKind::Address) && written
                == register,
            None => false,
        }
    } else {
        matches!(decoded.instruction.isa, Isa::Jsr | Isa::Bsr | Isa::Trap | Isa::Unknown)
            || spec_register_write(analysis, None, decoded, kind, register).is_some()
    }
}

/// Whether an instruction may replace what a register holds. A callee or a trap
/// handler may replace any.
pub fn writes_register(
    analysis: &ControlFlowAnalysis,
    decoded: &DecodedInstruction,
    kind: RegisterKind,
    register: u8,
) -> (r: bool)
    requires
        analysis.wf(),
        decoded.wf(),
        register < 8,
    ensures
        r == spec_writes_register(analysis@, decoded@, kind, register),
{
    if decoded.is_opaque_fallthrough() {
        match decoded.movec_destination() {
            Some((address, written)) => address == (kind == RegisterKind::Address) && written
                == register,
            None => false,
        }
    } else {
        matches!(decoded.instruction.isa, Isa::Jsr | Isa::Bsr | Isa::Trap | Isa::Unknown)
            || register_write(analysis, None, decoded, kind, register).is_some()
    }
}

/// Whether `next` follows `previous` inside one basic block: the same functions
/// own both, and control goes from one to the other and in no other way. A second
/// function or a call into the middle also breaks the pairing.
pub open spec fn follows(view: AnalysisView, previous: DecodedView, next: DecodedView) -> bool {
    &&& previous.end == next.address
    &&& previous.owners == next.owners
    &&& previous.owner_total == previous.owners.len()
    &&& next.owner_total == next.owners.len()
    &&& !view.functions.contains(next.address)
    &&& only_falls_into(view.flows, previous.address, next.address, next.address)
}

fn is_followed(
    analysis: &ControlFlowAnalysis,
    index: &FlowIndex,
    previous: &DecodedInstruction,
    next: &DecodedInstruction,
) -> (r: bool)
    requires
        analysis.wf(),
        index.indexes(analysis@.flows),
        previous.wf(),
        next.wf(),
    ensures
        r == follows(analysis@, previous@, next@),
{
    proof {
        previous.owners.lemma_len();
        next.owners.lemma_len();
    }
    previous.end == next.address && previous.owners.same(&next.owners) && previous.owner_total
        == previous.owners.len() && next.owner_total == next.owners.len()
        && !analysis.functions.contains(&next.address) && only_falls(
        index,
        previous.address,
        next.address,
        next.address,
        Ghost(analysis@.flows),
    )
}

/// What a multiply or a divide looks for: its register, the kind of idiom, and
/// whether the shift stands before it.
pub open spec fn spec_idiom(instruction: Instruction) -> Option<(u8, FixedPointKind, bool)> {
    match spec_mul_register(instruction.isa, instruction.operands) {
        Some(register) => Some((register, FixedPointKind::ScaledMultiply, false)),
        None => match spec_div_register(instruction.isa, instruction.operands) {
            Some(register) => Some((register, FixedPointKind::ScaledDivide, true)),
            None => None,
        },
    }
}

/// What a multiply or a divide looks for: its register, the kind of idiom, and
/// whether the shift stands before it.
pub fn idiom(instruction: Instruction) -> (r: Option<(u8, FixedPointKind, bool)>)
    ensures
        r == spec_idiom(instruction),
{
    match mul_register(instruction.isa, instruction.operands) {
        Some(register) => Some((register, FixedPointKind::ScaledMultiply, false)),
        None => match div_register(instruction.isa, instruction.operands) {
            Some(register) => Some((register, FixedPointKind::ScaledDivide, true)),
            None => None,
        },
    }
}

/// The shift of the register in the wanted direction.
pub open spec fn spec_wanted_shift(instruction: Instruction, register: u8, right: bool) -> Option<ShiftInfo> {
    match spec_scaling_shift(instruction.isa, instruction.operands) {
        Some(shift) => if shift.register == register && shift.right == right {
            Some(shift)
        } else {
            None
        },
        None => None,
    }
}

/// The shift of the register in the wanted direction.
pub fn wanted_shift(instruction: Instruction, register: u8, right: bool) -> (r: Option<ShiftInfo>)
    ensures
        r == spec_wanted_shift(instruction, register, right),
{
    match scaling_shift(instruction.isa, instruction.operands) {
        Some(shift) => if shift.register == register && shift.right == right {
            Some(shift)
        } else {
            None
        },
        None => None,
    }
}

/// The position of the shift that belongs to the multiply or divide at `at`,
/// looked for over at most `room` further instructions of the same block that do
/// not write the register.
pub open spec fn shift_position(
    view: AnalysisView,
    listing: Seq<DecodedView>,
    at: int,
    register: u8,
    backwards: bool,
    room: nat,
) -> Option<int>
    decreases room,
{
    let next = if backwards {
        at - 1
    } else {
        at + 1
    };
    if room == 0 || !(0 <= next < listing.len()) {
        None
    } else if !(if backwards {
        follows(view, listing[next], listing[at])
    } else {
        follows(view, listing[at], listing[next])
    }) {
        None
    } else if spec_wanted_shift(listing[next].instruction, register, !backwards) is Some {
        Some(next)
    } else if spec_writes_register(view, listing[next], RegisterKind::Data, register) {
        None
    } else {
        shift_position(view, listing, next, register, backwards, (room - 1) as nat)
    }
}

/// The idiom whose multiply or divide stands at position `at`.
pub open spec fn hint_at(view: AnalysisView, listing: Seq<DecodedView>, at: int) -> Option<
    FixedPointHint,
> {
    match spec_idiom(listing[at].instruction) {
        None => None,
        Some((register, kind, backwards)) => match shift_position(
            view,
            listing,
            at,
            register,
            backwards,
            WINDOW as nat,
        ) {
            None => None,
            Some(shift) => Some(
                FixedPointHint {
                    site: listing[at].address,
                    shift_site: listing[shift].address,
                    kind,
                    register,
                    fractional_bits: spec_wanted_shift(
                        listing[shift].instruction,
                        register,
                        !backwards,
                    )->0.amount,
                },
            ),
        },
    }
}

/// The fixed-point idioms of an analysis, in address order.
pub open spec fn hints_of(view: AnalysisView) -> Seq<FixedPointHint> {
    gathered(view.listing().len() as int, |at: int| hint_at(view, view.listing(), at))
}

fn find_shift(
    analysis: &ControlFlowAnalysis,
    index: &FlowIndex,
    at: usize,
    register: u8,
    backwards: bool,
) -> (r: Option<usize>)
    requires
        analysis.wf(),
        index.indexes(analysis@.flows),
        at < analysis.listing().len(),
        register < 8,
    ensures
        match r {
            Some(shift) => shift < analysis.listing().len() && shift_position(
                analysis@,
                analysis.listing(),
                at as int,
                register,
                backwards,
                WINDOW as nat,
            ) == Some(shift as int),
            None => shift_position(
                analysis@,
                analysis.listing(),
                at as int,
                register,
                backwards,
                WINDOW as nat,
            ) is None,
        },
        r matches Some(shift) ==> spec_wanted_shift(
            analysis.listing()[shift as int].instruction,
            register,
            !backwards,
        ) is Some,
{
    let list = &analysis.instructions.values;
    let ghost listing = analysis.listing();
    let mut here: usize = at;
    let mut room: usize = WINDOW;
    while room > 0
        invariant
            analysis.wf(),
            index.indexes(analysis@.flows),
            *list == analysis.instructions.values,
            listing == analysis.listing(),
            listing.len() == list@.len(),
            here < listing.len(),
            register < 8,
            shift_position(
                analysis@,
                listing,
                at as int,
                register,
                backwards,
                WINDOW as nat,
            ) == shift_position(analysis@, listing, here as int, register, backwards, room as nat),
        decreases room,
    {
        if backwards && here == 0 || !backwards && here >= list.len() - 1 {
            return None;
        }
        let next: usize = if backwards {
            here - 1
        } else {
            here + 1
        };
        proof {
            analysis.lemma_listing(here as int);
            analysis.lemma_listing(next as int);
        }
        let connected = if backwards {
            is_followed(analysis, index, &list[next], &list[here])
        } else {
            is_followed(analysis, index, &list[here], &list[next])
        };
        if !connected {
            return None;
        }
        if wanted_shift(list[next].instruction, register, !backwards).is_some() {
            return Some(next);
        }
        if writes_register(analysis, &list[next], RegisterKind::Data, register) {
            return None;
        }
        here = next;
        room -= 1;
    }
    None
}

/// Scan `analysis` for fixed-point multiply/divide idioms, in address order.
pub fn fixed_point_hints(analysis: &ControlFlowAnalysis) -> (r: Vec<FixedPointHint>)
    requires
        analysis.wf(),
    ensures
        r@ == hints_of(analysis@),
        forall|i: int| 0 <= i < r@.len() ==> (#[trigger] r@[i]).register < 8,
{
    let index = FlowIndex::new(&analysis.flows);
    let mut hints: Vec<FixedPointHint> = Vec::new();
    let ghost listing = analysis.listing();
    let ghost each = |at: int| hint_at(analysis@, analysis@.listing(), at);
    proof {
        analysis.lemma_listing_view();
    }
    let mut i: usize = 0;
    while i < analysis.instructions.values.len()
        invariant
            analysis.wf(),
            index.indexes(analysis@.flows),
            listing == analysis.listing(),
            listing == analysis@.listing(),
            listing.len() == analysis.instructions.values@.len(),
            each == (|at: int| hint_at(analysis@, analysis@.listing(), at)),
            i <= listing.len(),
            hints@ == gathered(i as int, each),
            forall|k: int| 0 <= k < hints@.len() ==> (#[trigger] hints@[k]).register < 8,
        decreases listing.len() - i,
    {
        let decoded = &analysis.instructions.values[i];
        proof {
            analysis.lemma_listing(i as int);
        }
        if let Some((register, kind, backwards)) = idiom(decoded.instruction) {
            if let Some(shift) = find_shift(analysis, &index, i, register, backwards) {
                let candidate = &analysis.instructions.values[shift];
                proof {
                    analysis.lemma_listing(shift as int);
                }
                if let Some(info) = wanted_shift(candidate.instruction, register, !backwards) {
                    hints.push(
                        FixedPointHint {
                            site: decoded.address,
                            shift_site: candidate.address,
                            kind,
                            register,
                            fractional_bits: info.amount,
                        },
                    );
                }
            }
        }
        i += 1;
    }
    hints
}

/// The bound that an instruction compares a data register with.
pub open spec fn spec_immediate_compare(isa: Isa, operands: Operands) -> Option<(Size, u8, u32)> {
    match operands {
        Operands::SizeEffectiveAddressImmediate(size, AddressingMode::Drd(register), bound) =>
        if isa == Isa::Cmpi {
            Some((size, register, bound))
        } else {
            None
        },
        _ => None,
    }
}

/// The bound that an instruction compares a data register with.
pub fn immediate_compare(isa: Isa, operands: Operands) -> (r: Option<(Size, u8, u32)>)
    ensures
        r == spec_immediate_compare(isa, operands),
{
    match operands {
        Operands::SizeEffectiveAddressImmediate(size, AddressingMode::Drd(register), bound) =>
        if isa == Isa::Cmpi {
            Some((size, register, bound))
        } else {
            None
        },
        _ => None,
    }
}

/// Where a branch at `address` goes.
pub open spec fn spec_short_target(address: u32, displacement: i16) -> u32 {
    address.wrapping_add(2).wrapping_add(displacement as i32 as u32)
}

/// Where a branch at `address` goes.
pub fn short_target(address: u32, displacement: i16) -> (r: u32)
    ensures
        r == spec_short_target(address, displacement),
{
    address.wrapping_add(2).wrapping_add(displacement as i32 as u32)
}

/// Which clamp a branch skips and where it goes: BGE/BGT skips a lower-bound
/// assignment, BLT/BLE an upper-bound assignment.
pub open spec fn spec_clamp_branch(address: u32, operands: Operands) -> Option<(ClampKind, u32)> {
    match operands {
        Operands::ConditionDisplacement(condition, displacement) => if condition == 12 || condition
            == 14 {
            Some((ClampKind::Lower, spec_short_target(address, displacement)))
        } else if condition == 13 || condition == 15 {
            Some((ClampKind::Upper, spec_short_target(address, displacement)))
        } else {
            None
        },
        _ => None,
    }
}

/// Which clamp a branch skips and where it goes: BGE/BGT skips a lower-bound
/// assignment, BLT/BLE an upper-bound assignment.
pub fn clamp_branch(address: u32, operands: Operands) -> (r: Option<(ClampKind, u32)>)
    ensures
        r == spec_clamp_branch(address, operands),
{
    match operands {
        Operands::ConditionDisplacement(condition, displacement) => if condition == 12 || condition
            == 14 {
            Some((ClampKind::Lower, short_target(address, displacement)))
        } else if condition == 13 || condition == 15 {
            Some((ClampKind::Upper, short_target(address, displacement)))
        } else {
            None
        },
        _ => None,
    }
}

/// A `MOVE #imm,Dn` or `MOVEQ #imm,Dn`: the constant assignment half of a clamp.
///
/// `MOVEQ` is here because it is what a compiler emits for the common
/// `MOVEQ #0,Dn` lower clamp: it is a longword assignment of a sign-extended
/// byte, so an upper clamp at a word or longword bound cannot be spelled with
/// it, but a zero or small bound can.
pub open spec fn spec_immediate_register_move(operands: Operands) -> Option<(Size, u8, u32)> {
    match operands {
        Operands::SizeEffectiveAddressEffectiveAddress(
            size,
            AddressingMode::Drd(register),
            AddressingMode::Immediate(value),
        ) => Some((size, register, value)),
        Operands::RegisterData(register, value) => Some(
            (Size::Long, register, value as i32 as u32),
        ),
        _ => None,
    }
}

/// A `MOVE #imm,Dn` or `MOVEQ #imm,Dn`: the constant assignment half of a clamp.
///
/// `MOVEQ` is here because it is what a compiler emits for the common
/// `MOVEQ #0,Dn` lower clamp: it is a longword assignment of a sign-extended
/// byte, so an upper clamp at a word or longword bound cannot be spelled with
/// it, but a zero or small bound can.
pub fn immediate_register_move(operands: Operands) -> (r: Option<(Size, u8, u32)>)
    ensures
        r == spec_immediate_register_move(operands),
{
    match operands {
        Operands::SizeEffectiveAddressEffectiveAddress(
            size,
            AddressingMode::Drd(register),
            AddressingMode::Immediate(value),
        ) => Some((size, register, value)),
        Operands::RegisterData(register, value) => Some(
            (Size::Long, register, value as i32 as u32),
        ),
        _ => None,
    }
}

/// The data register that an overflow-producing arithmetic operation writes.
pub open spec fn spec_arithmetic_destination(isa: Isa, operands: Operands) -> Option<(Size, u8)> {
    match operands {
        Operands::RegisterDirectionSizeEffectiveAddress(register, direction, size, effective) =>
        if !matches!(isa, Isa::Add | Isa::Sub) {
            None
        } else if direction == Direction::DstReg {
            Some((size, register))
        } else {
            match effective {
                AddressingMode::Drd(destination) => if direction == Direction::DstEa {
                    Some((size, destination))
                } else {
                    None
                },
                _ => None,
            }
        },
        Operands::SizeEffectiveAddressImmediate(size, AddressingMode::Drd(register), _) =>
        if matches!(isa, Isa::Addi | Isa::Subi) {
            Some((size, register))
        } else {
            None
        },
        Operands::DataSizeEffectiveAddress(_, size, AddressingMode::Drd(register)) => Some(
            (size, register),
        ),
        _ => None,
    }
}

/// The data register that an overflow-producing arithmetic operation writes.
pub fn arithmetic_destination(isa: Isa, operands: Operands) -> (r: Option<(Size, u8)>)
    ensures
        r == spec_arithmetic_destination(isa, operands),
{
    match operands {
        Operands::RegisterDirectionSizeEffectiveAddress(register, direction, size, effective) =>
        if !matches!(isa, Isa::Add | Isa::Sub) {
            None
        } else if direction == Direction::DstReg {
            Some((size, register))
        } else {
            match effective {
                AddressingMode::Drd(destination) => if direction == Direction::DstEa {
                    Some((size, destination))
                } else {
                    None
                },
                _ => None,
            }
        },
        Operands::SizeEffectiveAddressImmediate(size, AddressingMode::Drd(register), _) =>
        if matches!(isa, Isa::Addi | Isa::Subi) {
            Some((size, register))
        } else {
            None
        },
        Operands::DataSizeEffectiveAddress(_, size, AddressingMode::Drd(register)) => Some(
            (size, register),
        ),
        _ => None,
    }
}

/// Where a `BVC` goes.
pub open spec fn spec_overflow_skip(address: u32, operands: Operands) -> Option<u32> {
    match operands {
        Operands::ConditionDisplacement(condition, displacement) => if condition == 8 {
            Some(spec_short_target(address, displacement))
        } else {
            None
        },
        _ => None,
    }
}

/// Where a `BVC` goes.
pub fn overflow_skip(address: u32, operands: Operands) -> (r: Option<u32>)
    ensures
        r == spec_overflow_skip(address, operands),
{
    match operands {
        Operands::ConditionDisplacement(condition, displacement) => if condition == 8 {
            Some(short_target(address, displacement))
        } else {
            None
        },
        _ => None,
    }
}

/// Which end of the signed range of a size a bound is.
pub open spec fn spec_signed_bound_kind(size: Size, bound: u32) -> Option<ClampKind> {
    let sign_bit: u32 = match size {
        Size::Byte => 0x80,
        Size::Word => 0x8000,
        Size::Long => 0x8000_0000,
    };
    if bound == sign_bit {
        Some(ClampKind::Lower)
    } else if bound == sign_bit - 1 {
        Some(ClampKind::Upper)
    } else {
        None
    }
}

/// Which end of the signed range of a size a bound is.
pub fn signed_bound_kind(size: Size, bound: u32) -> (r: Option<ClampKind>)
    ensures
        r == spec_signed_bound_kind(size, bound),
{
    let sign_bit: u32 = match size {
        Size::Byte => 0x80,
        Size::Word => 0x8000,
        Size::Long => 0x8000_0000,
    };
    if bound == sign_bit {
        Some(ClampKind::Lower)
    } else if bound == sign_bit - 1 {
        Some(ClampKind::Upper)
    } else {
        None
    }
}

/// A clamp after a comparison: the branch skips the assignment of the bound.
pub open spec fn spec_compare_clamp(compare: DecodedView, branch: DecodedView, assignment: DecodedView) -> Option<ClampHint> {
    match (
        spec_immediate_register_move(assignment.instruction.operands),
        spec_immediate_compare(compare.instruction.isa, compare.instruction.operands),
        spec_clamp_branch(branch.address, branch.instruction.operands),
    ) {
        (
            Some((assigned_size, assigned_register, assigned_bound)),
            Some((size, register, bound)),
            Some((kind, target)),
        ) => if assigned_size == size && assigned_register == register && assigned_bound == bound
            && target >= assignment.end {
            Some(
                ClampHint {
                    site: compare.address,
                    assign_site: assignment.address,
                    register,
                    size: size.spec_bytes(),
                    bound,
                    kind,
                },
            )
        } else {
            None
        },
        _ => None,
    }
}

/// A clamp after a comparison: the branch skips the assignment of the bound.
pub fn compare_clamp(
    compare: &DecodedInstruction,
    branch: &DecodedInstruction,
    assignment: &DecodedInstruction,
) -> (r: Option<ClampHint>)
    ensures
        r == spec_compare_clamp(compare@, branch@, assignment@),
{
    match (
        immediate_register_move(assignment.instruction.operands),
        immediate_compare(compare.instruction.isa, compare.instruction.operands),
        clamp_branch(branch.address, branch.instruction.operands),
    ) {
        (
            Some((assigned_size, assigned_register, assigned_bound)),
            Some((size, register, bound)),
            Some((kind, target)),
        ) => if assigned_size == size && assigned_register == register && assigned_bound == bound
            && target >= assignment.end {
            Some(
                ClampHint {
                    site: compare.address,
                    assign_site: assignment.address,
                    register,
                    size: size.bytes(),
                    bound,
                    kind,
                },
            )
        } else {
            None
        },
        _ => None,
    }
}

/// A clamp after an overflow: the branch skips the assignment of the end of the
/// range.
pub open spec fn spec_overflow_clamp(compare: DecodedView, branch: DecodedView, assignment: DecodedView) -> Option<ClampHint> {
    match (
        spec_immediate_register_move(assignment.instruction.operands),
        spec_arithmetic_destination(compare.instruction.isa, compare.instruction.operands),
        spec_overflow_skip(branch.address, branch.instruction.operands),
    ) {
        (
            Some((assigned_size, assigned_register, assigned_bound)),
            Some((size, register)),
            Some(target),
        ) => if assigned_size == size && assigned_register == register && target
            >= assignment.end {
            match spec_signed_bound_kind(size, assigned_bound) {
                Some(kind) => Some(
                    ClampHint {
                        site: compare.address,
                        assign_site: assignment.address,
                        register,
                        size: size.spec_bytes(),
                        bound: assigned_bound,
                        kind,
                    },
                ),
                None => None,
            }
        } else {
            None
        },
        _ => None,
    }
}

/// A clamp after an overflow: the branch skips the assignment of the end of the
/// range.
pub fn overflow_clamp(
    compare: &DecodedInstruction,
    branch: &DecodedInstruction,
    assignment: &DecodedInstruction,
) -> (r: Option<ClampHint>)
    ensures
        r == spec_overflow_clamp(compare@, branch@, assignment@),
{
    match (
        immediate_register_move(assignment.instruction.operands),
        arithmetic_destination(compare.instruction.isa, compare.instruction.operands),
        overflow_skip(branch.address, branch.instruction.operands),
    ) {
        (
            Some((assigned_size, assigned_register, assigned_bound)),
            Some((size, register)),
            Some(target),
        ) => if assigned_size == size && assigned_register == register && target
            >= assignment.end {
            match signed_bound_kind(size, assigned_bound) {
                Some(kind) => Some(
                    ClampHint {
                        site: compare.address,
                        assign_site: assignment.address,
                        register,
                        size: size.bytes(),
                        bound: assigned_bound,
                        kind,
                    },
                ),
                None => None,
            }
        } else {
            None
        },
        _ => None,
    }
}

/// The clamp whose comparison or operation stands at position `at`: three
/// adjacent instructions that some function owns in common.
pub open spec fn clamp_at(listing: Seq<DecodedView>, at: int) -> Option<ClampHint> {
    let compare = listing[at];
    let branch = listing[at + 1];
    let assignment = listing[at + 2];
    if compare.end != branch.address || branch.end != assignment.address
        || compare.owners.disjoint(branch.owners) || compare.owners.disjoint(assignment.owners) {
        None
    } else {
        match spec_compare_clamp(compare, branch, assignment) {
            Some(hint) => Some(hint),
            None => spec_overflow_clamp(compare, branch, assignment),
        }
    }
}

/// Find compare/conditional-skip/constant-write clamp idioms.
pub fn clamp_hints(analysis: &ControlFlowAnalysis) -> (r: Vec<ClampHint>)
    requires
        analysis.wf(),
    ensures
        r@ == gathered(
            analysis@.listing().len() - 2,
            |at: int| clamp_at(analysis@.listing(), at),
        ),
{
    let list = &analysis.instructions.values;
    let mut hints: Vec<ClampHint> = Vec::new();
    let ghost listing = analysis.listing();
    let ghost each = |at: int| clamp_at(analysis@.listing(), at);
    proof {
        analysis.lemma_listing_view();
    }
    if list.len() < 2 {
        return hints;
    }
    let mut i: usize = 0;
    while i < list.len() - 2
        invariant
            analysis.wf(),
            *list == analysis.instructions.values,
            listing == analysis.listing(),
            listing == analysis@.listing(),
            listing.len() == list@.len(),
            2 <= list@.len(),
            each == (|at: int| clamp_at(analysis@.listing(), at)),
            i <= list@.len() - 2,
            hints@ == gathered(i as int, each),
        decreases list@.len() - 2 - i,
    {
        let compare = &list[i];
        let branch = &list[i + 1];
        let assignment = &list[i + 2];
        proof {
            analysis.lemma_listing(i as int);
            analysis.lemma_listing(i + 1);
            analysis.lemma_listing(i + 2);
        }
        if compare.end == branch.address && branch.end == assignment.address
            && compare.owners.meets(&branch.owners) && compare.owners.meets(&assignment.owners) {
            match compare_clamp(compare, branch, assignment) {
                Some(hint) => {
                    hints.push(hint);
                },
                None => {
                    if let Some(hint) = overflow_clamp(compare, branch, assignment) {
                        hints.push(hint);
                    }
                },
            }
        }
        i += 1;
    }
    hints
}

/// The Q scales of the data registers.
#[derive(Clone, Copy, Debug)]
pub struct Scales(pub [Option<u8>; 8]);

impl View for Scales {
    type V = Seq<Option<u8>>;

    open spec fn view(&self) -> Seq<Option<u8>> {
        self.0@
    }
}

/// Whether a scale is lost where another one arrives.
pub open spec fn loses(stored: Seq<Option<u8>>, incoming: Seq<Option<u8>>, i: int) -> bool {
    stored[i] is Some && stored[i] != incoming[i]
}

impl Domain for Scales {
    open spec fn wf(&self) -> bool {
        true
    }

    open spec fn joined(stored: Seq<Option<u8>>, incoming: Seq<Option<u8>>) -> (
        Seq<Option<u8>>,
        bool,
    ) {
        (
            Seq::new(
                stored.len(),
                |i: int|
                    if loses(stored, incoming, i) {
                        None
                    } else {
                        stored[i]
                    },
            ),
            exists|i: int| 0 <= i < stored.len() && #[trigger] loses(stored, incoming, i),
        )
    }

    fn join(&mut self, incoming: &Self) -> (r: bool) {
        let ghost stored = self@;
        let mut changed = false;
        let mut i: usize = 0;
        while i < 8
            invariant
                i <= 8,
                stored.len() == 8,
                self@.len() == 8,
                forall|k: int|
                    0 <= k < i ==> #[trigger] self@[k] == Self::joined(stored, incoming@).0[k],
                forall|k: int| i <= k < 8 ==> #[trigger] self@[k] == stored[k],
                changed == exists|k: int| 0 <= k < i && #[trigger] loses(stored, incoming@, k),
            decreases 8 - i,
        {
            if self.0[i].is_some() && self.0[i] != incoming.0[i] {
                assert(loses(stored, incoming@, i as int));
                self.0[i] = None;
                changed = true;
            } else {
                assert(!loses(stored, incoming@, i as int));
            }
            i += 1;
        }
        assert(self@ =~= Self::joined(stored, incoming@).0);
        changed
    }

    fn duplicate(&self) -> (r: Self) {
        *self
    }
}

/// Joining scales only loses precision, so a walk that comes to rest is at a
/// fixpoint.
pub proof fn scale_join_only_loses_precision()
    ensures
        only_loses_precision::<Scales>(),
{
    assert forall|a: Seq<Option<u8>>, b: Seq<Option<u8>>|
        !(#[trigger] Scales::joined(a, b)).1 implies Scales::joined(a, b).0 == a by {
        assert forall|i: int| 0 <= i < a.len() implies Scales::joined(a, b).0[i] == a[i] by {
            assert(!loses(a, b, i));
        }
        assert(Scales::joined(a, b).0 =~= a);
    }
    assert forall|a: Seq<Option<u8>>, b: Seq<Option<u8>>|
        !Scales::joined((#[trigger] Scales::joined(a, b)).0, b).1 by {
        let c = Scales::joined(a, b).0;
        assert forall|i: int| 0 <= i < c.len() implies !#[trigger] loses(c, b, i) by {
            assert(loses(a, b, i) || !loses(a, b, i));
        }
    }
    assert forall|a: Seq<Option<u8>>, b: Seq<Option<u8>>, c: Seq<Option<u8>>|
        #![trigger Scales::joined(a, b), Scales::joined(a, c)]
        !Scales::joined(a, b).1 implies !Scales::joined(Scales::joined(a, c).0, b).1 by {
        let d = Scales::joined(a, c).0;
        assert forall|i: int| 0 <= i < d.len() implies !#[trigger] loses(d, b, i) by {
            assert(!loses(a, b, i));
        }
    }
}

/// No scale is known.
pub open spec fn no_scales() -> Seq<Option<u8>> {
    Seq::new(8, |i: int| None::<u8>)
}

/// The scales without that of `mode`, if it names a data register.
pub open spec fn cleared(scales: Seq<Option<u8>>, mode: AddressingMode) -> Seq<Option<u8>> {
    match mode {
        AddressingMode::Drd(register) => scales.update(register as int, None),
        _ => scales,
    }
}

/// The scale of a register after a shift of it: a shift by a literal amount moves
/// the binary point by exactly that many bits. A rotate does not scale at all, and
/// a shift whose count is in a register moves it by an amount this walk cannot
/// read, which is not the same as not moving it.
pub open spec fn spec_shifted_scale(held: Option<u8>, shift: Option<ShiftInfo>) -> Option<u8> {
    match (held, shift) {
        (Some(bits), Some(shift)) => match shift.amount {
            Some(amount) => if shift.right {
                bits.checked_sub(amount)
            } else {
                bits.checked_add(amount)
            },
            None => None,
        },
        _ => None,
    }
}

/// The scale of a register after a shift of it: a shift by a literal amount moves
/// the binary point by exactly that many bits. A rotate does not scale at all, and
/// a shift whose count is in a register moves it by an amount this walk cannot
/// read, which is not the same as not moving it.
pub fn shifted_scale(held: Option<u8>, shift: Option<ShiftInfo>) -> (r: Option<u8>)
    ensures
        r == spec_shifted_scale(held, shift),
{
    match (held, shift) {
        (Some(bits), Some(shift)) => match shift.amount {
            Some(amount) => if shift.right {
                bits.checked_sub(amount)
            } else {
                bits.checked_add(amount)
            },
            None => None,
        },
        _ => None,
    }
}

/// The scales after ADD/AND/OR/SUB/EOR: the destination keeps its scale where the
/// source has the same.
pub open spec fn summed(
    scales: Seq<Option<u8>>,
    register: u8,
    direction: Direction,
    effective: AddressingMode,
) -> Seq<Option<u8>> {
    match effective {
        AddressingMode::Drd(other) => if direction == Direction::DstEa {
            if scales[other as int] != scales[register as int] {
                scales.update(other as int, None)
            } else {
                scales
            }
        } else if direction == Direction::DstReg {
            if scales[register as int] != scales[other as int] {
                scales.update(register as int, None)
            } else {
                scales
            }
        } else {
            scales
        },
        _ => if direction == Direction::DstReg {
            scales.update(register as int, None)
        } else {
            scales
        },
    }
}

/// The scales after `MOVEM` has loaded the data registers of its list.
pub open spec fn without_listed(scales: Seq<Option<u8>>, list: u16) -> Seq<Option<u8>> {
    Seq::new(
        8,
        |i: int|
            if spec_listed(list, i as u16) {
                None
            } else {
                scales[i]
            },
    )
}

/// The scales after an instruction, by its operands.
///
/// **An unnamed form loses a scale; it never keeps one.** This walk exists to
/// report a fractional-bit count, and the two ways it can be wrong are not
/// symmetric: forgetting a scale reports nothing, while keeping a stale one
/// reports a number that is no longer true. So every arm either states what the
/// instruction does to a register's binary point or clears it.
///
/// The one form that genuinely preserves a scale is `EXT`: sign extension keeps
/// the fractional-bit count, because it changes the integer width and not the
/// position of the binary point.
pub open spec fn operand_scales(isa: Isa, operands: Operands, scales: Seq<Option<u8>>) -> Seq<
    Option<u8>,
> {
    match operands {
        // A register-to-register move carries the scale with the value; any other
        // MOVE into a data register replaces what it held.
        Operands::SizeEffectiveAddressEffectiveAddress(
            _,
            AddressingMode::Drd(destination),
            source,
        ) => match source {
            AddressingMode::Drd(source) => scales.update(
                destination as int,
                scales[source as int],
            ),
            _ => scales.update(destination as int, None),
        },
        Operands::RegisterData(register, _) => scales.update(register as int, None),
        Operands::SizeEffectiveAddress(_, effective) => if isa == Isa::Tst {
            scales
        } else {
            cleared(scales, effective)
        },
        Operands::SizeEffectiveAddressImmediate(_, effective, _) => if isa == Isa::Cmpi {
            scales
        } else {
            cleared(scales, effective)
        },
        Operands::EffectiveAddressCount(effective, _) => if isa == Isa::Btst {
            scales
        } else {
            cleared(scales, effective)
        },
        Operands::DataSizeEffectiveAddress(_, _, effective) => cleared(scales, effective),
        Operands::ConditionEffectiveAddress(_, effective) => cleared(scales, effective),
        Operands::EffectiveAddress(effective) => cleared(scales, effective),
        // MULx/DIVx replace their destination register. LEA writes an address
        // register and CHK only reads its register.
        Operands::RegisterEffectiveAddress(register, _) => if spec_mul_register(isa, operands)
            is Some || spec_div_register(isa, operands) is Some {
            scales.update(register as int, None)
        } else {
            scales
        },
        Operands::RegisterDirectionSizeEffectiveAddress(register, direction, _, effective) =>
        if isa == Isa::Cmp {
            scales
        } else {
            summed(scales, register, direction, effective)
        },
        Operands::RotationDirectionSizeModeRegister(_, _, _, _, register) => scales.update(
            register as int,
            spec_shifted_scale(scales[register as int], spec_scaling_shift(isa, operands)),
        ),
        // EXG exchanges two registers, so it exchanges their scales. The
        // data/address form puts an address in the data register.
        Operands::RegisterOpmodeRegister(first, mode, second) => if mode
            == Direction::ExchangeData {
            scales.update(first as int, scales[second as int]).update(
                second as int,
                scales[first as int],
            )
        } else if mode == Direction::ExchangeDataAddress {
            scales.update(first as int, None)
        } else {
            scales
        },
        // SWAP moves the binary point by an amount that depends on where it was.
        Operands::Register(register) => if isa == Isa::Swap {
            scales.update(register as int, None)
        } else {
            scales
        },
        Operands::DirectionSizeEffectiveAddressList(direction, _, _, list) => if direction
            == Direction::MemoryToRegister {
            without_listed(scales, list)
        } else {
            scales
        },
        Operands::RegisterDirectionSizeRegisterDisplacement(register, direction, _, _, _) =>
        if direction == Direction::MemoryToRegister {
            scales.update(register as int, None)
        } else {
            scales
        },
        // DBcc decrements its loop counter.
        Operands::ConditionRegisterDisplacement(_, register, _) => scales.update(
            register as int,
            None,
        ),
        Operands::RegisterSizeModeRegister(destination, _, direction, _) => if direction
            == Direction::RegisterToRegister {
            scales.update(destination as int, None)
        } else {
            scales
        },
        _ => scales,
    }
}

/// The scales after an instruction. A callee or trap handler may replace any
/// register, including those outside the usual scratch set.
pub open spec fn scales_after(decoded: DecodedView, scales: Seq<Option<u8>>) -> Seq<Option<u8>> {
    if decoded.is_opaque_fallthrough() {
        match decoded.movec_destination() {
            Some((address, register)) => if address {
                scales
            } else {
                scales.update(register as int, None)
            },
            None => scales,
        }
    } else if matches!(
        decoded.instruction.isa,
        Isa::Jsr | Isa::Bsr | Isa::Trap | Isa::Unknown
    ) {
        no_scales()
    } else {
        operand_scales(decoded.instruction.isa, decoded.instruction.operands, scales)
    }
}

impl Scales {
    fn none() -> (r: Self)
        ensures
            r@ == no_scales(),
    {
        let r = Scales([None, None, None, None, None, None, None, None]);
        assert(r@ =~= no_scales());
        r
    }

    fn put(&mut self, register: u8, scale: Option<u8>)
        requires
            register < 8,
        ensures
            final(self)@ == old(self)@.update(register as int, scale),
    {
        self.0[register as usize] = scale;
    }

    fn clear(&mut self, mode: AddressingMode)
        requires
            mode.in_range(),
        ensures
            final(self)@ == cleared(old(self)@, mode),
    {
        if let AddressingMode::Drd(register) = mode {
            self.put(register, None);
        }
    }

    fn drop_listed(&mut self, list: u16)
        ensures
            final(self)@ == without_listed(old(self)@, list),
    {
        let ghost before = self@;
        let mut i: usize = 0;
        while i < 8
            invariant
                i <= 8,
                before.len() == 8,
                self@.len() == 8,
                forall|k: int| 0 <= k < i ==> #[trigger] self@[k] == without_listed(before, list)[k],
                forall|k: int| i <= k < 8 ==> #[trigger] self@[k] == before[k],
            decreases 8 - i,
        {
            if listed(list, i as u16) {
                self.0[i] = None;
            }
            i += 1;
        }
        assert(self@ =~= without_listed(before, list));
    }

    fn add(&mut self, register: u8, direction: Direction, effective: AddressingMode)
        requires
            register < 8,
            effective.in_range(),
        ensures
            final(self)@ == summed(old(self)@, register, direction, effective),
    {
        match effective {
            AddressingMode::Drd(other) => {
                if direction == Direction::DstEa {
                    if self.0[other as usize] != self.0[register as usize] {
                        self.put(other, None);
                    }
                } else if direction == Direction::DstReg {
                    if self.0[register as usize] != self.0[other as usize] {
                        self.put(register, None);
                    }
                }
            },
            _ => {
                if direction == Direction::DstReg {
                    self.put(register, None);
                }
            },
        }
    }

    fn apply_operands(&mut self, isa: Isa, operands: Operands)
        requires
            operands.in_range(),
        ensures
            final(self)@ == operand_scales(isa, operands, old(self)@),
    {
        match operands {
            Operands::SizeEffectiveAddressEffectiveAddress(
                _,
                AddressingMode::Drd(destination),
                source,
            ) => {
                let scale = match source {
                    AddressingMode::Drd(source) => self.0[source as usize],
                    _ => None,
                };
                self.put(destination, scale);
            },
            Operands::RegisterData(register, _) => {
                self.put(register, None);
            },
            Operands::SizeEffectiveAddress(_, effective) => {
                if isa != Isa::Tst {
                    self.clear(effective);
                }
            },
            Operands::SizeEffectiveAddressImmediate(_, effective, _) => {
                if isa != Isa::Cmpi {
                    self.clear(effective);
                }
            },
            Operands::EffectiveAddressCount(effective, _) => {
                if isa != Isa::Btst {
                    self.clear(effective);
                }
            },
            Operands::DataSizeEffectiveAddress(_, _, effective) => {
                self.clear(effective);
            },
            Operands::ConditionEffectiveAddress(_, effective) => {
                self.clear(effective);
            },
            Operands::EffectiveAddress(effective) => {
                self.clear(effective);
            },
            Operands::RegisterEffectiveAddress(register, _) => {
                if mul_register(isa, operands).is_some() || div_register(isa, operands).is_some() {
                    self.put(register, None);
                }
            },
            Operands::RegisterDirectionSizeEffectiveAddress(register, direction, _, effective) => {
                if isa != Isa::Cmp {
                    self.add(register, direction, effective);
                }
            },
            Operands::RotationDirectionSizeModeRegister(_, _, _, _, register) => {
                let held = self.0[register as usize];
                self.put(register, shifted_scale(held, scaling_shift(isa, operands)));
            },
            Operands::RegisterOpmodeRegister(first, mode, second) => {
                if mode == Direction::ExchangeData {
                    let kept = self.0[first as usize];
                    let other = self.0[second as usize];
                    self.put(first, other);
                    self.put(second, kept);
                } else if mode == Direction::ExchangeDataAddress {
                    self.put(first, None);
                }
            },
            Operands::Register(register) => {
                if isa == Isa::Swap {
                    self.put(register, None);
                }
            },
            Operands::DirectionSizeEffectiveAddressList(direction, _, _, list) => {
                if direction == Direction::MemoryToRegister {
                    self.drop_listed(list);
                }
            },
            Operands::RegisterDirectionSizeRegisterDisplacement(register, direction, _, _, _) => {
                if direction == Direction::MemoryToRegister {
                    self.put(register, None);
                }
            },
            Operands::ConditionRegisterDisplacement(_, register, _) => {
                self.put(register, None);
            },
            Operands::RegisterSizeModeRegister(destination, _, direction, _) => {
                if direction == Direction::RegisterToRegister {
                    self.put(destination, None);
                }
            },
            _ => {},
        }
    }

    /// Advance the per-register Q scales past one instruction.
    pub fn update(&mut self, decoded: &DecodedInstruction)
        requires
            decoded.wf(),
        ensures
            final(self)@ == scales_after(decoded@, old(self)@),
    {
        if decoded.is_opaque_fallthrough() {
            if let Some((address, register)) = decoded.movec_destination() {
                if !address {
                    self.put(register, None);
                }
            }
            return;
        }
        let isa = decoded.instruction.isa;
        if matches!(isa, Isa::Jsr | Isa::Bsr | Isa::Trap | Isa::Unknown) {
            *self = Scales::none();
            return;
        }
        self.apply_operands(isa, decoded.instruction.operands);
    }
}

/// Where an idiom gives its register a scale: at the shift that renormalises a
/// product, or at the divide.
pub open spec fn spec_seed_site(hint: FixedPointHint) -> u32 {
    match hint.kind {
        FixedPointKind::ScaledMultiply => hint.shift_site,
        FixedPointKind::ScaledDivide => hint.site,
    }
}

/// Where an idiom gives its register a scale: at the shift that renormalises a
/// product, or at the divide.
pub fn seed_site(hint: FixedPointHint) -> (r: u32)
    ensures
        r == spec_seed_site(hint),
{
    match hint.kind {
        FixedPointKind::ScaledMultiply => hint.shift_site,
        FixedPointKind::ScaledDivide => hint.site,
    }
}

/// The scales with those that idioms give at `site`.
pub open spec fn seeded(hints: Seq<FixedPointHint>, site: u32, scales: Seq<Option<u8>>) -> Seq<
    Option<u8>,
>
    decreases hints.len(),
{
    if hints.len() == 0 {
        scales
    } else {
        let earlier = seeded(hints.drop_last(), site, scales);
        let hint = hints.last();
        if spec_seed_site(hint) == site && hint.fractional_bits is Some {
            earlier.update(hint.register as int, hint.fractional_bits)
        } else {
            earlier
        }
    }
}

/// The scales behind an instruction.
pub open spec fn scales_behind(
    hints: Seq<FixedPointHint>,
    decoded: DecodedView,
    scales: Seq<Option<u8>>,
) -> Seq<Option<u8>> {
    seeded(hints, decoded.address, scales_after(decoded, scales))
}

/// The propagation of scales through one function's code.
pub struct ScaleFlow<'a> {
    pub analysis: &'a ControlFlowAnalysis,
    pub hints: &'a Vec<FixedPointHint>,
}

impl<'a> ScaleFlow<'a> {
    fn step(&self, decoded: &DecodedInstruction, scales: &mut Scales)
        requires
            self.wf(),
            decoded.wf(),
        ensures
            final(scales)@ == scales_behind(self.hints@, decoded@, old(scales)@),
    {
        scales.update(decoded);
        let ghost after = scales@;
        let hints = self.hints;
        let mut i: usize = 0;
        while i < hints.len()
            invariant
                self.wf(),
                *hints == *self.hints,
                i <= hints@.len(),
                scales@ == seeded(hints@.take(i as int), decoded.address, after),
            decreases hints@.len() - i,
        {
            let hint = hints[i];
            proof {
                let more = hints@.take(i + 1);
                assert(more.drop_last() =~= hints@.take(i as int));
                assert(more.last() == hint);
            }
            if seed_site(hint) == decoded.address && hint.fractional_bits.is_some() {
                scales.put(hint.register, hint.fractional_bits);
            }
            i += 1;
        }
        assert(hints@.take(i as int) =~= hints@);
    }
}

impl<'a> Flow for ScaleFlow<'a> {
    type State = Scales;

    type Log = NoLog;

    open spec fn wf(&self) -> bool {
        &&& self.analysis.wf()
        &&& forall|i: int| 0 <= i < self.hints@.len() ==> (#[trigger] self.hints@[i]).register < 8
    }

    open spec fn keeps(&self, decoded: DecodedView) -> bool {
        true
    }

    open spec fn entered(&self, owner: u32, decoded: DecodedView, state: Seq<Option<u8>>) -> Seq<
        Option<u8>,
    > {
        if decoded.address != owner && self.analysis@.functions.contains(decoded.address) {
            no_scales()
        } else {
            state
        }
    }

    open spec fn noted_entering(
        &self,
        decoded: DecodedView,
        state: Seq<Option<u8>>,
        log: (),
    ) -> () {
        log
    }

    open spec fn transferred(&self, decoded: DecodedView, state: Seq<Option<u8>>) -> Seq<
        Option<u8>,
    > {
        scales_behind(self.hints@, decoded, state)
    }

    open spec fn noted_leaving(&self, decoded: DecodedView, state: Seq<Option<u8>>, log: ()) -> () {
        log
    }

    fn looks_at(&self, decoded: &DecodedInstruction) -> bool {
        true
    }

    fn enter(
        &self,
        owner: u32,
        decoded: &DecodedInstruction,
        state: &mut Scales,
        log: &mut NoLog,
    ) {
        if decoded.address != owner && self.analysis.functions.contains(&decoded.address) {
            *state = Scales::none();
        }
    }

    fn transfer(&self, decoded: &DecodedInstruction, state: &mut Scales, log: &mut NoLog) {
        self.step(decoded, state);
    }
}

/// The scales that reach the instructions of `owner`, unless its flow is
/// unresolved or the walk did not come to rest. Intermediate states of a walk
/// never leave records behind when a later predecessor erases a scale.
pub open spec fn owner_scales(flow: ScaleFlow, view: AnalysisView, owner: u32) -> Map<
    u32,
    Seq<Option<u8>>,
> {
    let (end, exhausted) = outcome(flow, view, owner, Schedule::Ascending, no_scales(), ());
    if spec_owner_has_invalidating_unresolved_flow(view, owner) || exhausted {
        Map::empty()
    } else {
        end.before
    }
}

/// The scale that a register acquires at an instruction, as one owner's walk has
/// it.
pub open spec fn acquired(
    hints: Seq<FixedPointHint>,
    before: Map<u32, Seq<Option<u8>>>,
    decoded: DecodedView,
    register: int,
) -> Option<u8> {
    if before.dom().contains(decoded.address) && decoded.owner_total == decoded.owners.len() {
        let from = before[decoded.address];
        let to = scales_behind(hints, decoded, from);
        if from[register] != to[register] {
            to[register]
        } else {
            None
        }
    } else {
        None
    }
}

/// What the owners of `list` say a register acquires at an instruction: `None`
/// where none of them owns it, `Some(None)` where they disagree or none does.
pub open spec fn tally(
    flow: ScaleFlow,
    view: AnalysisView,
    list: Seq<u32>,
    decoded: DecodedView,
    register: int,
) -> Option<Option<u8>>
    decreases list.len(),
{
    if list.len() == 0 {
        None
    } else {
        let so_far = tally(flow, view, list.drop_last(), decoded, register);
        if decoded.owners.contains(list.last()) {
            let bits = acquired(
                flow.hints@,
                owner_scales(flow, view, list.last()),
                decoded,
                register,
            );
            spec_counted(so_far, bits)
        } else {
            so_far
        }
    }
}

/// One more opinion on a scale.
pub open spec fn spec_counted(so_far: Option<Option<u8>>, bits: Option<u8>) -> Option<Option<u8>> {
    match so_far {
        None => Some(bits),
        Some(held) => if held == bits {
            Some(held)
        } else {
            Some(None)
        },
    }
}

/// One more opinion on a scale.
pub fn counted(so_far: Option<Option<u8>>, bits: Option<u8>) -> (r: Option<Option<u8>>)
    ensures
        r == spec_counted(so_far, bits),
{
    match so_far {
        None => Some(bits),
        Some(held) => if held == bits {
            Some(held)
        } else {
            Some(None)
        },
    }
}

/// The record of a scale that all owners agree on.
pub open spec fn spec_scale_record(site: u32, register: u8, opinion: Option<Option<u8>>) -> Option<FixedPointScale> {
    match opinion {
        Some(Some(fractional_bits)) => Some(FixedPointScale { site, register, fractional_bits }),
        _ => None,
    }
}

/// The record of a scale that all owners agree on.
pub fn scale_record(site: u32, register: u8, opinion: Option<Option<u8>>) -> (r: Option<FixedPointScale>)
    ensures
        r == spec_scale_record(site, register, opinion),
{
    match opinion {
        Some(Some(fractional_bits)) => Some(FixedPointScale { site, register, fractional_bits }),
        _ => None,
    }
}

/// The scales that registers acquire at one instruction.
pub open spec fn instruction_scales(flow: ScaleFlow, view: AnalysisView, decoded: DecodedView) -> Seq<
    FixedPointScale,
> {
    gathered(
        8,
        |register: int|
            spec_scale_record(
                decoded.address,
                register as u8,
                tally(flow, view, in_order(view.functions), decoded, register),
            ),
    )
}

fn walk_scales(flow: &ScaleFlow, owner: u32) -> (r: AddressMap<Scales>)
    requires
        flow.wf(),
    ensures
        r.wf(),
        state_map(r) == owner_scales(*flow, flow.analysis@, owner),
{
    let none: AddressMap<Scales> = AddressMap::new();
    assert(state_map(none) =~= Map::empty());
    if owner_has_invalidating_unresolved_flow(flow.analysis, owner) {
        return none;
    }
    let mut log = NoLog;
    let walked = forward(flow, flow.analysis, owner, Scales::none(), &mut log);
    if walked.exhausted {
        none
    } else {
        walked.before
    }
}

/// Count the opinions of one owner on every register at every instruction it
/// owns.
fn count_owner(flow: &ScaleFlow, owner: u32, opinions: &mut Vec<Option<Option<u8>>>, Ghost(seen): Ghost<Seq<u32>>)
    requires
        flow.wf(),
        old(opinions)@.len() == 8 * flow.analysis.listing().len(),
        forall|i: int, register: int|
            #![trigger flow.analysis.listing()[i], old(opinions)@[8 * i + register]]
            0 <= i < flow.analysis.listing().len() && 0 <= register < 8 ==> old(opinions)@[8 * i
                + register] == tally(
                *flow,
                flow.analysis@,
                seen,
                flow.analysis.listing()[i],
                register,
            ),
    ensures
        final(opinions)@.len() == 8 * flow.analysis.listing().len(),
        forall|i: int, register: int|
            #![trigger flow.analysis.listing()[i], final(opinions)@[8 * i + register]]
            0 <= i < flow.analysis.listing().len() && 0 <= register < 8 ==> final(opinions)@[8 * i
                + register] == tally(
                *flow,
                flow.analysis@,
                seen.push(owner),
                flow.analysis.listing()[i],
                register,
            ),
{
    let analysis = flow.analysis;
    let ghost listing = analysis.listing();
    let ghost more = seen.push(owner);
    let walked = walk_scales(flow, owner);
    proof {
        assert(more.drop_last() =~= seen);
        assert(more.last() == owner);
    }
    let mut i: usize = 0;
    while i < analysis.instructions.values.len()
        invariant
            flow.wf(),
            *analysis == *flow.analysis,
            listing == analysis.listing(),
            listing.len() == analysis.instructions.values@.len(),
            walked.wf(),
            state_map(walked) == owner_scales(*flow, analysis@, owner),
            more == seen.push(owner),
            more.drop_last() == seen,
            more.last() == owner,
            i <= listing.len(),
            opinions@.len() == 8 * listing.len(),
            forall|k: int, register: int|
                #![trigger listing[k], opinions@[8 * k + register]]
                0 <= k < i && 0 <= register < 8 ==> opinions@[8 * k + register] == tally(
                    *flow,
                    analysis@,
                    more,
                    listing[k],
                    register,
                ),
            forall|k: int, register: int|
                #![trigger listing[k], opinions@[8 * k + register]]
                i <= k < listing.len() && 0 <= register < 8 ==> opinions@[8 * k + register]
                    == tally(*flow, analysis@, seen, listing[k], register),
        decreases listing.len() - i,
    {
        let decoded = &analysis.instructions.values[i];
        proof {
            analysis.lemma_listing(i as int);
            decoded.owners.lemma_len();
        }
        if decoded.owners.contains(&owner) {
            let before: Option<Scales> = match walked.find(decoded.address) {
                Some(at) => if decoded.owner_total == decoded.owners.len() {
                    Some(walked.values[at])
                } else {
                    None
                },
                None => None,
            };
            let mut after = Scales::none();
            if let Some(from) = before {
                after = from;
                flow.step(decoded, &mut after);
            }
            let ghost so_far = opinions@;
            proof {
                assert forall|n: int| 8 * i <= n < 8 * i + 8 implies #[trigger] so_far[n] == tally(
                    *flow,
                    analysis@,
                    seen,
                    listing[i as int],
                    n - 8 * i,
                ) by {
                    let r = n - 8 * i;
                    assert(listing[i as int] == listing[i as int]);
                    assert(opinions@[8 * i + r] == so_far[n]);
                }
            }
            let mut register: usize = 0;
            while register < 8
                invariant
                    flow.wf(),
                    *analysis == *flow.analysis,
                    i < listing.len(),
                    opinions@.len() == 8 * listing.len(),
                    so_far.len() == 8 * listing.len(),
                    register <= 8,
                    decoded@ == listing[i as int],
                    decoded@.owners.contains(owner),
                    more.drop_last() == seen,
                    more.last() == owner,
                    more.len() > 0,
                    state_map(walked) == owner_scales(*flow, analysis@, owner),
                    before matches Some(from) ==> {
                        &&& state_map(walked).dom().contains(decoded.address)
                        &&& state_map(walked)[decoded.address] == from@
                        &&& decoded@.owner_total == decoded@.owners.len()
                        &&& after@ == scales_behind(flow.hints@, decoded@, from@)
                    },
                    before is None ==> !state_map(walked).dom().contains(decoded.address)
                        || decoded@.owner_total != decoded@.owners.len(),
                    forall|n: int|
                        0 <= n < so_far.len() && !(8 * i <= n < 8 * i + register)
                            ==> opinions@[n] == so_far[n],
                    forall|n: int|
                        8 * i <= n < 8 * i + 8 ==> #[trigger] so_far[n] == tally(
                            *flow,
                            analysis@,
                            seen,
                            listing[i as int],
                            n - 8 * i,
                        ),
                    forall|n: int|
                        8 * i <= n < 8 * i + register ==> #[trigger] opinions@[n] == tally(
                            *flow,
                            analysis@,
                            more,
                            listing[i as int],
                            n - 8 * i,
                        ),
                decreases 8 - register,
            {
                let total: usize = opinions.len();
                assert(8 * i + register < total);
                let at: usize = i * 8 + register;
                let bits: Option<u8> = match before {
                    Some(from) => if from.0[register] != after.0[register] {
                        after.0[register]
                    } else {
                        None
                    },
                    None => None,
                };
                assert(so_far[at as int] == opinions@[at as int]);
                assert(bits == acquired(
                    flow.hints@,
                    owner_scales(*flow, analysis@, owner),
                    decoded@,
                    register as int,
                ));
                let opinion = counted(opinions[at], bits);
                opinions.set(at, opinion);
                register += 1;
            }
            proof {
                assert forall|k: int, r: int|
                    #![trigger listing[k], opinions@[8 * k + r]]
                    0 <= k < i + 1 && 0 <= r < 8 implies opinions@[8 * k + r] == tally(
                    *flow,
                    analysis@,
                    more,
                    listing[k],
                    r,
                ) by {
                    if k < i {
                        assert(opinions@[8 * k + r] == so_far[8 * k + r]);
                    }
                }
                assert forall|k: int, r: int|
                    #![trigger listing[k], opinions@[8 * k + r]]
                    i + 1 <= k < listing.len() && 0 <= r < 8 implies opinions@[8 * k + r] == tally(
                    *flow,
                    analysis@,
                    seen,
                    listing[k],
                    r,
                ) by {
                    assert(opinions@[8 * k + r] == so_far[8 * k + r]);
                }
            }
        }
        i += 1;
    }
}

/// Propagate Q scales seeded by recognised multiply/divide idioms through data
/// register copies and immediate arithmetic/logical shifts within each function.
pub fn fixed_point_scales(analysis: &ControlFlowAnalysis) -> (r: Vec<FixedPointScale>)
    requires
        analysis.wf(),
    ensures
        exists|hints: Vec<FixedPointHint>|
            #![trigger hints@]
            hints@ == hints_of(analysis@) && r@ == analysis@.listing().flat_map(
                |decoded: DecodedView|
                    instruction_scales(ScaleFlow { analysis, hints: &hints }, analysis@, decoded),
            ),
{
    let hints = fixed_point_hints(analysis);
    let flow = ScaleFlow { analysis, hints: &hints };
    let ghost listing = analysis.listing();
    let ghost functions = analysis.functions.items@;
    let mut opinions: Vec<Option<Option<u8>>> = Vec::new();
    let mut n: usize = 0;
    while n < analysis.instructions.values.len()
        invariant
            listing == analysis.listing(),
            listing.len() == analysis.instructions.values@.len(),
            n <= listing.len(),
            opinions@.len() == 8 * n,
            forall|k: int| 0 <= k < opinions@.len() ==> (#[trigger] opinions@[k]) is None,
        decreases listing.len() - n,
    {
        opinions.push(None);
        opinions.push(None);
        opinions.push(None);
        opinions.push(None);
        opinions.push(None);
        opinions.push(None);
        opinions.push(None);
        opinions.push(None);
        n += 1;
    }
    let mut f: usize = 0;
    while f < analysis.functions.items.len()
        invariant
            analysis.wf(),
            flow.wf(),
            *flow.analysis == *analysis,
            functions == analysis.functions.items@,
            f <= functions.len(),
            opinions@.len() == 8 * analysis.listing().len(),
            forall|i: int, register: int|
                #![trigger analysis.listing()[i], opinions@[8 * i + register]]
                0 <= i < analysis.listing().len() && 0 <= register < 8 ==> opinions@[8 * i
                    + register] == tally(
                    flow,
                    analysis@,
                    functions.take(f as int),
                    analysis.listing()[i],
                    register,
                ),
        decreases functions.len() - f,
    {
        count_owner(
            &flow,
            analysis.functions.items[f],
            &mut opinions,
            Ghost(functions.take(f as int)),
        );
        proof {
            assert(functions.take(f as int).push(functions[f as int]) =~= functions.take(f + 1));
        }
        f += 1;
    }
    proof {
        assert(functions.take(f as int) =~= functions);
        lemma_in_order(functions);
        analysis.lemma_listing_view();
    }
    let mut found: Vec<FixedPointScale> = Vec::new();
    let ghost each = |decoded: DecodedView| instruction_scales(flow, analysis@, decoded);
    let mut i: usize = 0;
    assert(listing.take(0).flat_map(each) =~= Seq::empty());
    while i < analysis.instructions.values.len()
        invariant
            analysis.wf(),
            listing == analysis.listing(),
            listing.len() == analysis.instructions.values@.len(),
            functions == in_order(analysis@.functions),
            i <= listing.len(),
            opinions@.len() == 8 * listing.len(),
            forall|i: int, register: int|
                #![trigger listing[i], opinions@[8 * i + register]]
                0 <= i < listing.len() && 0 <= register < 8 ==> opinions@[8 * i + register]
                    == tally(flow, analysis@, functions, listing[i], register),
            each == (|decoded: DecodedView| instruction_scales(flow, analysis@, decoded)),
            found@ == listing.take(i as int).flat_map(each),
        decreases listing.len() - i,
    {
        let site: u32 = analysis.instructions.values[i].address;
        let ghost decoded = listing[i as int];
        let ghost record = |register: int|
            spec_scale_record(
                decoded.address,
                register as u8,
                tally(flow, analysis@, functions, decoded, register),
            );
        proof {
            analysis.lemma_listing(i as int);
            listing.lemma_flat_map_take_append(each, i as int);
        }
        let ghost earlier = found@;
        let mut register: usize = 0;
        assert(found@ =~= earlier + gathered(0, record));
        while register < 8
            invariant
                i < listing.len(),
                decoded == listing[i as int],
                site == decoded.address,
                register <= 8,
                opinions@.len() == 8 * listing.len(),
                forall|r: int|
                    #![trigger opinions@[8 * i + r]]
                    0 <= r < 8 ==> opinions@[8 * i + r] == tally(
                        flow,
                        analysis@,
                        functions,
                        decoded,
                        r,
                    ),
                record == (|register: int|
                    spec_scale_record(
                        decoded.address,
                        register as u8,
                        tally(flow, analysis@, functions, decoded, register),
                    )),
                found@ == earlier + gathered(register as int, record),
            decreases 8 - register,
        {
            let total: usize = opinions.len();
            assert(8 * i + register < total);
            let at: usize = i * 8 + register;
            assert(opinions@[8 * i + register] == opinions@[at as int]);
            if let Some(scale) = scale_record(site, register as u8, opinions[at]) {
                found.push(scale);
            }
            register += 1;
            assert(found@ =~= earlier + gathered(register as int, record));
        }
        i += 1;
    }
    assert(listing.take(i as int) =~= listing);
    assert(hints@ == hints_of(analysis@));
    found
}

/// Whether an operand form is one that an encoding can have: a shift of memory and a
/// register list name memory, and arithmetic has one of its two directions.
pub open spec fn is_encodable(operands: Operands) -> bool {
    match operands {
        Operands::DirectionEffectiveAddress(_, mode) => !(mode is Drd),
        Operands::DirectionSizeEffectiveAddressList(_, _, mode, _) => !(mode is Drd),
        Operands::RegisterDirectionSizeEffectiveAddress(_, direction, _, _) => direction
            == Direction::DstReg || direction == Direction::DstEa,
        _ => true,
    }
}

/// Whether an instruction says what it does to the binary point of a register that it
/// writes: a copy, an exchange, a sum of values of one scale, a shift by a known amount,
/// and a sign extension.
pub open spec fn states_scale(isa: Isa, operands: Operands, scales: Seq<Option<u8>>) -> bool {
    match operands {
        Operands::SizeEffectiveAddressEffectiveAddress(_, destination, source) => destination is Drd
            && source is Drd,
        Operands::RegisterOpmodeRegister(_, mode, _) => mode == Direction::ExchangeData,
        Operands::RegisterDirectionSizeEffectiveAddress(register, _, _, AddressingMode::Drd(other)) =>
        scales[register as int] == scales[other as int],
        Operands::RotationDirectionSizeModeRegister(_, _, _, _, _) => spec_scaling_shift(
            isa,
            operands,
        ) matches Some(shift) && shift.amount is Some,
        Operands::OpmodeRegister(_, _) => true,
        _ => false,
    }
}

/// No stale scale is kept: a data register that an instruction writes has no scale behind
/// it, unless the instruction says what it does to the binary point. `CHK` and `CMP` are
/// left out, which name a register only to read it.
pub proof fn stale_scales_are_lost(
    instruction: Instruction,
    scales: Seq<Option<u8>>,
    register: u8,
)
    requires
        scales.len() == 8,
        register < 8,
        instruction.operands.in_range(),
        is_encodable(instruction.operands),
        instruction.isa.takes(instruction.operands),
        instruction.isa != Isa::Chk,
        instruction.isa != Isa::Cmp,
        operands_write(instruction, register),
    ensures
        operand_scales(instruction.isa, instruction.operands, scales)[register as int] is None
            || states_scale(instruction.isa, instruction.operands, scales),
{
}

} // verus!
