//! Stack depth and frames of one function.

use crate::analysis::{AnalysisView, ControlFlowAnalysis};
use crate::collections::{in_order, lemma_in_order, AddressMap, OrderedSet, Ranked};
use crate::dataflow::{ForwardResult, forward, outcome, state_map, states_wf, Domain, Flow, Schedule};
use crate::decoded::{DecodedInstruction, DecodedView};
use crate::derived::{listed, spec_listed};
use crate::effects::{lanes_of, register_effects, spec_lanes_of, spec_register_effects};
use crate::fixpoint::only_loses_precision;
use crate::globals::{
    both, operand_accesses, spec_operand_accesses, AccessKind, OperandAccess,
};
use crate::m68k::{AddressingMode, Direction, Instruction, Isa, Operands, Size};
use crate::register_write::{bits_below, spec_bits_below};
use vstd::prelude::*;

verus! {

/// How a function establishes its stack frame.
#[derive(Clone, Copy, Debug, PartialEq, Eq, Structural)]
pub enum FrameStyle {
    /// `LINK An,#-n`, normally with `UNLK An` on return.
    Link { register: u8, local_bytes: u32 },
    /// An explicit decrement of A7 without `LINK`.
    StackPointer { local_bytes: u32 },
    /// Different bounded paths establish different A7 depths. The maximum
    /// local allocation is known, but a slot after a divergent join is not.
    PathDependent { maximum_local_bytes: u32 },
    /// A dynamic A7 write, an unbalanced return, or an exhausted walk prevents
    /// a bounded frame description.
    Unknown,
    /// No local stack allocation was recognized.
    Frameless,
}

/// Return instruction shape shared by every return, `Mixed` when paths
/// disagree, `Never` when there is none.
#[derive(Clone, Copy, Debug, PartialEq, Eq, Structural)]
pub enum FunctionReturn {
    Never,
    Rts,
    Rte,
    Rtr,
    Mixed,
}

/// Whether one stack slot is a caller argument or a local allocation.
#[derive(Clone, Copy, Debug, PartialEq, Eq, Structural)]
pub enum StackSlotKind {
    Argument,
    Local,
}

/// One stack or frame-pointer-relative slot used by a function.
#[derive(Clone, Copy, Debug, PartialEq, Eq, Structural)]
pub struct StackSlot {
    pub kind: StackSlotKind,
    /// Offset in the entry frame: arguments are measured from the stack pointer at
    /// entry, where the return address lies, locals from the established frame
    /// base.
    pub offset: i32,
    pub size: Option<u8>,
    pub access: AccessKind,
}

/// The position of a kind of slot in its declaration.
pub open spec fn spec_slot_rank(kind: StackSlotKind) -> u8 {
    match kind {
        StackSlotKind::Argument => 0,
        StackSlotKind::Local => 1,
    }
}

/// The position of a kind of slot in its declaration.
pub fn slot_rank(kind: StackSlotKind) -> (r: u8)
    ensures
        r == spec_slot_rank(kind),
{
    match kind {
        StackSlotKind::Argument => 0,
        StackSlotKind::Local => 1,
    }
}

/// The position of a size among all sizes: none at all comes first.
pub open spec fn spec_size_rank(size: Option<u8>) -> u16 {
    match size {
        None => 0,
        Some(size) => (size as u16 + 1) as u16,
    }
}

/// The position of a size among all sizes: none at all comes first.
pub fn size_rank(size: Option<u8>) -> (r: u16)
    ensures
        r == spec_size_rank(size),
{
    match size {
        None => 0,
        Some(size) => (size as u16 + 1) as u16,
    }
}

/// The position of a kind of access in its declaration.
pub open spec fn spec_access_rank(access: AccessKind) -> u8 {
    match access {
        AccessKind::Read => 0,
        AccessKind::Write => 1,
        AccessKind::Modify => 2,
        AccessKind::Address => 3,
        AccessKind::Other => 4,
    }
}

/// The position of a kind of access in its declaration.
pub fn access_rank(access: AccessKind) -> (r: u8)
    ensures
        r == spec_access_rank(access),
{
    match access {
        AccessKind::Read => 0,
        AccessKind::Write => 1,
        AccessKind::Modify => 2,
        AccessKind::Address => 3,
        AccessKind::Other => 4,
    }
}

impl Ranked for StackSlot {
    open spec fn before(self, other: Self) -> bool {
        spec_slot_rank(self.kind) < spec_slot_rank(other.kind) || self.kind == other.kind && (
        self.offset < other.offset || self.offset == other.offset && (spec_size_rank(self.size)
            < spec_size_rank(other.size) || self.size == other.size && spec_access_rank(self.access)
            < spec_access_rank(other.access)))
    }

    proof fn never_before_itself(x: Self) {
    }

    proof fn chains(x: Self, y: Self, z: Self) {
    }

    proof fn compares(x: Self, y: Self) {
    }

    fn is_before(&self, other: &Self) -> bool {
        slot_rank(self.kind) < slot_rank(other.kind) || self.kind == other.kind && (self.offset
            < other.offset || self.offset == other.offset && (size_rank(self.size) < size_rank(
            other.size,
        ) || size_rank(self.size) == size_rank(other.size) && access_rank(self.access)
            < access_rank(other.access)))
    }
}

/// What a `LINK` found, which its matching `UNLK` restores.
#[derive(Clone, Copy, Debug, PartialEq, Eq, Structural)]
pub struct LinkState {
    pub register: u8,
    pub depth: i32,
    pub locals: i32,
}

/// Where A7 is.
#[derive(Clone, Copy, Debug, PartialEq, Eq, Structural)]
pub struct StackPosition {
    /// Bytes below A7 at function entry. Positive values grow downward.
    pub depth: i32,
    /// Bytes reserved explicitly for locals, excluding saved registers and
    /// transient pushes.
    pub locals: i32,
    /// Greatest local allocation seen on this path.
    pub peak_locals: i32,
    /// Paths with equal current coordinates reached them through different
    /// maximum allocations.
    pub path_dependent_frame: bool,
    /// A `LINK` restores these coordinates at its matching `UNLK`.
    pub link: Option<LinkState>,
}

/// What is known of A7.
#[derive(Clone, Copy, Debug, PartialEq, Eq, Structural)]
pub enum StackDepth {
    Exact(StackPosition),
    /// Two bounded incoming paths disagree.
    PathDependent,
    /// A dynamic write or arithmetic overflow destroyed the coordinate.
    Unknown,
}

impl View for StackDepth {
    type V = StackDepth;

    open spec fn view(&self) -> StackDepth {
        *self
    }
}

/// The same `LINK`, or none on both sides.
pub open spec fn spec_same_link(left: Option<LinkState>, right: Option<LinkState>) -> bool {
    match (left, right) {
        (None, None) => true,
        (Some(left), Some(right)) => left == right,
        _ => false,
    }
}

/// The same `LINK`, or none on both sides.
pub fn same_link(left: Option<LinkState>, right: Option<LinkState>) -> (r: bool)
    ensures
        r == spec_same_link(left, right),
{
    match (left, right) {
        (None, None) => true,
        (Some(left), Some(right)) => left == right,
        _ => false,
    }
}

/// The greater of two numbers.
pub open spec fn spec_greater(left: i32, right: i32) -> i32 {
    if left >= right {
        left
    } else {
        right
    }
}

/// The greater of two numbers.
pub fn greater(left: i32, right: i32) -> (r: i32)
    ensures
        r == spec_greater(left, right),
{
    if left >= right {
        left
    } else {
        right
    }
}

/// What is known of A7 where two paths meet.
pub open spec fn spec_meet(left: StackDepth, right: StackDepth) -> StackDepth {
    match (left, right) {
        (StackDepth::Exact(left), StackDepth::Exact(right)) => if left.depth == right.depth
            && left.locals == right.locals && spec_same_link(left.link, right.link) {
            StackDepth::Exact(
                StackPosition {
                    depth: left.depth,
                    locals: left.locals,
                    peak_locals: spec_greater(left.peak_locals, right.peak_locals),
                    path_dependent_frame: left.path_dependent_frame || right.path_dependent_frame
                        || left.peak_locals != right.peak_locals,
                    link: left.link,
                },
            )
        } else {
            StackDepth::PathDependent
        },
        (StackDepth::Unknown, _) => StackDepth::Unknown,
        (_, StackDepth::Unknown) => StackDepth::Unknown,
        _ => StackDepth::PathDependent,
    }
}

/// What is known of A7 where two paths meet.
pub fn meet(left: StackDepth, right: StackDepth) -> (r: StackDepth)
    ensures
        r == spec_meet(left, right),
{
    match (left, right) {
        (StackDepth::Exact(left), StackDepth::Exact(right)) => if left.depth == right.depth
            && left.locals == right.locals && same_link(left.link, right.link) {
            StackDepth::Exact(
                StackPosition {
                    depth: left.depth,
                    locals: left.locals,
                    peak_locals: greater(left.peak_locals, right.peak_locals),
                    path_dependent_frame: left.path_dependent_frame || right.path_dependent_frame
                        || left.peak_locals != right.peak_locals,
                    link: left.link,
                },
            )
        } else {
            StackDepth::PathDependent
        },
        (StackDepth::Unknown, _) => StackDepth::Unknown,
        (_, StackDepth::Unknown) => StackDepth::Unknown,
        _ => StackDepth::PathDependent,
    }
}

/// Whether two depths are the same.
pub open spec fn spec_same_depth(left: StackDepth, right: StackDepth) -> bool {
    match (left, right) {
        (StackDepth::Exact(left), StackDepth::Exact(right)) => left.depth == right.depth
            && left.locals == right.locals && left.peak_locals == right.peak_locals
            && left.path_dependent_frame == right.path_dependent_frame && spec_same_link(
            left.link,
            right.link,
        ),
        (StackDepth::PathDependent, StackDepth::PathDependent) => true,
        (StackDepth::Unknown, StackDepth::Unknown) => true,
        _ => false,
    }
}

/// Whether two depths are the same.
pub fn same_depth(left: StackDepth, right: StackDepth) -> (r: bool)
    ensures
        r == spec_same_depth(left, right),
{
    match (left, right) {
        (StackDepth::Exact(left), StackDepth::Exact(right)) => left.depth == right.depth
            && left.locals == right.locals && left.peak_locals == right.peak_locals
            && left.path_dependent_frame == right.path_dependent_frame && same_link(
            left.link,
            right.link,
        ),
        (StackDepth::PathDependent, StackDepth::PathDependent) => true,
        (StackDepth::Unknown, StackDepth::Unknown) => true,
        _ => false,
    }
}

impl Domain for StackDepth {
    open spec fn wf(&self) -> bool {
        true
    }

    open spec fn joined(stored: StackDepth, incoming: StackDepth) -> (StackDepth, bool) {
        (spec_meet(stored, incoming), spec_meet(stored, incoming) != stored)
    }

    fn join(&mut self, incoming: &Self) -> (r: bool) {
        let joined = meet(*self, *incoming);
        let changed = !same_depth(joined, *self);
        *self = joined;
        changed
    }

    fn duplicate(&self) -> (r: Self) {
        *self
    }
}

/// Meeting depths only loses precision, so a walk that comes to rest is at a
/// fixpoint.
pub proof fn depth_join_only_loses_precision()
    ensures
        only_loses_precision::<StackDepth>(),
{
}

/// How an instruction moves A7.
#[derive(Clone, Copy, Debug, PartialEq, Eq, Structural)]
pub enum StackAdjustment {
    Unchanged,
    Adjust { depth: i32, locals: i32 },
    Link { register: u8, displacement: i16 },
    Unlink { register: u8 },
    Unknown,
}

/// An immediate of address arithmetic as a signed number.
pub open spec fn spec_signed_immediate(size: Size, value: u32) -> Option<i32> {
    match size {
        Size::Word => Some(value as u16 as i16 as i32),
        Size::Long => Some(value as i32),
        Size::Byte => None,
    }
}

/// An immediate of address arithmetic as a signed number.
pub fn signed_immediate(size: Size, value: u32) -> (r: Option<i32>)
    ensures
        r == spec_signed_immediate(size, value),
{
    match size {
        Size::Word => Some(value as u16 as i16 as i32),
        Size::Long => Some(value as i32),
        Size::Byte => None,
    }
}

/// An allocation of `bytes` on the stack.
pub open spec fn spec_allocation(bytes: i32) -> StackAdjustment {
    StackAdjustment::Adjust { depth: bytes, locals: bytes }
}

/// An allocation of `bytes` on the stack.
pub fn allocation(bytes: i32) -> (r: StackAdjustment)
    ensures
        r == spec_allocation(bytes),
{
    StackAdjustment::Adjust { depth: bytes, locals: bytes }
}

/// How ADDA and SUBA of an immediate move A7.
pub open spec fn spec_immediate_adjustment(isa: Isa, size: Size, value: u32) -> StackAdjustment {
    match spec_signed_immediate(size, value) {
        Some(value) => if isa == Isa::Suba {
            spec_allocation(value)
        } else if value == i32::MIN {
            StackAdjustment::Unknown
        } else {
            spec_allocation((0 - value) as i32)
        },
        None => StackAdjustment::Unknown,
    }
}

/// How ADDA and SUBA of an immediate move A7.
pub fn immediate_adjustment(isa: Isa, size: Size, value: u32) -> (r: StackAdjustment)
    ensures
        r == spec_immediate_adjustment(isa, size, value),
{
    match signed_immediate(size, value) {
        Some(value) => if isa == Isa::Suba {
            allocation(value)
        } else if value == i32::MIN {
            StackAdjustment::Unknown
        } else {
            allocation((0 - value) as i32)
        },
        None => StackAdjustment::Unknown,
    }
}

/// How ADDQ and SUBQ move A7.
pub open spec fn spec_quick_adjustment(isa: Isa, value: u8) -> StackAdjustment {
    let amount: i32 = if value == 0 {
        8
    } else {
        value as i32
    };
    if isa == Isa::Subq {
        spec_allocation(amount)
    } else {
        spec_allocation((0 - amount) as i32)
    }
}

/// How ADDQ and SUBQ move A7.
pub fn quick_adjustment(isa: Isa, value: u8) -> (r: StackAdjustment)
    ensures
        r == spec_quick_adjustment(isa, value),
{
    let amount: i32 = if value == 0 {
        8
    } else {
        value as i32
    };
    if isa == Isa::Subq {
        allocation(amount)
    } else {
        allocation((0 - amount) as i32)
    }
}

/// The bytes that a number of registers take.
pub open spec fn spec_list_bytes(size: Size, count: u32) -> i32 {
    match size {
        Size::Byte => count as i32,
        Size::Word => (count * 2) as i32,
        Size::Long => (count * 4) as i32,
    }
}

/// The bytes that a number of registers take.
pub fn list_bytes(size: Size, count: u32) -> (r: i32)
    requires
        count <= 16,
    ensures
        r == spec_list_bytes(size, count),
        0 <= r <= 64,
{
    match size {
        Size::Byte => count as i32,
        Size::Word => (count * 2) as i32,
        Size::Long => (count * 4) as i32,
    }
}

/// How a `MOVEM` through A7 moves it. A7 itself must not be loaded.
pub open spec fn spec_movem_adjustment(direction: Direction, size: Size, list: u16) -> StackAdjustment {
    if direction == Direction::MemoryToRegister && spec_listed(list, 15) {
        StackAdjustment::Unknown
    } else {
        let bytes: i32 = spec_list_bytes(size, spec_bits_below(list, 16));
        StackAdjustment::Adjust {
            depth: if direction == Direction::RegisterToMemory {
                bytes
            } else {
                (0 - bytes) as i32
            },
            locals: 0,
        }
    }
}

/// How a `MOVEM` through A7 moves it. A7 itself must not be loaded.
pub fn movem_adjustment(direction: Direction, size: Size, list: u16) -> (r: StackAdjustment)
    ensures
        r == spec_movem_adjustment(direction, size, list),
{
    if direction == Direction::MemoryToRegister && listed(list, 15) {
        StackAdjustment::Unknown
    } else {
        let bytes: i32 = list_bytes(size, bits_below(list, 16));
        StackAdjustment::Adjust {
            depth: if direction == Direction::RegisterToMemory {
                bytes
            } else {
                (0 - bytes) as i32
            },
            locals: 0,
        }
    }
}

/// How the instructions that reserve and release stack space move A7.
pub open spec fn spec_explicit_adjustment(instruction: Instruction) -> Option<StackAdjustment> {
    let isa = instruction.isa;
    match instruction.operands {
        Operands::RegisterDisplacement(register, displacement) => if isa == Isa::Link {
            Some(StackAdjustment::Link { register, displacement })
        } else {
            None
        },
        Operands::Register(register) => if isa == Isa::Unlk {
            Some(StackAdjustment::Unlink { register })
        } else {
            None
        },
        Operands::RegisterSizeEffectiveAddress(
            register,
            size,
            AddressingMode::Immediate(value),
        ) => if register == 7 && matches!(isa, Isa::Adda | Isa::Suba) {
            Some(spec_immediate_adjustment(isa, size, value))
        } else {
            None
        },
        Operands::DataSizeEffectiveAddress(value, _, AddressingMode::Ard(register)) => if register
            == 7 && matches!(isa, Isa::Addq | Isa::Subq) {
            Some(spec_quick_adjustment(isa, value))
        } else {
            None
        },
        Operands::RegisterEffectiveAddress(register, AddressingMode::Ariwd(base, displacement)) =>
        if register == 7 && base == 7 && isa == Isa::Lea {
            Some(spec_allocation((0 - displacement as i32) as i32))
        } else {
            None
        },
        Operands::DirectionSizeEffectiveAddressList(
            direction,
            size,
            AddressingMode::Ariwpr(base),
            list,
        ) => if base == 7 {
            Some(spec_movem_adjustment(direction, size, list))
        } else {
            None
        },
        Operands::DirectionSizeEffectiveAddressList(
            direction,
            size,
            AddressingMode::Ariwpo(base),
            list,
        ) => if base == 7 {
            Some(spec_movem_adjustment(direction, size, list))
        } else {
            None
        },
        _ => if isa == Isa::Pea {
            Some(StackAdjustment::Adjust { depth: 4, locals: 0 })
        } else {
            None
        },
    }
}

/// How the instructions that reserve and release stack space move A7.
pub fn explicit_adjustment(instruction: Instruction) -> (r: Option<StackAdjustment>)
    ensures
        r == spec_explicit_adjustment(instruction),
{
    let isa = instruction.isa;
    match instruction.operands {
        Operands::RegisterDisplacement(register, displacement) => if isa == Isa::Link {
            Some(StackAdjustment::Link { register, displacement })
        } else {
            None
        },
        Operands::Register(register) => if isa == Isa::Unlk {
            Some(StackAdjustment::Unlink { register })
        } else {
            None
        },
        Operands::RegisterSizeEffectiveAddress(
            register,
            size,
            AddressingMode::Immediate(value),
        ) => if register == 7 && matches!(isa, Isa::Adda | Isa::Suba) {
            Some(immediate_adjustment(isa, size, value))
        } else {
            None
        },
        Operands::DataSizeEffectiveAddress(value, _, AddressingMode::Ard(register)) => if register
            == 7 && matches!(isa, Isa::Addq | Isa::Subq) {
            Some(quick_adjustment(isa, value))
        } else {
            None
        },
        Operands::RegisterEffectiveAddress(register, AddressingMode::Ariwd(base, displacement)) =>
        if register == 7 && base == 7 && isa == Isa::Lea {
            Some(allocation((0 - displacement as i32) as i32))
        } else {
            None
        },
        Operands::DirectionSizeEffectiveAddressList(
            direction,
            size,
            AddressingMode::Ariwpr(base),
            list,
        ) => if base == 7 {
            Some(movem_adjustment(direction, size, list))
        } else {
            None
        },
        Operands::DirectionSizeEffectiveAddressList(
            direction,
            size,
            AddressingMode::Ariwpo(base),
            list,
        ) => if base == 7 {
            Some(movem_adjustment(direction, size, list))
        } else {
            None
        },
        _ => if isa == Isa::Pea {
            Some(StackAdjustment::Adjust { depth: 4, locals: 0 })
        } else {
            None
        },
    }
}

/// Whether an instruction writes A7 with a value that is not followed.
pub open spec fn spec_unmodeled_stack_pointer_write(isa: Isa, operands: Operands) -> bool {
    match operands {
        Operands::SizeRegisterEffectiveAddress(_, register, _) => register == 7,
        Operands::RegisterEffectiveAddress(register, _) => register == 7 && isa == Isa::Lea,
        Operands::RegisterSizeEffectiveAddress(register, _, _) => register == 7 && isa
            != Isa::Cmpa,
        Operands::DirectionRegister(direction, register) => direction == Direction::UspToRegister
            && register == 7,
        Operands::RegisterOpmodeRegister(left, direction, right) => direction
            == Direction::ExchangeAddress && (left == 7 || right == 7) || direction
            == Direction::ExchangeDataAddress && right == 7,
        _ => false,
    }
}

/// Whether an instruction writes A7 with a value that is not followed.
pub fn unmodeled_stack_pointer_write(isa: Isa, operands: Operands) -> (r: bool)
    ensures
        r == spec_unmodeled_stack_pointer_write(isa, operands),
{
    match operands {
        Operands::SizeRegisterEffectiveAddress(_, register, _) => register == 7,
        Operands::RegisterEffectiveAddress(register, _) => register == 7 && isa == Isa::Lea,
        Operands::RegisterSizeEffectiveAddress(register, _, _) => register == 7 && isa
            != Isa::Cmpa,
        Operands::DirectionRegister(direction, register) => direction == Direction::UspToRegister
            && register == 7,
        Operands::RegisterOpmodeRegister(left, direction, right) => direction
            == Direction::ExchangeAddress && (left == 7 || right == 7) || direction
            == Direction::ExchangeDataAddress && right == 7,
        _ => false,
    }
}

/// The bytes by which an access of a size moves A7: a byte moves it by two.
pub open spec fn spec_stack_increment(size: Option<u8>) -> Option<i32> {
    match size {
        Some(size) => if size == 1 || size == 2 {
            Some(2)
        } else if size == 4 {
            Some(4)
        } else {
            None
        },
        None => None,
    }
}

/// The bytes by which an access of a size moves A7: a byte moves it by two.
pub fn stack_increment(size: Option<u8>) -> (r: Option<i32>)
    ensures
        r == spec_stack_increment(size),
        r matches Some(bytes) ==> 0 <= bytes <= 4,
{
    match size {
        Some(size) => if size == 1 || size == 2 {
            Some(2)
        } else if size == 4 {
            Some(4)
        } else {
            None
        },
        None => None,
    }
}

/// How a memory operand moves A7: `None` where it does not, `Some(None)` where
/// the distance is not known.
pub open spec fn spec_operand_step(access: Option<OperandAccess>) -> Option<Option<i32>> {
    match access {
        None => None,
        Some(access) => match access.mode {
            AddressingMode::Ariwpr(base) => if base == 7 {
                Some(spec_stack_increment(access.size))
            } else {
                None
            },
            AddressingMode::Ariwpo(base) => if base == 7 {
                match spec_stack_increment(access.size) {
                    Some(bytes) => Some(Some((0 - bytes) as i32)),
                    None => Some(None),
                }
            } else {
                None
            },
            _ => None,
        },
    }
}

/// How a memory operand moves A7: `None` where it does not, `Some(None)` where
/// the distance is not known.
pub fn operand_step(access: Option<OperandAccess>) -> (r: Option<Option<i32>>)
    ensures
        r == spec_operand_step(access),
        r matches Some(Some(depth)) ==> -4 <= depth <= 4,
{
    match access {
        None => None,
        Some(access) => match access.mode {
            AddressingMode::Ariwpr(base) => if base == 7 {
                Some(stack_increment(access.size))
            } else {
                None
            },
            AddressingMode::Ariwpo(base) => if base == 7 {
                match stack_increment(access.size) {
                    Some(bytes) => Some(Some((0 - bytes) as i32)),
                    None => Some(None),
                }
            } else {
                None
            },
            _ => None,
        },
    }
}

/// How the memory operands of an instruction move A7.
pub open spec fn spec_operand_adjustment(isa: Isa, operands: Operands) -> Option<StackAdjustment> {
    let accesses = spec_operand_accesses(isa, operands);
    match (spec_operand_step(accesses.first), spec_operand_step(accesses.second)) {
        (None, None) => None,
        (Some(Some(depth)), None) => Some(StackAdjustment::Adjust { depth, locals: 0 }),
        (None, Some(Some(depth))) => Some(StackAdjustment::Adjust { depth, locals: 0 }),
        (Some(Some(first)), Some(Some(second))) => Some(
            StackAdjustment::Adjust { depth: (first + second) as i32, locals: 0 },
        ),
        _ => Some(StackAdjustment::Unknown),
    }
}

/// How the memory operands of an instruction move A7.
pub fn operand_adjustment(isa: Isa, operands: Operands) -> (r: Option<StackAdjustment>)
    ensures
        r == spec_operand_adjustment(isa, operands),
{
    let accesses = operand_accesses(isa, operands);
    match (operand_step(accesses.first), operand_step(accesses.second)) {
        (None, None) => None,
        (Some(Some(depth)), None) => Some(StackAdjustment::Adjust { depth, locals: 0 }),
        (None, Some(Some(depth))) => Some(StackAdjustment::Adjust { depth, locals: 0 }),
        (Some(Some(first)), Some(Some(second))) => Some(
            StackAdjustment::Adjust { depth: (first + second) as i32, locals: 0 },
        ),
        _ => Some(StackAdjustment::Unknown),
    }
}

/// How an instruction moves A7.
pub open spec fn spec_stack_adjustment(decoded: DecodedView) -> StackAdjustment {
    let loaded = match decoded.movec_destination() {
        Some((address, register)) => address && register == 7,
        None => false,
    };
    if loaded {
        StackAdjustment::Unknown
    } else {
        match spec_explicit_adjustment(decoded.instruction) {
            Some(adjustment) => adjustment,
            None => if spec_unmodeled_stack_pointer_write(
                decoded.instruction.isa,
                decoded.instruction.operands,
            ) {
                StackAdjustment::Unknown
            } else {
                match spec_operand_adjustment(decoded.instruction.isa, decoded.instruction.operands) {
                    Some(adjustment) => adjustment,
                    None => if spec_lanes_of(spec_register_effects(decoded.instruction).writes, 15) != 0 {
                        StackAdjustment::Unknown
                    } else {
                        StackAdjustment::Unchanged
                    },
                }
            },
        }
    }
}

/// How an instruction moves A7.
pub fn stack_adjustment(decoded: &DecodedInstruction) -> (r: StackAdjustment)
    requires
        decoded.wf(),
    ensures
        r == spec_stack_adjustment(decoded@),
{
    let loaded = match decoded.movec_destination() {
        Some((address, register)) => address && register == 7,
        None => false,
    };
    if loaded {
        StackAdjustment::Unknown
    } else {
        match explicit_adjustment(decoded.instruction) {
            Some(adjustment) => adjustment,
            None => if unmodeled_stack_pointer_write(
                decoded.instruction.isa,
                decoded.instruction.operands,
            ) {
                StackAdjustment::Unknown
            } else {
                match operand_adjustment(decoded.instruction.isa, decoded.instruction.operands) {
                    Some(adjustment) => adjustment,
                    None => if lanes_of(register_effects(decoded.instruction).writes, 15) != 0 {
                        StackAdjustment::Unknown
                    } else {
                        StackAdjustment::Unchanged
                    },
                }
            },
        }
    }
}

/// A position after A7 and the locals moved.
pub open spec fn spec_adjusted(position: StackPosition, depth: i32, locals: i32) -> StackDepth {
    match (position.depth.checked_add(depth), position.locals.checked_add(locals)) {
        (Some(depth), Some(locals)) => StackDepth::Exact(
            StackPosition {
                depth,
                locals: spec_greater(locals, 0),
                peak_locals: spec_greater(position.peak_locals, spec_greater(locals, 0)),
                path_dependent_frame: position.path_dependent_frame,
                link: position.link,
            },
        ),
        _ => StackDepth::Unknown,
    }
}

/// A position after A7 and the locals moved.
pub fn adjusted(position: StackPosition, depth: i32, locals: i32) -> (r: StackDepth)
    ensures
        r == spec_adjusted(position, depth, locals),
{
    match (position.depth.checked_add(depth), position.locals.checked_add(locals)) {
        (Some(depth), Some(locals)) => StackDepth::Exact(
            StackPosition {
                depth,
                locals: greater(locals, 0),
                peak_locals: greater(position.peak_locals, greater(locals, 0)),
                path_dependent_frame: position.path_dependent_frame,
                link: position.link,
            },
        ),
        _ => StackDepth::Unknown,
    }
}

/// A position after `LINK`: the register is pushed, and locals are reserved.
pub open spec fn spec_linked(position: StackPosition, register: u8, displacement: i16) -> StackDepth {
    if register == 7 || position.link.is_some() {
        StackDepth::Unknown
    } else {
        let reserved: i32 = spec_greater((0 - displacement as i32) as i32, 0);
        match (position.depth.checked_add(4), position.locals.checked_add(reserved)) {
            (Some(pushed), Some(locals)) => match pushed.checked_sub(displacement as i32) {
                Some(depth) => StackDepth::Exact(
                    StackPosition {
                        depth,
                        locals,
                        peak_locals: spec_greater(position.peak_locals, locals),
                        path_dependent_frame: position.path_dependent_frame,
                        link: Some(
                            LinkState {
                                register,
                                depth: position.depth,
                                locals: position.locals,
                            },
                        ),
                    },
                ),
                None => StackDepth::Unknown,
            },
            _ => StackDepth::Unknown,
        }
    }
}

/// A position after `LINK`: the register is pushed, and locals are reserved.
pub fn linked(position: StackPosition, register: u8, displacement: i16) -> (r: StackDepth)
    ensures
        r == spec_linked(position, register, displacement),
{
    if register == 7 || position.link.is_some() {
        StackDepth::Unknown
    } else {
        let reserved: i32 = greater((0 - displacement as i32) as i32, 0);
        match (position.depth.checked_add(4), position.locals.checked_add(reserved)) {
            (Some(pushed), Some(locals)) => match pushed.checked_sub(displacement as i32) {
                Some(depth) => StackDepth::Exact(
                    StackPosition {
                        depth,
                        locals,
                        peak_locals: greater(position.peak_locals, locals),
                        path_dependent_frame: position.path_dependent_frame,
                        link: Some(
                            LinkState {
                                register,
                                depth: position.depth,
                                locals: position.locals,
                            },
                        ),
                    },
                ),
                None => StackDepth::Unknown,
            },
            _ => StackDepth::Unknown,
        }
    }
}

/// A position after `UNLK`: the matching `LINK` is undone.
pub open spec fn spec_unlinked(position: StackPosition, register: u8) -> StackDepth {
    match position.link {
        Some(link) => if link.register == register {
            StackDepth::Exact(
                StackPosition {
                    depth: link.depth,
                    locals: link.locals,
                    peak_locals: position.peak_locals,
                    path_dependent_frame: position.path_dependent_frame,
                    link: None,
                },
            )
        } else {
            StackDepth::Unknown
        },
        None => StackDepth::Unknown,
    }
}

/// A position after `UNLK`: the matching `LINK` is undone.
pub fn unlinked(position: StackPosition, register: u8) -> (r: StackDepth)
    ensures
        r == spec_unlinked(position, register),
{
    match position.link {
        Some(link) => if link.register == register {
            StackDepth::Exact(
                StackPosition {
                    depth: link.depth,
                    locals: link.locals,
                    peak_locals: position.peak_locals,
                    path_dependent_frame: position.path_dependent_frame,
                    link: None,
                },
            )
        } else {
            StackDepth::Unknown
        },
        None => StackDepth::Unknown,
    }
}

/// What is known of A7 behind an instruction.
pub open spec fn spec_stack_transfer(adjustment: StackAdjustment, state: StackDepth) -> StackDepth {
    match state {
        StackDepth::Exact(position) => match adjustment {
            StackAdjustment::Unchanged => state,
            StackAdjustment::Adjust { depth, locals } => spec_adjusted(position, depth, locals),
            StackAdjustment::Link { register, displacement } => spec_linked(
                position,
                register,
                displacement,
            ),
            StackAdjustment::Unlink { register } => spec_unlinked(position, register),
            StackAdjustment::Unknown => StackDepth::Unknown,
        },
        _ => if adjustment == StackAdjustment::Unknown {
            StackDepth::Unknown
        } else {
            state
        },
    }
}

/// What is known of A7 behind an instruction.
pub fn stack_transfer(adjustment: StackAdjustment, state: StackDepth) -> (r: StackDepth)
    ensures
        r == spec_stack_transfer(adjustment, state),
{
    match state {
        StackDepth::Exact(position) => match adjustment {
            StackAdjustment::Unchanged => state,
            StackAdjustment::Adjust { depth, locals } => adjusted(position, depth, locals),
            StackAdjustment::Link { register, displacement } => linked(
                position,
                register,
                displacement,
            ),
            StackAdjustment::Unlink { register } => unlinked(position, register),
            StackAdjustment::Unknown => StackDepth::Unknown,
        },
        _ => if adjustment == StackAdjustment::Unknown {
            StackDepth::Unknown
        } else {
            state
        },
    }
}

/// `UNLK` undoes `LINK`: A7 and the locals are where they were.
pub proof fn unlink_undoes_link(position: StackPosition, register: u8, displacement: i16)
    requires
        spec_linked(position, register, displacement) is Exact,
    ensures
        ({
            let inside = spec_linked(position, register, displacement)->Exact_0;
            let outside = spec_unlinked(inside, register)->Exact_0;
            &&& spec_unlinked(inside, register) is Exact
            &&& outside.depth == position.depth
            &&& outside.locals == position.locals
            &&& outside.link is None
        }),
{
}

/// What was seen of the frame along all paths.
#[derive(Clone, Copy, Debug, PartialEq, Eq, Structural)]
pub struct StackObservations {
    pub maximum_local_bytes: i32,
    pub path_dependent: bool,
    pub unknown: bool,
}

impl View for StackObservations {
    type V = StackObservations;

    open spec fn view(&self) -> StackObservations {
        *self
    }
}

/// One more state seen.
pub open spec fn spec_observe_stack_state(state: StackDepth, seen: StackObservations) -> StackObservations {
    match state {
        StackDepth::Exact(position) => StackObservations {
            maximum_local_bytes: spec_greater(seen.maximum_local_bytes, position.peak_locals),
            path_dependent: seen.path_dependent || position.path_dependent_frame,
            unknown: seen.unknown,
        },
        StackDepth::PathDependent => StackObservations {
            maximum_local_bytes: seen.maximum_local_bytes,
            path_dependent: true,
            unknown: seen.unknown,
        },
        StackDepth::Unknown => StackObservations {
            maximum_local_bytes: seen.maximum_local_bytes,
            path_dependent: seen.path_dependent,
            unknown: true,
        },
    }
}

/// One more state seen.
pub fn observe_stack_state(state: StackDepth, seen: StackObservations) -> (r: StackObservations)
    ensures
        r == spec_observe_stack_state(state, seen),
{
    match state {
        StackDepth::Exact(position) => StackObservations {
            maximum_local_bytes: greater(seen.maximum_local_bytes, position.peak_locals),
            path_dependent: seen.path_dependent || position.path_dependent_frame,
            unknown: seen.unknown,
        },
        StackDepth::PathDependent => StackObservations {
            maximum_local_bytes: seen.maximum_local_bytes,
            path_dependent: true,
            unknown: seen.unknown,
        },
        StackDepth::Unknown => StackObservations {
            maximum_local_bytes: seen.maximum_local_bytes,
            path_dependent: seen.path_dependent,
            unknown: true,
        },
    }
}

/// Which return an instruction is.
pub open spec fn spec_return_kind(isa: Isa) -> Option<FunctionReturn> {
    match isa {
        Isa::Rts => Some(FunctionReturn::Rts),
        Isa::Rte => Some(FunctionReturn::Rte),
        Isa::Rtr => Some(FunctionReturn::Rtr),
        _ => None,
    }
}

/// Which return an instruction is.
pub fn return_kind(isa: Isa) -> (r: Option<FunctionReturn>)
    ensures
        r == spec_return_kind(isa),
{
    match isa {
        Isa::Rts => Some(FunctionReturn::Rts),
        Isa::Rte => Some(FunctionReturn::Rte),
        Isa::Rtr => Some(FunctionReturn::Rtr),
        _ => None,
    }
}

/// Whether an instruction returns while the stack is not as it was found.
pub open spec fn spec_unbalanced_return(isa: Isa, state: StackDepth) -> bool {
    spec_return_kind(isa).is_some() && match state {
        StackDepth::Exact(position) => position.depth != 0 || position.locals != 0,
        _ => true,
    }
}

/// Whether an instruction returns while the stack is not as it was found.
pub fn unbalanced_return(isa: Isa, state: StackDepth) -> (r: bool)
    ensures
        r == spec_unbalanced_return(isa, state),
{
    return_kind(isa).is_some() && match state {
        StackDepth::Exact(position) => position.depth != 0 || position.locals != 0,
        _ => true,
    }
}

/// What is seen when an instruction is left.
pub open spec fn spec_observe_instruction(decoded: DecodedView, state: StackDepth, seen: StackObservations) -> StackObservations {
    let before = spec_observe_stack_state(state, seen);
    let returned = StackObservations {
        maximum_local_bytes: before.maximum_local_bytes,
        path_dependent: before.path_dependent,
        unknown: before.unknown || spec_unbalanced_return(decoded.instruction.isa, state),
    };
    spec_observe_stack_state(spec_stack_transfer(spec_stack_adjustment(decoded), state), returned)
}

/// What is seen when an instruction is left.
pub fn observe_instruction(
    decoded: &DecodedInstruction,
    state: StackDepth,
    seen: StackObservations,
) -> (r: StackObservations)
    requires
        decoded.wf(),
    ensures
        r == spec_observe_instruction(decoded@, state, seen),
{
    let before = observe_stack_state(state, seen);
    let returned = StackObservations {
        maximum_local_bytes: before.maximum_local_bytes,
        path_dependent: before.path_dependent,
        unknown: before.unknown || unbalanced_return(decoded.instruction.isa, state),
    };
    observe_stack_state(stack_transfer(stack_adjustment(decoded), state), returned)
}

/// Whether an instruction belongs to one of the functions that are jumped to.
pub open spec fn spec_belongs_to_tail_target(decoded: DecodedView, tails: Set<u32>) -> bool {
    !tails.disjoint(decoded.owners)
}

/// Whether an instruction belongs to one of the functions that are jumped to.
pub fn belongs_to_tail_target(decoded: &DecodedInstruction, tails: &OrderedSet<u32>) -> (r: bool)
    requires
        decoded.wf(),
        tails.wf(),
    ensures
        r == spec_belongs_to_tail_target(decoded@, tails@),
{
    tails.meets(&decoded.owners)
}

/// The walk over A7 through one function's code.
pub struct StackFlow<'a> {
    pub tails: &'a OrderedSet<u32>,
}

impl<'a> Flow for StackFlow<'a> {
    type State = StackDepth;

    type Log = StackObservations;

    open spec fn wf(&self) -> bool {
        self.tails.wf()
    }

    open spec fn keeps(&self, decoded: DecodedView) -> bool {
        !spec_belongs_to_tail_target(decoded, self.tails@)
    }

    open spec fn entered(&self, owner: u32, decoded: DecodedView, state: StackDepth) -> StackDepth {
        state
    }

    open spec fn noted_entering(
        &self,
        decoded: DecodedView,
        state: StackDepth,
        log: StackObservations,
    ) -> StackObservations {
        log
    }

    open spec fn transferred(&self, decoded: DecodedView, state: StackDepth) -> StackDepth {
        spec_stack_transfer(spec_stack_adjustment(decoded), state)
    }

    open spec fn noted_leaving(
        &self,
        decoded: DecodedView,
        state: StackDepth,
        log: StackObservations,
    ) -> StackObservations {
        spec_observe_instruction(decoded, state, log)
    }

    fn looks_at(&self, decoded: &DecodedInstruction) -> bool {
        !belongs_to_tail_target(decoded, self.tails)
    }

    fn enter(
        &self,
        owner: u32,
        decoded: &DecodedInstruction,
        state: &mut StackDepth,
        log: &mut StackObservations,
    ) {
    }

    fn transfer(
        &self,
        decoded: &DecodedInstruction,
        state: &mut StackDepth,
        log: &mut StackObservations,
    ) {
        let before: StackDepth = *state;
        let seen: StackObservations = *log;
        *log = observe_instruction(decoded, before, seen);
        *state = stack_transfer(stack_adjustment(decoded), before);
        assert(state.wf());
        assert(log@ == spec_observe_instruction(decoded@, before, seen));
    }
}

/// A list of instructions as mathematical values.
pub open spec fn views(list: Seq<&DecodedInstruction>) -> Seq<DecodedView> {
    list.map_values(|decoded: &DecodedInstruction| decoded@)
}

/// The instructions of a list are well formed.
pub open spec fn all_wf(list: Seq<&DecodedInstruction>) -> bool {
    forall|k: int| 0 <= k < list.len() ==> (#[trigger] list[k]).wf()
}

/// The frame register of a `LINK`.
pub open spec fn spec_linked_register(instruction: Instruction) -> Option<u8> {
    match instruction.operands {
        Operands::RegisterDisplacement(register, _) => if instruction.isa == Isa::Link {
            Some(register)
        } else {
            None
        },
        _ => None,
    }
}

/// The frame register of a `LINK`.
pub fn linked_register(instruction: Instruction) -> (r: Option<u8>)
    ensures
        r == spec_linked_register(instruction),
{
    match instruction.operands {
        Operands::RegisterDisplacement(register, _) => if instruction.isa == Isa::Link {
            Some(register)
        } else {
            None
        },
        _ => None,
    }
}

/// Whether some instruction of a list links through the register.
pub open spec fn links_through(owned: Seq<DecodedView>, register: u8) -> bool {
    exists|k: int| 0 <= k < owned.len() && spec_linked_register((#[trigger] owned[k]).instruction)
        == Some(register)
}

/// The one register that every `LINK` of a list links through.
pub open spec fn is_link_register(owned: Seq<DecodedView>, register: u8) -> bool {
    links_through(owned, register) && forall|other: u8| #[trigger]
        links_through(owned, other) ==> other == register
}

/// The frame register, where every `LINK` of the function has the same.
pub fn link_register(owned: &Vec<&DecodedInstruction>) -> (r: Option<u8>)
    requires
        all_wf(owned@),
    ensures
        match r {
            Some(register) => is_link_register(views(owned@), register),
            None => forall|register: u8| !#[trigger] is_link_register(views(owned@), register),
        },
{
    let ghost list = views(owned@);
    let mut found: Option<u8> = None;
    let mut i: usize = 0;
    while i < owned.len()
        invariant
            list == views(owned@),
            i <= owned@.len(),
            match found {
                Some(register) => links_through(list, register),
                None => true,
            },
            forall|k: int|
                0 <= k < i ==> match spec_linked_register((#[trigger] list[k]).instruction) {
                    Some(register) => found == Some(register),
                    None => true,
                },
        decreases owned@.len() - i,
    {
        if let Some(register) = linked_register(owned[i].instruction) {
            proof {
                assert(list[i as int] == owned@[i as int]@);
                assert(links_through(list, register));
            }
            match found {
                None => {
                    found = Some(register);
                },
                Some(first) => {
                    if first != register {
                        return None;
                    }
                },
            }
        } else {
            assert(list[i as int] == owned@[i as int]@);
        }
        i += 1;
    }
    proof {
        assert forall|register: u8| #[trigger] links_through(list, register) implies found == Some(
            register,
        ) by {
            let k = choose|k: int|
                0 <= k < list.len() && spec_linked_register((#[trigger] list[k]).instruction)
                    == Some(register);
            assert(spec_linked_register(list[k].instruction) is Some);
        }
    }
    found
}

/// The frame that observations speak for.
pub open spec fn is_frame(owned: Seq<DecodedView>, seen: StackObservations, frame: FrameStyle) -> bool {
    if seen.unknown || seen.maximum_local_bytes < 0 {
        frame == FrameStyle::Unknown
    } else {
        let bytes = seen.maximum_local_bytes as u32;
        if seen.path_dependent {
            frame == (FrameStyle::PathDependent { maximum_local_bytes: bytes })
        } else if exists|register: u8| #[trigger] is_link_register(owned, register) {
            exists|register: u8| #[trigger]
                is_link_register(owned, register) && frame == (FrameStyle::Link {
                    register,
                    local_bytes: bytes,
                })
        } else if bytes > 0 {
            frame == (FrameStyle::StackPointer { local_bytes: bytes })
        } else {
            frame == FrameStyle::Frameless
        }
    }
}

/// The frame that observations speak for.
pub fn frame_of(owned: &Vec<&DecodedInstruction>, seen: StackObservations) -> (r: FrameStyle)
    requires
        all_wf(owned@),
    ensures
        is_frame(views(owned@), seen, r),
{
    if seen.unknown || seen.maximum_local_bytes < 0 {
        return FrameStyle::Unknown;
    }
    let bytes: u32 = seen.maximum_local_bytes as u32;
    if seen.path_dependent {
        return FrameStyle::PathDependent { maximum_local_bytes: bytes };
    }
    match link_register(owned) {
        Some(register) => FrameStyle::Link { register, local_bytes: bytes },
        None => if bytes > 0 {
            FrameStyle::StackPointer { local_bytes: bytes }
        } else {
            FrameStyle::Frameless
        },
    }
}

/// A frame is determined by what was seen.
pub proof fn frame_is_determined(
    owned: Seq<DecodedView>,
    seen: StackObservations,
    left: FrameStyle,
    right: FrameStyle,
)
    requires
        is_frame(owned, seen, left),
        is_frame(owned, seen, right),
    ensures
        left == right,
{
    if exists|register: u8| #[trigger] is_link_register(owned, register) {
        let register = choose|register: u8| #[trigger] is_link_register(owned, register);
        assert(links_through(owned, register));
    }
}

/// The kind of a slot and its offset, by its distance from A7 at function entry.
/// Arguments lie behind the return address; locals inside the frame.
pub open spec fn spec_classify_stack_slot(frame: FrameStyle, entry_offset: i32) -> Option<(StackSlotKind, i32)> {
    if entry_offset >= 4 {
        Some((StackSlotKind::Argument, entry_offset))
    } else {
        match frame {
            FrameStyle::Link { local_bytes, .. } => if local_bytes <= 0x7fff_fffb && entry_offset
                < -4 && entry_offset as i64 >= -4 - local_bytes as i64 {
                Some((StackSlotKind::Local, (entry_offset + 4) as i32))
            } else {
                None
            },
            FrameStyle::StackPointer { local_bytes } => if local_bytes <= 0x7fff_ffff
                && entry_offset < 0 && entry_offset as i64 >= 0 - local_bytes as i64 {
                Some((StackSlotKind::Local, (entry_offset as i64 + local_bytes as i64) as i32))
            } else {
                None
            },
            FrameStyle::PathDependent { maximum_local_bytes } => if maximum_local_bytes
                <= 0x7fff_ffff && entry_offset < 0 && entry_offset as i64 >= 0
                - maximum_local_bytes as i64 {
                Some(
                    (
                        StackSlotKind::Local,
                        (entry_offset as i64 + maximum_local_bytes as i64) as i32,
                    ),
                )
            } else {
                None
            },
            FrameStyle::Unknown => None,
            FrameStyle::Frameless => None,
        }
    }
}

/// The kind of a slot and its offset, by its distance from A7 at function entry.
/// Arguments lie behind the return address; locals inside the frame.
pub fn classify_stack_slot(frame: FrameStyle, entry_offset: i32) -> (r: Option<(StackSlotKind, i32)>)
    ensures
        r == spec_classify_stack_slot(frame, entry_offset),
{
    if entry_offset >= 4 {
        Some((StackSlotKind::Argument, entry_offset))
    } else {
        match frame {
            FrameStyle::Link { local_bytes, .. } => if local_bytes <= 0x7fff_fffb && entry_offset
                < -4 && entry_offset as i64 >= -4 - local_bytes as i64 {
                Some((StackSlotKind::Local, (entry_offset + 4) as i32))
            } else {
                None
            },
            FrameStyle::StackPointer { local_bytes } => if local_bytes <= 0x7fff_ffff
                && entry_offset < 0 && entry_offset as i64 >= 0 - local_bytes as i64 {
                Some((StackSlotKind::Local, (entry_offset as i64 + local_bytes as i64) as i32))
            } else {
                None
            },
            FrameStyle::PathDependent { maximum_local_bytes } => if maximum_local_bytes
                <= 0x7fff_ffff && entry_offset < 0 && entry_offset as i64 >= 0
                - maximum_local_bytes as i64 {
                Some(
                    (
                        StackSlotKind::Local,
                        (entry_offset as i64 + maximum_local_bytes as i64) as i32,
                    ),
                )
            } else {
                None
            },
            FrameStyle::Unknown => None,
            FrameStyle::Frameless => None,
        }
    }
}

/// The slot at a distance from A7.
pub open spec fn spec_stack_pointer_slot(frame: FrameStyle, depth: StackDepth, displacement: i16) -> Option<(StackSlotKind, i32)> {
    match depth {
        StackDepth::Exact(position) => if displacement < 0 {
            None
        } else {
            match (displacement as i32).checked_sub(position.depth) {
                Some(entry_offset) => spec_classify_stack_slot(frame, entry_offset),
                None => None,
            }
        },
        _ => None,
    }
}

/// The slot at a distance from A7.
pub fn stack_pointer_slot(frame: FrameStyle, depth: StackDepth, displacement: i16) -> (r: Option<(StackSlotKind, i32)>)
    ensures
        r == spec_stack_pointer_slot(frame, depth, displacement),
{
    match depth {
        StackDepth::Exact(position) => if displacement < 0 {
            None
        } else {
            match (displacement as i32).checked_sub(position.depth) {
                Some(entry_offset) => classify_stack_slot(frame, entry_offset),
                None => None,
            }
        },
        _ => None,
    }
}

/// The slot at a distance from the frame register.
pub open spec fn spec_frame_pointer_slot(frame: FrameStyle, depth: StackDepth, base: u8, displacement: i16) -> Option<(StackSlotKind, i32)> {
    match (frame, depth) {
        (FrameStyle::Link { register, .. }, StackDepth::Exact(position)) => match position.link {
            Some(link) => if link.register == register && base == register {
                match link.depth.checked_add(4) {
                    Some(frame_depth) => match (displacement as i32).checked_sub(frame_depth) {
                        Some(entry_offset) => spec_classify_stack_slot(frame, entry_offset),
                        None => None,
                    },
                    None => None,
                }
            } else {
                None
            },
            None => None,
        },
        _ => None,
    }
}

/// The slot at a distance from the frame register.
pub fn frame_pointer_slot(frame: FrameStyle, depth: StackDepth, base: u8, displacement: i16) -> (r: Option<(StackSlotKind, i32)>)
    ensures
        r == spec_frame_pointer_slot(frame, depth, base, displacement),
{
    match (frame, depth) {
        (FrameStyle::Link { register, .. }, StackDepth::Exact(position)) => match position.link {
            Some(link) => if link.register == register && base == register {
                match link.depth.checked_add(4) {
                    Some(frame_depth) => match (displacement as i32).checked_sub(frame_depth) {
                        Some(entry_offset) => classify_stack_slot(frame, entry_offset),
                        None => None,
                    },
                    None => None,
                }
            } else {
                None
            },
            None => None,
        },
        _ => None,
    }
}

/// The slot that a memory operand touches.
pub open spec fn spec_touched_slot(
    frame: FrameStyle,
    depth: Option<StackDepth>,
    access: Option<OperandAccess>,
) -> Option<StackSlot> {
    match (depth, access) {
        (Some(depth), Some(access)) => match access.mode {
            AddressingMode::Ariwd(base, displacement) => match if base == 7 {
                spec_stack_pointer_slot(frame, depth, displacement)
            } else {
                spec_frame_pointer_slot(frame, depth, base, displacement)
            } {
                Some((kind, offset)) => Some(
                    StackSlot { kind, offset, size: access.size, access: access.kind },
                ),
                None => None,
            },
            _ => None,
        },
        _ => None,
    }
}

/// The slot that a memory operand touches.
pub fn touched_slot(
    frame: FrameStyle,
    depth: Option<StackDepth>,
    access: Option<OperandAccess>,
) -> (r: Option<StackSlot>)
    ensures
        r == spec_touched_slot(frame, depth, access),
{
    match (depth, access) {
        (Some(depth), Some(access)) => match access.mode {
            AddressingMode::Ariwd(base, displacement) => match if base == 7 {
                stack_pointer_slot(frame, depth, displacement)
            } else {
                frame_pointer_slot(frame, depth, base, displacement)
            } {
                Some((kind, offset)) => Some(
                    StackSlot { kind, offset, size: access.size, access: access.kind },
                ),
                None => None,
            },
            _ => None,
        },
        _ => None,
    }
}

/// What is known of A7 before an instruction.
pub open spec fn depth_at(depths: Map<u32, StackDepth>, at: u32) -> Option<StackDepth> {
    if depths.dom().contains(at) {
        Some(depths[at])
    } else {
        None
    }
}

/// The slots that an instruction touches.
pub open spec fn instruction_slots(
    frame: FrameStyle,
    depths: Map<u32, StackDepth>,
    decoded: DecodedView,
) -> Seq<StackSlot> {
    let accesses = spec_operand_accesses(decoded.instruction.isa, decoded.instruction.operands);
    let depth = depth_at(depths, decoded.address);
    both(
        spec_touched_slot(frame, depth, accesses.first),
        spec_touched_slot(frame, depth, accesses.second),
    )
}

/// The slots that the instructions of a list touch, in order.
pub open spec fn slots_of(
    owned: Seq<DecodedView>,
    frame: FrameStyle,
    depths: Map<u32, StackDepth>,
) -> Seq<StackSlot> {
    in_order(
        owned.flat_map(
            |decoded: DecodedView| instruction_slots(frame, depths, decoded),
        ).to_set(),
    )
}

/// A set with what is there of one more element.
spec fn with_some<T>(set: Set<T>, item: Option<T>) -> Set<T> {
    match item {
        Some(item) => set.insert(item),
        None => set,
    }
}

proof fn lemma_both_to_set<T>(list: Seq<T>, first: Option<T>, second: Option<T>)
    ensures
        (list + both(first, second)).to_set() == with_some(
            with_some(list.to_set(), first),
            second,
        ),
{
    let whole = list + both(first, second);
    let n = list.len() as int;
    assert forall|x: T| list.contains(x) implies whole.contains(x) by {
        let k = choose|k: int| 0 <= k < list.len() && list[k] == x;
        assert(whole[k] == x);
    }
    assert forall|x: T| whole.contains(x) implies list.contains(x) || first == Some(x) || second
        == Some(x) by {
        let k = choose|k: int| 0 <= k < whole.len() && whole[k] == x;
        if k < n {
            assert(list[k] == x);
        }
    }
    if let Some(a) = first {
        assert(whole[n] == a);
        assert(whole.contains(a));
        if let Some(b) = second {
            assert(whole[n + 1] == b);
            assert(whole.contains(b));
            assert(whole.to_set() =~= list.to_set().insert(a).insert(b));
        } else {
            assert(whole.to_set() =~= list.to_set().insert(a));
        }
    } else if let Some(b) = second {
        assert(whole[n] == b);
        assert(whole.contains(b));
        assert(whole.to_set() =~= list.to_set().insert(b));
    } else {
        assert(whole.to_set() =~= list.to_set());
    }
}

/// The stack slots that a function uses.
pub fn stack_slots(
    owned: &Vec<&DecodedInstruction>,
    frame: FrameStyle,
    depths: &AddressMap<StackDepth>,
) -> (r: Vec<StackSlot>)
    requires
        all_wf(owned@),
        depths.wf(),
    ensures
        r@ == slots_of(views(owned@), frame, state_map(*depths)),
{
    let ghost list = views(owned@);
    let ghost each = |decoded: DecodedView| instruction_slots(frame, state_map(*depths), decoded);
    let mut slots: OrderedSet<StackSlot> = OrderedSet::new();
    let mut i: usize = 0;
    proof {
        assert(list.take(0).flat_map(each) =~= Seq::empty());
        assert(list.take(0).flat_map(each).to_set() =~= Set::empty());
    }
    while i < owned.len()
        invariant
            all_wf(owned@),
            depths.wf(),
            list == views(owned@),
            each == (|decoded: DecodedView|
                instruction_slots(frame, state_map(*depths), decoded)),
            i <= owned@.len(),
            slots.wf(),
            slots@ == list.take(i as int).flat_map(each).to_set(),
        decreases owned@.len() - i,
    {
        let decoded = owned[i];
        let depth: Option<StackDepth> = match depths.get(decoded.address) {
            Some(depth) => Some(*depth),
            None => None,
        };
        let accesses = operand_accesses(decoded.instruction.isa, decoded.instruction.operands);
        let first = touched_slot(frame, depth, accesses.first);
        let second = touched_slot(frame, depth, accesses.second);
        proof {
            assert(list[i as int] == decoded@);
            list.lemma_flat_map_take_append(each, i as int);
            assert(depth == depth_at(state_map(*depths), decoded.address));
            lemma_both_to_set(list.take(i as int).flat_map(each), first, second);
        }
        if let Some(slot) = first {
            slots.insert(slot);
        }
        if let Some(slot) = second {
            slots.insert(slot);
        }
        i += 1;
    }
    proof {
        assert(list.take(i as int) =~= list);
        lemma_in_order(slots.items@);
    }
    slots.items
}

/// Where A7 is at function entry.
pub open spec fn spec_entry_depth() -> StackDepth {
    StackDepth::Exact(
        StackPosition {
            depth: 0,
            locals: 0,
            peak_locals: 0,
            path_dependent_frame: false,
            link: None,
        },
    )
}

/// Where A7 is at function entry.
pub fn entry_depth() -> (r: StackDepth)
    ensures
        r == spec_entry_depth(),
{
    StackDepth::Exact(
        StackPosition {
            depth: 0,
            locals: 0,
            peak_locals: 0,
            path_dependent_frame: false,
            link: None,
        },
    )
}

/// Nothing seen yet, but for unresolved flow out of code that was not decoded.
pub open spec fn first_observations(view: AnalysisView, entry: u32) -> StackObservations {
    StackObservations {
        maximum_local_bytes: 0,
        path_dependent: false,
        unknown: exists|site: u32|
            !view.instructions.dom().contains(site) && #[trigger] view.unresolved.contains(
                crate::analysis::UnresolvedFlow { owner: entry, address: site },
            ),
    }
}

/// What is known of A7 at each instruction of a function, and its frame.
pub struct StackAnalysis {
    pub before: AddressMap<StackDepth>,
    pub frame: FrameStyle,
}

/// What a walk of A7 tells of a function: nothing, if it did not come to rest.
pub open spec fn is_finished(
    owned: Seq<DecodedView>,
    reached: Map<u32, StackDepth>,
    exhausted: bool,
    observations: StackObservations,
    before: Map<u32, StackDepth>,
    frame: FrameStyle,
) -> bool {
    if exhausted {
        before == Map::<u32, StackDepth>::empty() && frame == FrameStyle::Unknown
    } else {
        before == reached && is_frame(owned, observations, frame)
    }
}

/// The stack analysis of a function: nothing of a walk that did not come to rest.
pub open spec fn is_stack_analysis(
    flow: StackFlow,
    view: AnalysisView,
    entry: u32,
    owned: Seq<DecodedView>,
    before: Map<u32, StackDepth>,
    frame: FrameStyle,
) -> bool {
    let (end, exhausted) = outcome(
        flow,
        view,
        entry,
        Schedule::Ascending,
        spec_entry_depth(),
        first_observations(view, entry),
    );
    is_finished(owned, end.before, exhausted, end.log, before, frame)
}

fn has_missing_flow(analysis: &ControlFlowAnalysis, entry: u32) -> (r: bool)
    requires
        analysis.wf(),
    ensures
        r == first_observations(analysis@, entry).unknown,
{
    let flows = &analysis.unresolved;
    let mut i: usize = 0;
    while i < flows.items.len()
        invariant
            analysis.wf(),
            *flows == analysis.unresolved,
            i <= flows.items@.len(),
            forall|k: int|
                0 <= k < i && (#[trigger] flows.items@[k]).owner == entry
                    ==> analysis@.instructions.dom().contains(flows.items@[k].address),
        decreases flows.items@.len() - i,
    {
        let flow = flows.items[i];
        if flow.owner == entry && !analysis.instructions.contains_key(flow.address) {
            proof {
                assert(flows@.contains(flows.items@[i as int]));
                assert(analysis@.unresolved.contains(
                    crate::analysis::UnresolvedFlow { owner: entry, address: flow.address },
                ));
            }
            return true;
        }
        i += 1;
    }
    proof {
        assert forall|site: u32| #[trigger]
            analysis@.unresolved.contains(
                crate::analysis::UnresolvedFlow { owner: entry, address: site },
            ) implies analysis@.instructions.dom().contains(site) by {
            let flow = crate::analysis::UnresolvedFlow { owner: entry, address: site };
            let k = choose|k: int| 0 <= k < flows.items@.len() && flows.items@[k] == flow;
            assert(flows.items@[k].owner == entry);
        }
    }
    false
}

/// What a walk of A7 tells of a function.
pub fn finish_stack_analysis(
    owned: &Vec<&DecodedInstruction>,
    walk: ForwardResult<StackDepth>,
    observations: StackObservations,
) -> (r: StackAnalysis)
    requires
        states_wf(walk.before),
        all_wf(owned@),
    ensures
        states_wf(r.before),
        is_finished(
            views(owned@),
            state_map(walk.before),
            walk.exhausted,
            observations,
            state_map(r.before),
            r.frame,
        ),
{
    if walk.exhausted {
        let before: AddressMap<StackDepth> = AddressMap::new();
        assert(state_map(before) =~= Map::empty());
        return StackAnalysis { before, frame: FrameStyle::Unknown };
    }
    let frame = frame_of(owned, observations);
    StackAnalysis { before: walk.before, frame }
}

/// Follow A7 through one function's code.
pub fn analyze_stack(
    analysis: &ControlFlowAnalysis,
    entry: u32,
    owned: &Vec<&DecodedInstruction>,
    tails: &OrderedSet<u32>,
) -> (r: StackAnalysis)
    requires
        analysis.wf(),
        tails.wf(),
        all_wf(owned@),
    ensures
        states_wf(r.before),
        is_stack_analysis(
            StackFlow { tails },
            analysis@,
            entry,
            views(owned@),
            state_map(r.before),
            r.frame,
        ),
{
    let flow = StackFlow { tails };
    let mut seen = StackObservations {
        maximum_local_bytes: 0,
        path_dependent: false,
        unknown: has_missing_flow(analysis, entry),
    };
    let walk = forward(&flow, analysis, entry, entry_depth(), &mut seen);
    finish_stack_analysis(owned, walk, seen)
}

} // verus!
