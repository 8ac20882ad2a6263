//! That a reported clamp is one: what its three instructions compute.

use crate::decoded::DecodedView;
use crate::fixed_point::{
    spec_compare_clamp, spec_overflow_clamp, spec_short_target, ClampKind,
};
use crate::m68k::{AddressingMode, Isa, Operands, Size};
use crate::machine::{
    compared, holds, lemma_unsigned, low, replaced, signed, span_of, wrapped, Flags,
};
use vstd::prelude::*;

verus! {

/// The size that a number of bytes names.
pub open spec fn size_named(bytes: u8) -> Size {
    if bytes == 1 {
        Size::Byte
    } else if bytes == 2 {
        Size::Word
    } else {
        Size::Long
    }
}

/// What a data register holds after `CMPI #bound`, a branch on `condition` over the next
/// instruction, and a `MOVE` of the bound into the register.
pub open spec fn clamped(size: Size, bound: int, condition: u8, held: int) -> int {
    if holds(condition, compared(size, held, bound)) {
        held
    } else {
        replaced(held, size, bound)
    }
}

/// Where a conditional branch leads.
pub open spec fn branch_target(branch: DecodedView) -> Option<int> {
    match branch.instruction.operands {
        Operands::ConditionDisplacement(_, distance) => Some(
            wrapped(branch.address + 2 + distance),
        ),
        _ => None,
    }
}

/// The condition of a conditional branch.
pub open spec fn branch_condition(branch: DecodedView) -> u8 {
    match branch.instruction.operands {
        Operands::ConditionDisplacement(condition, _) => condition,
        _ => 0,
    }
}

/// Whether an instruction puts a number into the low bytes of a data register.
pub open spec fn assigns(assignment: DecodedView, size: Size, register: u8, bound: u32) -> bool {
    match assignment.instruction.operands {
        Operands::SizeEffectiveAddressEffectiveAddress(width, destination, source) => width == size
            && destination == AddressingMode::Drd(register) && source == AddressingMode::Immediate(
            bound,
        ),
        Operands::RegisterData(destination, data) => size == Size::Long && destination == register
            && bound == wrapped(data as int),
        _ => false,
    }
}

/// A reported comparison clamp is a clamp: whatever the register holds, its low bytes end up
/// as the greater of what they were and the bound if the clamp is a lower one, and as the
/// lesser if it is an upper one, read as signed numbers.
pub proof fn clamps_bound_every_value(
    compare: DecodedView,
    branch: DecodedView,
    assignment: DecodedView,
    held: int,
)
    requires
        0 <= held < 0x1_0000_0000,
        branch.wf(),
        branch_condition(branch) < 16,
        spec_compare_clamp(compare, branch, assignment) is Some,
    ensures
        ({
            let hint = spec_compare_clamp(compare, branch, assignment)->0;
            let size = size_named(hint.size);
            let before = signed(held, size);
            let bound = signed(hint.bound as int, size);
            let result = clamped(size, hint.bound as int, branch_condition(branch), held);
            &&& compare.instruction.isa == Isa::Cmpi
            &&& compare.instruction.operands == Operands::SizeEffectiveAddressImmediate(
                size,
                AddressingMode::Drd(hint.register),
                hint.bound,
            )
            &&& assigns(assignment, size, hint.register, hint.bound)
            &&& branch_target(branch) matches Some(target) && target >= assignment.end
            &&& hint.site == compare.address
            &&& hint.assign_site == assignment.address
            &&& signed(result, size) == match hint.kind {
                ClampKind::Lower => if before >= bound {
                    before
                } else {
                    bound
                },
                ClampKind::Upper => if before <= bound {
                    before
                } else {
                    bound
                },
            }
            &&& result - low(result, size) == held - low(held, size)
        }),
{
    let hint = spec_compare_clamp(compare, branch, assignment)->0;
    let size = size_named(hint.size);
    lemma_branch(branch);
    if let Operands::RegisterData(_, data) = assignment.instruction.operands {
        lemma_unsigned(data as i32);
    }
}

proof fn lemma_signed_range(value: int, size: Size)
    ensures
        -(span_of(size) / 2) <= signed(value, size) < span_of(size) / 2,
{
    assert(0 <= low(value, size) < span_of(size));
}

proof fn lemma_branch(branch: DecodedView)
    ensures
        branch.instruction.operands matches Operands::ConditionDisplacement(_, distance)
            ==> branch_target(branch) == Some(spec_short_target(branch.address, distance) as int),
{
    if let Operands::ConditionDisplacement(_, distance) = branch.instruction.operands {
        lemma_unsigned(distance as i32);
    }
}

/// Every comparison with a bound, branch over an assignment of it on a signed condition, and
/// assignment is reported, as the clamp it is.
pub proof fn signed_clamps_are_reported(
    compare: DecodedView,
    branch: DecodedView,
    assignment: DecodedView,
    size: Size,
    register: u8,
    bound: u32,
)
    requires
        compare.instruction.isa == Isa::Cmpi,
        compare.instruction.operands == Operands::SizeEffectiveAddressImmediate(
            size,
            AddressingMode::Drd(register),
            bound,
        ),
        assigns(assignment, size, register, bound),
        branch_target(branch) is Some,
        branch_target(branch)->0 >= assignment.end,
        12 <= branch_condition(branch) < 16,
    ensures
        spec_compare_clamp(compare, branch, assignment) matches Some(hint) && hint.register
            == register && hint.bound == bound && size_named(hint.size) == size,
{
    lemma_branch(branch);
    if let Operands::RegisterData(_, data) = assignment.instruction.operands {
        lemma_unsigned(data as i32);
    }
}

/// A reported overflow clamp puts in place of a result that overflowed the least signed value
/// of the size if it is a lower one, and the greatest if it is an upper one; the branch on no
/// overflow skips that.
pub proof fn overflow_clamps_saturate(
    arithmetic: DecodedView,
    branch: DecodedView,
    assignment: DecodedView,
)
    requires
        spec_overflow_clamp(arithmetic, branch, assignment) is Some,
    ensures
        ({
            let hint = spec_overflow_clamp(arithmetic, branch, assignment)->0;
            let size = size_named(hint.size);
            let bound = signed(hint.bound as int, size);
            &&& branch_target(branch) matches Some(target) && target >= assignment.end
            &&& forall|flags: Flags|
                #![trigger holds(branch_condition(branch), flags)]
                holds(branch_condition(branch), flags) <==> !flags.overflow
            &&& assigns(assignment, size, hint.register, hint.bound)
            &&& hint.site == arithmetic.address
            &&& hint.assign_site == assignment.address
            &&& forall|value: int|
                #![trigger signed(value, size)]
                match hint.kind {
                    ClampKind::Lower => bound <= signed(value, size),
                    ClampKind::Upper => signed(value, size) <= bound,
                }
            &&& matches!(
                arithmetic.instruction.isa,
                Isa::Add | Isa::Sub | Isa::Addi | Isa::Subi | Isa::Addq | Isa::Subq
            ) || !arithmetic.instruction.wf()
        }),
{
    let hint = spec_overflow_clamp(arithmetic, branch, assignment)->0;
    let size = size_named(hint.size);
    lemma_branch(branch);
    if let Operands::RegisterData(_, data) = assignment.instruction.operands {
        lemma_unsigned(data as i32);
    }
    assert forall|value: int|
        #![trigger signed(value, size)]
        match hint.kind {
            ClampKind::Lower => signed(hint.bound as int, size) <= signed(value, size),
            ClampKind::Upper => signed(value, size) <= signed(hint.bound as int, size),
        } by {
        lemma_signed_range(value, size);
        match size {
            Size::Byte => {
                assert(signed(0x80, Size::Byte) == -0x80 && signed(0x7f, Size::Byte) == 0x7f);
            },
            Size::Word => {
                assert(signed(0x8000, Size::Word) == -0x8000);
                assert(signed(0x7fff, Size::Word) == 0x7fff);
            },
            Size::Long => {
                assert(signed(0x8000_0000, Size::Long) == -0x8000_0000);
                assert(signed(0x7fff_ffff, Size::Long) == 0x7fff_ffff);
            },
        }
    }
}

} // verus!
