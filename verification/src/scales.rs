//! What a fixed-point hint and a tracked scale say of the numbers in a register.

use crate::analysis::AnalysisView;
use crate::decoded::DecodedView;
use crate::fixed_point::{
    hint_at, shift_position, spec_idiom, spec_scaling_shift, spec_shifted_scale, spec_wanted_shift,
    FixedPointHint, FixedPointKind, WINDOW,
};
use crate::m68k::{Direction, Instruction, Isa, Operands, Size};
use crate::machine::{executed, lemma_low_of_replaced, low, shifted, two_to, Machine};
use vstd::prelude::*;

verus! {

/// The size that a shift works on.
pub open spec fn shift_size(instruction: Instruction) -> Size {
    match instruction.operands {
        Operands::RotationDirectionSizeModeRegister(_, _, size, _, _) => size,
        _ => Size::Long,
    }
}

proof fn lemma_power(count: int)
    requires
        0 <= count,
    ensures
        two_to(count) >= 1,
    decreases count,
{
    if count > 0 {
        lemma_power(count - 1);
    }
}

proof fn lemma_powers_add(left: int, right: int)
    requires
        0 <= left,
        0 <= right,
    ensures
        two_to(left + right) == two_to(left) * two_to(right),
    decreases left,
{
    if left > 0 {
        lemma_powers_add(left - 1, right);
        assert(2 * (two_to(left - 1) * two_to(right)) == (2 * two_to(left - 1)) * two_to(right))
            by (nonlinear_arith);
    }
}

/// A recognised shift by a fixed count multiplies the register by that power of two, or
/// divides it by it, cut off at its size.
pub proof fn shifts_scale_by_powers_of_two(instruction: Instruction, m: Machine)
    requires
        m.wf(),
        instruction.wf(),
        spec_scaling_shift(instruction.isa, instruction.operands) is Some,
        spec_scaling_shift(instruction.isa, instruction.operands)->0.amount is Some,
        instruction.operands matches Operands::RotationDirectionSizeModeRegister(
            _,
            direction,
            _,
            _,
            _,
        ) && (direction == Direction::Left || direction == Direction::Right),
    ensures
        ({
            let shift = spec_scaling_shift(instruction.isa, instruction.operands)->0;
            let size = shift_size(instruction);
            let power = two_to(shift.amount->0 as int);
            let before = low(m.data(shift.register), size);
            let after = low(executed(m, instruction).data(shift.register), size);
            &&& 1 <= shift.amount->0 <= 8
            &&& !shift.right ==> after == low(before * power, size)
            &&& shift.right && instruction.isa == Isa::Lsr ==> after == low(before / power, size)
        }),
{
    let shift = spec_scaling_shift(instruction.isa, instruction.operands)->0;
    let size = shift_size(instruction);
    assert(0 <= m.registers[shift.register as int] < 0x1_0000_0000);
    if let Operands::RotationDirectionSizeModeRegister(count, direction, width, _, register) =
        instruction.operands {
        let value = shifted(
            m,
            instruction.isa,
            direction,
            width,
            shift.amount->0 as int,
            m.data(register),
        );
        lemma_low_of_replaced(m.data(register), width, value);
    }
}

/// Shifting moves the binary point along with the bits, so that the quantity stays the same: a
/// number that is multiplied by a power of two has that many fractional bits more, and one that
/// is divided by it has that many fewer. A shift by a count that is not known loses the scale.
pub proof fn shifts_keep_the_quantity(
    held: Option<u8>,
    isa: Isa,
    operands: Operands,
    before: int,
    after: int,
)
    requires
        0 <= before,
        spec_scaling_shift(isa, operands) matches Some(shift) && (shift.amount matches Some(amount)
            ==> if shift.right {
            before == after * two_to(amount as int)
        } else {
            after == before * two_to(amount as int)
        }),
    ensures
        match (held, spec_shifted_scale(held, spec_scaling_shift(isa, operands))) {
            (Some(bits), Some(now)) => after * two_to(bits as int) == before * two_to(now as int),
            (None, now) => now is None,
            _ => true,
        },
        spec_scaling_shift(isa, operands)->0.amount is None ==> spec_shifted_scale(
            held,
            spec_scaling_shift(isa, operands),
        ) is None,
        held is Some && 8 <= held->0 <= 247 && spec_scaling_shift(isa, operands)->0.amount is Some
            && spec_scaling_shift(isa, operands)->0.amount->0 <= 8 ==> spec_shifted_scale(
            held,
            spec_scaling_shift(isa, operands),
        ) is Some,
{
    let shift = spec_scaling_shift(isa, operands)->0;
    if let (Some(bits), Some(amount)) = (held, shift.amount) {
        if let Some(now) = spec_shifted_scale(held, Some(shift)) {
            let n = amount as int;
            if shift.right {
                lemma_powers_add(now as int, n);
                let p = two_to(n);
                let q = two_to(now as int);
                assert(after * (q * p) == (after * p) * q) by (nonlinear_arith);
            } else {
                lemma_powers_add(bits as int, n);
                let p = two_to(n);
                let q = two_to(bits as int);
                assert((before * p) * q == before * (q * p)) by (nonlinear_arith);
            }
        }
    }
}

proof fn lemma_shift_place(
    view: AnalysisView,
    listing: Seq<DecodedView>,
    at: int,
    register: u8,
    backwards: bool,
    room: nat,
)
    requires
        0 <= at < listing.len(),
        shift_position(view, listing, at, register, backwards, room) is Some,
    ensures
        ({
            let found = shift_position(view, listing, at, register, backwards, room)->0;
            &&& 0 <= found < listing.len()
            &&& if backwards {
                at - room <= found < at
            } else {
                at < found <= at + room
            }
            &&& spec_wanted_shift(listing[found].instruction, register, !backwards) is Some
        }),
    decreases room,
{
    let next = if backwards {
        at - 1
    } else {
        at + 1
    };
    if spec_wanted_shift(listing[next].instruction, register, !backwards) is None {
        lemma_shift_place(view, listing, next, register, backwards, (room - 1) as nat);
    }
}

/// Whether an instruction is the shift that a hint speaks of.
pub open spec fn normalises(instruction: Instruction, hint: FixedPointHint) -> bool {
    match instruction.operands {
        Operands::RotationDirectionSizeModeRegister(
            count,
            direction,
            _,
            from_register,
            register,
        ) => {
            &&& register == hint.register
            &&& (direction == Direction::Right) == (hint.kind == FixedPointKind::ScaledMultiply)
            &&& matches!(instruction.isa, Isa::Asr | Isa::Lsr)
            &&& hint.fractional_bits == if from_register {
                None
            } else if count == 0 {
                Some(8u8)
            } else {
                Some(count)
            }
        },
        _ => false,
    }
}

/// A hint on a multiplication is followed by a right shift of the product, one on a division is
/// preceded by a left shift of the dividend; the shift is of the same register, and its fixed
/// count is the number of fractional bits.
pub proof fn hints_name_the_normalising_shift(
    view: AnalysisView,
    listing: Seq<DecodedView>,
    at: int,
)
    requires
        0 <= at < listing.len(),
        hint_at(view, listing, at) is Some,
        forall|i: int, j: int|
            0 <= i < j < listing.len() ==> (#[trigger] listing[i]).address < (
            #[trigger] listing[j]).address,
    ensures
        ({
            let hint = hint_at(view, listing, at)->0;
            let isa = listing[at].instruction.isa;
            &&& hint.site == listing[at].address
            &&& exists|k: int|
                0 <= k < listing.len() && (#[trigger] listing[k]).address == hint.shift_site
                    && normalises(listing[k].instruction, hint)
            &&& match hint.kind {
                FixedPointKind::ScaledMultiply => hint.shift_site > hint.site && (isa
                    == Isa::Muls || isa == Isa::Mulu),
                FixedPointKind::ScaledDivide => hint.shift_site < hint.site && (isa
                    == Isa::Divs || isa == Isa::Divu),
            }
            &&& listing[at].instruction.operands matches Operands::RegisterEffectiveAddress(
                register,
                _,
            ) && register == hint.register
        }),
{
    let (register, kind, backwards) = spec_idiom(listing[at].instruction)->0;
    let room = WINDOW as nat;
    lemma_shift_place(view, listing, at, register, backwards, room);
    let k = shift_position(view, listing, at, register, backwards, room)->0;
    assert(listing[k].address == hint_at(view, listing, at)->0.shift_site);
}

} // verus!
