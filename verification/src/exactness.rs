//! That exact register values are what the registers hold.

use crate::analysis::AnalysisView;
use crate::constants::{registers_after, spec_kind_at};
use crate::decoded::DecodedView;
use crate::machine::{executed, moves_stack, wrapped, Machine};
use crate::meaning::{
    applied, claims_are_what_the_processor_does, is_encodable, operations_are_the_processors, position,
    stands_at,
};
use crate::register_write::{spec_is_call, spec_register_write};
use crate::values::{
    spec_apply_symbolic, spec_register_index, AbstractView, ExactOperation, RegisterKind,
    RegisterWrite,
};
use vstd::prelude::*;

verus! {

/// Whether every exact value is what its register holds.
pub open spec fn is_exact(state: Seq<AbstractView>, m: Machine) -> bool {
    &&& state.len() == 16
    &&& forall|i: int|
        #![trigger state[i]]
        0 <= i < 16 ==> (state[i] matches AbstractView::Exact(constant) ==> m.registers[i]
            == constant.value)
}

/// Exact values stay exact: where they were what the registers held before an instruction,
/// what they are said to become is what the registers hold after it. The stack pointer is left
/// out where the instruction moves it besides.
pub proof fn exact_values_stay_exact(
    view: AnalysisView,
    image_origin: Option<u32>,
    decoded: DecodedView,
    state: Seq<AbstractView>,
    m: Machine,
    i: int,
)
    requires
        m.wf(),
        stands_at(m, image_origin),
        view.relocations is None,
        decoded.instruction.wf(),
        is_encodable(decoded.instruction),
        is_exact(state, m),
        0 <= i < 16,
        i == 15 ==> !moves_stack(decoded.instruction.isa),
    ensures
        registers_after(view, image_origin, decoded, state)[i] matches AbstractView::Exact(constant)
            ==> executed(m, decoded.instruction).registers[i] == constant.value,
{
    if !spec_is_call(decoded.instruction.isa) {
        let kind = spec_kind_at(i as usize);
        let register = (i % 8) as u8;
        assert(position(kind, register) == i);
        claims_are_what_the_processor_does(view, image_origin, decoded, kind, register, m);
        assert(state[i] matches AbstractView::Exact(constant) ==> m.registers[i] == constant.value);
        match spec_register_write(view, image_origin, decoded, kind, register) {
            Some(RegisterWrite::Copy(source, other)) => {
                let from = spec_register_index(source, other) as int;
                lemma_copied(view, image_origin, decoded, kind, register, source, other);
                assert(state[from] matches AbstractView::Exact(constant) ==> m.registers[from]
                    == constant.value);
            },
            Some(RegisterWrite::Transform(operation)) => {
                if let AbstractView::Exact(constant) = state[i] {
                    operations_are_the_processors(operation, constant.value);
                }
            },
            _ => {},
        }
    }
}

proof fn lemma_copied(
    view: AnalysisView,
    image_origin: Option<u32>,
    decoded: DecodedView,
    kind: RegisterKind,
    register: u8,
    from: RegisterKind,
    other: u8,
)
    requires
        decoded.instruction.wf(),
        register < 8,
        spec_register_write(view, image_origin, decoded, kind, register) == Some(
            RegisterWrite::Copy(from, other),
        ),
    ensures
        other < 8,
{
}

/// What an operation makes of a symbolic value is the operation's result on whatever number it
/// stands for: the distance from it changes by the amount that is added.
pub proof fn operations_keep_the_distance(operation: ExactOperation, offset: u32, base: int)
    ensures
        match spec_apply_symbolic(operation, offset) {
            Some(now) => applied(operation, wrapped(base + offset)) == wrapped(base + now),
            None => !(operation is Add) && !(operation is Subtract),
        },
{
    match operation {
        ExactOperation::Add(amount) => {
            vstd::arithmetic::div_mod::lemma_add_mod_noop_right(
                amount as int,
                base + offset,
                0x1_0000_0000,
            );
            vstd::arithmetic::div_mod::lemma_add_mod_noop_right(
                base,
                offset + amount,
                0x1_0000_0000,
            );
            assert(spec_apply_symbolic(operation, offset)->0 == wrapped(offset + amount));
        },
        ExactOperation::Subtract(amount) => {
            vstd::arithmetic::div_mod::lemma_add_mod_noop_right(
                -amount,
                base + offset,
                0x1_0000_0000,
            );
            vstd::arithmetic::div_mod::lemma_add_mod_noop_right(
                base,
                offset - amount,
                0x1_0000_0000,
            );
            assert(spec_apply_symbolic(operation, offset)->0 == wrapped(offset - amount));
        },
        _ => {},
    }
}

} // verus!
