//! What the registers of a function's signature stand for.

use crate::collections::gathered;
use crate::dependence::{in_lanes, lemma_list_lanes};
use crate::effects::{
    first_registers_of, spec_lanes_for_registers, spec_lanes_of, spec_register_effects,
    spec_registers_for_lanes, spec_restored_register_mask, spec_saved_register_mask,
};
use crate::function::{
    lemma_gathered_from, spec_inputs, spec_masked_input, spec_masked_output, spec_masked_register,
    spec_note_inputs, spec_outputs, spec_preservation_transfer, spec_registers, Defined,
    FunctionInput, FunctionOutput, FunctionRegister, InputLog, Preservation,
};
use crate::m68k::Instruction;
use crate::machine::lists;
use crate::meaning::position;
use vstd::prelude::*;

verus! {

/// The place of a register among the sixteen.
pub open spec fn place(register: FunctionRegister) -> int {
    position(register.kind, register.index)
}

/// Whether an instruction writes any byte of a register.
pub open spec fn writes_any(instruction: Instruction, register: int) -> bool {
    let writes = spec_register_effects(instruction).writes;
    in_lanes(writes, register, 0) || in_lanes(writes, register, 1) || in_lanes(writes, register, 2)
        || in_lanes(writes, register, 3)
}

proof fn lemma_lanes(lanes: u64, register: u8)
    requires
        register < 16,
    ensures
        (spec_lanes_of(lanes, register) != 0) == (in_lanes(lanes, register as int, 0) || in_lanes(
            lanes,
            register as int,
            1,
        ) || in_lanes(lanes, register as int, 2) || in_lanes(lanes, register as int, 3)),
        spec_lanes_of(lanes, register) < 16,
        (spec_lanes_of(lanes, register) % 2 == 1) == in_lanes(lanes, register as int, 0),
        (spec_lanes_of(lanes, register) / 2 % 2 == 1) == in_lanes(lanes, register as int, 1),
        (spec_lanes_of(lanes, register) / 4 % 2 == 1) == in_lanes(lanes, register as int, 2),
        (spec_lanes_of(lanes, register) / 8 == 1) == in_lanes(lanes, register as int, 3),
{
    let up: u32 = ((register as u32) * 4) as u32;
    let a: u64 = (4 * register) as u64;
    let b: u64 = (4 * register + 1) as u64;
    let c: u64 = (4 * register + 2) as u64;
    let d: u64 = (4 * register + 3) as u64;
    let part: u8 = ((lanes >> up) & 0xf) as u8;
    assert({
        &&& (part != 0) == (lanes & (1u64 << a) != 0 || lanes & (1u64 << b) != 0 || lanes & (1u64
            << c) != 0 || lanes & (1u64 << d) != 0)
        &&& part < 16
        &&& (part % 2 == 1) == (lanes & (1u64 << a) != 0)
        &&& (part / 2 % 2 == 1) == (lanes & (1u64 << b) != 0)
        &&& (part / 4 % 2 == 1) == (lanes & (1u64 << c) != 0)
        &&& (part / 8 == 1) == (lanes & (1u64 << d) != 0)
    }) by (bit_vector)
        requires
            up <= 60,
            a == up,
            b == up + 1,
            c == up + 2,
            d == up + 3,
            part == ((lanes >> up) & 0xf) as u8,
    ;
}

/// The bits of masks, put together.
proof fn lemma_bits(left: u16, right: u16, at: int)
    requires
        0 <= at < 16,
    ensures
        lists(left & right, at) == (lists(left, at) && lists(right, at)),
        lists(left | right, at) == (lists(left, at) || lists(right, at)),
        lists(!left, at) == !lists(left, at),
        !lists(0, at),
{
    let bit: u16 = at as u16;
    assert({
        &&& ((left & right) & (1u16 << bit) != 0) == (left & (1u16 << bit) != 0 && right & (1u16
            << bit) != 0)
        &&& ((left | right) & (1u16 << bit) != 0) == (left & (1u16 << bit) != 0 || right & (1u16
            << bit) != 0)
        &&& (!left & (1u16 << bit) != 0) == (left & (1u16 << bit) == 0)
        &&& 0u16 & (1u16 << bit) == 0
    }) by (bit_vector)
        requires
            bit < 16,
    ;
}

proof fn lemma_single(bit: u8, at: int)
    requires
        bit < 16,
        0 <= at < 16,
    ensures
        lists(1u16 << (bit as u16), at) == (bit == at),
{
    crate::uses::lemma_one_bit(bit as u16, at as u16);
}

proof fn lemma_registers_of(lanes: u64, count: u8, at: int)
    requires
        count <= 16,
        0 <= at < 16,
    ensures
        lists(first_registers_of(lanes, count), at) == (at < count && spec_lanes_of(
            lanes,
            at as u8,
        ) != 0),
    decreases count,
{
    if count == 0 {
        lemma_bits(0, 0, at);
    } else {
        let last = (count - 1) as u8;
        lemma_registers_of(lanes, last, at);
        lemma_bits(first_registers_of(lanes, last), 1u16 << (last as u16), at);
        lemma_single(last, at);
    }
}

/// The registers of lanes are those with a byte among them.
pub proof fn registers_have_their_lanes(lanes: u64, at: int)
    requires
        0 <= at < 16,
    ensures
        lists(spec_registers_for_lanes(lanes), at) == (in_lanes(lanes, at, 0) || in_lanes(
            lanes,
            at,
            1,
        ) || in_lanes(lanes, at, 2) || in_lanes(lanes, at, 3)),
{
    lemma_registers_of(lanes, 16, at);
    lemma_lanes(lanes, at as u8);
}

proof fn lemma_lane_bits(left: u64, right: u64, register: int, lane: int)
    requires
        0 <= register < 16,
        0 <= lane < 4,
    ensures
        in_lanes(left & right, register, lane) == (in_lanes(left, register, lane) && in_lanes(
            right,
            register,
            lane,
        )),
        in_lanes(left | right, register, lane) == (in_lanes(left, register, lane) || in_lanes(
            right,
            register,
            lane,
        )),
        in_lanes(!left, register, lane) == !in_lanes(left, register, lane),
{
    let at: u64 = (4 * register + lane) as u64;
    assert({
        &&& ((left & right) & (1u64 << at) != 0) == (left & (1u64 << at) != 0 && right & (1u64 << at)
            != 0)
        &&& ((left | right) & (1u64 << at) != 0) == (left & (1u64 << at) != 0 || right & (1u64 << at)
            != 0)
        &&& (!left & (1u64 << at) != 0) == (left & (1u64 << at) == 0)
    }) by (bit_vector)
        requires
            at < 64,
    ;
}

/// An input is a byte that is read before the function has defined it, and not only to be
/// saved for the caller. Reading what is defined adds nothing.
pub proof fn inputs_are_read_before_they_are_defined(
    instruction: Instruction,
    preserved: u16,
    state: Defined,
    log: InputLog,
    register: int,
    lane: int,
)
    requires
        0 <= register < 16,
        0 <= lane < 4,
    ensures
        in_lanes(spec_note_inputs(instruction, preserved, state, log).lanes, register, lane) <==> {
            ||| in_lanes(log.lanes, register, lane)
            ||| {
                &&& in_lanes(spec_register_effects(instruction).reads, register, lane)
                &&& !in_lanes(state.0, register, lane)
                &&& !(lists(spec_saved_register_mask(instruction), register) && lists(
                    preserved,
                    register,
                ))
            }
        },
        lists(spec_note_inputs(instruction, preserved, state, log).pointers, register)
            ==> lists(log.pointers, register) || lists(
            spec_register_effects(instruction).pointers,
            register,
        ),
{
    let e = spec_register_effects(instruction);
    let saved = spec_saved_register_mask(instruction);
    let only = spec_lanes_for_registers(saved & preserved);
    let inputs = e.reads & !state.0 & !only;
    lemma_list_lanes(saved & preserved, 16, register, lane);
    lemma_bits(saved, preserved, register);
    lemma_lane_bits(e.reads, !state.0, register, lane);
    lemma_lane_bits(state.0, state.0, register, lane);
    lemma_lane_bits(only, only, register, lane);
    lemma_lane_bits(e.reads & !state.0, !only, register, lane);
    lemma_lane_bits(log.lanes, inputs, register, lane);
    lemma_bits(e.pointers, spec_registers_for_lanes(inputs), register);
    lemma_bits(log.pointers, e.pointers & spec_registers_for_lanes(inputs), register);
}

/// A register that is saved with the caller's value and then restored holds that value again,
/// whatever was written to it in between.
pub proof fn saved_registers_are_restored(
    push: Instruction,
    between: Instruction,
    pop: Instruction,
    state: Preservation,
    register: int,
)
    requires
        0 <= register < 16,
        lists(state.original, register),
        lists(spec_saved_register_mask(push), register),
        !lists(spec_restored_register_mask(push), register),
        !lists(spec_saved_register_mask(between), register),
        !lists(spec_restored_register_mask(between), register),
        !lists(spec_saved_register_mask(pop), register),
        lists(spec_restored_register_mask(pop), register),
    ensures
        lists(
            spec_preservation_transfer(
                pop,
                spec_preservation_transfer(between, spec_preservation_transfer(push, state)),
            ).original,
            register,
        ),
{
    let pushed = spec_preservation_transfer(push, state);
    let on = spec_preservation_transfer(between, pushed);
    lemma_transfer(push, state, register);
    lemma_transfer(between, pushed, register);
    lemma_transfer(pop, on, register);
}

/// A register that is written and not restored no longer holds the caller's value; one that is
/// neither written nor restored holds it if it did before.
pub proof fn written_registers_are_lost(
    instruction: Instruction,
    state: Preservation,
    register: int,
)
    requires
        0 <= register < 16,
        !lists(spec_restored_register_mask(instruction), register),
    ensures
        lists(spec_preservation_transfer(instruction, state).original, register) <==> lists(
            state.original,
            register,
        ) && !writes_any(instruction, register),
{
    lemma_transfer(instruction, state, register);
}

proof fn lemma_transfer(instruction: Instruction, state: Preservation, register: int)
    requires
        0 <= register < 16,
    ensures
        ({
            let after = spec_preservation_transfer(instruction, state);
            let pushed = lists(spec_saved_register_mask(instruction), register);
            let popped = lists(spec_restored_register_mask(instruction), register);
            let saved = if pushed {
                lists(state.original, register)
            } else {
                lists(state.saved, register)
            };
            &&& lists(after.original, register) == if popped {
                saved
            } else {
                lists(state.original, register) && !writes_any(instruction, register)
            }
            &&& lists(after.saved, register) == (saved && !popped)
        }),
{
    let pushed = spec_saved_register_mask(instruction);
    let popped = spec_restored_register_mask(instruction);
    let written = spec_registers_for_lanes(spec_register_effects(instruction).writes);
    let saved = (state.saved & !pushed) | (state.original & pushed);
    let original = state.original & !(written & !popped);
    registers_have_their_lanes(spec_register_effects(instruction).writes, register);
    lemma_bits(pushed, pushed, register);
    lemma_bits(popped, popped, register);
    lemma_bits(state.saved, !pushed, register);
    lemma_bits(state.original, pushed, register);
    lemma_bits(state.saved & !pushed, state.original & pushed, register);
    lemma_bits(written, !popped, register);
    lemma_bits(written & !popped, 0, register);
    lemma_bits(state.original, !(written & !popped), register);
    lemma_bits(original, !popped, register);
    lemma_bits(saved, popped, register);
    lemma_bits(original & !popped, saved & popped, register);
    lemma_bits(saved, !popped, register);
}

pub(crate) proof fn lemma_gathered_to<T>(n: int, each: spec_fn(int) -> Option<T>, k: int)
    requires
        0 <= k < n,
        each(k) is Some,
    ensures
        gathered(n, each).contains(each(k)->0),
    decreases n,
{
    let shorter = gathered(n - 1, each);
    let all = gathered(n, each);
    if k < n - 1 {
        lemma_gathered_to(n - 1, each, k);
        let i = choose|i: int| 0 <= i < shorter.len() && shorter[i] == each(k)->0;
        assert(all[i] == each(k)->0);
    } else {
        assert(all[all.len() - 1] == each(k)->0);
    }
}

/// The registers of a mask are listed, each under its own name, and no others.
pub proof fn masks_list_their_registers(mask: u16, register: FunctionRegister)
    requires
        register.index < 8,
    ensures
        spec_registers(mask).contains(register) <==> place(register) < 15 && lists(
            mask,
            place(register),
        ),
{
    let each = |bit: int| spec_masked_register(mask, bit as u8);
    if spec_registers(mask).contains(register) {
        let k = lemma_gathered_from(15, each, register);
        assert(k == place(register));
    }
    if place(register) < 15 && lists(mask, place(register)) {
        assert(each(place(register)) == Some(register));
        lemma_gathered_to(15, each, place(register));
    }
}

/// A function's inputs are the registers with input bytes, each with the bytes and with
/// whether it formed an address.
pub proof fn inputs_are_the_registers_with_lanes(lanes: u64, pointers: u16, input: FunctionInput)
    requires
        input.register.index < 8,
        spec_inputs(lanes, pointers).contains(input),
    ensures
        ({
            let at = place(input.register);
            &&& at < 15
            &&& 0 < input.lanes.0 < 16
            &&& (input.lanes.0 % 2 == 1) == in_lanes(lanes, at, 0)
            &&& (input.lanes.0 / 2 % 2 == 1) == in_lanes(lanes, at, 1)
            &&& (input.lanes.0 / 4 % 2 == 1) == in_lanes(lanes, at, 2)
            &&& (input.lanes.0 / 8 == 1) == in_lanes(lanes, at, 3)
            &&& input.pointer == lists(pointers, at)
        }),
{
    let each = |bit: int| spec_masked_input(lanes, pointers, bit as u8);
    let k = lemma_gathered_from(15, each, input);
    lemma_lanes(lanes, k as u8);
    assert(k == place(input.register));
}

/// Every register with input bytes is an input.
pub proof fn registers_with_lanes_are_inputs(lanes: u64, pointers: u16, at: int, lane: int)
    requires
        0 <= at < 15,
        0 <= lane < 4,
        in_lanes(lanes, at, lane),
    ensures
        exists|input: FunctionInput| #[trigger]
            spec_inputs(lanes, pointers).contains(input) && place(input.register) == at,
{
    let each = |bit: int| spec_masked_input(lanes, pointers, bit as u8);
    lemma_lanes(lanes, at as u8);
    assert(lane == 0 || lane == 1 || lane == 2 || lane == 3);
    lemma_gathered_to(15, each, at);
    let input = each(at)->0;
    assert(spec_inputs(lanes, pointers).contains(input) && place(input.register) == at);
}

/// A function's outputs are the registers with defined bytes, each with the bytes.
pub proof fn outputs_are_the_registers_with_lanes(lanes: u64, output: FunctionOutput)
    requires
        output.register.index < 8,
        spec_outputs(lanes).contains(output),
    ensures
        ({
            let at = place(output.register);
            &&& at < 15
            &&& 0 < output.lanes.0 < 16
            &&& (output.lanes.0 % 2 == 1) == in_lanes(lanes, at, 0)
            &&& (output.lanes.0 / 2 % 2 == 1) == in_lanes(lanes, at, 1)
            &&& (output.lanes.0 / 4 % 2 == 1) == in_lanes(lanes, at, 2)
            &&& (output.lanes.0 / 8 == 1) == in_lanes(lanes, at, 3)
        }),
{
    let each = |bit: int| spec_masked_output(lanes, bit as u8);
    let k = lemma_gathered_from(15, each, output);
    lemma_lanes(lanes, k as u8);
    assert(k == place(output.register));
}

/// Every register with defined bytes is an output.
pub proof fn registers_with_lanes_are_outputs(lanes: u64, at: int, lane: int)
    requires
        0 <= at < 15,
        0 <= lane < 4,
        in_lanes(lanes, at, lane),
    ensures
        exists|output: FunctionOutput| #[trigger]
            spec_outputs(lanes).contains(output) && place(output.register) == at,
{
    let each = |bit: int| spec_masked_output(lanes, bit as u8);
    lemma_lanes(lanes, at as u8);
    assert(lane == 0 || lane == 1 || lane == 2 || lane == 3);
    lemma_gathered_to(15, each, at);
    let output = each(at)->0;
    assert(spec_outputs(lanes).contains(output) && place(output.register) == at);
}

} // verus!
