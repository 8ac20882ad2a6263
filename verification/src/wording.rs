//! What listings and texts say: the deltas of a step, the counts of a call graph, numbers and
//! names as they are written, and the lines of an fd file.

use crate::callgraph::{callees_of, callers_of, occurrences};
use crate::collections::AddressPair;
use crate::constants::spec_parse_register;
use crate::fd::{
    after_function, first_at, items, number, spec_is_digit, spec_is_name_character,
    spec_parse_function, spec_parse_number, unsigned_digits, valid_name, Progress, MAX_BIAS,
};
use crate::function::{lemma_gathered_from, FunctionRegister};
use crate::registers::{delta_at, deltas, register_at, Register, RegisterDelta, RegistersView};
use crate::signatures::lemma_gathered_to;
use crate::text::{decimal, digit_char, spec_is_whitespace, trim};
use crate::values::RegisterKind;
use vstd::prelude::*;

verus! {

/// What a register holds.
pub open spec fn held(file: RegistersView, register: Register) -> u32 {
    match register {
        Register::Data(number) => file.d[number as int],
        Register::Address(number) => file.a[number as int],
        Register::Usp => file.usp,
        Register::Ssp => file.ssp,
        Register::Status => file.sr as u32,
    }
}

/// Whether a register is one of the register file.
pub open spec fn is_named(register: Register) -> bool {
    match register {
        Register::Data(number) => number < 8,
        Register::Address(number) => number < 7,
        _ => true,
    }
}

/// The deltas of a step are the registers that it changed, each with what it held before and
/// holds after, and no others.
pub proof fn deltas_are_the_changes(
    before: RegistersView,
    after: RegistersView,
    delta: RegisterDelta,
)
    requires
        is_named(delta.register),
    ensures
        deltas(before, after).contains(delta) <==> {
            &&& delta.before == held(before, delta.register)
            &&& delta.after == held(after, delta.register)
            &&& delta.before != delta.after
        },
{
    let each = |i: int| delta_at(before, after, i);
    let place: int = match delta.register {
        Register::Data(number) => number as int,
        Register::Address(number) => 8 + number,
        Register::Usp => 15,
        Register::Ssp => 16,
        Register::Status => 17,
    };
    assert(register_at(before, place).0 == delta.register);
    if deltas(before, after).contains(delta) {
        let k = lemma_gathered_from(18, each, delta);
        assert(k == place);
    }
    if delta.before == held(before, delta.register) && delta.after == held(after, delta.register)
        && delta.before != delta.after {
        assert(each(place) == Some(delta));
        lemma_gathered_to(18, each, place);
    }
}

/// Where there are no deltas, the registers are the same.
pub proof fn no_deltas_no_change(before: RegistersView, after: RegistersView, register: Register)
    requires
        is_named(register),
        deltas(before, after).len() == 0,
    ensures
        held(before, register) == held(after, register),
{
    let delta = RegisterDelta {
        register,
        before: held(before, register),
        after: held(after, register),
    };
    deltas_are_the_changes(before, after, delta);
}

/// How often a call occurs is how many times it is among the calls.
pub proof fn occurrences_are_counted(calls: Seq<AddressPair>, call: AddressPair)
    ensures
        occurrences(calls, call) == calls.to_multiset().count(call),
    decreases calls.len(),
{
    broadcast use vstd::multiset::group_multiset_axioms;
    broadcast use vstd::seq_lib::group_to_multiset_ensures;

    if calls.len() == 0 {
        assert(!calls.contains(call));
    } else {
        let before = calls.drop_last();
        occurrences_are_counted(before, call);
        assert(before.push(calls.last()) =~= calls);
    }
}

/// Who calls a function is one whom that function is called by.
pub proof fn callers_call(calls: Seq<AddressPair>, caller: u32, callee: u32)
    ensures
        callers_of(calls, callee).contains(caller) <==> callees_of(calls, caller).contains(callee),
        callers_of(calls, callee).contains(caller) <==> occurrences(
            calls,
            AddressPair { first: caller, second: callee },
        ) > 0,
{
    let call = AddressPair { first: caller, second: callee };
    occurrences_are_counted(calls, call);
    broadcast use vstd::multiset::group_multiset_axioms;
    broadcast use vstd::seq_lib::group_to_multiset_ensures;

    assert(calls.contains(call) <==> calls.to_multiset().count(call) > 0);
}

proof fn lemma_digits(value: nat)
    ensures
        decimal(value).len() > 0,
        forall|i: int| 0 <= i < decimal(value).len() ==> spec_is_digit(#[trigger] decimal(value)[i]),
        number(decimal(value)) == value,
    decreases value,
{
    let text = decimal(value);
    if value < 10 {
        assert(text =~= seq![digit_char(value)]);
        assert(text.drop_last() =~= Seq::empty());
        reveal_with_fuel(number, 2);
    } else {
        lemma_digits(value / 10);
        let upper = decimal(value / 10);
        assert(text =~= upper.push(digit_char(value % 10)));
        assert(text.drop_last() =~= upper);
        assert forall|i: int| 0 <= i < text.len() implies spec_is_digit(#[trigger] text[i]) by {
            if i < upper.len() {
                assert(text[i] == upper[i]);
            }
        }
    }
}

/// A number that is written in decimal is read back, with a plus sign before it or not.
pub proof fn written_numbers_are_read_back(value: u32)
    ensures
        spec_parse_number(decimal(value as nat)) == Some(value),
        spec_parse_number(seq!['+'] + decimal(value as nat)) == Some(value),
{
    lemma_digits(value as nat);
    let text = decimal(value as nat);
    assert(spec_is_digit(text[0]));
    let signed = seq!['+'] + text;
    assert(signed.skip(1) =~= text);
    assert(unsigned_digits(text) == text);
}

proof fn lemma_no_space(text: Seq<char>)
    requires
        text.len() > 0,
        !spec_is_whitespace(text[0]),
        !spec_is_whitespace(text.last()),
    ensures
        trim(text) == text,
{
}

/// The name of a register is read as that register, in capitals or not.
pub proof fn written_registers_are_read_back(register: FunctionRegister)
    requires
        register.index < 8,
    ensures
        spec_parse_register(register.spec_label()) == Some((register.kind, register.index)),
        spec_parse_register(
            seq![
                match register.kind {
                    RegisterKind::Data => 'd',
                    RegisterKind::Address => 'a',
                },
                digit_char(register.index as nat),
            ],
        ) == Some((register.kind, register.index)),
{
    reveal_strlit("D");
    reveal_strlit("A");
    let text = register.spec_label();
    assert(decimal(register.index as nat) =~= seq![digit_char(register.index as nat)]);
    assert(text.len() == 2);
    assert(text[1] == digit_char(register.index as nat));
    lemma_no_space(text);
    let small = seq![
        match register.kind {
            RegisterKind::Data => 'd',
            RegisterKind::Address => 'a',
        },
        digit_char(register.index as nat),
    ];
    lemma_no_space(small);
}

/// Functions that follow each other stand six bytes apart, the length of a jump, and each is
/// public or private as was said last.
pub proof fn functions_stand_a_jump_apart(
    progress: Progress,
    line: nat,
    text: Seq<char>,
    next: nat,
    other: Seq<char>,
)
    requires
        after_function(progress, line, text) is Next,
        after_function(after_function(progress, line, text)->Next_0, next, other) is Next,
    ensures
        ({
            let first = after_function(progress, line, text)->Next_0;
            let second = after_function(first, next, other)->Next_0;
            let n = progress.entries.len() as int;
            &&& second.entries.len() == n + 2
            &&& second.entries.take(n) == progress.entries
            &&& second.entries[n].bias == progress.bias->0
            &&& second.entries[n + 1].bias == second.entries[n].bias + 6
            &&& second.entries[n].public == progress.public
            &&& second.entries[n + 1].public == progress.public
            &&& second.base == progress.base
        }),
{
    let first = after_function(progress, line, text)->Next_0;
    let second = after_function(first, next, other)->Next_0;
    assert(second.entries.take(progress.entries.len() as int) =~= progress.entries);
}

proof fn lemma_first_at(text: Seq<char>, c: char, from: int, at: int)
    requires
        0 <= from <= at < text.len(),
        text[at] == c,
        forall|i: int| from <= i < at ==> #[trigger] text[i] != c,
    ensures
        first_at(text, c, from) == at,
    decreases at - from,
{
    if from < at {
        assert(text[from] != c);
        lemma_first_at(text, c, from + 1, at);
    }
}

/// Whether a text holds no bracket.
pub open spec fn is_plain(text: Seq<char>) -> bool {
    forall|i: int| 0 <= i < text.len() ==> #[trigger] text[i] != '(' && text[i] != ')'
}

/// A function line, `name(parameters)(registers)`, is read as what is written: the name, the
/// parameters between the first brackets and the registers between the second.
pub proof fn written_functions_are_read_back(
    name: Seq<char>,
    parameters: Seq<char>,
    registers: Seq<char>,
    line: nat,
    bias: u32,
    public: bool,
)
    requires
        valid_name(name),
        is_plain(parameters),
        is_plain(registers),
        0 < bias <= MAX_BIAS,
    ensures
        spec_parse_function(
            name + seq!['('] + parameters + seq![')', '('] + registers + seq![')'],
            line,
            bias,
            public,
        ) matches Ok(entry) && {
            &&& entry.name == name
            &&& entry.bias == bias
            &&& entry.public == public
            &&& entry.params == items(parameters, true)
            &&& entry.registers == items(registers, false)
        },
{
    let text = name + seq!['('] + parameters + seq![')', '('] + registers + seq![')'];
    let open = name.len() as int;
    let close = open + 1 + parameters.len();
    assert forall|i: int| 0 <= i < open implies #[trigger] text[i] != '(' by {
        assert(text[i] == name[i]);
        assert(spec_is_name_character(name[i]));
    }
    assert(text[open] == '(');
    lemma_first_at(text, '(', 0, open);
    assert forall|i: int| open + 1 <= i < close implies #[trigger] text[i] != ')' by {
        assert(text[i] == parameters[i - open - 1]);
    }
    assert(text[close] == ')');
    lemma_first_at(text, ')', open + 1, close);
    assert(text.take(open) =~= name);
    assert(spec_is_name_character(name[0]) && spec_is_name_character(name.last()));
    lemma_no_space(name);
    let tail = text.skip(close + 1);
    assert(tail =~= seq!['('] + registers + seq![')']);
    lemma_no_space(tail);
    assert(text.subrange(open + 1, close) =~= parameters);
    assert(tail.subrange(1, tail.len() - 1) =~= registers);
}

} // verus!
