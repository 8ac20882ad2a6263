//! What stopping on a watchpoint promises of a run.

use crate::bus::{plainly_made, BusRequest};
use crate::execute::{advanced, cleared, plain_round, RunOptions, RunView};
use crate::interpreter::{
    core_turn, fetched_at, fetched_rest, instruction_words, is_plain_talk, plain_talk, word_address,
    Turn,
};
use crate::memory::{
    is_watched, is_width, watched_bytes_are_noticed, word_of, MemoryView, WatchAccess,
};
use crate::registers::RegistersView;
use vstd::prelude::*;

verus! {

/// Whether every access that the core makes is a byte, a word or a longword wide.
pub open spec fn asks_in_widths(registers: RegistersView) -> bool {
    forall|fetched: Seq<Option<u16>>, answers: Seq<Option<u32>>|
        match #[trigger] core_turn(registers, fetched, answers) {
            Turn::Asks(BusRequest::Read { size, .. }) => is_width(size),
            Turn::Asks(BusRequest::Write { size, .. }) => is_width(size),
            Turn::Ends(_) => true,
        }
}

/// Whether a byte is watched for stores.
pub open spec fn is_guarded(memory: MemoryView, a: u32) -> bool {
    exists|i: int|
        0 <= i < memory.watchpoints.len() && is_watched(#[trigger] memory.watchpoints[i], a as int)
            && memory.watchpoints[i].access != WatchAccess::Read
}

/// Whether `after` follows from `before`, with nothing changed behind a watchpoint's back.
spec fn nothing_escapes(before: MemoryView, after: MemoryView, a: u32) -> bool {
    &&& after.watchpoints == before.watchpoints
    &&& after.bytes.dom() == before.bytes.dom()
    &&& before.watch_latch is Some ==> after.watch_latch is Some
    &&& after.bytes[a] == before.bytes[a] || after.watch_latch is Some
}

proof fn lemma_access(memory: MemoryView, request: BusRequest, a: u32)
    requires
        is_guarded(memory, a),
        memory.bytes.dom().contains(a),
        match request {
            BusRequest::Read { size, .. } => is_width(size),
            BusRequest::Write { size, .. } => is_width(size),
        },
    ensures
        nothing_escapes(memory, plainly_made(memory, request).1, a),
{
    let after = plainly_made(memory, request).1;
    assert(after.bytes.dom() =~= memory.bytes.dom());
    if let BusRequest::Write { addr, size, value } = request {
        if after.bytes[a] != memory.bytes[a] {
            let i = choose|i: int|
                0 <= i < memory.watchpoints.len() && is_watched(
                    #[trigger] memory.watchpoints[i],
                    a as int,
                ) && memory.watchpoints[i].access != WatchAccess::Read;
            watched_bytes_are_noticed(memory, i, a, addr, size, value);
        }
    }
}

proof fn lemma_talk(
    registers: RegistersView,
    fetched: Seq<Option<u16>>,
    memory: MemoryView,
    answers: Seq<Option<u32>>,
    a: u32,
)
    requires
        asks_in_widths(registers),
        is_guarded(memory, a),
        memory.bytes.dom().contains(a),
    ensures
        plain_talk(registers, fetched, memory, answers) matches Some(after) ==> nothing_escapes(
            memory,
            after,
            a,
        ),
    decreases answers.len(),
{
    if answers.len() > 0 {
        let said = answers.drop_last();
        lemma_talk(registers, fetched, memory, said, a);
        if let Some(before) = plain_talk(registers, fetched, memory, said) {
            if let Turn::Asks(request) = core_turn(registers, fetched, said) {
                assert(is_guarded(before, a));
                lemma_access(before, request, a);
            }
        }
    }
}

proof fn lemma_fetch_rest(
    pc: u32,
    words: Seq<Option<u16>>,
    total: int,
    memory: MemoryView,
)
    ensures
        fetched_rest(pc, words, total, memory).1.bytes == memory.bytes,
        fetched_rest(pc, words, total, memory).1.watchpoints == memory.watchpoints,
    decreases total - words.len(),
{
    if words.len() < total {
        let (value, after) = memory.after_read(word_address(pc, words.len() as int), 2);
        if value is Some {
            lemma_fetch_rest(pc, words.push(word_of(value)), total, after);
        }
    }
}

/// A run that stops on watchpoints never goes on past a change to a watched byte: where an
/// instruction that raises no exception leaves the run going, every byte that is watched
/// for stores is as it was.
pub proof fn watched_bytes_never_change_unnoticed(
    options: RunOptions,
    state: RunView,
    index: int,
    a: u32,
)
    requires
        options.stop_on_watch,
        asks_in_widths(state.registers),
        is_guarded(state.memory, a),
        state.memory.bytes.dom().contains(a),
        plain_round(options, state).executed.outcome.vector is None,
    ensures
        ({
            let after = advanced(options, index, state, plain_round(options, state));
            after.stop is None ==> after.memory.bytes[a] == state.memory.bytes[a]
        }),
{
    assert(state.at(state.point()) == state);
    let start = cleared(state.memory);
    let registers = state.registers;
    let outcome = plain_round(options, state).executed.outcome;
    let (fetched, after) = fetched_at(registers.pc, start);
    if registers.pc % 2 == 0 {
        let (value, read) = start.after_read(registers.pc, 2);
        if let Some(opcode) = word_of(value) {
            lemma_fetch_rest(
                registers.pc,
                seq![Some(opcode)],
                instruction_words(opcode),
                read,
            );
        }
    }
    assert(after.bytes == start.bytes && after.watchpoints == start.watchpoints);
    if let Some(words) = fetched {
        assert(is_guarded(after, a));
        if exists|answers: Seq<Option<u32>>| is_plain_talk(registers, words, after, answers) {
            let answers = choose|answers: Seq<Option<u32>>|
                is_plain_talk(registers, words, after, answers);
            lemma_talk(registers, words, after, answers, a);
        }
    }
}

} // verus!
