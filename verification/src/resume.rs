//! Running on from where a run stopped.

use crate::bus::{plainly_made, BusRequest, Devices};
use crate::execute::{
    advanced, cleared, concluded, goes_on, guest_trapped, performed, plain_end, plain_round,
    plain_run, retains, started, trap_entry, RunOptions, RunView,
};
use crate::host::{Point, StopReason};
use crate::interpreter::{
    core_turn, fetched_at, fetched_rest, instruction_words, interpreted, is_plain_talk, plain_talk,
    plain_talks_are_unique, word_address, Outcome, Turn,
};
use crate::memory::{word_of, Access, Fault, MemoryView};
use crate::registers::{RegisterFile, RegistersView, STATUS_BITS};
use vstd::prelude::*;

verus! {

/// Whether two memories differ at most in the matching accesses that were counted and
/// retained.
pub open spec fn alike(left: MemoryView, right: MemoryView) -> bool {
    right == (MemoryView {
        accesses: right.accesses,
        watch_events_total: right.watch_events_total,
        ..left
    })
}

/// Whether two memories differ at most in what a watchpoint saw.
pub open spec fn akin(left: MemoryView, right: MemoryView) -> bool {
    right == (MemoryView {
        accesses: right.accesses,
        watch_events_total: right.watch_events_total,
        watch_latch: right.watch_latch,
        ..left
    })
}

/// Memories that are alike answer an access alike.
proof fn lemma_made_alike(left: MemoryView, right: MemoryView, request: BusRequest)
    requires
        alike(left, right),
    ensures
        plainly_made(left, request).0 == plainly_made(right, request).0,
        alike(plainly_made(left, request).1, plainly_made(right, request).1),
{
}

proof fn lemma_rest_alike(
    pc: u32,
    fetched: Seq<Option<u16>>,
    count: int,
    left: MemoryView,
    right: MemoryView,
)
    requires
        alike(left, right),
    ensures
        fetched_rest(pc, fetched, count, left).0 == fetched_rest(pc, fetched, count, right).0,
        alike(
            fetched_rest(pc, fetched, count, left).1,
            fetched_rest(pc, fetched, count, right).1,
        ),
    decreases count - fetched.len(),
{
    if fetched.len() < count {
        let at = word_address(pc, fetched.len() as int);
        lemma_made_alike(left, right, BusRequest::Read { addr: at, size: 2 });
        let (value, one) = left.after_read(at, 2);
        let two = right.after_read(at, 2).1;
        if value is Some {
            lemma_rest_alike(pc, fetched.push(word_of(value)), count, one, two);
        }
    }
}

proof fn lemma_fetched_alike(pc: u32, left: MemoryView, right: MemoryView)
    requires
        alike(left, right),
    ensures
        fetched_at(pc, left).0 == fetched_at(pc, right).0,
        alike(fetched_at(pc, left).1, fetched_at(pc, right).1),
{
    if pc % 2 == 0 {
        lemma_made_alike(left, right, BusRequest::Read { addr: pc, size: 2 });
        let (value, one) = left.after_read(pc, 2);
        let two = right.after_read(pc, 2).1;
        if let Some(opcode) = word_of(value) {
            lemma_rest_alike(pc, seq![Some(opcode)], instruction_words(opcode), one, two);
        }
    }
}

proof fn lemma_talk_alike(
    registers: RegistersView,
    fetched: Seq<Option<u16>>,
    left: MemoryView,
    right: MemoryView,
    answers: Seq<Option<u32>>,
)
    requires
        alike(left, right),
    ensures
        match (
            plain_talk(registers, fetched, left, answers),
            plain_talk(registers, fetched, right, answers),
        ) {
            (Some(one), Some(two)) => alike(one, two),
            (None, None) => true,
            _ => false,
        },
    decreases answers.len(),
{
    if answers.len() > 0 {
        let said = answers.drop_last();
        lemma_talk_alike(registers, fetched, left, right, said);
        match (
            plain_talk(registers, fetched, left, said),
            plain_talk(registers, fetched, right, said),
            core_turn(registers, fetched, said),
        ) {
            (Some(one), Some(two), Turn::Asks(request)) => {
                lemma_made_alike(one, two, request);
            },
            _ => {},
        }
    }
}

proof fn lemma_interpreted_alike(
    registers: RegistersView,
    fetched: Seq<Option<u16>>,
    left: MemoryView,
    right: MemoryView,
    devices: Devices,
)
    requires
        alike(left, right),
    ensures
        ({
            let one = interpreted(registers, fetched, left, devices);
            let two = interpreted(registers, fetched, right, devices);
            &&& alike(one.memory, two.memory)
            &&& two == (Outcome { memory: two.memory, ..one })
        }),
{
    assert forall|answers: Seq<Option<u32>>|
        is_plain_talk(registers, fetched, left, answers) == is_plain_talk(
            registers,
            fetched,
            right,
            answers,
        ) by {
        lemma_talk_alike(registers, fetched, left, right, answers);
    }
    if exists|answers: Seq<Option<u32>>| is_plain_talk(registers, fetched, left, answers) {
        let first = choose|answers: Seq<Option<u32>>|
            is_plain_talk(registers, fetched, left, answers);
        let second = choose|answers: Seq<Option<u32>>|
            is_plain_talk(registers, fetched, right, answers);
        assert(is_plain_talk(registers, fetched, right, first));
        plain_talks_are_unique(registers, fetched, right, first, second);
        lemma_talk_alike(registers, fetched, left, right, first);
    } else {
        assert forall|answers: Seq<Option<u32>>| !is_plain_talk(
            registers,
            fetched,
            right,
            answers,
        ) by {
            assert(!is_plain_talk(registers, fetched, left, answers));
        }
    }
}

/// Whether the opcode word at a program counter is refused.
pub open spec fn opcode_refused(pc: u32, memory: MemoryView) -> bool {
    pc % 2 == 0 && memory.after_read(pc, 2).0 is None
}

/// The program counter past a word.
pub open spec fn past_word(registers: RegistersView) -> RegistersView {
    RegistersView { pc: ((registers.pc + 2) % 0x1_0000_0000) as u32, ..registers }
}

/// Over memories that are alike an instruction does the same, whether it is printed or
/// not; only where its opcode word is refused the machine that does not print has stepped
/// past it.
proof fn lemma_performed_alike(
    prints: bool,
    other: bool,
    registers: RegistersView,
    left: MemoryView,
    right: MemoryView,
    devices: Devices,
)
    requires
        alike(left, right),
    ensures
        ({
            let one = performed(prints, Point { registers, memory: left, devices }).1;
            let two = performed(other, Point { registers, memory: right, devices }).1;
            &&& alike(one.memory, two.memory)
            &&& two == (Outcome {
                memory: two.memory,
                registers: two.registers,
                ..one
            })
            &&& opcode_refused(registers.pc, left) && prints != other ==> {
                &&& prints ==> two.registers == past_word(one.registers)
                &&& other ==> one.registers == past_word(two.registers)
                &&& one.vector == Some(2u8)
                &&& one.memory.last_fault == Some(
                    Fault { address: registers.pc, access: Access::Read, size: 2 },
                )
            }
            &&& !(opcode_refused(registers.pc, left) && prints != other) ==> two.registers
                == one.registers
        }),
{
    lemma_fetched_alike(registers.pc, left, right);
    let (fetched, after) = fetched_at(registers.pc, left);
    let rest = fetched_at(registers.pc, right).1;
    if let Some(words) = fetched {
        lemma_interpreted_alike(registers, words, after, rest, devices);
        lemma_opcode(registers.pc, left);
    }
    lemma_made_alike(left, right, BusRequest::Read { addr: registers.pc, size: 2 });
}

/// What is fetched starts with the opcode word.
proof fn lemma_opcode(pc: u32, memory: MemoryView)
    ensures
        fetched_at(pc, memory).0 matches Some(words) ==> {
            &&& pc % 2 == 1 ==> words.len() == 0
            &&& pc % 2 == 0 ==> words.len() > 0 && words[0] is None == opcode_refused(pc, memory)
            &&& opcode_refused(pc, memory) ==> fetched_at(pc, memory).1 == memory.after_read(
                pc,
                2,
            ).1
        },
{
    if pc % 2 == 0 {
        let (value, after) = memory.after_read(pc, 2);
        if let Some(opcode) = word_of(value) {
            lemma_rest_keeps(pc, seq![Some(opcode)], instruction_words(opcode), after);
        }
    }
}

proof fn lemma_rest_keeps(pc: u32, fetched: Seq<Option<u16>>, count: int, memory: MemoryView)
    requires
        fetched.len() > 0,
    ensures
        fetched_rest(pc, fetched, count, memory).0 matches Some(words) ==> words.len() > 0
            && words[0] == fetched[0],
    decreases count - fetched.len(),
{
    if fetched.len() < count {
        let (value, after) = memory.after_read(word_address(pc, fetched.len() as int), 2);
        if value is Some {
            lemma_rest_keeps(pc, fetched.push(word_of(value)), count, after);
        }
    }
}

proof fn lemma_trapped_alike(left: Point, right: Point, vector: u8, site: u32)
    requires
        left.registers == right.registers,
        left.devices == right.devices,
        alike(left.memory, right.memory),
    ensures
        guest_trapped(left, vector, site).0 == guest_trapped(right, vector, site).0,
        guest_trapped(left, vector, site).1.registers == guest_trapped(
            right,
            vector,
            site,
        ).1.registers,
        guest_trapped(left, vector, site).1.devices == guest_trapped(right, vector, site).1.devices,
        alike(
            guest_trapped(left, vector, site).1.memory,
            guest_trapped(right, vector, site).1.memory,
        ),
{
    assert(trap_entry(left, vector, site) == trap_entry(right, vector, site));
    if let Ok((_, sp)) = trap_entry(left, vector, site) {
        let at = (vector * 4) as u32;
        let read = BusRequest::Read { addr: at, size: 4 };
        lemma_made_alike(left.memory, right.memory, read);
        let (one, two) = (left.memory.after_read(at, 4).1, right.memory.after_read(at, 4).1);
        let pc = left.registers.pc;
        let up = (sp + 2) as u32;
        lemma_made_alike(one, two, BusRequest::Write { addr: up, size: 4, value: pc });
        let (half, other) = (one.after_write(up, 4, pc), two.after_write(up, 4, pc));
        let sr = left.registers.sr as u32;
        lemma_made_alike(half.1, other.1, BusRequest::Write { addr: sp, size: 2, value: sr });
    }
}

/// How many trace rows a run keeps of `index` instructions.
pub open spec fn rows_of(options: RunOptions, index: int) -> int {
    if !options.record_steps {
        0
    } else {
        match options.retained_steps {
            Some(cap) => if cap < index {
                cap as int
            } else {
                index
            },
            None => index,
        }
    }
}

/// Whether a status register has only the bits that the processor implements.
pub open spec fn is_status(sr: u16) -> bool {
    sr & STATUS_BITS == sr
}

/// What holds of a run over plain memory after `index` instructions, while nothing has
/// stopped it.
pub open spec fn is_underway(options: RunOptions, state: RunView, index: int) -> bool {
    &&& state.stop is None
    &&& state.steps.len() == rows_of(options, index)
    &&& state.steps_executed == index
    &&& is_status(state.registers.sr)
}

/// The run after one more instruction.
#[verifier::opaque]
spec fn next(options: RunOptions, state: RunView, index: int) -> RunView {
    advanced(options, index, state, plain_round(options, state))
}

proof fn lemma_status(sr: u16)
    ensures
        is_status(sr & STATUS_BITS),
        is_status(sr) ==> is_status((sr | 0x2000) & 0x7fff),
        is_status(0x2700),
{
    assert((sr & 0xa71fu16) & 0xa71fu16 == sr & 0xa71fu16) by (bit_vector);
    assert(sr & 0xa71fu16 == sr ==> ((sr | 0x2000u16) & 0x7fffu16) & 0xa71fu16 == (sr | 0x2000u16)
        & 0x7fffu16) by (bit_vector);
    assert(0x2700u16 & 0xa71fu16 == 0x2700u16) by (bit_vector);
}

/// Whether two memories are watched alike.
pub open spec fn watches_as(left: MemoryView, right: MemoryView) -> bool {
    &&& left.watchpoints == right.watchpoints
    &&& left.retained_watch_events == right.retained_watch_events
}

proof fn lemma_rest_watches(pc: u32, fetched: Seq<Option<u16>>, count: int, memory: MemoryView)
    ensures
        watches_as(memory, fetched_rest(pc, fetched, count, memory).1),
    decreases count - fetched.len(),
{
    if fetched.len() < count {
        let (value, after) = memory.after_read(word_address(pc, fetched.len() as int), 2);
        if value is Some {
            lemma_rest_watches(pc, fetched.push(word_of(value)), count, after);
        }
    }
}

proof fn lemma_fetched_watches(pc: u32, memory: MemoryView)
    ensures
        watches_as(memory, fetched_at(pc, memory).1),
{
    if pc % 2 == 0 {
        let (value, after) = memory.after_read(pc, 2);
        if let Some(opcode) = word_of(value) {
            lemma_rest_watches(pc, seq![Some(opcode)], instruction_words(opcode), after);
        }
    }
}

proof fn lemma_talk_watches(
    registers: RegistersView,
    fetched: Seq<Option<u16>>,
    memory: MemoryView,
    answers: Seq<Option<u32>>,
)
    ensures
        plain_talk(registers, fetched, memory, answers) matches Some(after) ==> watches_as(
            memory,
            after,
        ),
    decreases answers.len(),
{
    if answers.len() > 0 {
        lemma_talk_watches(registers, fetched, memory, answers.drop_last());
    }
}

proof fn lemma_next(options: RunOptions, state: RunView, index: int)
    requires
        is_underway(options, state, index),
        0 <= index,
    ensures
        ({
            let after = next(options, state, index);
            &&& after.steps_executed == index + 1
            &&& after.devices == state.devices
            &&& watches_as(state.memory, after.memory)
            &&& after.stop != Some(StopReason::StepLimit)
            &&& after.stop is None ==> is_underway(options, after, index + 1)
        }),
{
    reveal(next);
    assert(state.at(state.point()) == state);
    let outcome = plain_round(options, state).executed.outcome;
    lemma_status(state.registers.sr);
    lemma_status(outcome.registers.sr);
    lemma_outcome(
        retains(options, state.steps.len()),
        Point { memory: cleared(state.memory), ..state.point() },
    );
    if let Some(vector) = outcome.vector {
        lemma_dispatch(outcome.point(), vector, state.registers.pc);
    }
}

proof fn lemma_outcome(prints: bool, point: Point)
    requires
        is_status(point.registers.sr),
    ensures
        is_status(performed(prints, point).1.registers.sr),
        performed(prints, point).1.devices == point.devices,
        watches_as(point.memory, performed(prints, point).1.memory),
{
    lemma_status(point.registers.sr);
    lemma_fetched_watches(point.registers.pc, point.memory);
    let (fetched, after) = fetched_at(point.registers.pc, point.memory);
    if let Some(words) = fetched {
        let (registers, devices) = (point.registers, point.devices);
        if exists|answers: Seq<Option<u32>>| is_plain_talk(registers, words, after, answers) {
            let answers = choose|answers: Seq<Option<u32>>|
                is_plain_talk(registers, words, after, answers);
            lemma_status(core_turn(registers, words, answers)->Ends_0.registers.sr);
            lemma_talk_watches(registers, words, after, answers);
        }
    }
}

proof fn lemma_dispatch(point: Point, vector: u8, site: u32)
    requires
        is_status(point.registers.sr),
    ensures
        is_status(guest_trapped(point, vector, site).1.registers.sr),
        guest_trapped(point, vector, site).1.devices == point.devices,
        watches_as(point.memory, guest_trapped(point, vector, site).1.memory),
        guest_trapped(point, vector, site).0 != Some(StopReason::StepLimit),
{
    lemma_status(point.registers.sr);
}

/// Whether two runs stand at the same point, up to what a watchpoint saw.
pub open spec fn in_step(left: RunView, right: RunView) -> bool {
    &&& left.registers == right.registers
    &&& akin(left.memory, right.memory)
    &&& left.devices == right.devices
}

/// The reason that a run stops for where the opcode word at `pc` is refused.
pub open spec fn refused_opcode(pc: u32) -> StopReason {
    StopReason::Fault { fault: Fault { address: pc, access: Access::Read, size: 2 }, site: pc }
}

/// One instruction of two runs that stand at the same point.
proof fn lemma_next_in_step(
    left: RunOptions,
    right: RunOptions,
    one: RunView,
    two: RunView,
    i: int,
    j: int,
)
    requires
        left == (RunOptions { max_steps: left.max_steps, resume: left.resume, ..right }),
        is_underway(left, one, i),
        is_underway(right, two, j),
        0 <= j <= i,
        in_step(one, two),
    ensures
        ({
            let after = next(left, one, i);
            let other = next(right, two, j);
            &&& after.stop == other.stop
            &&& akin(after.memory, other.memory)
            &&& after.devices == other.devices
            &&& after.registers == other.registers || {
                &&& right.record_steps
                &&& right.retained_steps matches Some(cap) && j < cap <= i
                &&& after.registers == past_word(other.registers)
                &&& after.stop == Some(refused_opcode(other.registers.pc))
            }
        }),
{
    reveal(next);
    assert(one.at(one.point()) == one);
    assert(two.at(two.point()) == two);
    let prints = retains(left, one.steps.len());
    let other = retains(right, two.steps.len());
    let (first, second) = (cleared(one.memory), cleared(two.memory));
    assert(alike(first, second));
    lemma_performed_alike(prints, other, one.registers, first, second, one.devices);
    let outcome = plain_round(left, one).executed.outcome;
    let result = plain_round(right, two).executed.outcome;
    assert(outcome == performed(prints, Point { memory: first, ..one.point() }).1);
    assert(result == performed(other, Point { memory: second, ..one.point() }).1);
    if let Some(vector) = outcome.vector {
        if outcome.registers == result.registers {
            lemma_trapped_alike(outcome.point(), result.point(), vector, one.registers.pc);
        }
    }
}

/// Where a run from `state` ends.
spec fn end_of(options: RunOptions, state: RunView, index: int) -> RunView
    decreases options.max_steps - index,
{
    if goes_on(options, state, index) {
        end_of(options, next(options, state, index), index + 1)
    } else {
        state
    }
}

proof fn lemma_end_of(options: RunOptions, state: RunView, index: int)
    ensures
        end_of(options, state, index) == plain_end(options, state, index),
    decreases options.max_steps - index,
{
    if goes_on(options, state, index) {
        reveal(next);
        lemma_end_of(options, next(options, state, index), index + 1);
    }
}

/// A run with a larger budget stands where one with a smaller budget was stopped by it,
/// once it has executed as many instructions.
proof fn lemma_first_part(small: RunOptions, large: RunOptions, state: RunView, index: int)
    requires
        large == (RunOptions { max_steps: large.max_steps, ..small }),
        small.max_steps <= large.max_steps,
        0 <= index <= small.max_steps,
        is_underway(small, state, index),
        end_of(small, state, index).stop is None,
        end_of(small, state, index).registers.pc != small.return_marker,
    ensures
        ({
            let end = end_of(small, state, index);
            &&& is_underway(small, end, small.max_steps as int)
            &&& end_of(large, state, index) == end_of(large, end, small.max_steps as int)
            &&& end.devices == state.devices
            &&& watches_as(state.memory, end.memory)
        }),
    decreases small.max_steps - index,
{
    if goes_on(small, state, index) {
        let after = next(small, state, index);
        assert(next(large, state, index) == after) by {
            reveal(next);
        }
        lemma_next(small, state, index);
        if after.stop is None {
            lemma_first_part(small, large, after, index + 1);
        } else {
            assert(end_of(small, after, index + 1) == after);
        }
    }
}

/// Two runs that stand at the same point end alike.
proof fn lemma_second_part(
    left: RunOptions,
    right: RunOptions,
    one: RunView,
    two: RunView,
    i: int,
    j: int,
)
    requires
        left == (RunOptions { max_steps: left.max_steps, resume: left.resume, ..right }),
        is_underway(left, one, i),
        is_underway(right, two, j),
        0 <= j <= i,
        left.max_steps - i == right.max_steps - j,
        j <= right.max_steps,
        in_step(one, two),
    ensures
        ({
            let whole = end_of(left, one, i);
            let split = end_of(right, two, j);
            &&& whole.stop == split.stop
            &&& akin(whole.memory, split.memory)
            &&& whole.steps_executed == split.steps_executed + (i - j)
            &&& whole.registers == split.registers || {
                &&& right.record_steps
                &&& right.retained_steps matches Some(cap) && split.steps_executed <= cap
                    < whole.steps_executed
                &&& whole.registers == past_word(split.registers)
                &&& whole.stop == Some(refused_opcode(split.registers.pc))
            }
        }),
    decreases right.max_steps - j,
{
    if goes_on(left, one, i) {
        lemma_next(left, one, i);
        lemma_next(right, two, j);
        lemma_next_in_step(left, right, one, two, i, j);
        let after = next(left, one, i);
        let other = next(right, two, j);
        if after.stop is None {
            lemma_second_part(left, right, after, other, i + 1, j + 1);
        } else {
            assert(end_of(left, after, i + 1) == after);
            assert(end_of(right, other, j + 1) == other);
        }
    }
}

/// The options of a run that continues from a register file, with a budget of its own.
pub open spec fn resuming(options: RunOptions, budget: usize, file: RegisterFile) -> RunOptions {
    RunOptions { max_steps: budget, resume: Some(file), ..options }
}

/// A run that its budget stopped continues where it stood. Let a run over plain memory
/// have a budget of `first` that stops it, and let another resume the register file and
/// the memory which it left, with a budget of `second`. One run whose budget is the sum
/// stops for the same reason as the second, executes as many instructions as both, and
/// leaves the same bytes and the same registers, whatever is watched and however many
/// trace rows are kept.
///
/// The one difference is where the opcode word is refused that stops both: a machine
/// that does not print the instruction has stepped past it, and the cap on trace rows,
/// which counts the rows of each run by itself, may have left only the one run printing.
pub proof fn runs_can_be_resumed(
    options: RunOptions,
    entry: u32,
    memory: MemoryView,
    devices: Devices,
    first: usize,
    second: usize,
    file: RegisterFile,
)
    requires
        first + second <= usize::MAX,
        ({
            let budget = RunOptions { max_steps: first, ..options };
            let (stopped, _) = plain_run(budget, entry, memory, devices);
            stopped.stop == StopReason::StepLimit && file@ == stopped.registers
        }),
    ensures
        ({
            let budget = RunOptions { max_steps: first, ..options };
            let (stopped, left) = plain_run(budget, entry, memory, devices);
            let (split, bytes) = plain_run(
                resuming(options, second, file),
                file.pc,
                left,
                devices,
            );
            let total = RunOptions { max_steps: (first + second) as usize, ..options };
            let (whole, contents) = plain_run(total, entry, memory, devices);
            &&& whole.stop == split.stop
            &&& whole.steps_executed == stopped.steps_executed + split.steps_executed
            &&& contents.bytes == bytes.bytes
            &&& whole.registers == split.registers || {
                &&& options.record_steps
                &&& options.retained_steps matches Some(cap) && split.steps_executed <= cap
                    < whole.steps_executed
                &&& whole.stop == refused_opcode(split.registers.pc)
                &&& whole.registers == past_word(split.registers)
            }
        }),
{
    let budget = RunOptions { max_steps: first, ..options };
    let total = RunOptions { max_steps: (first + second) as usize, ..options };
    let resumed = resuming(options, second, file);
    let start = started(budget, entry, memory, devices);
    let middle = end_of(budget, start, 0);
    lemma_end_of(budget, start, 0);
    lemma_end_of(total, start, 0);
    lemma_end_of(resumed, started(resumed, file.pc, middle.memory, devices), 0);
    lemma_resumed(options, entry, memory, devices, first, second, file);
}

proof fn lemma_resumed(
    options: RunOptions,
    entry: u32,
    memory: MemoryView,
    devices: Devices,
    first: usize,
    second: usize,
    file: RegisterFile,
)
    requires
        first + second <= usize::MAX,
        ({
            let budget = RunOptions { max_steps: first, ..options };
            let middle = end_of(budget, started(budget, entry, memory, devices), 0);
            concluded(budget, middle).stop == StopReason::StepLimit && file@ == middle.registers
        }),
    ensures
        ({
            let budget = RunOptions { max_steps: first, ..options };
            let start = started(budget, entry, memory, devices);
            let middle = end_of(budget, start, 0);
            let resumed = resuming(options, second, file);
            let split = end_of(resumed, started(resumed, file.pc, middle.memory, devices), 0);
            let total = RunOptions { max_steps: (first + second) as usize, ..options };
            let whole = end_of(total, start, 0);
            &&& start == started(total, entry, memory, devices)
            &&& whole.stop == split.stop
            &&& whole.steps_executed == middle.steps_executed + split.steps_executed
            &&& whole.memory.bytes == split.memory.bytes
            &&& whole.registers == split.registers || {
                &&& options.record_steps
                &&& options.retained_steps matches Some(cap) && split.steps_executed <= cap
                    < whole.steps_executed
                &&& whole.stop == Some(refused_opcode(split.registers.pc))
                &&& whole.registers == past_word(split.registers)
            }
        }),
{
    let budget = RunOptions { max_steps: first, ..options };
    let total = RunOptions { max_steps: (first + second) as usize, ..options };
    let resumed = resuming(options, second, file);
    let start = started(budget, entry, memory, devices);
    match options.resume {
        Some(earlier) => lemma_status(earlier.sr),
        None => lemma_status(0),
    }
    let middle = end_of(budget, start, 0);
    lemma_no_limit(budget, start, 0);
    lemma_first_part(budget, total, start, 0);
    let again = started(resumed, file.pc, middle.memory, devices);
    assert(again.registers =~= middle.registers);
    assert(in_step(middle, again));
    lemma_second_part(total, resumed, middle, again, first as int, 0);
}

/// Only a run's budget stops it for the step limit.
proof fn lemma_no_limit(options: RunOptions, state: RunView, index: int)
    requires
        0 <= index,
        is_underway(options, state, index),
    ensures
        end_of(options, state, index).stop != Some(StopReason::StepLimit),
    decreases options.max_steps - index,
{
    if goes_on(options, state, index) {
        lemma_next(options, state, index);
        let after = next(options, state, index);
        if after.stop is None {
            lemma_no_limit(options, after, index + 1);
        } else {
            assert(end_of(options, after, index + 1) == after);
        }
    }
}

} // verus!
