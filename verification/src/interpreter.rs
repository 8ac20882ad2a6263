//! One instruction of the 68000, executed by the `m68000` crate over a bus.

use crate::bus::{
    acknowledged, extends_reflexively, is_plain, kept, lemma_acknowledged,
    lemma_kept_transitively, made, of_byte, of_word,
    plainly_made, Bus, BusRequest, Devices, HostMemory,
};
use crate::host::Point;
use crate::m68k::{image_instruction, read_instruction};
use crate::memory::{word_of, MemoryView};
use crate::registers::{RegisterFile, RegistersView, STATUS_BITS};
use m68000::cpu_details::{CpuDetails, Mc68000};
use m68000::{MemoryAccess, Registers, M68000};
use std::num::Wrapping;
use vstd::prelude::*;

verus! {

/// What one instruction leaves.
#[verifier::ext_equal]
pub struct Outcome {
    pub registers: RegistersView,
    pub memory: MemoryView,
    pub devices: Devices,
    /// Cycles the instruction took.
    pub cycles: usize,
    /// The exception vector it raised.
    pub vector: Option<u8>,
    /// Whether it stopped the processor.
    pub stopped: bool,
}

impl Outcome {
    /// The registers, the memory and the devices.
    pub open spec fn point(self) -> Point {
        Point { registers: self.registers, memory: self.memory, devices: self.devices }
    }
}

/// How the core ends an instruction.
#[verifier::ext_equal]
pub struct Ending {
    pub registers: RegistersView,
    pub cycles: usize,
    pub vector: Option<u8>,
    pub stopped: bool,
}

/// What the core does next in an instruction: it makes an access, or it ends.
#[verifier::ext_equal]
pub enum Turn {
    Asks(BusRequest),
    Ends(Ending),
}

/// What `M68000::interpreter_exception` of the `m68000` crate does next, on a core that
/// had these registers and no pending exception, has fetched these words of an
/// instruction, and had its accesses so far answered by `answers`.
pub uninterp spec fn core_turn(
    registers: RegistersView,
    fetched: Seq<Option<u16>>,
    answers: Seq<Option<u32>>,
) -> Turn;

/// The text that `M68000::disassembler_interpreter_exception` of the `m68000` crate
/// returns for an instruction of these words at `pc`.
pub uninterp spec fn printed(pc: u32, fetched: Seq<Option<u16>>) -> Seq<char>;

/// Whether a core is answered as it asks: it makes an access that is answered by
/// `answer` and turns `before` into `after`.
pub open spec fn exchanged<B: HostMemory>(
    turn: Turn,
    answer: Option<u32>,
    before: B,
    after: B,
) -> bool {
    turn matches Turn::Asks(request) && made(before, request, answer, after)
}

/// The accesses of an instruction: the answers to them, and the bus before the first and
/// after each.
pub struct Conversation<B> {
    pub answers: Seq<Option<u32>>,
    pub states: Seq<B>,
}

/// Whether the core makes its accesses in turn, each over the bus as the one before left
/// it, from `before` to `after`.
pub open spec fn converses<B: HostMemory>(
    registers: RegistersView,
    fetched: Seq<Option<u16>>,
    before: B,
    talk: Conversation<B>,
    after: B,
) -> bool {
    &&& talk.states.len() == talk.answers.len() + 1
    &&& talk.states[0] == before
    &&& talk.states.last() == after
    &&& forall|k: int|
        #![trigger talk.answers[k]]
        0 <= k < talk.answers.len() ==> exchanged(
            core_turn(registers, fetched, talk.answers.take(k)),
            talk.answers[k],
            talk.states[k],
            talk.states[k + 1],
        )
}

/// The registers with the status bits that the processor implements, and no others.
pub open spec fn masked(registers: RegistersView) -> RegistersView {
    RegistersView { sr: registers.sr & STATUS_BITS, ..registers }
}

/// What an instruction leaves that the core ends so.
pub open spec fn ended(ending: Ending, memory: MemoryView, devices: Devices) -> Outcome {
    Outcome {
        registers: masked(ending.registers),
        memory,
        devices,
        cycles: ending.cycles,
        vector: ending.vector,
        stopped: ending.stopped,
    }
}

/// What plain memory holds after the core was answered by `answers`: nothing, where
/// plain memory would have answered otherwise.
pub open spec fn plain_talk(
    registers: RegistersView,
    fetched: Seq<Option<u16>>,
    memory: MemoryView,
    answers: Seq<Option<u32>>,
) -> Option<MemoryView>
    decreases answers.len(),
{
    if answers.len() == 0 {
        Some(memory)
    } else {
        let said = answers.drop_last();
        match (plain_talk(registers, fetched, memory, said), core_turn(registers, fetched, said)) {
            (Some(before), Turn::Asks(request)) => {
                let (answer, after) = plainly_made(before, request);
                if answer == answers.last() {
                    Some(after)
                } else {
                    None
                }
            },
            _ => None,
        }
    }
}

/// Whether plain memory answers the core by `answers`, and the core then ends.
pub open spec fn is_plain_talk(
    registers: RegistersView,
    fetched: Seq<Option<u16>>,
    memory: MemoryView,
    answers: Seq<Option<u32>>,
) -> bool {
    &&& plain_talk(registers, fetched, memory, answers) is Some
    &&& core_turn(registers, fetched, answers) is Ends
}

/// What a whole instruction leaves over plain memory. A core that never ended would
/// leave everything as it was.
pub open spec fn interpreted(
    registers: RegistersView,
    fetched: Seq<Option<u16>>,
    memory: MemoryView,
    devices: Devices,
) -> Outcome {
    if exists|answers: Seq<Option<u32>>| is_plain_talk(registers, fetched, memory, answers) {
        let answers = choose|answers: Seq<Option<u32>>|
            is_plain_talk(registers, fetched, memory, answers);
        ended(
            core_turn(registers, fetched, answers)->Ends_0,
            plain_talk(registers, fetched, memory, answers)->Some_0,
            devices,
        )
    } else {
        Outcome {
            registers: masked(registers),
            memory,
            devices,
            cycles: 0,
            vector: None,
            stopped: false,
        }
    }
}

proof fn lemma_talk_prefix(
    registers: RegistersView,
    fetched: Seq<Option<u16>>,
    memory: MemoryView,
    answers: Seq<Option<u32>>,
    n: int,
)
    requires
        plain_talk(registers, fetched, memory, answers) is Some,
        0 <= n <= answers.len(),
    ensures
        plain_talk(registers, fetched, memory, answers.take(n)) is Some,
        n < answers.len() ==> core_turn(registers, fetched, answers.take(n)) is Asks,
    decreases answers.len(),
{
    if n == answers.len() {
        assert(answers.take(n) =~= answers);
    } else {
        let said = answers.drop_last();
        assert(said.take(n) =~= answers.take(n));
        lemma_talk_prefix(registers, fetched, memory, said, n);
        if n == said.len() {
            assert(said.take(n) =~= said);
        }
    }
}

/// Plain memory answers the core in one way only.
proof fn lemma_talks_agree(
    registers: RegistersView,
    fetched: Seq<Option<u16>>,
    memory: MemoryView,
    left: Seq<Option<u32>>,
    right: Seq<Option<u32>>,
)
    requires
        plain_talk(registers, fetched, memory, left) is Some,
        plain_talk(registers, fetched, memory, right) is Some,
        left.len() <= right.len(),
    ensures
        left == right.take(left.len() as int),
    decreases left.len(),
{
    let n = left.len() as int;
    if n > 0 {
        let said = left.drop_last();
        lemma_talks_agree(registers, fetched, memory, said, right);
        lemma_talk_prefix(registers, fetched, memory, right, n);
        assert(right.take(n).drop_last() =~= right.take(n - 1));
        assert(left =~= said.push(left.last()));
        assert(right.take(n) =~= right.take(n - 1).push(right.take(n).last()));
    } else {
        assert(left =~= right.take(0));
    }
}

/// Over plain memory an instruction has one outcome.
pub proof fn plain_talks_are_unique(
    registers: RegistersView,
    fetched: Seq<Option<u16>>,
    memory: MemoryView,
    left: Seq<Option<u32>>,
    right: Seq<Option<u32>>,
)
    requires
        is_plain_talk(registers, fetched, memory, left),
        is_plain_talk(registers, fetched, memory, right),
    ensures
        left == right,
{
    if left.len() <= right.len() {
        lemma_talks_agree(registers, fetched, memory, left, right);
        lemma_talk_prefix(registers, fetched, memory, right, left.len() as int);
        assert(right.take(right.len() as int) =~= right);
    } else {
        lemma_talks_agree(registers, fetched, memory, right, left);
        lemma_talk_prefix(registers, fetched, memory, left, right.len() as int);
    }
}

proof fn lemma_plain_states<B: HostMemory>(
    registers: RegistersView,
    fetched: Seq<Option<u16>>,
    before: B,
    talk: Conversation<B>,
    after: B,
    n: int,
)
    requires
        converses(registers, fetched, before, talk, after),
        is_plain(before),
        0 <= n <= talk.answers.len(),
    ensures
        plain_talk(registers, fetched, before.contents(), talk.answers.take(n)) == Some(
            talk.states[n].contents(),
        ),
        talk.states[n].devices() == before.devices(),
    decreases n,
{
    if n > 0 {
        lemma_plain_states(registers, fetched, before, talk, after, n - 1);
        assert(talk.answers.take(n).drop_last() =~= talk.answers.take(n - 1));
        assert(talk.answers.take(n).last() == talk.answers[n - 1]);
        assert(exchanged(
            core_turn(registers, fetched, talk.answers.take(n - 1)),
            talk.answers[n - 1],
            talk.states[n - 1],
            talk.states[n - 1 + 1],
        ));
    }
}

/// Over a bus that only RAM answers, what the core leaves is what plain memory makes of
/// the instruction.
proof fn lemma_plain_conversation<B: HostMemory>(
    registers: RegistersView,
    fetched: Seq<Option<u16>>,
    before: B,
    talk: Conversation<B>,
    after: B,
    ending: Ending,
)
    requires
        converses(registers, fetched, before, talk, after),
        is_plain(before),
        core_turn(registers, fetched, talk.answers) == Turn::Ends(ending),
    ensures
        ended(ending, after.contents(), after.devices()) == interpreted(
            registers,
            fetched,
            before.contents(),
            before.devices(),
        ),
{
    let memory = before.contents();
    let answers = talk.answers;
    lemma_plain_states(registers, fetched, before, talk, after, answers.len() as int);
    assert(answers.take(answers.len() as int) =~= answers);
    assert(is_plain_talk(registers, fetched, memory, answers));
    let chosen = choose|answers: Seq<Option<u32>>|
        is_plain_talk(registers, fetched, memory, answers);
    plain_talks_are_unique(registers, fetched, memory, answers, chosen);
}

/// The address of a word of the instruction at `pc`.
pub open spec fn word_address(pc: u32, k: int) -> u32 {
    ((pc + 2 * k) % 0x1_0000_0000) as u32
}

/// An opcode word, followed by as many zero bytes as the longest instruction takes.
pub open spec fn padded_opcode(opcode: u16) -> Seq<u8> {
    seq![(opcode >> 8) as u8, (opcode & 0xff) as u8, 0, 0, 0, 0, 0, 0, 0, 0]
}

/// How many words an instruction with this opcode takes.
pub open spec fn instruction_words(opcode: u16) -> int {
    match image_instruction(padded_opcode(opcode), 0) {
        Some((_, _, end)) => (end / 2) as int,
        None => 5,
    }
}

/// Whether these are what the processor fetches at `pc`: nothing at an odd address, an
/// opcode word that is refused, or every word of an instruction.
pub open spec fn is_fetch(pc: u32, fetched: Seq<Option<u16>>) -> bool {
    if pc % 2 == 1 {
        fetched.len() == 0
    } else {
        &&& fetched.len() >= 1
        &&& match fetched[0] {
            Some(opcode) => {
                &&& fetched.len() == instruction_words(opcode)
                &&& forall|k: int| 0 <= k < fetched.len() ==> (#[trigger] fetched[k]) is Some
            },
            None => fetched.len() == 1,
        }
    }
}

/// What fetching the rest of an instruction of `count` words yields, with what it leaves
/// of plain memory.
pub open spec fn fetched_rest(
    pc: u32,
    fetched: Seq<Option<u16>>,
    count: int,
    memory: MemoryView,
) -> (Option<Seq<Option<u16>>>, MemoryView)
    decreases count - fetched.len(),
{
    if fetched.len() >= count {
        (Some(fetched), memory)
    } else {
        let (value, after) = memory.after_read(word_address(pc, fetched.len() as int), 2);
        match value {
            Some(_) => fetched_rest(pc, fetched.push(word_of(value)), count, after),
            None => (None, after),
        }
    }
}

/// What fetching the instruction at `pc` yields, with what it leaves of plain memory:
/// nothing, where an extension word is refused.
pub open spec fn fetched_at(pc: u32, memory: MemoryView) -> (
    Option<Seq<Option<u16>>>,
    MemoryView,
) {
    if pc % 2 == 1 {
        (Some(Seq::empty()), memory)
    } else {
        let (value, after) = memory.after_read(pc, 2);
        match word_of(value) {
            Some(opcode) => fetched_rest(
                pc,
                seq![Some(opcode)],
                instruction_words(opcode),
                after,
            ),
            None => (Some(seq![None]), after),
        }
    }
}

fn next_word_address(pc: u32, k: usize) -> (r: u32)
    requires
        k <= 5,
    ensures
        r == word_address(pc, k as int),
{
    pc.wrapping_add(2 * k as u32)
}

fn count_words(opcode: u16) -> (r: usize)
    ensures
        r == instruction_words(opcode),
        1 <= r <= 5,
{
    let window: [u8; 10] = [(opcode >> 8) as u8, (opcode & 0xff) as u8, 0, 0, 0, 0, 0, 0, 0, 0];
    assert(window@ =~= padded_opcode(opcode));
    match read_instruction(window.as_slice(), 0) {
        Some((_, end)) => (end / 2) as usize,
        None => 5,
    }
}

/// Whether these are all the words of an instruction.
pub open spec fn is_complete(fetched: Seq<Option<u16>>) -> bool {
    fetched.len() > 0 && fetched[0] is Some
}

/// Whether these are words of an instruction at `pc`, of which the last was refused and
/// is not its first.
pub open spec fn is_cut_short(pc: u32, words: Seq<Option<u16>>) -> bool {
    &&& pc % 2 == 0
    &&& words.len() >= 2
    &&& words[0] matches Some(opcode) && words.len() <= instruction_words(opcode)
    &&& words.last() is None
    &&& forall|k: int| 0 <= k < words.len() - 1 ==> (#[trigger] words[k]) is Some
}

/// Whether reading the words at `pc` in turn over a bus that goes through `states` gives
/// these.
pub open spec fn fetches<B: HostMemory>(
    pc: u32,
    words: Seq<Option<u16>>,
    states: Seq<B>,
) -> bool {
    &&& states.len() == words.len() + 1
    &&& forall|k: int|
        #![trigger words[k]]
        0 <= k < words.len() ==> made(
            states[k],
            BusRequest::Read { addr: word_address(pc, k), size: 2 },
            of_word(words[k]),
            states[k + 1],
        )
}

proof fn lemma_fetch_one<B: HostMemory>(
    pc: u32,
    words: Seq<Option<u16>>,
    states: Seq<B>,
    word: Option<u16>,
    after: B,
)
    requires
        fetches(pc, words, states),
        made(
            states.last(),
            BusRequest::Read { addr: word_address(pc, words.len() as int), size: 2 },
            of_word(word),
            after,
        ),
    ensures
        fetches(pc, words.push(word), states.push(after)),
{
    let more = words.push(word);
    let on = states.push(after);
    assert forall|k: int|
        #![trigger more[k]]
        0 <= k < more.len() implies made(
        on[k],
        BusRequest::Read { addr: word_address(pc, k), size: 2 },
        of_word(more[k]),
        on[k + 1],
    ) by {
        if k < words.len() {
            assert(more[k] == words[k]);
        }
    }
}

/// Over a bus that only RAM answers, nothing is left open of a fetch.
pub proof fn plain_fetches_are_determined<B: HostMemory>(
    pc: u32,
    words: Seq<Option<u16>>,
    states: Seq<B>,
)
    requires
        fetches(pc, words, states),
        is_plain(states[0]),
        is_fetch(pc, words) || is_cut_short(pc, words),
    ensures
        states.last().devices() == states[0].devices(),
        fetched_at(pc, states[0].contents()) == (
            if is_cut_short(pc, words) {
                None
            } else {
                Some(words)
            },
            states.last().contents(),
        ),
{
    if words.len() == 0 {
        assert(words =~= Seq::empty());
    } else {
        lemma_plain_word(pc, words, states, 0);
        assert(word_address(pc, 0) == pc);
        match words[0] {
            Some(opcode) => {
                assert(words.take(1) =~= seq![Some(opcode)]);
                lemma_plain_rest(pc, words, states, instruction_words(opcode), 1);
            },
            None => {
                assert(words =~= seq![None::<u16>]);
            },
        }
    }
}

proof fn lemma_plain_word<B: HostMemory>(
    pc: u32,
    words: Seq<Option<u16>>,
    states: Seq<B>,
    n: int,
)
    requires
        fetches(pc, words, states),
        is_plain(states[n]),
        0 <= n < words.len(),
    ensures
        (of_word(words[n]), states[n + 1].contents()) == states[n].contents().after_read(
            word_address(pc, n),
            2,
        ),
        states[n + 1].devices() == states[n].devices(),
        word_of(of_word(words[n])) == words[n],
{
    let word = words[n];
}

proof fn lemma_plain_rest<B: HostMemory>(
    pc: u32,
    words: Seq<Option<u16>>,
    states: Seq<B>,
    count: int,
    n: int,
)
    requires
        fetches(pc, words, states),
        is_plain(states[n]),
        1 <= n <= words.len() <= count,
        forall|k: int| 0 <= k < words.len() - 1 ==> (#[trigger] words[k]) is Some,
        n <= words.len() - 1 || words.last() is Some,
        words.last() is Some ==> words.len() == count,
    ensures
        states.last().devices() == states[n].devices(),
        fetched_rest(pc, words.take(n), count, states[n].contents()) == (
            if words.last() is None {
                None
            } else {
                Some(words)
            },
            states.last().contents(),
        ),
    decreases words.len() - n,
{
    if n == words.len() {
        assert(words.take(n) =~= words);
    } else {
        lemma_plain_word(pc, words, states, n);
        assert(words.take(n).push(words[n]) =~= words.take(n + 1));
        if n + 1 < words.len() || words[n] is Some {
            lemma_plain_rest(pc, words, states, count, n + 1);
        }
    }
}

/// Fetch the instruction at `pc`: nothing, where an extension word is refused.
pub fn fetch<B: Bus>(bus: &mut B, pc: u32) -> (r: Option<Vec<Option<u16>>>)
    requires
        old(bus).ready(),
    ensures
        kept(*old(bus), *final(bus)),
        exists|words: Seq<Option<u16>>, states: Seq<B>|
            {
                &&& #[trigger] fetches(pc, words, states)
                &&& states[0] == *old(bus)
                &&& states.last() == *final(bus)
                &&& match r {
                    Some(fetched) => fetched@ == words && is_fetch(pc, words),
                    None => is_cut_short(pc, words),
                }
            },
        r matches Some(words) ==> is_fetch(pc, words@),
        is_plain(*old(bus)) ==> final(bus).devices() == old(bus).devices() && match r {
            Some(words) => (Some(words@), final(bus).contents()) == fetched_at(
                pc,
                old(bus).contents(),
            ),
            None => (None::<Seq<Option<u16>>>, final(bus).contents()) == fetched_at(
                pc,
                old(bus).contents(),
            ),
        },
{
    let mut fetched: Vec<Option<u16>> = Vec::new();
    let ghost mut states: Seq<B> = seq![*bus];
    assert(fetches(pc, fetched@, states));
    if pc % 2 == 1 {
        proof {
            extends_reflexively(bus.contents());
            assert(fetched@ =~= Seq::empty());
        }
        return Some(fetched);
    }
    let word: Option<u16> = bus.read_word(pc);
    proof {
        lemma_fetch_one(pc, fetched@, states, word, *bus);
        states = states.push(*bus);
    }
    fetched.push(word);
    let opcode: u16 = match word {
        Some(opcode) => opcode,
        None => {
            assert(fetched@ =~= seq![None::<u16>]);
            return Some(fetched);
        },
    };
    let count: usize = count_words(opcode);
    assert(fetched@ =~= seq![Some(opcode)]);
    while fetched.len() < count
        invariant
            kept(*old(bus), *bus),
            fetches(pc, fetched@, states),
            states[0] == *old(bus),
            states.last() == *bus,
            count == instruction_words(opcode),
            1 <= fetched@.len() <= count <= 5,
            fetched@[0] == Some(opcode),
            forall|k: int| 0 <= k < fetched@.len() ==> (#[trigger] fetched@[k]) is Some,
            pc % 2 == 0,
            is_plain(*old(bus)) ==> bus.devices() == old(bus).devices() && fetched_at(
                pc,
                old(bus).contents(),
            ) == fetched_rest(pc, fetched@, count as int, bus.contents()),
        decreases count - fetched@.len(),
    {
        let ghost before = *bus;
        let ghost words = fetched@;
        let word: Option<u16> = bus.read_word(next_word_address(pc, fetched.len()));
        proof {
            lemma_kept_transitively(*old(bus), before, *bus);
            lemma_fetch_one(pc, words, states, word, *bus);
            states = states.push(*bus);
        }
        if word.is_none() {
            proof {
                assert(is_cut_short(pc, words.push(word)));
            }
            return None;
        }
        fetched.push(word);
    }
    Some(fetched)
}

/// A bus as the interpreter sees it: the first words that it reads are those of the
/// instruction, which were fetched before.
pub struct Wires<'a, B: Bus> {
    pub bus: &'a mut B,
    pub fetched: Vec<Option<u16>>,
    /// How many of the fetched words were handed out.
    pub next: usize,
}

impl<'a, B: Bus> MemoryAccess for Wires<'a, B> {
    fn get_byte(&mut self, addr: u32) -> (r: Option<u8>)
        requires
            old(self).bus.ready(),
        ensures
            made(
                *old(self).bus,
                BusRequest::Read { addr, size: 1 },
                of_byte(r),
                *final(self).bus,
            ),
    {
        self.bus.read_byte(addr)
    }

    fn get_word(&mut self, addr: u32) -> (r: Option<u16>)
        requires
            old(self).bus.ready(),
        ensures
            final(self).fetched@ == old(self).fetched@,
            old(self).next < old(self).fetched@.len() ==> {
                &&& r == old(self).fetched@[old(self).next as int]
                &&& final(self).next == old(self).next + 1
                &&& *final(self).bus == *old(self).bus
            },
            old(self).next >= old(self).fetched@.len() ==> {
                &&& final(self).next == old(self).next
                &&& made(
                    *old(self).bus,
                    BusRequest::Read { addr, size: 2 },
                    of_word(r),
                    *final(self).bus,
                )
            },
    {
        if self.next < self.fetched.len() {
            let word: Option<u16> = self.fetched[self.next];
            self.next = self.next + 1;
            word
        } else {
            self.bus.read_word(addr)
        }
    }

    fn get_long(&mut self, addr: u32) -> (r: Option<u32>)
        requires
            old(self).bus.ready(),
        ensures
            made(
                *old(self).bus,
                BusRequest::Read { addr, size: 4 },
                r,
                *final(self).bus,
            ),
    {
        self.bus.read_long(addr)
    }

    fn set_byte(&mut self, addr: u32, value: u8) -> (r: Option<()>)
        requires
            old(self).bus.ready(),
        ensures
            made(
                *old(self).bus,
                BusRequest::Write { addr, size: 1, value: value as u32 },
                acknowledged(r),
                *final(self).bus,
            ),
    {
        let done = self.bus.write_byte(addr, value);
        proof {
            lemma_acknowledged(done);
        }
        done
    }

    fn set_word(&mut self, addr: u32, value: u16) -> (r: Option<()>)
        requires
            old(self).bus.ready(),
        ensures
            made(
                *old(self).bus,
                BusRequest::Write { addr, size: 2, value: value as u32 },
                acknowledged(r),
                *final(self).bus,
            ),
    {
        let done = self.bus.write_word(addr, value);
        proof {
            lemma_acknowledged(done);
        }
        done
    }

    fn set_long(&mut self, addr: u32, value: u32) -> (r: Option<()>)
        requires
            old(self).bus.ready(),
        ensures
            made(
                *old(self).bus,
                BusRequest::Write { addr, size: 4, value: value },
                acknowledged(r),
                *final(self).bus,
            ),
    {
        let done = self.bus.write_long(addr, value);
        proof {
            lemma_acknowledged(done);
        }
        done
    }

    fn reset_instruction(&mut self)
        ensures
            *final(self).bus == *old(self).bus,
    {
    }
}

/// What one instruction leaves, beside memory.
pub struct Stepped {
    pub registers: RegisterFile,
    pub cycles: usize,
    pub vector: Option<u8>,
    pub stopped: bool,
}

impl Stepped {
    /// With what it left of a bus.
    pub open spec fn outcome<B: HostMemory>(self, bus: B) -> Outcome {
        Outcome {
            registers: self.registers@,
            memory: bus.contents(),
            devices: bus.devices(),
            cycles: self.cycles,
            vector: self.vector,
            stopped: self.stopped,
        }
    }
}

/// How the core ended an instruction, from what it reports.
pub open spec fn reported(
    registers: RegistersView,
    cycles: usize,
    vector: Option<u8>,
    stopped: bool,
) -> Ending {
    Ending { registers, cycles, vector, stopped }
}

/// The vector of a program counter that is odd, or of an opcode word that is refused.
pub open spec fn unstarted_vector(fetched: Seq<Option<u16>>) -> u8 {
    if fetched.len() == 0 {
        3
    } else {
        2
    }
}

/// The registers where there is no opcode word: a core that does not print steps past
/// one that is refused.
pub open spec fn unstarted_registers(
    prints: bool,
    registers: RegistersView,
    fetched: Seq<Option<u16>>,
) -> RegistersView {
    if prints || fetched.len() == 0 {
        masked(registers)
    } else {
        RegistersView {
            pc: ((registers.pc + 2) % 0x1_0000_0000) as u32,
            ..masked(registers)
        }
    }
}

/// `M68000::interpreter_exception` of the `m68000` crate, on a fresh core that is given
/// these registers. Returned are the registers that it leaves, its cycle count and the
/// vector that it raised, and whether the core is stopped.
///
/// Claimed: the core reaches memory only through the bus, one access at a time, so that
/// whatever the bus keeps across accesses is kept. Which access it makes next, and how it
/// ends, is the named function of the registers, the fetched words and the answers that
/// it had. At an odd program counter, and where the opcode word is refused, it makes no
/// access and raises an address error and an access error; in the second case it has
/// stepped past the word. The status register that it leaves has only the bits that the
/// processor implements. Every word of the instruction must be there: the core panics
/// where an extension word is missing.
#[verifier::external_body]
fn core_interpret<B: Bus>(registers: &RegisterFile, fetched: Vec<Option<u16>>, bus: &mut B) -> (r: (
    RegisterFile,
    (usize, Option<u8>),
    bool,
))
    requires
        old(bus).ready(),
        is_fetch(registers.pc, fetched@),
    ensures
        kept(*old(bus), *final(bus)),
        r.0.sr & STATUS_BITS == r.0.sr,
        is_complete(fetched@) ==> exists|talk: Conversation<B>|
            #[trigger] converses(registers@, fetched@, *old(bus), talk, *final(bus)) && core_turn(
                registers@,
                fetched@,
                talk.answers,
            ) == Turn::Ends(reported(r.0@, r.1.0, r.1.1, r.2)),
        !is_complete(fetched@) ==> *final(bus) == *old(bus) && reported(r.0@, r.1.0, r.1.1, r.2)
            == reported(
            unstarted_registers(false, registers@, fetched@),
            0,
            Some(unstarted_vector(fetched@)),
            false,
        ),
{
    let RegisterFile { d, a, usp, ssp, pc, sr } = *registers;
    let mut cpu = M68000::<Mc68000>::new_no_reset();
    cpu.regs = Registers {
        d: d.map(Wrapping), a: a.map(Wrapping), sr: sr.into(),
        usp: Wrapping(usp), ssp: Wrapping(ssp), pc: Wrapping(pc),
    };
    let out = cpu.interpreter_exception(&mut Wires { bus, fetched, next: 0 });
    let r = cpu.regs;
    let file = RegisterFile {
        d: r.d.map(|x| x.0), a: r.a.map(|x| x.0), sr: r.sr.into(),
        usp: r.usp.0, ssp: r.ssp.0, pc: r.pc.0,
    };
    (file, out, cpu.stop)
}

/// `M68000::disassembler_interpreter_exception` of the `m68000` crate, on a fresh core
/// that is given these registers. Returned are the registers that it leaves, the address
/// and the text of the instruction, its cycle count and the vector that it raised, and
/// whether the core is stopped.
///
/// Claimed: over every word of an instruction it does what
/// `M68000::interpreter_exception` does, since both decode the words in the same way and
/// call the same function for each instruction; the text is the named function of the
/// program counter and the words. At an odd program counter, and where the opcode word is
/// refused, it makes no access, returns no text and raises an address error and an access
/// error; unlike the other it does not step past the word. Every word of the instruction
/// must be there: the core panics where an extension word is missing.
#[verifier::external_body]
fn core_disassemble<B: Bus>(registers: &RegisterFile, fetched: Vec<Option<u16>>, bus: &mut B) -> (r: (
    RegisterFile,
    (u32, String, usize, Option<u8>),
    bool,
))
    requires
        old(bus).ready(),
        is_fetch(registers.pc, fetched@),
    ensures
        kept(*old(bus), *final(bus)),
        r.0.sr & STATUS_BITS == r.0.sr,
        is_complete(fetched@) ==> r.1.1@ == printed(registers.pc, fetched@),
        is_complete(fetched@) ==> exists|talk: Conversation<B>|
            #[trigger] converses(registers@, fetched@, *old(bus), talk, *final(bus)) && core_turn(
                registers@,
                fetched@,
                talk.answers,
            ) == Turn::Ends(reported(r.0@, r.1.2, r.1.3, r.2)),
        !is_complete(fetched@) ==> *final(bus) == *old(bus) && r.1.1@.len() == 0 && reported(
            r.0@,
            r.1.2,
            r.1.3,
            r.2,
        ) == reported(
            unstarted_registers(true, registers@, fetched@),
            0,
            Some(unstarted_vector(fetched@)),
            false,
        ),
{
    let RegisterFile { d, a, usp, ssp, pc, sr } = *registers;
    let mut cpu = M68000::<Mc68000>::new_no_reset();
    cpu.regs = Registers {
        d: d.map(Wrapping), a: a.map(Wrapping), sr: sr.into(),
        usp: Wrapping(usp), ssp: Wrapping(ssp), pc: Wrapping(pc),
    };
    let out = cpu.disassembler_interpreter_exception(&mut Wires { bus, fetched, next: 0 });
    let r = cpu.regs;
    let file = RegisterFile {
        d: r.d.map(|x| x.0), a: r.a.map(|x| x.0), sr: r.sr.into(),
        usp: r.usp.0, ssp: r.ssp.0, pc: r.pc.0,
    };
    (file, out, cpu.stop)
}

/// What executing fetched words prints.
pub open spec fn text_of(prints: bool, pc: u32, fetched: Seq<Option<u16>>) -> Seq<char> {
    if prints && is_complete(fetched) {
        printed(pc, fetched)
    } else {
        Seq::empty()
    }
}

/// What an instruction leaves that has no opcode word.
pub open spec fn unstarted(
    prints: bool,
    registers: RegistersView,
    fetched: Seq<Option<u16>>,
    memory: MemoryView,
    devices: Devices,
) -> Outcome {
    Outcome {
        registers: unstarted_registers(prints, registers, fetched),
        memory,
        devices,
        cycles: 0,
        vector: Some(unstarted_vector(fetched)),
        stopped: false,
    }
}

/// Whether executing fetched words may turn one bus into another and leave `outcome`: the
/// core makes its accesses in turn, each over the bus as the one before left it.
pub open spec fn executes<B: HostMemory>(
    prints: bool,
    registers: RegistersView,
    fetched: Seq<Option<u16>>,
    before: B,
    outcome: Outcome,
    after: B,
) -> bool {
    if is_complete(fetched) {
        exists|talk: Conversation<B>|
            #[trigger] converses(registers, fetched, before, talk, after) && (core_turn(
                registers,
                fetched,
                talk.answers,
            ) matches Turn::Ends(ending) && outcome == ended(
                ending,
                after.contents(),
                after.devices(),
            ))
    } else {
        &&& after == before
        &&& outcome == unstarted(
            prints,
            registers,
            fetched,
            before.contents(),
            before.devices(),
        )
    }
}

/// What executing fetched words leaves over plain memory.
pub open spec fn executed(
    prints: bool,
    registers: RegistersView,
    fetched: Seq<Option<u16>>,
    memory: MemoryView,
    devices: Devices,
) -> Outcome {
    if is_complete(fetched) {
        interpreted(registers, fetched, memory, devices)
    } else {
        unstarted(prints, registers, fetched, memory, devices)
    }
}

/// Over a bus that only RAM answers, nothing is left open of an instruction.
pub proof fn plain_executions_are_determined<B: HostMemory>(
    prints: bool,
    registers: RegistersView,
    fetched: Seq<Option<u16>>,
    before: B,
    outcome: Outcome,
    after: B,
)
    requires
        is_plain(before),
        executes(prints, registers, fetched, before, outcome, after),
    ensures
        outcome == executed(prints, registers, fetched, before.contents(), before.devices()),
{
    if is_complete(fetched) {
        let talk = choose|talk: Conversation<B>|
            #[trigger] converses(registers, fetched, before, talk, after) && (core_turn(
                registers,
                fetched,
                talk.answers,
            ) matches Turn::Ends(ending) && outcome == ended(
                ending,
                after.contents(),
                after.devices(),
            ));
        lemma_plain_conversation(
            registers,
            fetched,
            before,
            talk,
            after,
            core_turn(registers, fetched, talk.answers)->Ends_0,
        );
    }
}

/// Execute the instruction at the program counter.
pub(crate) fn interpret<B: Bus>(registers: &RegisterFile, fetched: Vec<Option<u16>>, bus: &mut B) -> (r: Stepped)
    requires
        old(bus).ready(),
        is_fetch(registers.pc, fetched@),
    ensures
        kept(*old(bus), *final(bus)),
        executes(
            false,
            registers@,
            fetched@,
            *old(bus),
            r.outcome(*final(bus)),
            *final(bus),
        ),
{
    let ghost words = fetched@;
    let (file, (cycles, vector), stopped) = core_interpret(registers, fetched, bus);
    let stepped = Stepped { registers: file, cycles, vector, stopped };
    proof {
        let ending = reported(file@, cycles, vector, stopped);
        assert(stepped.outcome(*bus) == ended(ending, bus.contents(), bus.devices()));
    }
    stepped
}

/// Execute the instruction at the program counter, and print it.
pub(crate) fn disassemble_and_interpret<B: Bus>(registers: &RegisterFile, fetched: Vec<Option<u16>>, bus: &mut B) -> (r: (
    String,
    Stepped,
))
    requires
        old(bus).ready(),
        is_fetch(registers.pc, fetched@),
    ensures
        kept(*old(bus), *final(bus)),
        r.0@ == text_of(true, registers.pc, fetched@),
        executes(
            true,
            registers@,
            fetched@,
            *old(bus),
            r.1.outcome(*final(bus)),
            *final(bus),
        ),
{
    let (file, (_, text, cycles, vector), stopped) = core_disassemble(registers, fetched, bus);
    let stepped = Stepped { registers: file, cycles, vector, stopped };
    proof {
        let ending = reported(file@, cycles, vector, stopped);
        assert(stepped.outcome(*bus) == ended(ending, bus.contents(), bus.devices()));
        assert(!is_complete(fetched@) ==> text@ =~= Seq::empty());
    }
    (text, stepped)
}

/// `Mc68000::vector_execution_time` of the `m68000` crate for the vectors of the `TRAP`
/// instruction: its table gives them thirty-four cycles.
#[verifier::external_body]
pub(crate) fn trap_cycles(vector: u8) -> (r: usize)
    requires
        32 <= vector <= 47,
    ensures
        r == 34,
{
    Mc68000::vector_execution_time(vector)
}

} // verus!
