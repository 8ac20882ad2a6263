//! What executing code and the policies around it see of memory.

use crate::memory::{
    covers, encoded, lemma_value_fits, word_of, Fault, Memory, MemoryAccessEvent, MemoryView,
    MemoryWrite, Watchpoint,
};
use vstd::prelude::*;

verus! {

/// What any number of accesses keep: the map, the watchpoints and what was recorded
/// before. The logs grow at their ends, and nothing that was changed becomes
/// unchanged. Where nothing is watched, nothing is seen.
pub open spec fn extends(before: MemoryView, after: MemoryView) -> bool {
    &&& after.bytes.dom() == before.bytes.dom()
    &&& before.dirty.subset_of(after.dirty)
    &&& before.writes.is_prefix_of(after.writes)
    &&& before.writes_total <= after.writes_total
    &&& after.retained_writes == before.retained_writes
    &&& before.accesses.is_prefix_of(after.accesses)
    &&& before.watch_events_total <= after.watch_events_total
    &&& after.watchpoints == before.watchpoints
    &&& after.retained_watch_events == before.retained_watch_events
    &&& before.watch_latch is Some ==> after.watch_latch == before.watch_latch
    &&& before.watchpoints.len() == 0 ==> {
        &&& after.accesses == before.accesses
        &&& after.watch_events_total == before.watch_events_total
        &&& after.watch_latch == before.watch_latch
    }
}

/// What any amount of DMA keeps besides: the write log and the pending fault.
pub open spec fn extends_by_dma(before: MemoryView, after: MemoryView) -> bool {
    &&& extends(before, after)
    &&& after.writes == before.writes
    &&& after.writes_total == before.writes_total
    &&& after.last_fault == before.last_fault
}

/// No access is an extension.
pub proof fn extends_reflexively(memory: MemoryView)
    ensures
        extends_by_dma(memory, memory),
{
}

/// Accesses after accesses are an extension.
pub proof fn extends_transitively(first: MemoryView, second: MemoryView, third: MemoryView)
    requires
        extends(first, second),
        extends(second, third),
    ensures
        extends(first, third),
{
}

/// A read by the CPU keeps the map and only adds to the telemetry.
pub proof fn reading_extends(memory: MemoryView, address: u32, size: u8)
    ensures
        extends(memory, memory.after_read(address, size).1),
{
}

proof fn lemma_storing_extends(memory: MemoryView, address: u32, data: Seq<u8>)
    ensures
        extends_by_dma(memory, memory.stored(address, data)),
{
    assert(memory.stored(address, data).bytes.dom() =~= memory.bytes.dom());
}

/// A write by the CPU keeps the map and only adds to the logs.
pub proof fn writing_extends(memory: MemoryView, address: u32, size: u8, value: u32)
    ensures
        extends(memory, memory.after_write(address, size, value).1),
{
    lemma_storing_extends(memory, address, encoded(value, size));
}

/// A read by a device never enters the write log and never faults.
pub proof fn dma_reading_extends(memory: MemoryView, address: u32)
    ensures
        extends_by_dma(memory, memory.after_dma_read(address).1),
{
}

/// A write by a device never enters the write log and never faults.
pub proof fn dma_writing_extends(memory: MemoryView, address: u32, value: u16)
    ensures
        extends_by_dma(memory, memory.after_dma_write(address, value).1),
{
    lemma_storing_extends(memory, address, encoded(value as u32, 2));
}

/// The state of a device, as far as what it does depends on it, encoded as numbers.
#[verifier::ext_equal]
pub struct DeviceState {
    pub numbers: Seq<int>,
}

/// The devices behind a view of memory.
#[verifier::ext_equal]
pub struct Devices {
    /// The state of each device.
    pub states: Seq<DeviceState>,
    /// The addresses at which a device, and not RAM, answers.
    pub served: Set<u32>,
}

impl Devices {
    /// Whether RAM answers everywhere, so that what an access does is a function of what
    /// memory holds.
    pub open spec fn serve_nothing(self) -> bool {
        self.served == Set::<u32>::empty()
    }
}

/// No devices.
pub open spec fn no_devices() -> Devices {
    Devices { states: Seq::empty(), served: Set::empty() }
}

/// What a read of a byte gives, as a value.
pub open spec fn of_byte(byte: Option<u8>) -> Option<u32> {
    match byte {
        Some(byte) => Some(byte as u32),
        None => None,
    }
}

/// What a read of a word gives, as a value.
pub open spec fn of_word(word: Option<u16>) -> Option<u32> {
    match word {
        Some(word) => Some(word as u32),
        None => None,
    }
}

/// A memory view handed to a policy hook, so an emulated call can read and write the
/// sandbox.
pub trait HostMemory: Sized {
    /// The view is well formed.
    spec fn ready(&self) -> bool;

    /// The RAM behind the view, with its telemetry.
    spec fn contents(&self) -> MemoryView;

    /// The devices behind the view.
    spec fn devices(&self) -> Devices;

    /// Whether a read of `size` bytes may give `answer` and turn this view into `next`.
    spec fn may_read(&self, addr: u32, size: u8, answer: Option<u32>, next: &Self) -> bool;

    /// Whether a write of `size` bytes may be answered by `answer` and turn this view into
    /// `next`.
    spec fn may_write(
        &self,
        addr: u32,
        size: u8,
        value: u32,
        answer: Option<()>,
        next: &Self,
    ) -> bool;

    /// Read a byte, or `None` on an unmapped/invalid access.
    fn read_byte(&mut self, addr: u32) -> (r: Option<u8>)
        requires
            old(self).ready(),
        ensures
            final(self).ready(),
            final(self).devices().served == old(self).devices().served,
            extends(old(self).contents(), final(self).contents()),
            old(self).may_read(addr, 1, of_byte(r), final(self)),
            !old(self).devices().served.contains(addr) ==> final(self).devices() == old(
                self,
            ).devices() && (of_byte(r), final(self).contents()) == old(self).contents().after_read(
                addr,
                1,
            ),
    ;

    /// Read a big-endian word.
    fn read_word(&mut self, addr: u32) -> (r: Option<u16>)
        requires
            old(self).ready(),
        ensures
            final(self).ready(),
            final(self).devices().served == old(self).devices().served,
            extends(old(self).contents(), final(self).contents()),
            old(self).may_read(addr, 2, of_word(r), final(self)),
            !old(self).devices().served.contains(addr) ==> final(self).devices() == old(
                self,
            ).devices() && (of_word(r), final(self).contents()) == old(self).contents().after_read(
                addr,
                2,
            ),
    ;

    /// Read a big-endian longword.
    fn read_long(&mut self, addr: u32) -> (r: Option<u32>)
        requires
            old(self).ready(),
        ensures
            final(self).ready(),
            final(self).devices().served == old(self).devices().served,
            extends(old(self).contents(), final(self).contents()),
            old(self).may_read(addr, 4, r, final(self)),
            !old(self).devices().served.contains(addr) ==> final(self).devices() == old(
                self,
            ).devices() && (r, final(self).contents()) == old(self).contents().after_read(addr, 4),
    ;

    /// Write a byte (logged like executing code's writes).
    fn write_byte(&mut self, addr: u32, value: u8) -> (r: Option<()>)
        requires
            old(self).ready(),
        ensures
            final(self).ready(),
            final(self).devices().served == old(self).devices().served,
            extends(old(self).contents(), final(self).contents()),
            old(self).may_write(addr, 1, value as u32, r, final(self)),
            !old(self).devices().served.contains(addr) ==> final(self).devices() == old(
                self,
            ).devices() && (r, final(self).contents()) == old(self).contents().after_write(
                addr,
                1,
                value as u32,
            ),
    ;

    /// Write a big-endian word.
    fn write_word(&mut self, addr: u32, value: u16) -> (r: Option<()>)
        requires
            old(self).ready(),
        ensures
            final(self).ready(),
            final(self).devices().served == old(self).devices().served,
            extends(old(self).contents(), final(self).contents()),
            old(self).may_write(addr, 2, value as u32, r, final(self)),
            !old(self).devices().served.contains(addr) ==> final(self).devices() == old(
                self,
            ).devices() && (r, final(self).contents()) == old(self).contents().after_write(
                addr,
                2,
                value as u32,
            ),
    ;

    /// Write a big-endian longword.
    fn write_long(&mut self, addr: u32, value: u32) -> (r: Option<()>)
        requires
            old(self).ready(),
        ensures
            final(self).ready(),
            final(self).devices().served == old(self).devices().served,
            extends(old(self).contents(), final(self).contents()),
            old(self).may_write(addr, 4, value, r, final(self)),
            !old(self).devices().served.contains(addr) ==> final(self).devices() == old(
                self,
            ).devices() && (r, final(self).contents()) == old(self).contents().after_write(
                addr,
                4,
                value,
            ),
    ;

    /// Copy `bytes` into RAM without logging (a bulk transfer, e.g. a disk read).
    /// Returns `None` if the range is not fully mapped RAM.
    fn load(&mut self, at: u32, bytes: &[u8]) -> (r: Option<()>)
        requires
            old(self).ready(),
        ensures
            final(self).ready(),
            final(self).devices() == old(self).devices(),
            extends(old(self).contents(), final(self).contents()),
            r is Some == covers(old(self).contents().bytes, at, bytes@.len() as int),
            final(self).contents() == if r is Some {
                old(self).contents().seeded(at, bytes@)
            } else {
                old(self).contents()
            },
    ;
}

/// Whether RAM answers everywhere.
pub open spec fn is_plain<M: HostMemory>(memory: M) -> bool {
    memory.devices().serve_nothing()
}

/// What every access keeps of the memory that it reaches.
pub open spec fn kept<M: HostMemory>(before: M, after: M) -> bool {
    &&& after.ready()
    &&& after.devices().served == before.devices().served
    &&& extends(before.contents(), after.contents())
}

/// What accesses keep of memory, accesses after accesses keep.
pub proof fn lemma_kept_transitively<M: HostMemory>(first: M, second: M, third: M)
    requires
        kept(first, second),
        kept(second, third),
    ensures
        kept(first, third),
{
    extends_transitively(first.contents(), second.contents(), third.contents());
}

/// An access that something makes to memory.
#[verifier::ext_equal]
pub enum BusRequest {
    Read { addr: u32, size: u8 },
    Write { addr: u32, size: u8, value: u32 },
}

/// What an answer says of a write: whether it was accepted.
pub open spec fn accepted(answer: Option<u32>) -> Option<()> {
    match answer {
        Some(_) => Some(()),
        None => None,
    }
}

/// What answers a write, given whether it was accepted.
pub open spec fn acknowledged(done: Option<()>) -> Option<u32> {
    match done {
        Some(()) => Some(0),
        None => None,
    }
}

/// The answer to a write says whether it was accepted.
pub proof fn lemma_acknowledged(done: Option<()>)
    ensures
        accepted(acknowledged(done)) == done,
{
    if let Some(unit) = done {
        assert(unit == ());
    }
}

/// What plain memory answers to an access, with what the access leaves of it. A write
/// that is accepted is answered by zero.
pub open spec fn plainly_made(memory: MemoryView, request: BusRequest) -> (
    Option<u32>,
    MemoryView,
) {
    match request {
        BusRequest::Read { addr, size } => memory.after_read(addr, size),
        BusRequest::Write { addr, size, value } => {
            let (done, after) = memory.after_write(addr, size, value);
            (acknowledged(done), after)
        },
    }
}

/// Where an access starts.
pub open spec fn request_address(request: BusRequest) -> u32 {
    match request {
        BusRequest::Read { addr, .. } => addr,
        BusRequest::Write { addr, .. } => addr,
    }
}

/// Whether an access may be answered by `answer` and turn `before` into `after`. A write
/// that is accepted is answered by zero.
pub open spec fn made<M: HostMemory>(
    before: M,
    request: BusRequest,
    answer: Option<u32>,
    after: M,
) -> bool {
    &&& kept(before, after)
    &&& match request {
        BusRequest::Read { addr, size } => before.may_read(addr, size, answer, &after),
        BusRequest::Write { addr, size, value } => before.may_write(
            addr,
            size,
            value,
            accepted(answer),
            &after,
        ) && (answer is Some ==> answer == Some(0u32)),
    }
    &&& !before.devices().served.contains(request_address(request)) ==> {
        &&& after.devices() == before.devices()
        &&& (answer, after.contents()) == plainly_made(before.contents(), request)
    }
}

/// The execution substrate that a run drives: memory access plus the telemetry the
/// loop reads. [`Memory`] implements it directly; a bus with devices layers them over
/// an inner `Memory` while forwarding that same telemetry, so watchpoints and the
/// write log still observe device access.
pub trait Bus: HostMemory {
    /// Watch these ranges, retaining at most `retained` matching accesses, and
    /// discard whatever a previous run recorded. An empty list records nothing.
    fn set_watch(&mut self, watchpoints: &[Watchpoint], retained: usize)
        requires
            old(self).ready(),
        ensures
            final(self).ready(),
            final(self).devices() == old(self).devices(),
            final(self).contents() == old(self).contents().watching(watchpoints@, retained),
    ;

    /// Number of **retained** accesses so far. This is the index space the run
    /// loop windows a step by, so it must stay the stored length rather than the
    /// true total.
    fn access_count(&self) -> (r: usize)
        ensures
            r == self.contents().accesses.len(),
    ;

    /// The retained accesses. Every one of them matched a watchpoint.
    fn accesses(&self) -> (r: &[MemoryAccessEvent])
        ensures
            r@ == self.contents().accesses,
    ;

    /// Every matching access, counted whether or not it was retained. Counts
    /// accesses a hook made too, which no step window contains.
    fn watch_events_total(&self) -> (r: u64)
        ensures
            r == self.contents().watch_events_total,
    ;

    /// Whether more matching accesses happened than were retained, so a consumer
    /// reading [`Bus::accesses`] knows it is holding a prefix.
    fn watch_events_truncated(&self) -> (r: bool)
        ensures
            r == (self.contents().watch_events_total > self.contents().accesses.len()),
    ;

    /// Forget the first-match latch, which the run loop does once per
    /// instruction so the latch means "since this instruction started".
    fn clear_watch_latch(&mut self)
        requires
            old(self).ready(),
        ensures
            final(self).ready(),
            final(self).devices() == old(self).devices(),
            final(self).contents() == (MemoryView { watch_latch: None, ..old(self).contents() }),
    ;

    /// The first matching access since the latch was cleared, retained or not.
    fn watch_latch(&self) -> (r: Option<MemoryAccessEvent>)
        ensures
            r == self.contents().watch_latch,
    ;

    /// Number of *retained* writes so far: the length of the bounded prefix
    /// [`Bus::writes`] returns, which stops growing once the log is full.
    fn write_count(&self) -> (r: usize)
        ensures
            r == self.contents().writes.len(),
    ;

    /// Every write so far, retained or not. Always the true total, which is
    /// what makes a full log distinguishable from an instruction that wrote
    /// nothing.
    fn write_total(&self) -> (r: u64)
        ensures
            r == self.contents().writes_total,
    ;

    /// The logged writes.
    fn writes(&self) -> (r: &[MemoryWrite])
        ensures
            r@ == self.contents().writes,
    ;

    /// Clear the pending fault before a step.
    fn clear_fault(&mut self)
        requires
            old(self).ready(),
        ensures
            final(self).ready(),
            final(self).devices() == old(self).devices(),
            final(self).contents() == (MemoryView { last_fault: None, ..old(self).contents() }),
    ;

    /// The pending fault, if the last access trapped.
    fn last_fault(&self) -> (r: Option<Fault>)
        ensures
            r == self.contents().last_fault,
    ;

    /// Store a longword without logging a write (seed the return marker/args). A
    /// longword that is not mapped is not stored.
    fn seed_long(&mut self, at: u32, value: u32)
        requires
            old(self).ready(),
        ensures
            final(self).ready(),
            final(self).devices() == old(self).devices(),
            final(self).contents() == if covers(old(self).contents().bytes, at, 4) {
                old(self).contents().seeded(at, encoded(value, 4))
            } else {
                old(self).contents()
            },
    ;

    /// Read a longword without logging an access (a host servicing a call).
    fn peek_long(&self, at: u32) -> (r: Option<u32>)
        requires
            self.ready(),
        ensures
            r == self.contents().peeked(at, 4),
            r is Some ==> !self.devices().served.contains(at),
    ;

    /// Read a mapped RAM word without logging an access (instruction preflight).
    fn peek_word(&self, at: u32) -> (r: Option<u16>)
        requires
            self.ready(),
        ensures
            r == word_of(self.contents().peeked(at, 2)),
            r is Some ==> !self.devices().served.contains(at),
    ;
}

/// Seeding keeps the map and records nothing.
pub proof fn seeding_extends(memory: MemoryView, address: u32, data: Seq<u8>)
    ensures
        extends_by_dma(memory, memory.seeded(address, data)),
{
    assert(memory.seeded(address, data).bytes.dom() =~= memory.bytes.dom());
}

impl HostMemory for Memory {
    open spec fn ready(&self) -> bool {
        self.wf()
    }

    open spec fn contents(&self) -> MemoryView {
        self@
    }

    open spec fn devices(&self) -> Devices {
        no_devices()
    }

    open spec fn may_read(&self, addr: u32, size: u8, answer: Option<u32>, next: &Self) -> bool {
        (answer, next@) == self@.after_read(addr, size)
    }

    open spec fn may_write(
        &self,
        addr: u32,
        size: u8,
        value: u32,
        answer: Option<()>,
        next: &Self,
    ) -> bool {
        (answer, next@) == self@.after_write(addr, size, value)
    }

    fn read_byte(&mut self, addr: u32) -> (r: Option<u8>) {
        proof {
            reading_extends(self@, addr, 1);
            lemma_value_fits(self@, addr, 1);
        }
        self.get_byte(addr)
    }

    fn read_word(&mut self, addr: u32) -> (r: Option<u16>) {
        proof {
            reading_extends(self@, addr, 2);
            lemma_value_fits(self@, addr, 2);
        }
        self.get_word(addr)
    }

    fn read_long(&mut self, addr: u32) -> (r: Option<u32>) {
        proof {
            reading_extends(self@, addr, 4);
        }
        self.get_long(addr)
    }

    fn write_byte(&mut self, addr: u32, value: u8) -> (r: Option<()>) {
        proof {
            writing_extends(self@, addr, 1, value as u32);
        }
        self.set_byte(addr, value)
    }

    fn write_word(&mut self, addr: u32, value: u16) -> (r: Option<()>) {
        proof {
            writing_extends(self@, addr, 2, value as u32);
        }
        self.set_word(addr, value)
    }

    fn write_long(&mut self, addr: u32, value: u32) -> (r: Option<()>) {
        proof {
            writing_extends(self@, addr, 4, value);
        }
        self.set_long(addr, value)
    }

    fn load(&mut self, at: u32, bytes: &[u8]) -> (r: Option<()>) {
        proof {
            seeding_extends(self@, at, bytes@);
        }
        match Memory::load(self, at, bytes) {
            Ok(()) => Some(()),
            Err(_) => None,
        }
    }
}

impl Bus for Memory {
    fn set_watch(&mut self, watchpoints: &[Watchpoint], retained: usize) {
        Memory::set_watch(self, watchpoints, retained);
    }

    fn access_count(&self) -> (r: usize) {
        Memory::accesses(self).len()
    }

    fn accesses(&self) -> (r: &[MemoryAccessEvent]) {
        Memory::accesses(self)
    }

    fn watch_events_total(&self) -> (r: u64) {
        Memory::watch_events_total(self)
    }

    fn watch_events_truncated(&self) -> (r: bool) {
        Memory::watch_events_truncated(self)
    }

    fn clear_watch_latch(&mut self) {
        Memory::clear_watch_latch(self);
    }

    fn watch_latch(&self) -> (r: Option<MemoryAccessEvent>) {
        Memory::watch_latch(self)
    }

    fn write_count(&self) -> (r: usize) {
        Memory::writes(self).len()
    }

    fn write_total(&self) -> (r: u64) {
        Memory::writes_total(self)
    }

    fn writes(&self) -> (r: &[MemoryWrite]) {
        Memory::writes(self)
    }

    fn clear_fault(&mut self) {
        Memory::clear_fault(self);
    }

    fn last_fault(&self) -> (r: Option<Fault>) {
        Memory::last_fault(self)
    }

    fn seed_long(&mut self, at: u32, value: u32) {
        let _ = Memory::write_long(self, at, value);
    }

    fn peek_long(&self, at: u32) -> (r: Option<u32>) {
        Memory::peek_long(self, at)
    }

    fn peek_word(&self, at: u32) -> (r: Option<u16>) {
        Memory::peek_word(self, at)
    }
}

} // verus!
