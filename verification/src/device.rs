//! Memory-mapped devices over a memory sandbox.

use crate::bus::{
    dma_reading_extends, dma_writing_extends, extends, extends_by_dma, extends_transitively,
    of_byte, of_word, reading_extends, seeding_extends, writing_extends, Bus, DeviceState, Devices,
    HostMemory,
};
use crate::memory::{
    covers, encoded, fits, is_width, span, word_of, Access, Fault, Memory,
    MemoryAccessEvent, MemoryError, MemoryView, MemoryWrite, Watchpoint,
};
use std::ops::Range;
use vstd::prelude::*;

verus! {

/// The outcome of dispatching a memory access to a [`Device`]. A typed result
/// distinguishes "not my address" from "my address, invalid access", which an
/// `Option` could not.
#[derive(Clone, Copy, Debug, PartialEq, Eq, Structural)]
pub enum DeviceAccess {
    /// A read produced this value.
    Value(u32),
    /// A write was accepted.
    Wrote,
    /// This address is not claimed after all; fall back to RAM.
    NotMine,
    /// The access is invalid (e.g. an unmapped register); trap it.
    Fault,
}

/// The sandbox's RAM as a device sees it, which performs DMA and nothing else.
///
/// What a device does to RAM marks memory dirty and a watchpoint sees it, but it never
/// enters the write log that answers *what the executing code did*. It is also RAM
/// rather than the bus, so a device cannot reach another device.
pub struct DmaMemory {
    ram: Memory,
}

impl View for DmaMemory {
    type V = MemoryView;

    closed spec fn view(&self) -> MemoryView {
        self.ram@
    }
}

impl DmaMemory {
    /// The RAM is well formed.
    pub closed spec fn wf(&self) -> bool {
        self.ram.wf()
    }

    /// Whether a word is fully mapped. Asking leaves no trace of any kind: no access
    /// event, no dirty bit, and in particular no pending fault, which is what lets a
    /// device preflight a whole transfer.
    pub fn contains_word(&self, address: u32) -> (r: bool)
        requires
            self.wf(),
        ensures
            r == covers(self@.bytes, address, 2),
    {
        self.ram.contains_word(address)
    }

    /// Read a big-endian word. A miss is `None` and no fault.
    pub fn read_dma_word(&mut self, address: u32) -> (r: Option<u16>)
        requires
            old(self).wf(),
        ensures
            final(self).wf(),
            r == word_of(old(self)@.after_dma_read(address).0),
            final(self)@ == old(self)@.after_dma_read(address).1,
            extends_by_dma(old(self)@, final(self)@),
    {
        proof {
            dma_reading_extends(self@, address);
        }
        self.ram.read_dma_word(address)
    }

    /// Store a big-endian word. A miss is `None` and no fault.
    pub fn write_dma_word(&mut self, address: u32, value: u16) -> (r: Option<()>)
        requires
            old(self).wf(),
        ensures
            final(self).wf(),
            (r, final(self)@) == old(self)@.after_dma_write(address, value),
            extends_by_dma(old(self)@, final(self)@),
    {
        proof {
            dma_writing_extends(self@, address, value);
        }
        self.ram.write_dma_word(address, value)
    }
}

/// A memory-mapped device claiming a fixed address range, with side effects on
/// access. Devices carry no Amiga-OS policy themselves; the environment that
/// installs them supplies the meaning of each range.
///
/// Both hooks receive a DMA handle to the sandbox's RAM, because a real chip
/// does not only answer register accesses: writing `BLTSIZE` starts a blit, and
/// the blit changes memory.
pub trait Device {
    /// Where the range that this device claims starts.
    spec fn start(&self) -> u32;

    /// Where the range that this device claims ends.
    spec fn end(&self) -> u32;

    /// The state that the device is in.
    spec fn state(&self) -> DeviceState;

    /// Whether a read of `size` bytes at `addr` may be answered by `reply`, and turn this
    /// device and RAM like `before` into one in the state `next` and RAM like `after`.
    spec fn reads(
        &self,
        addr: u32,
        size: u8,
        before: MemoryView,
        reply: DeviceAccess,
        next: DeviceState,
        after: MemoryView,
    ) -> bool;

    /// Whether a write of `size` bytes at `addr` may be answered by `reply`, and turn this
    /// device and RAM like `before` into one in the state `next` and RAM like `after`.
    spec fn writes(
        &self,
        addr: u32,
        size: u8,
        value: u32,
        before: MemoryView,
        reply: DeviceAccess,
        next: DeviceState,
        after: MemoryView,
    ) -> bool;

    /// The half-open address range this device claims.
    fn range(&self) -> (r: Range<u32>)
        ensures
            r.start == self.start(),
            r.end == self.end(),
    ;

    /// Handle a read of `size` bytes at `addr` (guaranteed within [`Device::range`]).
    fn read(&mut self, addr: u32, size: u8, memory: &mut DmaMemory) -> (r: DeviceAccess)
        requires
            old(memory).wf(),
            old(self).start() <= addr,
            addr + size <= old(self).end(),
        ensures
            final(self).start() == old(self).start(),
            final(self).end() == old(self).end(),
            final(memory).wf(),
            extends_by_dma(old(memory)@, final(memory)@),
            old(self).reads(addr, size, old(memory)@, r, final(self).state(), final(memory)@),
    ;

    /// Handle a write of `size` bytes at `addr` (guaranteed within [`Device::range`]).
    fn write(&mut self, addr: u32, size: u8, value: u32, memory: &mut DmaMemory) -> (r:
        DeviceAccess)
        requires
            old(memory).wf(),
            old(self).start() <= addr,
            addr + size <= old(self).end(),
        ensures
            final(self).start() == old(self).start(),
            final(self).end() == old(self).end(),
            final(memory).wf(),
            extends_by_dma(old(memory)@, final(memory)@),
            old(self).writes(
                addr,
                size,
                value,
                old(memory)@,
                r,
                final(self).state(),
                final(memory)@,
            ),
    ;
}

impl<D: Device + ?Sized> Device for Box<D> {
    open spec fn start(&self) -> u32 {
        (**self).start()
    }

    open spec fn end(&self) -> u32 {
        (**self).end()
    }

    open spec fn state(&self) -> DeviceState {
        (**self).state()
    }

    open spec fn reads(
        &self,
        addr: u32,
        size: u8,
        before: MemoryView,
        reply: DeviceAccess,
        next: DeviceState,
        after: MemoryView,
    ) -> bool {
        (**self).reads(addr, size, before, reply, next, after)
    }

    open spec fn writes(
        &self,
        addr: u32,
        size: u8,
        value: u32,
        before: MemoryView,
        reply: DeviceAccess,
        next: DeviceState,
        after: MemoryView,
    ) -> bool {
        (**self).writes(addr, size, value, before, reply, next, after)
    }

    fn range(&self) -> (r: Range<u32>) {
        (**self).range()
    }

    fn read(&mut self, addr: u32, size: u8, memory: &mut DmaMemory) -> (r: DeviceAccess) {
        (**self).read(addr, size, memory)
    }

    fn write(&mut self, addr: u32, size: u8, value: u32, memory: &mut DmaMemory) -> (r:
        DeviceAccess) {
        (**self).write(addr, size, value, memory)
    }
}

/// A [`Bus`] that owns a [`Memory`] (RAM plus all its diagnostics) and dispatches
/// memory-mapped I/O to attached [`Device`]s, merging device-side reads and
/// writes into the inner memory's telemetry so watchpoints observe MMIO too.
///
/// The devices of a bus are of one type; where they differ, that type is a box of the
/// trait object.
pub struct DeviceBus<D: Device> {
    ram: DmaMemory,
    devices: Vec<D>,
}

/// A half-open address range that a device claimed.
#[verifier::ext_equal]
pub struct Claim {
    pub start: u32,
    pub end: u32,
}

impl Claim {
    pub open spec fn holds(self, address: u32) -> bool {
        self.start <= address < self.end
    }

    /// Whether two ranges share an address.
    pub open spec fn meets(self, other: Claim) -> bool {
        self.start < other.end && other.start < self.end
    }
}

/// A bus as a mathematical value: its RAM and its devices, in the order in which they
/// were attached.
#[verifier::ext_equal]
pub struct BusView<D> {
    pub ram: MemoryView,
    pub devices: Seq<D>,
}

impl<D: Device> View for DeviceBus<D> {
    type V = BusView<D>;

    closed spec fn view(&self) -> BusView<D> {
        BusView { ram: self.ram@, devices: self.devices@ }
    }
}

/// The range that a device claims.
pub open spec fn claim_of<D: Device>(device: D) -> Claim {
    Claim { start: device.start(), end: device.end() }
}

/// Whether one of some ranges holds an address.
pub open spec fn is_claimed(claims: Seq<Claim>, address: u32) -> bool {
    exists|i: int| 0 <= i < claims.len() && (#[trigger] claims[i]).holds(address)
}

/// The addresses that some ranges hold.
pub open spec fn claimed_addresses(claims: Seq<Claim>) -> Set<u32> {
    Set::new(|address: u32| is_claimed(claims, address))
}

/// What is claimed is not empty, and neither mapped nor claimed twice.
pub open spec fn claims_are_apart<D: Device>(bus: BusView<D>) -> bool {
    &&& forall|i: int|
        0 <= i < bus.claims().len() ==> (#[trigger] bus.claims()[i]).start < bus.claims()[i].end
    &&& forall|i: int, a: u32|
        0 <= i < bus.claims().len() && (#[trigger] bus.claims()[i]).holds(a)
            ==> !#[trigger] bus.ram.bytes.dom().contains(a)
    &&& forall|i: int, j: int|
        #![trigger bus.claims()[i], bus.claims()[j]]
        0 <= i < j < bus.claims().len() ==> !bus.claims()[i].meets(bus.claims()[j])
}

impl<D: Device> BusView<D> {
    /// What the devices claim.
    pub open spec fn claims(self) -> Seq<Claim> {
        self.devices.map_values(|device: D| claim_of(device))
    }

    /// Whether a device answers at an address.
    pub open spec fn answered(self, address: u32) -> bool {
        is_claimed(self.claims(), address)
    }

    /// Why a device that claims a range cannot be attached.
    pub open spec fn refusal(self, start: u32, end: u32) -> Option<MemoryError> {
        if start >= end {
            Some(MemoryError::Empty { origin: start })
        } else if !self.ram.bytes.dom().disjoint(span(start, end - start)) || exists|i: int|
            0 <= i < self.claims().len() && (#[trigger] self.claims()[i]).meets(Claim { start, end }) {
            Some(MemoryError::Overlap { origin: start, length: (end - start) as usize })
        } else {
            None
        }
    }
}

/// The low `size` bytes of a value, as the CPU sees them.
pub open spec fn spec_truncate(value: u32, size: u8) -> u32 {
    if size == 1 {
        value % 0x100
    } else if size == 2 {
        value % 0x1_0000
    } else {
        value
    }
}

fn truncate(value: u32, size: u8) -> (r: u32)
    requires
        is_width(size),
    ensures
        r == spec_truncate(value, size),
        fits(r, size),
{
    if size == 1 {
        value % 0x100
    } else if size == 2 {
        value % 0x1_0000
    } else {
        value
    }
}

/// What a read comes to that a device was asked about: the value it produced, RAM
/// where it disclaims the address, and a fault otherwise. `ram` is the memory as the
/// device left it.
pub open spec fn read_reply(ram: MemoryView, address: u32, size: u8, reply: DeviceAccess) -> (
    Option<u32>,
    MemoryView,
) {
    match reply {
        DeviceAccess::Value(value) => (
            Some(spec_truncate(value, size)),
            ram.after_served_read(address, size, spec_truncate(value, size)),
        ),
        DeviceAccess::NotMine => ram.after_read(address, size),
        DeviceAccess::Wrote | DeviceAccess::Fault => (
            None,
            ram.faulted(address, Access::Read, size),
        ),
    }
}

/// What a write comes to that a device was asked about.
pub open spec fn write_reply(
    ram: MemoryView,
    address: u32,
    size: u8,
    value: u32,
    reply: DeviceAccess,
) -> (Option<()>, MemoryView) {
    match reply {
        DeviceAccess::Wrote => (Some(()), ram.after_served_write(address, size, value)),
        DeviceAccess::NotMine => ram.after_write(address, size, value),
        DeviceAccess::Value(_) | DeviceAccess::Fault => (
            None,
            ram.faulted(address, Access::Write, size),
        ),
    }
}

/// Whether an access goes to a device that claims all of it.
pub open spec fn dispatched<D: Device>(bus: BusView<D>, address: u32, size: u8, i: int) -> bool {
    &&& 0 <= i < bus.claims().len()
    &&& bus.claims()[i].holds(address)
    &&& address + size <= bus.claims()[i].end
}

/// Whether an access starts in a device's range and leaves it.
pub open spec fn straddles<D: Device>(bus: BusView<D>, address: u32, size: u8) -> bool {
    &&& address + size <= u32::MAX
    &&& exists|i: int|
        0 <= i < bus.claims().len() && (#[trigger] bus.claims()[i]).holds(address) && address + size
            > bus.claims()[i].end
}

/// Whether a read goes to device `i`, which answers with `reply` and leaves RAM like
/// `ram`; no other device changes.
pub open spec fn device_reads<D: Device>(
    before: BusView<D>,
    address: u32,
    size: u8,
    i: int,
    reply: DeviceAccess,
    ram: MemoryView,
    after: BusView<D>,
) -> bool {
    &&& dispatched(before, address, size, i)
    &&& extends_by_dma(before.ram, ram)
    &&& before.devices[i].reads(
        address,
        size,
        before.ram,
        reply,
        after.devices[i].state(),
        ram,
    )
    &&& after.devices == before.devices.update(i, after.devices[i])
}

/// Whether a write goes to device `i`, which answers with `reply` and leaves RAM like
/// `ram`; no other device changes.
pub open spec fn device_writes<D: Device>(
    before: BusView<D>,
    address: u32,
    size: u8,
    value: u32,
    i: int,
    reply: DeviceAccess,
    ram: MemoryView,
    after: BusView<D>,
) -> bool {
    &&& dispatched(before, address, size, i)
    &&& extends_by_dma(before.ram, ram)
    &&& before.devices[i].writes(
        address,
        size,
        value,
        before.ram,
        reply,
        after.devices[i].state(),
        ram,
    )
    &&& after.devices == before.devices.update(i, after.devices[i])
}

/// Whether a read may give `answer` and turn one bus into another. Where no device
/// claims the address, RAM answers; an access that leaves the range of the device that
/// claims it faults; otherwise that device is asked.
pub open spec fn bus_reads<D: Device>(
    before: BusView<D>,
    address: u32,
    size: u8,
    answer: Option<u32>,
    after: BusView<D>,
) -> bool {
    if !before.answered(address) || address + size > u32::MAX {
        after.devices == before.devices && (answer, after.ram) == before.ram.after_read(
            address,
            size,
        )
    } else if straddles(before, address, size) {
        after.devices == before.devices && (answer, after.ram) == (
            None::<u32>,
            before.ram.faulted(address, Access::Read, size),
        )
    } else {
        exists|i: int, reply: DeviceAccess, ram: MemoryView|
            #[trigger] device_reads(before, address, size, i, reply, ram, after) && (
                answer,
                after.ram,
            ) == read_reply(ram, address, size, reply)
    }
}

/// Whether a write may be answered by `answer` and turn one bus into another.
pub open spec fn bus_writes<D: Device>(
    before: BusView<D>,
    address: u32,
    size: u8,
    value: u32,
    answer: Option<()>,
    after: BusView<D>,
) -> bool {
    if !before.answered(address) || address + size > u32::MAX {
        after.devices == before.devices && (answer, after.ram) == before.ram.after_write(
            address,
            size,
            value,
        )
    } else if straddles(before, address, size) {
        after.devices == before.devices && (answer, after.ram) == (
            None::<()>,
            before.ram.faulted(address, Access::Write, size),
        )
    } else {
        exists|i: int, reply: DeviceAccess, ram: MemoryView|
            #[trigger] device_writes(before, address, size, value, i, reply, ram, after) && (
                answer,
                after.ram,
            ) == write_reply(ram, address, size, value, reply)
    }
}

/// Carry out a read that a device was asked about, in RAM as the device left it.
pub fn served_read(ram: &mut Memory, addr: u32, size: u8, reply: DeviceAccess) -> (r: Option<u32>)
    requires
        old(ram).wf(),
        is_width(size),
    ensures
        final(ram).wf(),
        (r, final(ram)@) == read_reply(old(ram)@, addr, size, reply),
        r matches Some(value) ==> fits(value, size),
{
    match reply {
        DeviceAccess::Value(value) => {
            let value: u32 = truncate(value, size);
            ram.note_read(addr, size, value);
            Some(value)
        },
        DeviceAccess::NotMine => ram.read(addr, size),
        DeviceAccess::Wrote | DeviceAccess::Fault => {
            ram.note_fault(addr, Access::Read, size);
            None
        },
    }
}

/// Carry out a write that a device was asked about, in RAM as the device left it.
///
/// The device acts first and the CPU's own write is recorded after it, so any DMA
/// the write provoked appears *before* the instruction that provoked it;
/// [`MemoryAccessEvent::source`] is what makes the sequence legible.
pub fn served_write(ram: &mut Memory, addr: u32, size: u8, value: u32, reply: DeviceAccess) -> (r:
    Option<()>)
    requires
        old(ram).wf(),
        is_width(size),
        fits(value, size),
    ensures
        final(ram).wf(),
        (r, final(ram)@) == write_reply(old(ram)@, addr, size, value, reply),
{
    match reply {
        DeviceAccess::Wrote => {
            ram.note_device_write(addr, size, value);
            Some(())
        },
        DeviceAccess::NotMine => ram.write(addr, size, value),
        DeviceAccess::Value(_) | DeviceAccess::Fault => {
            ram.note_fault(addr, Access::Write, size);
            None
        },
    }
}

impl<D: Device> DeviceBus<D> {
    /// The RAM is well formed, and no range is claimed that is mapped or claimed by
    /// another device.
    pub closed spec fn wf(&self) -> bool {
        &&& self.ram.wf()
        &&& claims_are_apart(self@)
    }

    /// Wrap `ram`, dispatching claimed ranges to devices attached later.
    pub fn new(ram: Memory) -> (r: Self)
        requires
            ram.wf(),
        ensures
            r.wf(),
            r@.ram == ram@,
            r@.devices == Seq::<D>::empty(),
    {
        DeviceBus { ram: DmaMemory { ram }, devices: Vec::new() }
    }

    /// Attach `device`, rejecting a range that is empty or overlaps a RAM region
    /// or an already-attached device.
    pub fn attach(&mut self, device: D) -> (r: Result<(), MemoryError>)
        requires
            old(self).wf(),
        ensures
            final(self).wf(),
            match r {
                Ok(()) => {
                    &&& old(self)@.refusal(device.start(), device.end()) is None
                    &&& final(self)@.ram == old(self)@.ram
                    &&& final(self)@.devices == old(self)@.devices.push(device)
                },
                Err(error) => {
                    &&& old(self)@.refusal(device.start(), device.end()) == Some(error)
                    &&& final(self)@ == old(self)@
                },
            },
    {
        let range = device.range();
        let start: u32 = range.start;
        let end: u32 = range.end;
        let ghost claim = Claim { start, end };
        if start >= end {
            return Err(MemoryError::Empty { origin: start });
        }
        let length: usize = (end - start) as usize;
        if self.ram.ram.overlaps(start, end) {
            return Err(MemoryError::Overlap { origin: start, length });
        }
        let mut i: usize = 0;
        while i < self.devices.len()
            invariant
                *self == *old(self),
                self.wf(),
                claim == (Claim { start, end }),
                claim == (Claim { start: device.start(), end: device.end() }),
                start < end,
                length == end - start,
                i <= self.devices@.len(),
                forall|k: int| 0 <= k < i ==> !(#[trigger] self@.claims()[k]).meets(claim),
            decreases self.devices@.len() - i,
        {
            let other = self.devices[i].range();
            assert(self@.claims()[i as int] == claim_of(self.devices@[i as int]));
            if start < other.end && other.start < end {
                assert(self@.claims()[i as int].meets(claim));
                return Err(MemoryError::Overlap { origin: start, length });
            }
            i += 1;
        }
        let ghost before = self@;
        let ghost devices = self.devices@;
        self.devices.push(device);
        proof {
            assert forall|k: int| 0 <= k < devices.len() implies #[trigger] self@.claims()[k]
                == before.claims()[k] by {
                assert(self.devices@[k] == devices[k]);
            }
            assert(self.devices@[devices.len() as int] == device);
            assert(self@.claims() =~= before.claims().push(claim));
            assert forall|k: int, a: u32|
                0 <= k < self@.claims().len() && (#[trigger] self@.claims()[k]).holds(
                    a,
                ) implies !#[trigger] self@.ram.bytes.dom().contains(a) by {
                if k < before.claims().len() {
                    assert(before.claims()[k].holds(a));
                } else {
                    assert(span(start, end - start).contains(a));
                }
            }
            assert(claims_are_apart(self@));
        }
        Ok(())
    }

    /// The inner RAM (its writes/accesses are the merged telemetry).
    pub fn ram(&self) -> (r: &Memory)
        requires
            self.wf(),
        ensures
            r.wf(),
            r@ == self@.ram,
    {
        &self.ram.ram
    }

    /// Seed RAM bytes between runs, as [`Memory::load`] does before one.
    ///
    /// Deliberately narrower than handing out the whole `&mut Memory`: a caller
    /// holding that could map a region over an attached device's range. Loading
    /// reaches RAM alone, so an address a device claims is simply not mapped here and
    /// is refused.
    pub fn load(&mut self, at: u32, bytes: &[u8]) -> (r: Result<(), MemoryError>)
        requires
            old(self).wf(),
        ensures
            final(self).wf(),
            final(self)@.devices == old(self)@.devices,
            if covers(old(self)@.ram.bytes, at, bytes@.len() as int) {
                r == Ok::<(), MemoryError>(()) && final(self)@.ram == old(self)@.ram.seeded(
                    at,
                    bytes@,
                )
            } else {
                r == Err::<(), MemoryError>(
                    MemoryError::OutOfRange { address: at, length: bytes.len() },
                ) && final(self)@.ram == old(self)@.ram
            },
    {
        proof {
            seeding_extends(self@.ram, at, bytes@);
        }
        let r = self.ram.ram.load(at, bytes);
        proof {
            lemma_still_apart(old(self)@, self@);
        }
        r
    }

    /// The device that claims an address.
    fn device_at(&self, addr: u32) -> (r: Option<usize>)
        ensures
            match r {
                Some(i) => i < self.devices@.len() && self@.claims()[i as int].holds(addr)
                    && self@.answered(addr),
                None => !self@.answered(addr),
            },
    {
        let mut i: usize = 0;
        while i < self.devices.len()
            invariant
                i <= self.devices@.len(),
                forall|k: int| 0 <= k < i ==> !(#[trigger] self@.claims()[k]).holds(addr),
            decreases self.devices@.len() - i,
        {
            let range = self.devices[i].range();
            assert(self@.claims()[i as int] == claim_of(self.devices@[i as int]));
            if range.start <= addr && addr < range.end {
                assert(self@.claims()[i as int].holds(addr));
                return Some(i);
            }
            i += 1;
        }
        None
    }

    /// Read `size` bytes for the CPU.
    fn read(&mut self, addr: u32, size: u8) -> (r: Option<u32>)
        requires
            old(self).wf(),
            is_width(size),
        ensures
            final(self).wf(),
            final(self)@.claims() == old(self)@.claims(),
            extends(old(self)@.ram, final(self)@.ram),
            r matches Some(value) ==> fits(value, size),
            bus_reads(old(self)@, addr, size, r, final(self)@),
            !old(self)@.answered(addr) ==> final(self)@.devices == old(self)@.devices && (
                r,
                final(self)@.ram,
            ) == old(self)@.ram.after_read(addr, size),
    {
        let ghost start = self@;
        let found = if addr as u64 + size as u64 > u32::MAX as u64 {
            None
        } else {
            self.device_at(addr)
        };
        match found {
            None => {
                proof {
                    reading_extends(self@.ram, addr, size);
                }
                let r = self.ram.ram.read(addr, size);
                proof {
                    lemma_still_apart(start, self@);
                }
                r
            },
            Some(i) => {
                let range = self.devices[i].range();
                assert(start.claims()[i as int] == claim_of(self.devices@[i as int]));
                proof {
                    lemma_one_claim(start, addr, i as int);
                }
                if addr + size as u32 > range.end {
                    self.ram.ram.note_fault(addr, Access::Read, size);
                    proof {
                        assert(start.claims()[i as int].holds(addr));
                        assert(straddles(start, addr, size));
                        lemma_still_apart(start, self@);
                    }
                    return None;
                }
                let reply = self.devices[i].read(addr, size, &mut self.ram);
                let ghost ram = self.ram@;
                let r = served_read(&mut self.ram.ram, addr, size, reply);
                proof {
                    assert(self@.claims() =~= start.claims());
                    assert(dispatched(start, addr, size, i as int));
                    assert(device_reads(start, addr, size, i as int, reply, ram, self@));
                    lemma_reading_replies_extend(ram, addr, size, reply);
                    extends_transitively(start.ram, ram, self@.ram);
                    lemma_still_apart(start, self@);
                }
                r
            },
        }
    }

    /// Write `size` bytes for the CPU.
    fn write(&mut self, addr: u32, size: u8, value: u32) -> (r: Option<()>)
        requires
            old(self).wf(),
            is_width(size),
            fits(value, size),
        ensures
            final(self).wf(),
            final(self)@.claims() == old(self)@.claims(),
            extends(old(self)@.ram, final(self)@.ram),
            bus_writes(old(self)@, addr, size, value, r, final(self)@),
            !old(self)@.answered(addr) ==> final(self)@.devices == old(self)@.devices && (
                r,
                final(self)@.ram,
            ) == old(self)@.ram.after_write(addr, size, value),
    {
        let ghost start = self@;
        let found = if addr as u64 + size as u64 > u32::MAX as u64 {
            None
        } else {
            self.device_at(addr)
        };
        match found {
            None => {
                proof {
                    writing_extends(self@.ram, addr, size, value);
                }
                let r = self.ram.ram.write(addr, size, value);
                proof {
                    lemma_still_apart(start, self@);
                }
                r
            },
            Some(i) => {
                let range = self.devices[i].range();
                assert(start.claims()[i as int] == claim_of(self.devices@[i as int]));
                proof {
                    lemma_one_claim(start, addr, i as int);
                }
                if addr + size as u32 > range.end {
                    self.ram.ram.note_fault(addr, Access::Write, size);
                    proof {
                        assert(start.claims()[i as int].holds(addr));
                        assert(straddles(start, addr, size));
                        lemma_still_apart(start, self@);
                    }
                    return None;
                }
                let reply = self.devices[i].write(addr, size, value, &mut self.ram);
                let ghost ram = self.ram@;
                let r = served_write(&mut self.ram.ram, addr, size, value, reply);
                proof {
                    assert(self@.claims() =~= start.claims());
                    assert(dispatched(start, addr, size, i as int));
                    assert(device_writes(start, addr, size, value, i as int, reply, ram, self@));
                    lemma_writing_replies_extend(ram, addr, size, value, reply);
                    extends_transitively(start.ram, ram, self@.ram);
                    lemma_still_apart(start, self@);
                }
                r
            },
        }
    }

    /// Read a byte for the CPU.
    pub fn get_byte(&mut self, addr: u32) -> (r: Option<u8>)
        requires
            old(self).wf(),
        ensures
            final(self).wf(),
            final(self)@.claims() == old(self)@.claims(),
            extends(old(self)@.ram, final(self)@.ram),
            bus_reads(old(self)@, addr, 1, of_byte(r), final(self)@),
            !old(self)@.answered(addr) ==> final(self)@.devices == old(self)@.devices && (
                of_byte(r),
                final(self)@.ram,
            ) == old(self)@.ram.after_read(addr, 1),
    {
        match self.read(addr, 1) {
            Some(value) => Some(value as u8),
            None => None,
        }
    }

    /// Read a big-endian word for the CPU.
    pub fn get_word(&mut self, addr: u32) -> (r: Option<u16>)
        requires
            old(self).wf(),
        ensures
            final(self).wf(),
            final(self)@.claims() == old(self)@.claims(),
            extends(old(self)@.ram, final(self)@.ram),
            bus_reads(old(self)@, addr, 2, of_word(r), final(self)@),
            !old(self)@.answered(addr) ==> final(self)@.devices == old(self)@.devices && (
                of_word(r),
                final(self)@.ram,
            ) == old(self)@.ram.after_read(addr, 2),
    {
        match self.read(addr, 2) {
            Some(value) => Some(value as u16),
            None => None,
        }
    }

    /// Read a big-endian longword for the CPU.
    pub fn get_long(&mut self, addr: u32) -> (r: Option<u32>)
        requires
            old(self).wf(),
        ensures
            final(self).wf(),
            final(self)@.claims() == old(self)@.claims(),
            extends(old(self)@.ram, final(self)@.ram),
            bus_reads(old(self)@, addr, 4, r, final(self)@),
            !old(self)@.answered(addr) ==> final(self)@.devices == old(self)@.devices && (
                r,
                final(self)@.ram,
            ) == old(self)@.ram.after_read(addr, 4),
    {
        self.read(addr, 4)
    }

    /// Write a byte for the CPU.
    pub fn set_byte(&mut self, addr: u32, value: u8) -> (r: Option<()>)
        requires
            old(self).wf(),
        ensures
            final(self).wf(),
            final(self)@.claims() == old(self)@.claims(),
            extends(old(self)@.ram, final(self)@.ram),
            bus_writes(old(self)@, addr, 1, value as u32, r, final(self)@),
            !old(self)@.answered(addr) ==> final(self)@.devices == old(self)@.devices && (
                r,
                final(self)@.ram,
            ) == old(self)@.ram.after_write(addr, 1, value as u32),
    {
        self.write(addr, 1, value as u32)
    }

    /// Write a big-endian word for the CPU.
    pub fn set_word(&mut self, addr: u32, value: u16) -> (r: Option<()>)
        requires
            old(self).wf(),
        ensures
            final(self).wf(),
            final(self)@.claims() == old(self)@.claims(),
            extends(old(self)@.ram, final(self)@.ram),
            bus_writes(old(self)@, addr, 2, value as u32, r, final(self)@),
            !old(self)@.answered(addr) ==> final(self)@.devices == old(self)@.devices && (
                r,
                final(self)@.ram,
            ) == old(self)@.ram.after_write(addr, 2, value as u32),
    {
        self.write(addr, 2, value as u32)
    }

    /// Write a big-endian longword for the CPU.
    pub fn set_long(&mut self, addr: u32, value: u32) -> (r: Option<()>)
        requires
            old(self).wf(),
        ensures
            final(self).wf(),
            final(self)@.claims() == old(self)@.claims(),
            extends(old(self)@.ram, final(self)@.ram),
            bus_writes(old(self)@, addr, 4, value, r, final(self)@),
            !old(self)@.answered(addr) ==> final(self)@.devices == old(self)@.devices && (
                r,
                final(self)@.ram,
            ) == old(self)@.ram.after_write(addr, 4, value),
    {
        self.write(addr, 4, value)
    }
}

proof fn lemma_still_apart<D: Device>(before: BusView<D>, after: BusView<D>)
    requires
        claims_are_apart(before),
        after.claims() == before.claims(),
        after.ram.bytes.dom() == before.ram.bytes.dom(),
    ensures
        claims_are_apart(after),
        forall|a: u32| #[trigger] after.answered(a) == before.answered(a),
{
    assert forall|i: int, a: u32|
        0 <= i < after.claims().len() && (#[trigger] after.claims()[i]).holds(
            a,
        ) implies !#[trigger] after.ram.bytes.dom().contains(a) by {
        assert(before.claims()[i].holds(a));
    }
}

proof fn lemma_one_claim<D: Device>(bus: BusView<D>, address: u32, i: int)
    requires
        claims_are_apart(bus),
        0 <= i < bus.claims().len(),
        bus.claims()[i].holds(address),
    ensures
        forall|j: int|
            0 <= j < bus.claims().len() && (#[trigger] bus.claims()[j]).holds(address) ==> j == i,
{
    assert forall|j: int|
        0 <= j < bus.claims().len() && (#[trigger] bus.claims()[j]).holds(address) implies j == i by {
        if j < i {
            assert(!bus.claims()[j].meets(bus.claims()[i]));
        } else if i < j {
            assert(!bus.claims()[i].meets(bus.claims()[j]));
        }
    }
}

proof fn lemma_reading_replies_extend(
    ram: MemoryView,
    address: u32,
    size: u8,
    reply: DeviceAccess,
)
    ensures
        extends(ram, read_reply(ram, address, size, reply).1),
{
    reading_extends(ram, address, size);
}

proof fn lemma_writing_replies_extend(
    ram: MemoryView,
    address: u32,
    size: u8,
    value: u32,
    reply: DeviceAccess,
)
    ensures
        extends(ram, write_reply(ram, address, size, value, reply).1),
{
    writing_extends(ram, address, size, value);
}

/// Mapped memory is never a device's: what RAM holds, RAM answers.
pub proof fn mapped_addresses_are_never_served<D: Device>(bus: BusView<D>, address: u32)
    requires
        claims_are_apart(bus),
        bus.ram.bytes.dom().contains(address),
    ensures
        !bus.answered(address),
{
}

impl<D: Device> HostMemory for DeviceBus<D> {
    open spec fn ready(&self) -> bool {
        self.wf()
    }

    open spec fn contents(&self) -> MemoryView {
        self@.ram
    }

    open spec fn devices(&self) -> Devices {
        Devices {
            states: self@.devices.map_values(|device: D| device.state()),
            served: claimed_addresses(self@.claims()),
        }
    }

    open spec fn may_read(&self, addr: u32, size: u8, answer: Option<u32>, next: &Self) -> bool {
        bus_reads(self@, addr, size, answer, next@)
    }

    open spec fn may_write(
        &self,
        addr: u32,
        size: u8,
        value: u32,
        answer: Option<()>,
        next: &Self,
    ) -> bool {
        bus_writes(self@, addr, size, value, answer, next@)
    }

    fn read_byte(&mut self, addr: u32) -> (r: Option<u8>) {
        self.get_byte(addr)
    }

    fn read_word(&mut self, addr: u32) -> (r: Option<u16>) {
        self.get_word(addr)
    }

    fn read_long(&mut self, addr: u32) -> (r: Option<u32>) {
        self.get_long(addr)
    }

    fn write_byte(&mut self, addr: u32, value: u8) -> (r: Option<()>) {
        self.set_byte(addr, value)
    }

    fn write_word(&mut self, addr: u32, value: u16) -> (r: Option<()>) {
        self.set_word(addr, value)
    }

    fn write_long(&mut self, addr: u32, value: u32) -> (r: Option<()>) {
        self.set_long(addr, value)
    }

    fn load(&mut self, at: u32, bytes: &[u8]) -> (r: Option<()>) {
        proof {
            seeding_extends(self@.ram, at, bytes@);
        }
        match DeviceBus::load(self, at, bytes) {
            Ok(()) => Some(()),
            Err(_) => None,
        }
    }
}

impl<D: Device> Bus for DeviceBus<D> {
    fn set_watch(&mut self, watchpoints: &[Watchpoint], retained: usize) {
        self.ram.ram.set_watch(watchpoints, retained);
        proof {
            lemma_still_apart(old(self)@, self@);
        }
    }

    fn access_count(&self) -> (r: usize) {
        self.ram.ram.accesses().len()
    }

    fn accesses(&self) -> (r: &[MemoryAccessEvent]) {
        self.ram.ram.accesses()
    }

    fn watch_events_total(&self) -> (r: u64) {
        self.ram.ram.watch_events_total()
    }

    fn watch_events_truncated(&self) -> (r: bool) {
        self.ram.ram.watch_events_truncated()
    }

    fn clear_watch_latch(&mut self) {
        self.ram.ram.clear_watch_latch();
        proof {
            lemma_still_apart(old(self)@, self@);
        }
    }

    fn watch_latch(&self) -> (r: Option<MemoryAccessEvent>) {
        self.ram.ram.watch_latch()
    }

    fn write_count(&self) -> (r: usize) {
        self.ram.ram.writes().len()
    }

    fn write_total(&self) -> (r: u64) {
        self.ram.ram.writes_total()
    }

    fn writes(&self) -> (r: &[MemoryWrite]) {
        self.ram.ram.writes()
    }

    fn clear_fault(&mut self) {
        self.ram.ram.clear_fault();
        proof {
            lemma_still_apart(old(self)@, self@);
        }
    }

    fn last_fault(&self) -> (r: Option<Fault>) {
        self.ram.ram.last_fault()
    }

    fn seed_long(&mut self, at: u32, value: u32) {
        proof {
            seeding_extends(self@.ram, at, encoded(value, 4));
        }
        let _ = self.ram.ram.write_long(at, value);
        proof {
            lemma_still_apart(old(self)@, self@);
        }
    }

    fn peek_long(&self, at: u32) -> (r: Option<u32>) {
        proof {
            if covers(self@.ram.bytes, at, 4) {
                mapped_addresses_are_never_served(self@, at);
            }
        }
        self.ram.ram.peek_long(at)
    }

    fn peek_word(&self, at: u32) -> (r: Option<u16>) {
        proof {
            if covers(self@.ram.bytes, at, 2) {
                mapped_addresses_are_never_served(self@, at);
            }
        }
        self.ram.ram.peek_word(at)
    }
}

} // verus!
