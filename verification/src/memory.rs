//! A bounded memory sandbox.
//!
//! [`Memory`] is a set of non-overlapping RAM regions. Reads and writes inside a
//! region behave as ordinary big-endian RAM; every access that leaves the map
//! records a [`Fault`] instead of touching anything.

use crate::collections::AddressMap;
use std::collections::TryReserveError;
use std::ops::Range;
use vstd::prelude::*;
use vstd::slice::*;

verus! {

/// Default cap on how many watchpoint-matching accesses are retained.
///
/// It is a separate budget from the step count because it is not bounded by one: a
/// device that writes memory can make one instruction produce more matching
/// accesses than a whole run makes steps.
pub const DEFAULT_RETAINED_WATCH_EVENTS: usize = 65536;

/// Default cap on how many writes [`Memory`] retains in its log.
///
/// A complete log would make a run's peak memory grow linearly with its step
/// budget. A summary wants the first writes and the true count, which is what this
/// leaves.
pub const DEFAULT_RETAINED_WRITES: usize = 65536;

/// A failure mapping or seeding a [`Memory`] sandbox.
#[derive(Clone, Copy, Debug, PartialEq, Eq, Structural)]
pub enum MemoryError {
    /// Zero-length mappings have no addressable bytes and are rejected.
    Empty { origin: u32 },
    /// The inclusive bytes of a region would extend beyond address `0xffffffff`.
    AddressOverflow { origin: u32, length: usize },
    /// A new region overlaps one already mapped.
    Overlap { origin: u32, length: usize },
    /// A region `[address, address + length)` was not fully within one mapped region.
    OutOfRange { address: u32, length: usize },
    /// Reserving host memory for a mapped region failed.
    Allocation { origin: u32, length: usize },
}

/// The direction of a memory access.
#[derive(Clone, Copy, Debug, PartialEq, Eq, Structural)]
pub enum Access {
    Read,
    Write,
}

/// Which direction(s) a watchpoint observes.
#[derive(Clone, Copy, Debug, PartialEq, Eq, Structural)]
pub enum WatchAccess {
    Read,
    Write,
    Both,
}

/// An absolute half-open address range watched during execution.
#[derive(Clone, Copy, Debug, PartialEq, Eq, Structural)]
pub struct Watchpoint {
    pub start: u32,
    pub end: u32,
    pub access: WatchAccess,
}

/// Who performed a memory access.
///
/// Without this a consumer cannot tell a blitter fetch from the CPU read of the
/// same address, and the two mean entirely different things: one is the chipset
/// working on the program's behalf, the other is an instruction the program
/// executed.
#[derive(Clone, Copy, Debug, PartialEq, Eq, Structural)]
pub enum AccessSource {
    /// An executing instruction, or a device serving one at the CPU's request.
    Cpu,
    /// DMA an attached device performed itself.
    DeviceDma,
}

/// One observed memory access. For reads, `before == after`; for writes they
/// are the old and new big-endian values of the accessed width.
#[derive(Clone, Copy, Debug, PartialEq, Eq, Structural)]
pub struct MemoryAccessEvent {
    pub address: u32,
    pub access: Access,
    pub size: u8,
    pub before: u32,
    pub after: u32,
    pub source: AccessSource,
}

/// An out-of-range memory access that trapped execution.
#[derive(Clone, Copy, Debug, PartialEq, Eq, Structural)]
pub struct Fault {
    /// The absolute address the instruction tried to touch.
    pub address: u32,
    pub access: Access,
    /// Access width in bytes (1, 2, or 4).
    pub size: u8,
}

/// One memory write performed while executing.
#[derive(Clone, Copy, Debug, PartialEq, Eq, Structural)]
pub struct MemoryWrite {
    pub address: u32,
    /// Write width in bytes (1, 2, or 4).
    pub size: u8,
    /// The stored value; only the low `size` bytes are meaningful.
    pub value: u32,
}

impl Watchpoint {
    /// Construct a non-empty, non-wrapping watchpoint.
    pub fn new(start: u32, length: u32, access: WatchAccess) -> (r: Option<Self>)
        ensures
            r == if length > 0 && start + length <= u32::MAX {
                Some(Watchpoint { start, end: (start + length) as u32, access })
            } else {
                None
            },
    {
        match start.checked_add(length) {
            Some(end) => if start < end {
                Some(Watchpoint { start, end, access })
            } else {
                None
            },
            None => None,
        }
    }

    /// Whether an access shares a byte with the watched range, in a watched
    /// direction.
    pub open spec fn spec_matches(self, event: MemoryAccessEvent) -> bool {
        &&& event.address < self.end
        &&& self.start < event.address + event.size
        &&& self.access == WatchAccess::Both || self.access == WatchAccess::Read && event.access
            == Access::Read || self.access == WatchAccess::Write && event.access == Access::Write
    }

    fn matches(self, event: &MemoryAccessEvent) -> (r: bool)
        ensures
            r == self.spec_matches(*event),
    {
        let event_end: u64 = event.address as u64 + event.size as u64;
        let overlaps = event.address < self.end && (self.start as u64) < event_end;
        let direction = match self.access {
            WatchAccess::Both => true,
            WatchAccess::Read => event.access == Access::Read,
            WatchAccess::Write => event.access == Access::Write,
        };
        overlaps && direction
    }
}

/// How many dirty flags one word of a bitmap holds.
const DIRTY_BITS_PER_WORD: usize = 64;

/// One bit per byte of a region, marking the bytes something changed.
///
/// Replaying the write log instead would make a diff's cost scale with the number
/// of writes, and a single blitter operation performs tens of thousands of them
/// from one instruction; the bitmap makes the cost scale with the mapped RAM, which
/// is fixed in advance.
struct DirtyBits {
    words: Vec<u64>,
    /// The number of bytes covered, so `mark` cannot set a bit past the region.
    len: usize,
}

/// Whether a bit of a word is set.
spec fn bit_set(word: u64, bit: u64) -> bool {
    word & (1u64 << bit) != 0
}

proof fn lemma_set_bit(word: u64, set: u64, bit: u64)
    requires
        set < 64,
        bit < 64,
    ensures
        bit_set(word | (1u64 << set), bit) == (bit_set(word, bit) || bit == set),
{
    assert((word | (1u64 << set)) & (1u64 << bit) != 0 <==> (word & (1u64 << bit) != 0 || bit
        == set)) by (bit_vector)
        requires
            set < 64,
            bit < 64,
    ;
}

proof fn lemma_clear_word(bit: u64)
    ensures
        !bit_set(0, bit),
{
    assert(0u64 & (1u64 << bit) == 0) by (bit_vector);
}

impl DirtyBits {
    spec fn wf(&self) -> bool {
        self.words@.len() == (self.len + 63) / 64
    }

    /// Whether a byte is marked.
    spec fn marked(&self, at: int) -> bool {
        bit_set(self.words@[at / 64], (at % 64) as u64)
    }

    /// Whether these are the bits of `len` clean bytes.
    spec fn clean(&self, len: usize) -> bool {
        &&& self.wf()
        &&& self.len == len
        &&& forall|i: int| 0 <= i < len ==> !#[trigger] self.marked(i)
    }

    /// Room for `len` clean bytes, or `None` if the storage cannot be reserved.
    ///
    /// Whether it can is the machine's to say, except that no bytes need no storage.
    fn with_len(len: usize) -> (r: Option<Self>)
        ensures
            r matches Some(bits) ==> bits.clean(len),
            len == 0 ==> r is Some,
    {
        let rest: usize = if len % DIRTY_BITS_PER_WORD == 0 {
            0
        } else {
            1
        };
        let needed: usize = len / DIRTY_BITS_PER_WORD + rest;
        let mut words: Vec<u64> = Vec::new();
        let reserved: Result<(), TryReserveError> = if needed == 0 {
            Ok(())
        } else {
            words.try_reserve(needed)
        };
        Self::over(words, reserved, needed, len)
    }

    /// `len` clean bytes over `needed` words, given whether these could be reserved.
    fn over(
        words: Vec<u64>,
        reserved: Result<(), TryReserveError>,
        needed: usize,
        len: usize,
    ) -> (r: Option<Self>)
        requires
            words@.len() == 0,
            needed == (len + 63) / 64,
        ensures
            match r {
                Some(bits) => reserved is Ok && bits.clean(len),
                None => reserved is Err,
            },
    {
        if reserved.is_err() {
            return None;
        }
        let mut words: Vec<u64> = words;
        words.resize(needed, 0);
        let bits = DirtyBits { words, len };
        proof {
            assert forall|i: int| 0 <= i < len implies !#[trigger] bits.marked(i) by {
                assert(bits.words@[i / 64] == 0);
                lemma_clear_word((i % 64) as u64);
            }
        }
        Some(bits)
    }

    /// Mark one byte.
    fn mark_byte(&mut self, at: usize)
        requires
            old(self).wf(),
            at < old(self).len,
        ensures
            final(self).wf(),
            final(self).len == old(self).len,
            forall|i: int|
                0 <= i < final(self).len ==> #[trigger] final(self).marked(i) == (old(self).marked(
                    i,
                ) || i == at),
    {
        let word: usize = at / DIRTY_BITS_PER_WORD;
        let bit: u64 = (at % DIRTY_BITS_PER_WORD) as u64;
        let value: u64 = self.words[word] | (1u64 << bit);
        self.words.set(word, value);
        proof {
            assert forall|i: int| 0 <= i < self.len implies #[trigger] self.marked(i) == (old(
                self,
            ).marked(i) || i == at) by {
                if i / 64 == word {
                    lemma_set_bit(old(self).words@[word as int], bit, (i % 64) as u64);
                }
            }
        }
    }

    /// Mark `length` bytes from `start`, clamped to the region.
    fn mark(&mut self, start: usize, length: usize)
        requires
            old(self).wf(),
        ensures
            final(self).wf(),
            final(self).len == old(self).len,
            forall|i: int|
                0 <= i < final(self).len ==> #[trigger] final(self).marked(i) == (old(self).marked(
                    i,
                ) || start <= i < start + length),
    {
        let end: usize = if start <= self.len && self.len - start <= length || start > self.len {
            self.len
        } else {
            start + length
        };
        let mut at: usize = start;
        while at < end
            invariant
                self.wf(),
                self.len == old(self).len,
                start <= at,
                at <= end || at == start,
                end <= self.len,
                forall|i: int|
                    0 <= i < self.len ==> #[trigger] self.marked(i) == (old(self).marked(i)
                        || start <= i < at),
            decreases end - at,
        {
            self.mark_byte(at);
            at += 1;
        }
    }

    /// The first marked byte from `from` on. Whole clean words are skipped, which is
    /// the common case for a region a routine barely touched.
    fn next_marked(&self, from: usize) -> (r: Option<usize>)
        requires
            self.wf(),
            from <= self.len,
        ensures
            match r {
                Some(at) => {
                    &&& from <= at < self.len
                    &&& self.marked(at as int)
                    &&& forall|i: int| from <= i < at ==> !#[trigger] self.marked(i)
                },
                None => forall|i: int| from <= i < self.len ==> !#[trigger] self.marked(i),
            },
    {
        let mut at: usize = from;
        while at < self.len
            invariant
                self.wf(),
                from <= at <= self.len,
                forall|i: int| from <= i < at ==> !#[trigger] self.marked(i),
            decreases self.len - at,
        {
            let word: u64 = self.words[at / DIRTY_BITS_PER_WORD];
            let bit: usize = at % DIRTY_BITS_PER_WORD;
            if word == 0 {
                let skip: usize = DIRTY_BITS_PER_WORD - bit;
                let next: usize = if self.len - at <= skip {
                    self.len
                } else {
                    at + skip
                };
                proof {
                    assert forall|i: int| from <= i < next implies !#[trigger] self.marked(i) by {
                        if at <= i {
                            assert(i / 64 == at / 64);
                            lemma_clear_word((i % 64) as u64);
                        }
                    }
                }
                at = next;
            } else {
                if word & (1u64 << (bit as u64)) != 0 {
                    assert(self.marked(at as int));
                    return Some(at);
                }
                assert(!self.marked(at as int));
                at += 1;
            }
        }
        None
    }

    /// Copy every mark into `target`, `at` bytes further up.
    fn copy_into(&self, target: &mut Self, at: usize)
        requires
            self.wf(),
            old(target).wf(),
            at + self.len <= old(target).len,
        ensures
            final(target).wf(),
            final(target).len == old(target).len,
            forall|i: int|
                0 <= i < final(target).len ==> #[trigger] final(target).marked(i) == (old(
                    target,
                ).marked(i) || at <= i < at + self.len && self.marked(i - at)),
    {
        let mut done: usize = 0;
        while done < self.len
            invariant
                self.wf(),
                target.wf(),
                target.len == old(target).len,
                at + self.len <= target.len,
                done <= self.len,
                forall|i: int|
                    0 <= i < target.len ==> #[trigger] target.marked(i) == (old(target).marked(i)
                        || at <= i < at + done && self.marked(i - at)),
            decreases self.len - done,
        {
            match self.next_marked(done) {
                Some(next) => {
                    let ghost before = *target;
                    target.mark_byte(at + next);
                    proof {
                        assert forall|i: int| 0 <= i < target.len implies #[trigger] target.marked(
                            i,
                        ) == (old(target).marked(i) || at <= i < at + next + 1 && self.marked(
                            i - at,
                        )) by {
                            assert(before.marked(i) == (old(target).marked(i) || at <= i < at + done
                                && self.marked(i - at)));
                            if at + done <= i < at + next {
                                assert(!self.marked(i - at));
                            }
                        }
                    }
                    done = next + 1;
                },
                None => {
                    assert forall|i: int| 0 <= i < target.len implies #[trigger] target.marked(i)
                        == (old(target).marked(i) || at <= i < at + self.len && self.marked(
                        i - at,
                    )) by {
                        if at + done <= i < at + self.len {
                            assert(!self.marked(i - at));
                        }
                    }
                    done = self.len;
                },
            }
        }
    }
}

/// One contiguous span of mapped RAM at a fixed base address.
struct Region {
    origin: u32,
    ram: Vec<u8>,
    /// Which of `ram`'s bytes have been changed since the region was mapped.
    dirty: DirtyBits,
}

impl Region {
    spec fn wf(&self) -> bool {
        &&& self.ram@.len() > 0
        &&& self.stop() <= 0x1_0000_0000
        &&& self.dirty.wf()
        &&& self.dirty.len == self.ram@.len()
    }

    /// One past the last mapped address.
    spec fn stop(&self) -> int {
        self.origin + self.ram@.len()
    }

    spec fn holds(&self, address: int) -> bool {
        self.origin <= address < self.stop()
    }

    /// One past the last mapped address, widened so the sum cannot overflow.
    fn end(&self) -> (r: u64)
        requires
            self.wf(),
        ensures
            r == self.stop(),
    {
        self.origin as u64 + self.ram.len() as u64
    }

    /// The index within this region of `[address, address + length)`, if the whole
    /// span lies inside it.
    fn contains(&self, address: u32, length: usize) -> (r: Option<usize>)
        ensures
            match r {
                Some(start) => start == address - self.origin && start + length <= self.ram@.len(),
                None => !(self.origin <= address && address + length <= self.stop()),
            },
    {
        if address < self.origin {
            return None;
        }
        let start: u64 = (address - self.origin) as u64;
        let size: usize = self.ram.len();
        if start <= size as u64 && length <= size - start as usize {
            Some(start as usize)
        } else {
            None
        }
    }
}

/// Every two regions have a gap between them: those that would meet are merged.
spec fn apart(regions: Seq<Region>) -> bool {
    forall|i: int, j: int|
        #![trigger regions[i], regions[j]]
        0 <= i < j < regions.len() ==> regions[i].stop() < regions[j].origin || regions[j].stop()
            < regions[i].origin
}

spec fn all_regions_wf(regions: Seq<Region>) -> bool {
    forall|i: int| 0 <= i < regions.len() ==> (#[trigger] regions[i]).wf()
}

/// Whether some region holds an address.
spec fn held(regions: Seq<Region>, address: int) -> bool {
    exists|i: int| 0 <= i < regions.len() && (#[trigger] regions[i]).holds(address)
}

/// The region that holds an address.
spec fn holder(regions: Seq<Region>, address: int) -> int {
    choose|i: int| 0 <= i < regions.len() && (#[trigger] regions[i]).holds(address)
}

/// The mapped bytes of some regions.
spec fn byte_map(regions: Seq<Region>) -> Map<u32, u8> {
    Map::new(
        |address: u32| held(regions, address as int),
        |address: u32|
            {
                let region = regions[holder(regions, address as int)];
                region.ram@[address - region.origin]
            },
    )
}

/// The changed addresses of some regions.
spec fn dirty_set(regions: Seq<Region>) -> Set<u32> {
    Set::new(
        |address: u32|
            held(regions, address as int) && {
                let region = regions[holder(regions, address as int)];
                region.dirty.marked(address - region.origin)
            },
    )
}

proof fn lemma_holder(regions: Seq<Region>, i: int, address: u32)
    requires
        apart(regions),
        0 <= i < regions.len(),
        regions[i].holds(address as int),
    ensures
        held(regions, address as int),
        holder(regions, address as int) == i,
        byte_map(regions).dom().contains(address),
        byte_map(regions)[address] == regions[i].ram@[address - regions[i].origin],
        dirty_set(regions).contains(address) == regions[i].dirty.marked(
            address - regions[i].origin,
        ),
{
    let h = holder(regions, address as int);
    assert(0 <= h < regions.len() && regions[h].holds(address as int));
    if h < i {
        assert(regions[h].stop() < regions[i].origin || regions[i].stop() < regions[h].origin);
    } else if i < h {
        assert(regions[i].stop() < regions[h].origin || regions[h].stop() < regions[i].origin);
    }
}

/// Whether the bytes of `[address, address + length)` are all mapped. An empty span
/// is where it starts or ends in mapped memory.
pub open spec fn covers(bytes: Map<u32, u8>, address: u32, length: int) -> bool {
    if length <= 0 {
        bytes.dom().contains(address) || address > 0 && bytes.dom().contains((address - 1) as u32)
    } else {
        address + length <= 0x1_0000_0000 && forall|a: u32|
            address <= a < address + length ==> #[trigger] bytes.dom().contains(a)
    }
}

/// The bytes from an address on.
pub open spec fn bytes_at(bytes: Map<u32, u8>, address: u32, length: nat) -> Seq<u8> {
    Seq::new(length, |k: int| bytes[(address + k) as u32])
}

/// Bytes with others written over them from an address on.
pub open spec fn overwritten(bytes: Map<u32, u8>, address: u32, data: Seq<u8>) -> Map<u32, u8> {
    Map::new(
        |a: u32| bytes.dom().contains(a),
        |a: u32|
            if address <= a < address + data.len() {
                data[a - address]
            } else {
                bytes[a]
            },
    )
}

/// The addresses of a span.
pub open spec fn span(address: u32, length: int) -> Set<u32> {
    Set::new(|a: u32| address <= a < address + length)
}

proof fn lemma_covered(regions: Seq<Region>, i: int, address: u32, length: int)
    requires
        apart(regions),
        all_regions_wf(regions),
        0 <= i < regions.len(),
        0 <= length,
        regions[i].origin <= address,
        address + length <= regions[i].stop(),
    ensures
        covers(byte_map(regions), address, length),
        forall|k: int|
            #![trigger regions[i].ram@[k]]
            address - regions[i].origin <= k < address - regions[i].origin + length
                ==> regions[i].ram@[k] == byte_map(regions)[(regions[i].origin + k) as u32],
{
    let region = regions[i];
    let bytes = byte_map(regions);
    assert(region.wf());
    if length == 0 {
        if address < region.stop() {
            lemma_holder(regions, i, address);
        } else {
            lemma_holder(regions, i, (address - 1) as u32);
        }
    } else {
        assert forall|a: u32| address <= a < address + length implies #[trigger] bytes.dom().contains(
            a,
        ) by {
            lemma_holder(regions, i, a);
        }
    }
    assert forall|k: int|
        #![trigger region.ram@[k]]
        address - region.origin <= k < address - region.origin + length implies region.ram@[k]
        == bytes[(region.origin + k) as u32] by {
        lemma_holder(regions, i, (region.origin + k) as u32);
    }
}

/// A span that is mapped throughout lies in one region.
proof fn lemma_one_region(regions: Seq<Region>, address: u32, length: int) -> (i: int)
    requires
        apart(regions),
        all_regions_wf(regions),
        covers(byte_map(regions), address, length),
        0 <= length,
    ensures
        0 <= i < regions.len(),
        regions[i].origin <= address,
        address + length <= regions[i].stop(),
{
    let bytes = byte_map(regions);
    if length == 0 && !bytes.dom().contains(address) {
        let i = holder(regions, address - 1);
        assert(held(regions, ((address - 1) as u32) as int));
        assert(0 <= i < regions.len() && regions[i].holds(address - 1));
        i
    } else {
        assert(bytes.dom().contains(address));
        let i = holder(regions, address as int);
        assert(held(regions, address as int));
        assert(0 <= i < regions.len() && regions[i].holds(address as int));
        if address + length > regions[i].stop() {
            let next = regions[i].stop() as u32;
            assert(bytes.dom().contains(next));
            let j = holder(regions, next as int);
            assert(0 <= j < regions.len() && regions[j].holds(next as int));
            if i < j {
                assert(regions[i].stop() < regions[j].origin || regions[j].stop()
                    < regions[i].origin);
            } else if j < i {
                assert(regions[j].stop() < regions[i].origin || regions[i].stop()
                    < regions[j].origin);
            }
        }
        i
    }
}

/// How many mapped addresses there are below `at` before the first gap.
pub open spec fn run_below(bytes: Map<u32, u8>, at: int) -> int
    decreases at,
{
    if 0 < at <= 0x1_0000_0000 && bytes.dom().contains((at - 1) as u32) {
        1 + run_below(bytes, at - 1)
    } else {
        0
    }
}

/// How many mapped addresses there are from `at` on before the first gap.
pub open spec fn run_above(bytes: Map<u32, u8>, at: int) -> int
    decreases 0x1_0000_0000 - at,
{
    if 0 <= at < 0x1_0000_0000 && bytes.dom().contains(at as u32) {
        1 + run_above(bytes, at + 1)
    } else {
        0
    }
}

/// Below an address of a region, the run of mapped addresses starts at the region's
/// origin.
proof fn lemma_run_below(regions: Seq<Region>, i: int, at: int)
    requires
        apart(regions),
        all_regions_wf(regions),
        0 <= i < regions.len(),
        regions[i].origin <= at <= regions[i].stop(),
    ensures
        run_below(byte_map(regions), at) == at - regions[i].origin,
    decreases at,
{
    assert(regions[i].wf());
    if at > regions[i].origin {
        lemma_holder(regions, i, (at - 1) as u32);
        lemma_run_below(regions, i, at - 1);
    } else if at > 0 && held(regions, at - 1) {
        let j = holder(regions, at - 1);
        assert(0 <= j < regions.len() && regions[j].holds(at - 1));
        if j < i {
            assert(regions[j].stop() < regions[i].origin || regions[i].stop() < regions[j].origin);
        } else if i < j {
            assert(regions[i].stop() < regions[j].origin || regions[j].stop() < regions[i].origin);
        }
    }
}

/// From an address of a region on, the run of mapped addresses ends with the region.
proof fn lemma_run_above(regions: Seq<Region>, i: int, at: int)
    requires
        apart(regions),
        all_regions_wf(regions),
        0 <= i < regions.len(),
        regions[i].origin <= at <= regions[i].stop(),
    ensures
        run_above(byte_map(regions), at) == regions[i].stop() - at,
    decreases regions[i].stop() - at,
{
    assert(regions[i].wf());
    if at < regions[i].stop() {
        lemma_holder(regions, i, at as u32);
        lemma_run_above(regions, i, at + 1);
    } else if at < 0x1_0000_0000 && held(regions, at) {
        let j = holder(regions, at);
        assert(0 <= j < regions.len() && regions[j].holds(at));
        if j < i {
            assert(regions[j].stop() < regions[i].origin || regions[i].stop() < regions[j].origin);
        } else if i < j {
            assert(regions[i].stop() < regions[j].origin || regions[j].stop() < regions[i].origin);
        }
    }
}

proof fn lemma_stored(
    before: Seq<Region>,
    after: Seq<Region>,
    i: int,
    start: int,
    data: Seq<u8>,
    marks: bool,
)
    requires
        apart(before),
        all_regions_wf(before),
        before.len() == after.len(),
        0 <= i < before.len(),
        0 <= start,
        start + data.len() <= before[i].ram@.len(),
        forall|j: int| 0 <= j < before.len() && j != i ==> #[trigger] after[j] == before[j],
        after[i].origin == before[i].origin,
        after[i].ram@.len() == before[i].ram@.len(),
        after[i].dirty.wf(),
        after[i].dirty.len == before[i].dirty.len,
        forall|k: int|
            0 <= k < before[i].ram@.len() ==> #[trigger] after[i].ram@[k] == if start <= k < start
                + data.len() {
                data[k - start]
            } else {
                before[i].ram@[k]
            },
        forall|k: int|
            0 <= k < before[i].ram@.len() ==> #[trigger] after[i].dirty.marked(k) == (
            before[i].dirty.marked(k) || marks && start <= k < start + data.len()),
    ensures
        apart(after),
        all_regions_wf(after),
        byte_map(after) == overwritten(
            byte_map(before),
            (before[i].origin + start) as u32,
            data,
        ),
        marks ==> dirty_set(after) == dirty_set(before).union(
            span((before[i].origin + start) as u32, data.len() as int),
        ),
        !marks ==> dirty_set(after) == dirty_set(before),
{
    assert(before[i].wf());
    assert forall|j: int| 0 <= j < after.len() implies (#[trigger] after[j]).wf() && after[j].origin
        == before[j].origin && after[j].stop() == before[j].stop() by {
        assert(before[j].wf());
    }
    assert(apart(after)) by {
        assert forall|x: int, y: int|
            #![trigger after[x], after[y]]
            0 <= x < y < after.len() implies after[x].stop() < after[y].origin || after[y].stop()
            < after[x].origin by {
            assert(before[x].stop() < before[y].origin || before[y].stop() < before[x].origin);
        }
    }
    let at = (before[i].origin + start) as u32;
    assert(start == before[i].ram@.len() ==> data.len() == 0);
    let expected = overwritten(byte_map(before), at, data);
    assert forall|a: u32|
        #![trigger byte_map(after).dom().contains(a)]
        #![trigger dirty_set(after).contains(a)]
        byte_map(after).dom().contains(a) == byte_map(before).dom().contains(a) && (byte_map(
            after,
        ).dom().contains(a) ==> byte_map(after)[a] == expected[a]) && dirty_set(after).contains(a)
            == (dirty_set(before).contains(a) || marks && at <= a < at + data.len()) by {
        if held(before, a as int) {
            let h = holder(before, a as int);
            assert(0 <= h < before.len() && before[h].holds(a as int));
            assert(after[h].holds(a as int));
            lemma_holder(before, h, a);
            lemma_holder(after, h, a);
            if h != i {
                assert(after[h] == before[h]);
                if h < i {
                    assert(before[h].stop() < before[i].origin || before[i].stop()
                        < before[h].origin);
                } else {
                    assert(before[i].stop() < before[h].origin || before[h].stop()
                        < before[i].origin);
                }
            } else {
                let k = a - before[i].origin;
                assert(after[i].ram@[k] == if start <= k < start + data.len() {
                    data[k - start]
                } else {
                    before[i].ram@[k]
                });
                assert(after[i].dirty.marked(k) == (before[i].dirty.marked(k) || marks && start <= k
                    < start + data.len()));
            }
        } else {
            if held(after, a as int) {
                let h = holder(after, a as int);
                assert(0 <= h < after.len() && after[h].holds(a as int));
                assert(before[h].holds(a as int));
            }
            if at <= a < at + data.len() {
                assert(before[i].holds(a as int));
            }
        }
    }
    assert(byte_map(after) =~= expected);
    if marks {
        assert(dirty_set(after) =~= dirty_set(before).union(span(at, data.len() as int)));
    } else {
        assert(dirty_set(after) =~= dirty_set(before));
    }
}

proof fn lemma_removed(regions: Seq<Region>, k: int)
    requires
        apart(regions),
        all_regions_wf(regions),
        0 <= k < regions.len(),
    ensures
        apart(regions.remove(k)),
        all_regions_wf(regions.remove(k)),
        forall|a: u32|
            #![trigger byte_map(regions.remove(k)).dom().contains(a)]
            #![trigger byte_map(regions.remove(k))[a]]
            #![trigger dirty_set(regions.remove(k)).contains(a)]
            {
                &&& byte_map(regions.remove(k)).dom().contains(a) == (byte_map(
                    regions,
                ).dom().contains(a) && !regions[k].holds(a as int))
                &&& byte_map(regions.remove(k)).dom().contains(a) ==> byte_map(
                    regions.remove(k),
                )[a] == byte_map(regions)[a]
                &&& dirty_set(regions.remove(k)).contains(a) == (dirty_set(regions).contains(a)
                    && !regions[k].holds(a as int))
            },
{
    let rest = regions.remove(k);
    let from = |j: int|
        if j < k {
            j
        } else {
            j + 1
        };
    assert forall|j: int| 0 <= j < rest.len() implies #[trigger] rest[j] == regions[from(j)] by {}
    assert forall|x: int, y: int|
        #![trigger rest[x], rest[y]]
        0 <= x < y < rest.len() implies rest[x].stop() < rest[y].origin || rest[y].stop()
        < rest[x].origin by {
        assert(rest[x] == regions[from(x)] && rest[y] == regions[from(y)]);
    }
    assert forall|j: int| 0 <= j < rest.len() implies (#[trigger] rest[j]).wf() by {
        assert(rest[j] == regions[from(j)]);
    }
    assert forall|a: u32|
        #![trigger byte_map(rest).dom().contains(a)]
        #![trigger byte_map(rest)[a]]
        #![trigger dirty_set(rest).contains(a)]
        {
            &&& byte_map(rest).dom().contains(a) == (byte_map(regions).dom().contains(a)
                && !regions[k].holds(a as int))
            &&& byte_map(rest).dom().contains(a) ==> byte_map(rest)[a] == byte_map(regions)[a]
            &&& dirty_set(rest).contains(a) == (dirty_set(regions).contains(a)
                && !regions[k].holds(a as int))
        } by {
        if held(rest, a as int) {
            let j = holder(rest, a as int);
            assert(0 <= j < rest.len() && rest[j].holds(a as int));
            assert(rest[j] == regions[from(j)]);
            lemma_holder(rest, j, a);
            lemma_holder(regions, from(j), a);
            if regions[k].holds(a as int) {
                lemma_holder(regions, k, a);
            }
        } else if held(regions, a as int) {
            let i = holder(regions, a as int);
            assert(0 <= i < regions.len() && regions[i].holds(a as int));
            lemma_holder(regions, i, a);
            if i < k {
                assert(rest[i] == regions[i]);
            } else if i > k {
                assert(rest[i - 1] == regions[i]);
            }
        }
    }
}

proof fn lemma_pushed(regions: Seq<Region>, region: Region)
    requires
        apart(regions),
        all_regions_wf(regions),
        region.wf(),
        forall|i: int|
            0 <= i < regions.len() ==> (#[trigger] regions[i]).stop() < region.origin
                || region.stop() < regions[i].origin,
    ensures
        apart(regions.push(region)),
        all_regions_wf(regions.push(region)),
        forall|a: u32|
            #![trigger byte_map(regions.push(region)).dom().contains(a)]
            #![trigger byte_map(regions.push(region))[a]]
            #![trigger dirty_set(regions.push(region)).contains(a)]
            {
                &&& byte_map(regions.push(region)).dom().contains(a) == (byte_map(
                    regions,
                ).dom().contains(a) || region.holds(a as int))
                &&& region.holds(a as int) ==> byte_map(regions.push(region))[a]
                    == region.ram@[a - region.origin] && dirty_set(
                    regions.push(region),
                ).contains(a) == region.dirty.marked(a - region.origin)
                &&& !region.holds(a as int) ==> dirty_set(regions.push(region)).contains(a)
                    == dirty_set(regions).contains(a)
                &&& byte_map(regions).dom().contains(a) && !region.holds(a as int) ==> byte_map(
                    regions.push(region),
                )[a] == byte_map(regions)[a]
            },
{
    let more = regions.push(region);
    let n = regions.len() as int;
    assert forall|j: int| 0 <= j < n implies #[trigger] more[j] == regions[j] by {}
    assert(more[n] == region);
    assert forall|x: int, y: int|
        #![trigger more[x], more[y]]
        0 <= x < y < more.len() implies more[x].stop() < more[y].origin || more[y].stop()
        < more[x].origin by {
        assert(more[x] == regions[x]);
        if y < n {
            assert(more[y] == regions[y]);
        }
    }
    assert forall|j: int| 0 <= j < more.len() implies (#[trigger] more[j]).wf() by {
        if j < n {
            assert(more[j] == regions[j]);
        }
    }
    assert forall|a: u32|
        #![trigger byte_map(more).dom().contains(a)]
        #![trigger byte_map(more)[a]]
        #![trigger dirty_set(more).contains(a)]
        {
            &&& byte_map(more).dom().contains(a) == (byte_map(regions).dom().contains(a)
                || region.holds(a as int))
            &&& region.holds(a as int) ==> byte_map(more)[a] == region.ram@[a - region.origin]
                && dirty_set(more).contains(a) == region.dirty.marked(a - region.origin)
            &&& !region.holds(a as int) ==> dirty_set(more).contains(a) == dirty_set(
                regions,
            ).contains(a)
            &&& byte_map(regions).dom().contains(a) && !region.holds(a as int) ==> byte_map(more)[a]
                == byte_map(regions)[a]
        } by {
        if region.holds(a as int) {
            lemma_holder(more, n, a);
        } else if held(regions, a as int) {
            let i = holder(regions, a as int);
            assert(0 <= i < n && regions[i].holds(a as int));
            lemma_holder(regions, i, a);
            assert(more[i] == regions[i]);
            lemma_holder(more, i, a);
        } else if held(more, a as int) {
            let i = holder(more, a as int);
            assert(0 <= i < more.len() && more[i].holds(a as int));
            assert(more[i] == regions[i]);
        }
    }
}

/// A memory sandbox as a mathematical value.
#[verifier::ext_equal]
pub struct MemoryView {
    /// The mapped bytes.
    pub bytes: Map<u32, u8>,
    /// The addresses that something changed.
    pub dirty: Set<u32>,
    pub writes: Seq<MemoryWrite>,
    pub writes_total: u64,
    pub retained_writes: usize,
    pub accesses: Seq<MemoryAccessEvent>,
    pub watchpoints: Seq<Watchpoint>,
    pub retained_watch_events: usize,
    pub watch_events_total: u64,
    pub watch_latch: Option<MemoryAccessEvent>,
    pub last_fault: Option<Fault>,
}

/// A bounded, sandboxed memory image: a set of non-overlapping RAM regions, each
/// a contiguous span `[origin, origin + len)`.
///
/// Reads and writes inside a region behave as ordinary big-endian RAM; every
/// access not fully covered by one region records a [`Fault`] and is reported to
/// the CPU as a bus (Access) Error, so execution traps on unmapped memory: the
/// gap *between* two mapped hunks faults rather than reading as zero. Writes
/// performed by executing code are logged (see [`Memory::writes`]); seeding
/// writes made by the host ([`Memory::load`], [`Memory::write_long`]) are not.
///
/// A write to RAM does two separate things here. It appends to the **write log**,
/// which answers *what did the executing code do*; and it sets a bit in the
/// region's **dirty bitmap**, which answers *which bytes ended up changed*.
///
/// They are not the same set. [`Memory::write_dma_word`], a write an attached
/// device performed on the program's behalf, marks dirty without logging, because
/// one `MOVE.W` that starts a blit is one thing the code did and tens of thousands
/// of things the chipset did in response. [`Memory::load`] does neither: a seeded
/// image is the starting state, not a change to it.
///
/// Two mappings that meet exactly are merged by [`Memory::map`] into a single span.
/// A `MOVE.L` whose four bytes start in a CODE hunk and end in the BSS hunk mapped
/// immediately after it is a legal access to mapped memory, and faulting it would be
/// the sandbox inventing a boundary the machine does not have.
pub struct Memory {
    regions: Vec<Region>,
    /// The retained writes, at most `retained_writes` of them.
    writes: Vec<MemoryWrite>,
    /// Every write executing code performed, counted whether or not it was
    /// retained, so a truncated log never reads as a complete one.
    writes_total: u64,
    /// How many writes `writes` will hold before it stops growing.
    retained_writes: usize,
    /// The retained matching accesses.
    accesses: Vec<MemoryAccessEvent>,
    /// The ranges being watched. Empty means nothing is recorded at all.
    watchpoints: Vec<Watchpoint>,
    /// How many matching accesses `accesses` will hold before it stops growing.
    retained_watch_events: usize,
    /// Every matching access, counted whether or not it was retained.
    watch_events_total: u64,
    /// The first matching access since the latch was last cleared.
    watch_latch: Option<MemoryAccessEvent>,
    last_fault: Option<Fault>,
}

impl View for Memory {
    type V = MemoryView;

    closed spec fn view(&self) -> MemoryView {
        MemoryView {
            bytes: byte_map(self.regions@),
            dirty: dirty_set(self.regions@),
            writes: self.writes@,
            writes_total: self.writes_total,
            retained_writes: self.retained_writes,
            accesses: self.accesses@,
            watchpoints: self.watchpoints@,
            retained_watch_events: self.retained_watch_events,
            watch_events_total: self.watch_events_total,
            watch_latch: self.watch_latch,
            last_fault: self.last_fault,
        }
    }
}

/// A sandbox with no mapped memory.
pub open spec fn empty_memory() -> MemoryView {
    MemoryView {
        bytes: Map::empty(),
        dirty: Set::empty(),
        writes: Seq::empty(),
        writes_total: 0,
        retained_writes: DEFAULT_RETAINED_WRITES,
        accesses: Seq::empty(),
        watchpoints: Seq::empty(),
        retained_watch_events: DEFAULT_RETAINED_WATCH_EVENTS,
        watch_events_total: 0,
        watch_latch: None,
        last_fault: None,
    }
}

/// One more, or the greatest number there is.
pub open spec fn counted_up(total: u64) -> u64 {
    if total < u64::MAX {
        (total + 1) as u64
    } else {
        total
    }
}

impl MemoryView {
    /// A mapping of `length` bytes at `origin` cannot be made.
    pub open spec fn refusal(self, origin: u32, length: usize) -> Option<MemoryError> {
        if length == 0 {
            Some(MemoryError::Empty { origin })
        } else if origin + length > 0x1_0000_0000 {
            Some(MemoryError::AddressOverflow { origin, length })
        } else if !self.bytes.dom().disjoint(span(origin, length as int)) {
            Some(MemoryError::Overlap { origin, length })
        } else {
            None
        }
    }

    /// The length of the span that a mapping makes with the mapped bytes it touches.
    pub open spec fn joined_length(self, origin: u32, length: usize) -> int {
        run_below(self.bytes, origin as int) + length + run_above(
            self.bytes,
            origin + length,
        )
    }

    /// With `length` bytes of zeroed RAM at `origin`.
    pub open spec fn mapped(self, origin: u32, length: usize) -> MemoryView {
        MemoryView {
            bytes: Map::new(
                |a: u32| self.bytes.dom().contains(a) || span(origin, length as int).contains(a),
                |a: u32|
                    if self.bytes.dom().contains(a) {
                        self.bytes[a]
                    } else {
                        0
                    },
            ),
            ..self
        }
    }

    /// With bytes in RAM that nothing else takes note of.
    pub open spec fn seeded(self, address: u32, data: Seq<u8>) -> MemoryView {
        MemoryView { bytes: overwritten(self.bytes, address, data), ..self }
    }

    /// With bytes in RAM, as a change to it.
    pub open spec fn stored(self, address: u32, data: Seq<u8>) -> MemoryView {
        MemoryView {
            bytes: overwritten(self.bytes, address, data),
            dirty: self.dirty.union(span(address, data.len() as int)),
            ..self
        }
    }

    /// With a write in the log, as far as it has room.
    pub open spec fn logged(self, write: MemoryWrite) -> MemoryView {
        MemoryView {
            writes: if self.writes.len() < self.retained_writes {
                self.writes.push(write)
            } else {
                self.writes
            },
            writes_total: counted_up(self.writes_total),
            ..self
        }
    }

    /// Whether a watchpoint is watching an access.
    pub open spec fn watches(self, event: MemoryAccessEvent) -> bool {
        exists|i: int|
            0 <= i < self.watchpoints.len() && (#[trigger] self.watchpoints[i]).spec_matches(event)
    }

    /// With an access recorded, if a watchpoint is watching it.
    pub open spec fn observed(self, event: MemoryAccessEvent) -> MemoryView {
        if self.watches(event) {
            MemoryView {
                accesses: if self.accesses.len() < self.retained_watch_events {
                    self.accesses.push(event)
                } else {
                    self.accesses
                },
                watch_events_total: counted_up(self.watch_events_total),
                watch_latch: if self.watch_latch is Some {
                    self.watch_latch
                } else {
                    Some(event)
                },
                ..self
            }
        } else {
            self
        }
    }

    /// With a pending fault.
    pub open spec fn faulted(self, address: u32, access: Access, size: u8) -> MemoryView {
        MemoryView { last_fault: Some(Fault { address, access, size }), ..self }
    }
}

impl Memory {
    /// The regions are well formed and have gaps between them.
    pub closed spec fn wf(&self) -> bool {
        &&& apart(self.regions@)
        &&& all_regions_wf(self.regions@)
    }

    /// An empty sandbox with no mapped memory.
    pub fn new() -> (r: Self)
        ensures
            r.wf(),
            r@ == empty_memory(),
    {
        let r = Memory {
            regions: Vec::new(),
            writes: Vec::new(),
            writes_total: 0,
            retained_writes: DEFAULT_RETAINED_WRITES,
            accesses: Vec::new(),
            watchpoints: Vec::new(),
            retained_watch_events: DEFAULT_RETAINED_WATCH_EVENTS,
            watch_events_total: 0,
            watch_latch: None,
            last_fault: None,
        };
        assert(r@ =~= empty_memory());
        r
    }

    /// The region index and in-region offset of `[address, address + length)`,
    /// if a single mapped region fully contains it.
    fn locate(&self, address: u32, length: usize) -> (r: Option<(usize, usize)>)
        requires
            self.wf(),
        ensures
            match r {
                Some((region, start)) => {
                    &&& covers(self@.bytes, address, length as int)
                    &&& region < self.regions@.len()
                    &&& start == address - self.regions@[region as int].origin
                    &&& start + length <= self.regions@[region as int].ram@.len()
                },
                None => !covers(self@.bytes, address, length as int),
            },
    {
        let mut i: usize = 0;
        while i < self.regions.len()
            invariant
                self.wf(),
                i <= self.regions@.len(),
                forall|j: int|
                    0 <= j < i ==> !((#[trigger] self.regions@[j]).origin <= address && address
                        + length <= self.regions@[j].stop()),
            decreases self.regions@.len() - i,
        {
            if let Some(start) = self.regions[i].contains(address, length) {
                proof {
                    lemma_covered(self.regions@, i as int, address, length as int);
                }
                return Some((i, start));
            }
            i += 1;
        }
        proof {
            if covers(self@.bytes, address, length as int) {
                let j = lemma_one_region(self.regions@, address, length as int);
                assert(self.regions@[j].origin <= address);
            }
        }
        None
    }

    /// Put bytes into RAM at a place that holds them.
    fn put(&mut self, region: usize, start: usize, data: &[u8], marks: bool)
        requires
            old(self).wf(),
            region < old(self).regions@.len(),
            start + data@.len() <= old(self).regions@[region as int].ram@.len(),
        ensures
            final(self).wf(),
            ({
                let address = (old(self).regions@[region as int].origin + start) as u32;
                final(self)@ == if marks {
                    old(self)@.stored(address, data@)
                } else {
                    old(self)@.seeded(address, data@)
                }
            }),
            final(self).regions@.len() == old(self).regions@.len(),
    {
        let ghost before = self.regions@;
        let ghost at = region as int;
        proof {
            assert(before[at].wf());
        }
        let mut k: usize = 0;
        while k < data.len()
            invariant
                before == old(self).regions@,
                at == region,
                all_regions_wf(before),
                region < before.len(),
                start + data@.len() <= before[at].ram@.len(),
                k <= data@.len(),
                self.regions@.len() == before.len(),
                forall|j: int|
                    0 <= j < before.len() && j != at ==> #[trigger] self.regions@[j] == before[j],
                self.regions@[at].origin == before[at].origin,
                self.regions@[at].dirty == before[at].dirty,
                self.regions@[at].ram@.len() == before[at].ram@.len(),
                forall|i: int|
                    0 <= i < before[at].ram@.len() ==> #[trigger] self.regions@[at].ram@[i]
                        == if start <= i < start + k {
                        data@[i - start]
                    } else {
                        before[at].ram@[i]
                    },
                self.writes@ == old(self).writes@,
                self.writes_total == old(self).writes_total,
                self.retained_writes == old(self).retained_writes,
                self.accesses@ == old(self).accesses@,
                self.watchpoints@ == old(self).watchpoints@,
                self.retained_watch_events == old(self).retained_watch_events,
                self.watch_events_total == old(self).watch_events_total,
                self.watch_latch == old(self).watch_latch,
                self.last_fault == old(self).last_fault,
            decreases data@.len() - k,
        {
            self.regions[region].ram.set(start + k, data[k]);
            k += 1;
        }
        if marks {
            self.regions[region].dirty.mark(start, data.len());
        }
        proof {
            lemma_stored(before, self.regions@, at, start as int, data@, marks);
            let address = (before[at].origin + start) as u32;
            if marks {
                assert(self@ =~= old(self)@.stored(address, data@));
            } else {
                assert(self@ =~= old(self)@.seeded(address, data@));
            }
        }
    }

    /// Copy `bytes` into RAM at absolute address `at`, without logging a write.
    /// Used to place a code/data image before execution.
    pub fn load(&mut self, at: u32, bytes: &[u8]) -> (r: Result<(), MemoryError>)
        requires
            old(self).wf(),
        ensures
            final(self).wf(),
            if covers(old(self)@.bytes, at, bytes@.len() as int) {
                r == Ok::<(), MemoryError>(()) && final(self)@ == old(self)@.seeded(at, bytes@)
            } else {
                r == Err::<(), MemoryError>(
                    MemoryError::OutOfRange { address: at, length: bytes.len() },
                ) && final(self)@ == old(self)@
            },
    {
        match self.locate(at, bytes.len()) {
            Some((region, start)) => {
                self.put(region, start, bytes, false);
                Ok(())
            },
            None => Err(MemoryError::OutOfRange { address: at, length: bytes.len() }),
        }
    }

    /// Borrow `length` mapped bytes at absolute address `at`, or `None` if the
    /// region is not fully mapped by a single region. Reads the current RAM
    /// contents (including anything executing code wrote), so callers can recover
    /// a routine's output.
    pub fn slice(&self, at: u32, length: usize) -> (r: Option<&[u8]>)
        requires
            self.wf(),
        ensures
            r is Some == covers(self@.bytes, at, length as int),
            r matches Some(bytes) ==> bytes@ == bytes_at(self@.bytes, at, length as nat),
    {
        match self.locate(at, length) {
            Some((region, start)) => {
                let ram = self.regions[region].ram.as_slice();
                proof {
                    lemma_covered(self.regions@, region as int, at, length as int);
                }
                let bytes = slice_subrange(ram, start, start + length);
                proof {
                    assert forall|k: int| 0 <= k < length implies bytes@[k] == bytes_at(
                        self@.bytes,
                        at,
                        length as nat,
                    )[k] by {
                        assert(self.regions@[region as int].ram@[start + k]
                            == self@.bytes[(at + k) as u32]);
                    }
                    assert(bytes@ =~= bytes_at(self@.bytes, at, length as nat));
                }
                Some(bytes)
            },
            None => None,
        }
    }
}

/// Where a mapping would stand among the regions.
struct Place {
    overlaps: bool,
    /// The region that ends where the mapping starts.
    below: Option<usize>,
    /// The region that starts where the mapping ends.
    above: Option<usize>,
}

/// Whether a place names the neighbours that a mapping of `[origin, end)` touches.
spec fn neighbours(regions: Seq<Region>, origin: u32, end: int, place: Place) -> bool {
    &&& match place.below {
        Some(i) => i < regions.len() && regions[i as int].stop() == origin,
        None => forall|i: int|
            0 <= i < regions.len() ==> (#[trigger] regions[i]).stop() != origin,
    }
    &&& match place.above {
        Some(i) => i < regions.len() && regions[i as int].origin == end,
        None => forall|i: int| 0 <= i < regions.len() ==> (#[trigger] regions[i]).origin != end,
    }
}

/// How many bytes the region below a mapping holds.
spec fn bytes_below(regions: Seq<Region>, place: Place) -> int {
    match place.below {
        Some(i) => regions[i as int].ram@.len() as int,
        None => 0,
    }
}

/// How many bytes the region above a mapping holds.
spec fn bytes_above(regions: Seq<Region>, place: Place) -> int {
    match place.above {
        Some(i) => regions[i as int].ram@.len() as int,
        None => 0,
    }
}

/// What a mapping joins is its neighbours.
proof fn lemma_joined_length(memory: &Memory, origin: u32, len: usize, place: Place)
    requires
        memory.wf(),
        memory@.refusal(origin, len) is None,
        neighbours(memory.regions@, origin, origin + len, place),
    ensures
        memory@.joined_length(origin, len) == bytes_below(memory.regions@, place) + len
            + bytes_above(memory.regions@, place),
{
    let regions = memory.regions@;
    let end = origin + len;
    let wanted = span(origin, len as int);
    match place.below {
        Some(i) => lemma_run_below(regions, i as int, origin as int),
        None => {
            if origin > 0 && held(regions, origin - 1) {
                let j = holder(regions, origin - 1);
                assert(0 <= j < regions.len() && regions[j].holds(origin - 1));
                assert(regions[j].stop() != origin);
                lemma_holder(regions, j, origin);
                assert(wanted.contains(origin));
            }
        },
    }
    match place.above {
        Some(i) => {
            assert(regions[i as int].wf());
            lemma_run_above(regions, i as int, end)
        },
        None => {
            if end < 0x1_0000_0000 && held(regions, end) {
                let j = holder(regions, end);
                assert(0 <= j < regions.len() && regions[j].holds(end));
                assert(regions[j].origin != end);
                let last = (end - 1) as u32;
                lemma_holder(regions, j, last);
                assert(wanted.contains(last));
            }
        },
    }
}

impl Memory {
    /// Find the neighbours that a mapping touches with no gap. Either, both, or
    /// neither: a mapping placed between two existing ones joins all three into a
    /// single span.
    fn place(&self, origin: u32, end: u64) -> (r: Place)
        requires
            self.wf(),
            origin < end <= 0x1_0000_0000,
        ensures
            r.overlaps == !self@.bytes.dom().disjoint(span(origin, end - origin)),
            r.overlaps == exists|i: int|
                0 <= i < self.regions@.len() && origin < (#[trigger] self.regions@[i]).stop()
                    && self.regions@[i].origin < end,
            neighbours(self.regions@, origin, end as int, r),
    {
        let mut place = Place { overlaps: false, below: None, above: None };
        let mut i: usize = 0;
        while i < self.regions.len()
            invariant
                self.wf(),
                i <= self.regions@.len(),
                place.overlaps == exists|j: int|
                    0 <= j < i && origin < (#[trigger] self.regions@[j]).stop()
                        && self.regions@[j].origin < end,
                match place.below {
                    Some(j) => j < i && self.regions@[j as int].stop() == origin,
                    None => forall|j: int|
                        0 <= j < i ==> (#[trigger] self.regions@[j]).stop() != origin,
                },
                match place.above {
                    Some(j) => j < i && self.regions@[j as int].origin == end,
                    None => forall|j: int|
                        0 <= j < i ==> (#[trigger] self.regions@[j]).origin != end,
                },
            decreases self.regions@.len() - i,
        {
            assert(self.regions@[i as int].wf());
            let start: u64 = self.regions[i].origin as u64;
            let stop: u64 = self.regions[i].end();
            if (origin as u64) < stop && start < end {
                place.overlaps = true;
                assert(origin < self.regions@[i as int].stop());
            }
            if stop == origin as u64 {
                place.below = Some(i);
            }
            if start == end {
                place.above = Some(i);
            }
            i += 1;
        }
        proof {
            let wanted = span(origin, end - origin);
            if place.overlaps {
                let j = choose|j: int|
                    0 <= j < self.regions@.len() && origin < (#[trigger] self.regions@[j]).stop()
                        && self.regions@[j].origin < end;
                assert(self.regions@[j].wf());
                let shared = if origin < self.regions@[j].origin {
                    self.regions@[j].origin
                } else {
                    origin
                };
                lemma_holder(self.regions@, j, shared);
                assert(wanted.contains(shared));
            }
            if !self@.bytes.dom().disjoint(wanted) {
                let shared = choose|a: u32|
                    self@.bytes.dom().contains(a) && wanted.contains(a);
                assert(held(self.regions@, shared as int));
                let j = holder(self.regions@, shared as int);
                assert(0 <= j < self.regions@.len() && self.regions@[j].holds(shared as int));
                assert(origin < self.regions@[j].stop());
            }
        }
        place
    }

    /// Whether some byte of `[start, end)` is mapped.
    pub(crate) fn overlaps(&self, start: u32, end: u32) -> (r: bool)
        requires
            self.wf(),
            start < end,
        ensures
            r == !self@.bytes.dom().disjoint(span(start, end - start)),
    {
        self.place(start, end as u64).overlaps
    }

    /// Map `len` bytes of zeroed RAM at absolute address `origin`, joining it to
    /// any region it touches exactly.
    ///
    /// Whether the storage can be reserved is the machine's to say; where it cannot,
    /// the map is left exactly as it was.
    pub fn map(&mut self, origin: u32, len: usize) -> (r: Result<(), MemoryError>)
        requires
            old(self).wf(),
        ensures
            final(self).wf(),
            match r {
                Ok(()) => {
                    &&& old(self)@.refusal(origin, len) is None
                    &&& old(self)@.joined_length(origin, len) <= usize::MAX
                    &&& final(self)@ == old(self)@.mapped(origin, len)
                },
                Err(MemoryError::Allocation { origin: at, length }) => {
                    &&& old(self)@.refusal(origin, len) is None
                    &&& at == origin
                    &&& length == if old(self)@.joined_length(origin, len) <= usize::MAX {
                        old(self)@.joined_length(origin, len)
                    } else {
                        len as int
                    }
                    &&& final(self)@ == old(self)@
                },
                Err(error) => {
                    &&& old(self)@.refusal(origin, len) == Some(error)
                    &&& final(self)@ == old(self)@
                },
            },
    {
        if len == 0 {
            return Err(MemoryError::Empty { origin });
        }
        if len as u64 > 0x1_0000_0000 - origin as u64 {
            return Err(MemoryError::AddressOverflow { origin, length: len });
        }
        let end: u64 = origin as u64 + len as u64;
        let place = self.place(origin, end);
        if place.overlaps {
            return Err(MemoryError::Overlap { origin, length: len });
        }
        proof {
            lemma_joined_length(self, origin, len, place);
        }
        let below_bytes: usize = match place.below {
            Some(index) => self.regions[index].ram.len(),
            None => 0,
        };
        let above_bytes: usize = match place.above {
            Some(index) => self.regions[index].ram.len(),
            None => 0,
        };
        let head: usize = match below_bytes.checked_add(len) {
            Some(head) => head,
            None => {
                return Err(MemoryError::Allocation { origin, length: len });
            },
        };
        let total: usize = match head.checked_add(above_bytes) {
            Some(total) => total,
            None => {
                return Err(MemoryError::Allocation { origin, length: len });
            },
        };
        // The joined span is built whole before anything already mapped is
        // disturbed.
        let mut ram: Vec<u8> = Vec::new();
        let reserved: Result<(), TryReserveError> = ram.try_reserve(total);
        let dirty = if reserved.is_ok() {
            DirtyBits::with_len(total)
        } else {
            None
        };
        self.map_reserved(origin, len, place, total, ram, reserved, dirty)
    }

    /// Map `len` bytes at `origin` into storage that was asked for, or report that it
    /// was refused.
    fn map_reserved(
        &mut self,
        origin: u32,
        len: usize,
        place: Place,
        total: usize,
        ram: Vec<u8>,
        reserved: Result<(), TryReserveError>,
        dirty: Option<DirtyBits>,
    ) -> (r: Result<(), MemoryError>)
        requires
            old(self).wf(),
            old(self)@.refusal(origin, len) is None,
            neighbours(old(self).regions@, origin, origin + len, place),
            total == old(self)@.joined_length(origin, len),
            ram@.len() == 0,
            dirty matches Some(bits) ==> bits.clean(total),
        ensures
            final(self).wf(),
            if reserved is Ok && dirty is Some {
                &&& r == Ok::<(), MemoryError>(())
                &&& final(self)@ == old(self)@.mapped(origin, len)
            } else {
                &&& r == Err::<(), MemoryError>(MemoryError::Allocation { origin, length: total })
                &&& final(self)@ == old(self)@
            },
    {
        let mut ram = ram;
        let mut dirty = match (reserved, dirty) {
            (Ok(()), Some(dirty)) => dirty,
            _ => {
                return Err(MemoryError::Allocation { origin, length: total });
            },
        };
        let ghost before = self.regions@;
        proof {
            lemma_joined_length(self, origin, len, place);
            assert forall|i: int| 0 <= i < before.len() implies (#[trigger] before[i]).stop()
                <= origin || before[i].origin >= origin + len by {
                assert(before[i].wf());
                if before[i].stop() > origin && before[i].origin < origin + len {
                    let shared = if origin < before[i].origin {
                        before[i].origin
                    } else {
                        origin
                    };
                    lemma_holder(before, i, shared);
                    assert(span(origin, len as int).contains(shared));
                }
            }
        }
        let head: usize = match place.below {
            Some(index) => self.regions[index].ram.len() + len,
            None => len,
        };
        let joined_origin: u32 = match place.below {
            Some(index) => self.regions[index].origin,
            None => origin,
        };
        proof {
            if let Some(index) = place.below {
                assert(before[index as int].wf());
            }
            if let Some(index) = place.above {
                assert(before[index as int].wf());
            }
        }
        if let Some(index) = place.below {
            ram.extend_from_slice(self.regions[index].ram.as_slice());
            assert(ram@ =~= before[index as int].ram@);
            self.regions[index].dirty.copy_into(&mut dirty, 0);
        }
        ram.resize(head, 0);
        let ghost lower = ram@;
        if let Some(index) = place.above {
            ram.extend_from_slice(self.regions[index].ram.as_slice());
            assert(ram@ =~= lower + before[index as int].ram@);
            self.regions[index].dirty.copy_into(&mut dirty, head);
        }
        let region = Region { origin: joined_origin, ram, dirty };
        proof {
            assert forall|k: int|
                #![trigger region.ram@[k]]
                #![trigger region.dirty.marked(k)]
                0 <= k < region.ram@.len() implies {
                let a = region.origin + k;
                &&& a < origin ==> region.ram@[k] == before[place.below->0 as int].ram@[k]
                    && region.dirty.marked(k) == before[place.below->0 as int].dirty.marked(k)
                &&& origin <= a < origin + len ==> region.ram@[k] == 0 && !region.dirty.marked(k)
                &&& origin + len <= a ==> region.ram@[k] == before[place.above->0 as int].ram@[a - (
                origin + len)] && region.dirty.marked(k)
                    == before[place.above->0 as int].dirty.marked(a - (origin + len))
            } by {
                let a = region.origin + k;
                if a < origin + len {
                    assert(region.ram@[k] == lower[k]);
                } else {
                    assert(k - head == a - (origin + len));
                    assert(before[place.above->0 as int].dirty.marked(k - head) == region.dirty.marked(k));
                }
            }
            lemma_joined(before, origin, len as int, place, region);
        }
        match (place.below, place.above) {
            (Some(low), Some(high)) => {
                if low < high {
                    self.regions.remove(high);
                    self.regions.remove(low);
                } else {
                    self.regions.remove(low);
                    self.regions.remove(high);
                }
            },
            (Some(only), None) => {
                self.regions.remove(only);
            },
            (None, Some(only)) => {
                self.regions.remove(only);
            },
            (None, None) => {},
        }
        self.regions.push(region);
        assert(self@ =~= old(self)@.mapped(origin, len));
        Ok(())
    }
}

/// The regions without those that a mapping joins.
spec fn unjoined(regions: Seq<Region>, place: Place) -> Seq<Region> {
    match (place.below, place.above) {
        (Some(low), Some(high)) => if low < high {
            regions.remove(high as int).remove(low as int)
        } else {
            regions.remove(low as int).remove(high as int)
        },
        (Some(only), None) => regions.remove(only as int),
        (None, Some(only)) => regions.remove(only as int),
        (None, None) => regions,
    }
}

/// Replacing the neighbours of a mapping by the joined region maps the new bytes and
/// nothing else.
proof fn lemma_joined(regions: Seq<Region>, origin: u32, len: int, place: Place, region: Region)
    requires
        apart(regions),
        all_regions_wf(regions),
        0 < len,
        origin + len <= 0x1_0000_0000,
        forall|i: int|
            0 <= i < regions.len() ==> (#[trigger] regions[i]).stop() <= origin
                || regions[i].origin >= origin + len,
        match place.below {
            Some(i) => i < regions.len() && regions[i as int].stop() == origin,
            None => forall|i: int|
                0 <= i < regions.len() ==> (#[trigger] regions[i]).stop() != origin,
        },
        match place.above {
            Some(i) => i < regions.len() && regions[i as int].origin == origin + len,
            None => forall|i: int|
                0 <= i < regions.len() ==> (#[trigger] regions[i]).origin != origin + len,
        },
        region.origin == match place.below {
            Some(i) => regions[i as int].origin,
            None => origin,
        },
        region.stop() == match place.above {
            Some(i) => regions[i as int].stop(),
            None => origin + len,
        },
        region.dirty.wf(),
        region.dirty.len == region.ram@.len(),
        forall|k: int|
            #![trigger region.ram@[k]]
            #![trigger region.dirty.marked(k)]
            0 <= k < region.ram@.len() ==> {
                let a = region.origin + k;
                &&& a < origin ==> region.ram@[k] == regions[place.below->0 as int].ram@[k]
                    && region.dirty.marked(k) == regions[place.below->0 as int].dirty.marked(k)
                &&& origin <= a < origin + len ==> region.ram@[k] == 0 && !region.dirty.marked(k)
                &&& origin + len <= a ==> region.ram@[k] == regions[place.above->0 as int].ram@[a
                    - (origin + len)] && region.dirty.marked(k)
                    == regions[place.above->0 as int].dirty.marked(a - (origin + len))
            },
    ensures
        ({
            let after = unjoined(regions, place).push(region);
            &&& apart(after)
            &&& all_regions_wf(after)
            &&& dirty_set(after) == dirty_set(regions)
            &&& byte_map(after) == Map::new(
                |a: u32| byte_map(regions).dom().contains(a) || span(origin, len).contains(a),
                |a: u32|
                    if byte_map(regions).dom().contains(a) {
                        byte_map(regions)[a]
                    } else {
                        0
                    },
            )
        }),
{
    let rest = unjoined(regions, place);
    match (place.below, place.above) {
        (Some(low), Some(high)) => {
            assert(regions[low as int].wf());
            assert(regions[high as int].wf());
            if low < high {
                lemma_removed(regions, high as int);
                assert(regions.remove(high as int)[low as int] == regions[low as int]);
                lemma_removed(regions.remove(high as int), low as int);
            } else {
                lemma_removed(regions, low as int);
                assert(regions.remove(low as int)[high as int] == regions[high as int]);
                lemma_removed(regions.remove(low as int), high as int);
            }
        },
        (Some(only), None) => {
            assert(regions[only as int].wf());
            lemma_removed(regions, only as int);
        },
        (None, Some(only)) => {
            assert(regions[only as int].wf());
            lemma_removed(regions, only as int);
        },
        (None, None) => {},
    }
    assert forall|j: int| 0 <= j < rest.len() implies (#[trigger] rest[j]).stop() < region.origin
        || region.stop() < rest[j].origin by {
        let i = lemma_unjoined_from(regions, place, j);
        assert(regions[i].wf());
        if let Some(low) = place.below {
            assert(regions[low as int].wf());
            assert(regions[i].stop() < regions[low as int].origin || regions[low as int].stop()
                < regions[i].origin);
        }
        if let Some(high) = place.above {
            assert(regions[high as int].wf());
            assert(regions[i].stop() < regions[high as int].origin || regions[high as int].stop()
                < regions[i].origin);
        }
    }
    lemma_pushed(rest, region);
    let after = rest.push(region);
    let expected = Map::new(
        |a: u32| byte_map(regions).dom().contains(a) || span(origin, len).contains(a),
        |a: u32|
            if byte_map(regions).dom().contains(a) {
                byte_map(regions)[a]
            } else {
                0
            },
    );
    assert forall|a: u32|
        #![trigger byte_map(after).dom().contains(a)]
        #![trigger dirty_set(after).contains(a)]
        byte_map(after).dom().contains(a) == expected.dom().contains(a) && (byte_map(
            after,
        ).dom().contains(a) ==> byte_map(after)[a] == expected[a]) && dirty_set(after).contains(a)
            == dirty_set(regions).contains(a) by {
        if region.holds(a as int) {
            let k = a - region.origin;
            assert(region.ram@[k] == region.ram@[k]);
            if a < origin {
                lemma_holder(regions, place.below->0 as int, a);
            } else if origin + len <= a {
                lemma_holder(regions, place.above->0 as int, a);
            } else if held(regions, a as int) {
                let h = holder(regions, a as int);
                assert(0 <= h < regions.len() && regions[h].holds(a as int));
            }
        } else {
            assert(byte_map(rest).dom().contains(a) == byte_map(regions).dom().contains(a));
            assert(dirty_set(rest).contains(a) == dirty_set(regions).contains(a));
        }
    }
    assert(byte_map(after) =~= expected);
    assert(dirty_set(after) =~= dirty_set(regions));
}

/// Where a region that is not joined stood before.
proof fn lemma_unjoined_from(regions: Seq<Region>, place: Place, j: int) -> (i: int)
    requires
        0 <= j < unjoined(regions, place).len(),
        place.below matches Some(low) ==> low < regions.len(),
        place.above matches Some(high) ==> high < regions.len(),
        place.below is Some && place.above is Some ==> place.below->0 != place.above->0,
    ensures
        0 <= i < regions.len(),
        regions[i] == unjoined(regions, place)[j],
        place.below matches Some(low) ==> i != low,
        place.above matches Some(high) ==> i != high,
{
    match (place.below, place.above) {
        (Some(low), Some(high)) => {
            let first = if low < high {
                low as int
            } else {
                high as int
            };
            let second = if low < high {
                high as int
            } else {
                low as int
            };
            if j < first {
                j
            } else if j + 1 < second {
                j + 1
            } else {
                j + 2
            }
        },
        (Some(only), None) | (None, Some(only)) => if j < only {
            j
        } else {
            j + 1
        },
        (None, None) => j,
    }
}

/// Bytes as a big-endian number.
pub open spec fn big_endian(data: Seq<u8>) -> nat
    decreases data.len(),
{
    if data.len() == 0 {
        0
    } else {
        big_endian(data.drop_last()) * 256 + data.last() as nat
    }
}

/// The big-endian bytes of the low `size` bytes of a number.
pub open spec fn encoded(value: u32, size: u8) -> Seq<u8> {
    if size == 1 {
        seq![(value % 0x100) as u8]
    } else if size == 2 {
        seq![(value / 0x100 % 0x100) as u8, (value % 0x100) as u8]
    } else {
        seq![
            (value / 0x100_0000) as u8,
            (value / 0x1_0000 % 0x100) as u8,
            (value / 0x100 % 0x100) as u8,
            (value % 0x100) as u8,
        ]
    }
}

/// Whether a number is the width of an access: a byte, a word or a longword.
pub open spec fn is_width(size: u8) -> bool {
    size == 1 || size == 2 || size == 4
}

/// Whether a value has no more than `size` bytes.
pub open spec fn fits(value: u32, size: u8) -> bool {
    size == 1 && value < 0x100 || size == 2 && value < 0x1_0000 || size == 4
}

impl MemoryView {
    /// The big-endian value of `size` bytes at an address.
    pub open spec fn value_at(self, address: u32, size: u8) -> u32 {
        big_endian(bytes_at(self.bytes, address, size as nat)) as u32
    }

    /// What a read by the CPU gives and leaves behind.
    pub open spec fn after_read(self, address: u32, size: u8) -> (Option<u32>, MemoryView) {
        if covers(self.bytes, address, size as int) {
            let value = self.value_at(address, size);
            (
                Some(value),
                self.observed(
                    MemoryAccessEvent {
                        address,
                        access: Access::Read,
                        size,
                        before: value,
                        after: value,
                        source: AccessSource::Cpu,
                    },
                ),
            )
        } else {
            (None, self.faulted(address, Access::Read, size))
        }
    }

    /// What a write by the CPU gives and leaves behind.
    pub open spec fn after_write(self, address: u32, size: u8, value: u32) -> (
        Option<()>,
        MemoryView,
    ) {
        if covers(self.bytes, address, size as int) {
            (
                Some(()),
                self.stored(address, encoded(value, size)).logged(
                    MemoryWrite { address, size, value },
                ).observed(
                    MemoryAccessEvent {
                        address,
                        access: Access::Write,
                        size,
                        before: self.value_at(address, size),
                        after: value,
                        source: AccessSource::Cpu,
                    },
                ),
            )
        } else {
            (None, self.faulted(address, Access::Write, size))
        }
    }
}

proof fn lemma_big_endian_byte(data: Seq<u8>)
    requires
        data.len() == 1,
    ensures
        big_endian(data) == data[0],
{
    reveal_with_fuel(big_endian, 2);
    assert(data.drop_last() =~= Seq::empty());
}

proof fn lemma_big_endian_word(data: Seq<u8>)
    requires
        data.len() == 2,
    ensures
        big_endian(data) == data[0] * 0x100 + data[1],
{
    lemma_big_endian_byte(data.drop_last());
}

proof fn lemma_big_endian_long(data: Seq<u8>)
    requires
        data.len() == 4,
    ensures
        big_endian(data) == data[0] * 0x100_0000 + data[1] * 0x1_0000 + data[2] * 0x100 + data[3],
{
    let three = data.drop_last();
    lemma_big_endian_word(three.drop_last());
    assert(big_endian(three) == big_endian(three.drop_last()) * 256 + three.last());
}

/// The big-endian bytes of a number spell that number.
pub proof fn encoding_is_undone_by_reading(value: u32, size: u8)
    requires
        is_width(size),
        fits(value, size),
    ensures
        encoded(value, size).len() == size,
        big_endian(encoded(value, size)) == value,
{
    if size == 1 {
        lemma_big_endian_byte(encoded(value, size));
    } else if size == 2 {
        lemma_big_endian_word(encoded(value, size));
    } else {
        lemma_big_endian_long(encoded(value, size));
    }
}

/// A read gives back what the write before it wrote, and other bytes are as they
/// were.
pub proof fn reads_give_back_writes(memory: MemoryView, address: u32, size: u8, value: u32)
    requires
        is_width(size),
        fits(value, size),
        covers(memory.bytes, address, size as int),
    ensures
        memory.after_write(address, size, value).1.after_read(address, size).0 == Some(value),
        memory.after_write(address, size, value).1.bytes.dom() == memory.bytes.dom(),
        forall|a: u32|
            a < address || a >= address + size ==> #[trigger] memory.after_write(
                address,
                size,
                value,
            ).1.bytes[a] == memory.bytes[a] || !memory.bytes.dom().contains(a),
{
    encoding_is_undone_by_reading(value, size);
    let after = memory.after_write(address, size, value).1;
    assert(after.bytes.dom() =~= memory.bytes.dom());
    assert(bytes_at(after.bytes, address, size as nat) =~= encoded(value, size));
    assert(covers(after.bytes, address, size as int));
}

/// A span that is mapped throughout is one span, however it was mapped: two mappings
/// that meet exactly are covered by one access.
pub proof fn touching_mappings_are_one(
    memory: MemoryView,
    origin: u32,
    length: usize,
    next: u32,
    next_length: usize,
)
    requires
        0 < length,
        0 < next_length,
        next == origin + length,
        next + next_length <= 0x1_0000_0000,
    ensures
        covers(memory.mapped(origin, length).mapped(next, next_length).bytes, origin, length + next_length),
{
    let bytes = memory.mapped(origin, length).mapped(next, next_length).bytes;
    assert forall|a: u32| origin <= a < origin + length + next_length implies #[trigger] bytes.dom().contains(
        a,
    ) by {
        assert(span(origin, length as int).contains(a) || span(next, next_length as int).contains(a));
    }
}

impl Memory {
    /// The value of `size` bytes at a place that holds them.
    fn value(&self, region: usize, start: usize, size: u8) -> (r: u32)
        requires
            self.wf(),
            is_width(size),
            region < self.regions@.len(),
            start + size <= self.regions@[region as int].ram@.len(),
        ensures
            r == self@.value_at((self.regions@[region as int].origin + start) as u32, size),
    {
        let ram = &self.regions[region].ram;
        let ghost address = (self.regions@[region as int].origin + start) as u32;
        let ghost data = bytes_at(self@.bytes, address, size as nat);
        proof {
            assert(self.regions@[region as int].wf());
            lemma_covered(self.regions@, region as int, address, size as int);
            assert forall|k: int| 0 <= k < size implies #[trigger] data[k] == ram@[start + k] by {}
        }
        if size == 1 {
            proof {
                lemma_big_endian_byte(data);
            }
            ram[start] as u32
        } else if size == 2 {
            proof {
                lemma_big_endian_word(data);
            }
            ram[start] as u32 * 0x100 + ram[start + 1] as u32
        } else {
            proof {
                lemma_big_endian_long(data);
            }
            ram[start] as u32 * 0x100_0000 + ram[start + 1] as u32 * 0x1_0000 + ram[start + 2] as u32
                * 0x100 + ram[start + 3] as u32
        }
    }

    /// Record a fault so the run traps.
    pub(crate) fn note_fault(&mut self, address: u32, access: Access, size: u8)
        requires
            old(self).wf(),
        ensures
            final(self).wf(),
            final(self)@ == old(self)@.faulted(address, access, size),
    {
        self.last_fault = Some(Fault { address, access, size });
        assert(self@ =~= old(self)@.faulted(address, access, size));
    }

    fn record_write(&mut self, address: u32, size: u8, value: u32)
        requires
            old(self).wf(),
        ensures
            final(self).wf(),
            final(self)@ == old(self)@.logged(MemoryWrite { address, size, value }),
    {
        if self.writes_total < u64::MAX {
            self.writes_total = self.writes_total + 1;
        }
        if self.writes.len() < self.retained_writes {
            self.writes.push(MemoryWrite { address, size, value });
        }
        assert(self@ =~= old(self)@.logged(MemoryWrite { address, size, value }));
    }

    fn is_watched(&self, event: &MemoryAccessEvent) -> (r: bool)
        ensures
            r == self@.watches(*event),
    {
        let mut i: usize = 0;
        while i < self.watchpoints.len()
            invariant
                i <= self.watchpoints@.len(),
                forall|k: int|
                    0 <= k < i ==> !(#[trigger] self.watchpoints@[k]).spec_matches(*event),
            decreases self.watchpoints@.len() - i,
        {
            if self.watchpoints[i].matches(event) {
                assert(self@.watchpoints[i as int].spec_matches(*event));
                return true;
            }
            i += 1;
        }
        false
    }

    /// Record an access, if a watchpoint is watching it.
    ///
    /// The filter is here rather than in the run loop afterwards because the
    /// number of accesses one instruction can make is not bounded by anything
    /// the caller chose. Storing every access and filtering later would mean the
    /// unbounded set had already been built.
    ///
    /// Retention is capped too, and the cap is deliberately not silent: the total
    /// keeps counting past it. The latch is set whether or not the event was
    /// retained.
    fn record_access(&mut self, event: MemoryAccessEvent)
        requires
            old(self).wf(),
        ensures
            final(self).wf(),
            final(self)@ == old(self)@.observed(event),
    {
        if !self.is_watched(&event) {
            return ;
        }
        if self.watch_events_total < u64::MAX {
            self.watch_events_total = self.watch_events_total + 1;
        }
        if self.watch_latch.is_none() {
            self.watch_latch = Some(event);
        }
        if self.accesses.len() < self.retained_watch_events {
            self.accesses.push(event);
        }
        assert(self@ =~= old(self)@.observed(event));
    }
}

impl Memory {
    /// Read `size` bytes for the CPU.
    pub(crate) fn read(&mut self, address: u32, size: u8) -> (r: Option<u32>)
        requires
            old(self).wf(),
            is_width(size),
        ensures
            final(self).wf(),
            (r, final(self)@) == old(self)@.after_read(address, size),
            r matches Some(value) ==> fits(value, size),
    {
        match self.locate(address, size as usize) {
            Some((region, start)) => {
                let value: u32 = self.value(region, start, size);
                proof {
                    lemma_value_fits(self@, address, size);
                }
                self.record_access(
                    MemoryAccessEvent {
                        address,
                        access: Access::Read,
                        size,
                        before: value,
                        after: value,
                        source: AccessSource::Cpu,
                    },
                );
                Some(value)
            },
            None => {
                self.note_fault(address, Access::Read, size);
                None
            },
        }
    }

    /// Write `size` bytes for the CPU.
    pub(crate) fn write(&mut self, address: u32, size: u8, value: u32) -> (r: Option<()>)
        requires
            old(self).wf(),
            is_width(size),
            fits(value, size),
        ensures
            final(self).wf(),
            (r, final(self)@) == old(self)@.after_write(address, size, value),
    {
        match self.locate(address, size as usize) {
            Some((region, start)) => {
                let before: u32 = self.value(region, start, size);
                self.put_value(region, start, size, value);
                self.record_write(address, size, value);
                self.record_access(
                    MemoryAccessEvent {
                        address,
                        access: Access::Write,
                        size,
                        before,
                        after: value,
                        source: AccessSource::Cpu,
                    },
                );
                Some(())
            },
            None => {
                self.note_fault(address, Access::Write, size);
                None
            },
        }
    }

    /// Store a value at a place that holds it.
    fn put_value(&mut self, region: usize, start: usize, size: u8, value: u32)
        requires
            old(self).wf(),
            is_width(size),
            fits(value, size),
            region < old(self).regions@.len(),
            start + size <= old(self).regions@[region as int].ram@.len(),
        ensures
            final(self).wf(),
            final(self)@ == old(self)@.stored(
                (old(self).regions@[region as int].origin + start) as u32,
                encoded(value, size),
            ),
    {
        if size == 1 {
            let data: [u8; 1] = [value as u8];
            assert(data@ =~= encoded(value, size));
            self.put(region, start, &data, true);
        } else if size == 2 {
            let data: [u8; 2] = [(value / 0x100) as u8, (value % 0x100) as u8];
            assert(data@ =~= encoded(value, size));
            self.put(region, start, &data, true);
        } else {
            let data: [u8; 4] = long_bytes(value);
            self.put(region, start, &data, true);
        }
    }

    /// Read a byte, or `None` and a pending fault where it is not mapped.
    pub fn get_byte(&mut self, addr: u32) -> (r: Option<u8>)
        requires
            old(self).wf(),
        ensures
            final(self).wf(),
            r == byte_of(old(self)@.after_read(addr, 1).0),
            final(self)@ == old(self)@.after_read(addr, 1).1,
    {
        match self.read(addr, 1) {
            Some(value) => Some(value as u8),
            None => None,
        }
    }

    /// Read a big-endian word, or `None` and a pending fault where it is not mapped.
    pub fn get_word(&mut self, addr: u32) -> (r: Option<u16>)
        requires
            old(self).wf(),
        ensures
            final(self).wf(),
            r == word_of(old(self)@.after_read(addr, 2).0),
            final(self)@ == old(self)@.after_read(addr, 2).1,
    {
        match self.read(addr, 2) {
            Some(value) => Some(value as u16),
            None => None,
        }
    }

    /// Read a big-endian longword, or `None` and a pending fault where it is not mapped.
    pub fn get_long(&mut self, addr: u32) -> (r: Option<u32>)
        requires
            old(self).wf(),
        ensures
            final(self).wf(),
            r == old(self)@.after_read(addr, 4).0,
            final(self)@ == old(self)@.after_read(addr, 4).1,
    {
        self.read(addr, 4)
    }

    /// Write a byte, or `None` and a pending fault where it is not mapped.
    pub fn set_byte(&mut self, addr: u32, value: u8) -> (r: Option<()>)
        requires
            old(self).wf(),
        ensures
            final(self).wf(),
            (r, final(self)@) == old(self)@.after_write(addr, 1, value as u32),
    {
        self.write(addr, 1, value as u32)
    }

    /// Write a big-endian word, or `None` and a pending fault where it is not mapped.
    pub fn set_word(&mut self, addr: u32, value: u16) -> (r: Option<()>)
        requires
            old(self).wf(),
        ensures
            final(self).wf(),
            (r, final(self)@) == old(self)@.after_write(addr, 2, value as u32),
    {
        self.write(addr, 2, value as u32)
    }

    /// Write a big-endian longword, or `None` and a pending fault where it is not mapped.
    pub fn set_long(&mut self, addr: u32, value: u32) -> (r: Option<()>)
        requires
            old(self).wf(),
        ensures
            final(self).wf(),
            (r, final(self)@) == old(self)@.after_write(addr, 4, value),
    {
        self.write(addr, 4, value)
    }

    /// The retained writes executing code has performed, in order.
    ///
    /// A **prefix**, not the whole set: at most [`Memory::retained_writes`] of them,
    /// with [`Memory::writes_total`] counting past the cap.
    pub fn writes(&self) -> (r: &[MemoryWrite])
        ensures
            r@ == self@.writes,
    {
        self.writes.as_slice()
    }

    /// Writes executing code has performed. Always the true total.
    pub fn writes_total(&self) -> (r: u64)
        ensures
            r == self@.writes_total,
    {
        self.writes_total
    }

    /// Whether more writes happened than were retained.
    pub fn writes_truncated(&self) -> (r: bool)
        ensures
            r == (self@.writes_total > self@.writes.len()),
    {
        self.writes_total > self.writes.len() as u64
    }

    /// How many writes the log will retain.
    pub fn retained_writes(&self) -> (r: usize)
        ensures
            r == self@.retained_writes,
    {
        self.retained_writes
    }

    /// Retain at most `writes` log entries. The total keeps counting either way.
    pub fn set_retained_writes(&mut self, writes: usize)
        requires
            old(self).wf(),
        ensures
            final(self).wf(),
            final(self)@ == (MemoryView { retained_writes: writes, ..old(self)@ }),
    {
        self.retained_writes = writes;
        assert(self@ =~= (MemoryView { retained_writes: writes, ..old(self)@ }));
    }

    /// Store a big-endian longword at absolute address `at`, without logging a
    /// write. Used to seed the stack (e.g. a return marker or call arguments).
    pub fn write_long(&mut self, at: u32, value: u32) -> (r: Result<(), MemoryError>)
        requires
            old(self).wf(),
        ensures
            final(self).wf(),
            if covers(old(self)@.bytes, at, 4) {
                r == Ok::<(), MemoryError>(()) && final(self)@ == old(self)@.seeded(
                    at,
                    encoded(value, 4),
                )
            } else {
                r == Err::<(), MemoryError>(MemoryError::OutOfRange { address: at, length: 4 })
                    && final(self)@ == old(self)@
            },
    {
        let data: [u8; 4] = long_bytes(value);
        self.load(at, &data)
    }

    /// Whether a word is fully mapped. Asking leaves no trace of any kind.
    pub fn contains_word(&self, address: u32) -> (r: bool)
        requires
            self.wf(),
        ensures
            r == covers(self@.bytes, address, 2),
    {
        self.locate(address, 2).is_some()
    }

    /// Store a big-endian word on behalf of an attached device performing DMA:
    /// it changes RAM, marks it dirty, and is observable to a watchpoint, but it
    /// never enters the write log. Returns `None` if the word is not fully mapped.
    ///
    /// A miss records **no** [`Fault`]: DMA that leaves the map is the device's
    /// own business to refuse, and inventing a CPU bus error for it would trap an
    /// instruction that accessed nothing wrong.
    pub fn write_dma_word(&mut self, address: u32, value: u16) -> (r: Option<()>)
        requires
            old(self).wf(),
        ensures
            final(self).wf(),
            (r, final(self)@) == old(self)@.after_dma_write(address, value),
    {
        match self.locate(address, 2) {
            Some((region, start)) => {
                let before: u32 = self.value(region, start, 2);
                self.put_value(region, start, 2, value as u32);
                self.record_access(
                    MemoryAccessEvent {
                        address,
                        access: Access::Write,
                        size: 2,
                        before,
                        after: value as u32,
                        source: AccessSource::DeviceDma,
                    },
                );
                Some(())
            },
            None => None,
        }
    }

    /// Read a big-endian word on behalf of an attached device performing DMA.
    /// Observable to a watchpoint, and, like [`Memory::write_dma_word`], never a CPU
    /// access and never a [`Fault`].
    pub fn read_dma_word(&mut self, address: u32) -> (r: Option<u16>)
        requires
            old(self).wf(),
        ensures
            final(self).wf(),
            r == word_of(old(self)@.after_dma_read(address).0),
            final(self)@ == old(self)@.after_dma_read(address).1,
    {
        match self.locate(address, 2) {
            Some((region, start)) => {
                let value: u32 = self.value(region, start, 2);
                self.record_access(
                    MemoryAccessEvent {
                        address,
                        access: Access::Read,
                        size: 2,
                        before: value,
                        after: value,
                        source: AccessSource::DeviceDma,
                    },
                );
                Some(value as u16)
            },
            None => None,
        }
    }

    /// Record a device-served read (the value came from a device, not RAM), so
    /// watchpoints still observe it.
    pub(crate) fn note_read(&mut self, address: u32, size: u8, value: u32)
        requires
            old(self).wf(),
        ensures
            final(self).wf(),
            final(self)@ == old(self)@.after_served_read(address, size, value),
    {
        self.record_access(
            MemoryAccessEvent {
                address,
                access: Access::Read,
                size,
                before: value,
                after: value,
                source: AccessSource::Cpu,
            },
        );
    }

    /// Record a device-served write. A device has no cheap prior value, so the
    /// event's `before` is 0; a watchpoint matches on address and direction.
    pub(crate) fn note_device_write(&mut self, address: u32, size: u8, value: u32)
        requires
            old(self).wf(),
        ensures
            final(self).wf(),
            final(self)@ == old(self)@.after_served_write(address, size, value),
    {
        self.record_write(address, size, value);
        self.record_access(
            MemoryAccessEvent {
                address,
                access: Access::Write,
                size,
                before: 0,
                after: value,
                source: AccessSource::Cpu,
            },
        );
    }

    /// Watch these ranges, retaining at most `retained` matching accesses, and
    /// discard whatever was recorded before. An empty list records nothing.
    pub fn set_watch(&mut self, watchpoints: &[Watchpoint], retained: usize)
        requires
            old(self).wf(),
        ensures
            final(self).wf(),
            final(self)@ == old(self)@.watching(watchpoints@, retained),
    {
        let mut list: Vec<Watchpoint> = Vec::new();
        let mut i: usize = 0;
        while i < watchpoints.len()
            invariant
                i <= watchpoints@.len(),
                list@ == watchpoints@.take(i as int),
            decreases watchpoints@.len() - i,
        {
            list.push(watchpoints[i]);
            assert(watchpoints@.take(i + 1) =~= watchpoints@.take(i as int).push(
                watchpoints@[i as int],
            ));
            i += 1;
        }
        assert(list@ =~= watchpoints@);
        self.watchpoints = list;
        self.retained_watch_events = retained;
        self.accesses = Vec::new();
        self.watch_events_total = 0;
        self.watch_latch = None;
        assert(self@ =~= old(self)@.watching(watchpoints@, retained));
    }

    /// The retained accesses. Every one of them matched a watchpoint.
    pub fn accesses(&self) -> (r: &[MemoryAccessEvent])
        ensures
            r@ == self@.accesses,
    {
        self.accesses.as_slice()
    }

    /// Every matching access, counted whether or not it was retained.
    pub fn watch_events_total(&self) -> (r: u64)
        ensures
            r == self@.watch_events_total,
    {
        self.watch_events_total
    }

    /// Whether more matching accesses happened than were retained.
    pub fn watch_events_truncated(&self) -> (r: bool)
        ensures
            r == (self@.watch_events_total > self@.accesses.len()),
    {
        self.watch_events_total > self.accesses.len() as u64
    }

    /// Forget the first-match latch.
    pub fn clear_watch_latch(&mut self)
        requires
            old(self).wf(),
        ensures
            final(self).wf(),
            final(self)@ == (MemoryView { watch_latch: None, ..old(self)@ }),
    {
        self.watch_latch = None;
        assert(self@ =~= (MemoryView { watch_latch: None, ..old(self)@ }));
    }

    /// The first matching access since the latch was cleared, retained or not.
    pub fn watch_latch(&self) -> (r: Option<MemoryAccessEvent>)
        ensures
            r == self@.watch_latch,
    {
        self.watch_latch
    }

    /// Clear the pending fault.
    pub fn clear_fault(&mut self)
        requires
            old(self).wf(),
        ensures
            final(self).wf(),
            final(self)@ == (MemoryView { last_fault: None, ..old(self)@ }),
    {
        self.last_fault = None;
        assert(self@ =~= (MemoryView { last_fault: None, ..old(self)@ }));
    }

    /// The pending fault, if the last access trapped.
    pub fn last_fault(&self) -> (r: Option<Fault>)
        ensures
            r == self@.last_fault,
    {
        self.last_fault
    }

    /// Read a mapped word without logging an access.
    pub fn peek_word(&self, at: u32) -> (r: Option<u16>)
        requires
            self.wf(),
        ensures
            r == word_of(self@.peeked(at, 2)),
    {
        match self.locate(at, 2) {
            Some((region, start)) => Some(self.value(region, start, 2) as u16),
            None => None,
        }
    }

    /// Read a mapped longword without logging an access.
    pub fn peek_long(&self, at: u32) -> (r: Option<u32>)
        requires
            self.wf(),
        ensures
            r == self@.peeked(at, 4),
    {
        match self.locate(at, 4) {
            Some((region, start)) => Some(self.value(region, start, 4)),
            None => None,
        }
    }
}

/// A value as a byte.
pub open spec fn byte_of(value: Option<u32>) -> Option<u8> {
    match value {
        Some(value) => Some(value as u8),
        None => None,
    }
}

/// A value as a word.
pub open spec fn word_of(value: Option<u32>) -> Option<u16> {
    match value {
        Some(value) => Some(value as u16),
        None => None,
    }
}

impl MemoryView {
    /// A value in RAM, as a look that leaves no trace shows it.
    pub open spec fn peeked(self, address: u32, size: u8) -> Option<u32> {
        if covers(self.bytes, address, size as int) {
            Some(self.value_at(address, size))
        } else {
            None
        }
    }

    /// What a read by a device gives and leaves behind.
    pub open spec fn after_dma_read(self, address: u32) -> (Option<u32>, MemoryView) {
        if covers(self.bytes, address, 2) {
            let value = self.value_at(address, 2);
            (
                Some(value),
                self.observed(
                    MemoryAccessEvent {
                        address,
                        access: Access::Read,
                        size: 2,
                        before: value,
                        after: value,
                        source: AccessSource::DeviceDma,
                    },
                ),
            )
        } else {
            (None, self)
        }
    }

    /// What a write by a device gives and leaves behind.
    pub open spec fn after_dma_write(self, address: u32, value: u16) -> (Option<()>, MemoryView) {
        if covers(self.bytes, address, 2) {
            (
                Some(()),
                self.stored(address, encoded(value as u32, 2)).observed(
                    MemoryAccessEvent {
                        address,
                        access: Access::Write,
                        size: 2,
                        before: self.value_at(address, 2),
                        after: value as u32,
                        source: AccessSource::DeviceDma,
                    },
                ),
            )
        } else {
            (None, self)
        }
    }

    /// With a read in the telemetry that a device answered.
    pub open spec fn after_served_read(self, address: u32, size: u8, value: u32) -> MemoryView {
        self.observed(
            MemoryAccessEvent {
                address,
                access: Access::Read,
                size,
                before: value,
                after: value,
                source: AccessSource::Cpu,
            },
        )
    }

    /// With a write in the telemetry that a device accepted.
    pub open spec fn after_served_write(self, address: u32, size: u8, value: u32) -> MemoryView {
        self.logged(MemoryWrite { address, size, value }).observed(
            MemoryAccessEvent {
                address,
                access: Access::Write,
                size,
                before: 0,
                after: value,
                source: AccessSource::Cpu,
            },
        )
    }

    /// With fresh watchpoints.
    pub open spec fn watching(self, watchpoints: Seq<Watchpoint>, retained: usize) -> MemoryView {
        MemoryView {
            watchpoints,
            retained_watch_events: retained,
            accesses: Seq::empty(),
            watch_events_total: 0,
            watch_latch: None,
            ..self
        }
    }
}

impl DirtyBits {
    fn duplicate(&self) -> (r: Self)
        ensures
            r.words@ == self.words@,
            r.len == self.len,
    {
        let words = self.words.clone();
        assert(words@ =~= self.words@);
        DirtyBits { words, len: self.len }
    }
}

impl Clone for Memory {
    fn clone(&self) -> (r: Self)
        ensures
            self.wf() ==> r.wf() && r@ == self@,
    {
        let mut regions: Vec<Region> = Vec::new();
        let mut i: usize = 0;
        while i < self.regions.len()
            invariant
                i <= self.regions@.len(),
                regions@.len() == i,
                forall|k: int|
                    0 <= k < i ==> (#[trigger] regions@[k]).origin == self.regions@[k].origin
                        && regions@[k].ram@ == self.regions@[k].ram@ && regions@[k].dirty.words@
                        == self.regions@[k].dirty.words@ && regions@[k].dirty.len
                        == self.regions@[k].dirty.len,
            decreases self.regions@.len() - i,
        {
            let ram = self.regions[i].ram.clone();
            assert(ram@ =~= self.regions@[i as int].ram@);
            regions.push(
                Region {
                    origin: self.regions[i].origin,
                    ram,
                    dirty: self.regions[i].dirty.duplicate(),
                },
            );
            i += 1;
        }
        let writes = self.writes.clone();
        let accesses = self.accesses.clone();
        let watchpoints = self.watchpoints.clone();
        let r = Memory {
            regions,
            writes,
            writes_total: self.writes_total,
            retained_writes: self.retained_writes,
            accesses,
            watchpoints,
            retained_watch_events: self.retained_watch_events,
            watch_events_total: self.watch_events_total,
            watch_latch: self.watch_latch,
            last_fault: self.last_fault,
        };
        proof {
            assert(writes@ =~= self.writes@);
            assert(accesses@ =~= self.accesses@);
            assert(watchpoints@ =~= self.watchpoints@);
            if self.wf() {
                lemma_same_regions(self.regions@, regions@);
                assert(r@ =~= self@);
            }
        }
        r
    }
}

proof fn lemma_same_regions(left: Seq<Region>, right: Seq<Region>)
    requires
        apart(left),
        all_regions_wf(left),
        left.len() == right.len(),
        forall|k: int|
            0 <= k < left.len() ==> (#[trigger] right[k]).origin == left[k].origin && right[k].ram@
                == left[k].ram@ && right[k].dirty.words@ == left[k].dirty.words@
                && right[k].dirty.len == left[k].dirty.len,
    ensures
        apart(right),
        all_regions_wf(right),
        byte_map(right) == byte_map(left),
        dirty_set(right) == dirty_set(left),
{
    assert forall|x: int, y: int|
        #![trigger right[x], right[y]]
        0 <= x < y < right.len() implies right[x].stop() < right[y].origin || right[y].stop()
        < right[x].origin by {
        assert(left[x].stop() < left[y].origin || left[y].stop() < left[x].origin);
    }
    assert forall|k: int| 0 <= k < right.len() implies (#[trigger] right[k]).wf() by {
        assert(left[k].wf());
    }
    assert forall|a: u32|
        #![trigger byte_map(right).dom().contains(a)]
        #![trigger dirty_set(right).contains(a)]
        byte_map(right).dom().contains(a) == byte_map(left).dom().contains(a) && (byte_map(
            right,
        ).dom().contains(a) ==> byte_map(right)[a] == byte_map(left)[a]) && dirty_set(
            right,
        ).contains(a) == dirty_set(left).contains(a) by {
        if held(left, a as int) {
            let h = holder(left, a as int);
            assert(0 <= h < left.len() && left[h].holds(a as int));
            assert(right[h].holds(a as int));
            lemma_holder(left, h, a);
            lemma_holder(right, h, a);
        } else if held(right, a as int) {
            let h = holder(right, a as int);
            assert(0 <= h < right.len() && right[h].holds(a as int));
            assert(left[h].holds(a as int));
        }
    }
    assert(byte_map(right) =~= byte_map(left));
    assert(dirty_set(right) =~= dirty_set(left));
}

/// The big-endian bytes of a longword.
pub fn long_bytes(value: u32) -> (r: [u8; 4])
    ensures
        r@ == encoded(value, 4),
{
    let data: [u8; 4] = [
        (value / 0x100_0000) as u8,
        (value / 0x1_0000 % 0x100) as u8,
        (value / 0x100 % 0x100) as u8,
        (value % 0x100) as u8,
    ];
    assert(data@ =~= encoded(value, 4));
    data
}

/// The value of an access has no more bytes than the access.
/// A value of `size` bytes has no more than `size` bytes.
pub proof fn lemma_value_fits(memory: MemoryView, address: u32, size: u8)
    requires
        is_width(size),
    ensures
        fits(memory.value_at(address, size), size),
{
    let data = bytes_at(memory.bytes, address, size as nat);
    if size == 1 {
        lemma_big_endian_byte(data);
    } else if size == 2 {
        lemma_big_endian_word(data);
    }
}

/// Whether spans are the maximal runs of a set of addresses, ascending.
pub open spec fn shows_spans(spans: Seq<(u32, u32)>, mapped: Set<u32>) -> bool {
    &&& forall|i: int|
        0 <= i < spans.len() ==> (#[trigger] spans[i]).1 > 0 && spans[i].0 + spans[i].1
            <= 0x1_0000_0000
    &&& forall|i: int, j: int|
        #![trigger spans[i], spans[j]]
        0 <= i < j < spans.len() ==> spans[i].0 + spans[i].1 < spans[j].0
    &&& forall|i: int, a: u32|
        0 <= i < spans.len() && (#[trigger] spans[i]).0 <= a < spans[i].0 + spans[i].1
            ==> #[trigger] mapped.contains(a)
    &&& forall|a: u32| #[trigger]
        mapped.contains(a) ==> exists|i: int|
            0 <= i < spans.len() && (#[trigger] spans[i]).0 <= a < spans[i].0 + spans[i].1
}

/// The regions in ascending order of address.
spec fn ordered(regions: Seq<Region>, order: AddressMap<usize>) -> bool {
    &&& order.wf()
    &&& order.keys@.len() == regions.len()
    &&& forall|p: int|
        0 <= p < order.keys@.len() ==> (#[trigger] order.values@[p]) < regions.len()
            && regions[order.values@[p] as int].origin == order.keys@[p]
    &&& forall|i: int|
        0 <= i < regions.len() ==> #[trigger] order@.dom().contains(regions[i].origin)
            && order@[regions[i].origin] == i
}

proof fn lemma_ordered(regions: Seq<Region>, order: AddressMap<usize>, p: int, i: int) -> (q: int)
    requires
        apart(regions),
        all_regions_wf(regions),
        ordered(regions, order),
        0 <= p < order.keys@.len(),
        0 <= i < regions.len(),
    ensures
        0 <= q < order.keys@.len(),
        order.values@[q] == i,
        q < p ==> regions[i].stop() < order.keys@[p],
        q > p ==> regions[order.values@[p] as int].stop() < regions[i].origin,
{
    let q = order.lemma_position(regions[i].origin);
    order.lemma_entry(q);
    let r = order.values@[p] as int;
    assert(regions[i].wf() && regions[r].wf());
    if q < p {
        assert(order.keys@[q] < order.keys@[p]);
    } else if p < q {
        assert(order.keys@[p] < order.keys@[q]);
    }
    if i < r {
        assert(regions[i].stop() < regions[r].origin || regions[r].stop() < regions[i].origin);
    } else if r < i {
        assert(regions[r].stop() < regions[i].origin || regions[i].stop() < regions[r].origin);
    }
    q
}

impl Memory {
    /// The regions in ascending order of address.
    fn order(&self) -> (r: AddressMap<usize>)
        requires
            self.wf(),
        ensures
            ordered(self.regions@, r),
    {
        let mut order: AddressMap<usize> = AddressMap::new();
        let mut i: usize = 0;
        while i < self.regions.len()
            invariant
                self.wf(),
                order.wf(),
                i <= self.regions@.len(),
                order@.dom().len() == i,
                order@.dom().finite(),
                forall|k: int|
                    0 <= k < i ==> #[trigger] order@.dom().contains(self.regions@[k].origin)
                        && order@[self.regions@[k].origin] == k,
                forall|a: u32| #[trigger]
                    order@.dom().contains(a) ==> order@[a] < i
                        && self.regions@[order@[a] as int].origin == a,
            decreases self.regions@.len() - i,
        {
            let origin: u32 = self.regions[i].origin;
            proof {
                assert(self.regions@[i as int].wf());
                assert forall|k: int| 0 <= k < i implies (#[trigger] self.regions@[k]).origin
                    != origin by {
                    assert(self.regions@[k].wf());
                    assert(self.regions@[k].stop() < self.regions@[i as int].origin
                        || self.regions@[i as int].stop() < self.regions@[k].origin);
                }
                if order@.dom().contains(origin) {
                    assert(self.regions@[order@[origin] as int].origin == origin);
                }
            }
            order.insert(origin, i);
            i += 1;
        }
        proof {
            order.lemma_len();
            assert forall|p: int| 0 <= p < order.keys@.len() implies (#[trigger] order.values@[p])
                < self.regions@.len() && self.regions@[order.values@[p] as int].origin
                == order.keys@[p] by {
                order.lemma_entry(p);
            }
        }
        order
    }

    /// Every mapped span as `(origin, length)`, ascending.
    ///
    /// Touching mappings are merged, so this is the map as it actually is rather
    /// than as it was requested, which is what a caller checking whether a device
    /// range collides with RAM needs. A map of the whole address space has no length
    /// of 32 bits and lists nothing.
    pub fn mapped_spans(&self) -> (r: Vec<(u32, u32)>)
        requires
            self.wf(),
        ensures
            if forall|a: u32| self@.bytes.dom().contains(a) {
                r@.len() == 0
            } else {
                shows_spans(r@, self@.bytes.dom())
            },
    {
        let ghost regions = self.regions@;
        if self.regions.len() == 1 && self.regions[0].ram.len() as u64 > u32::MAX as u64 {
            assert(regions[0].wf());
            assert forall|a: u32| #[trigger] self@.bytes.dom().contains(a) by {
                lemma_holder(regions, 0, a);
            }
            return Vec::new();
        }
        proof {
            lemma_lengths(regions);
        }
        let order = self.order();
        let mut spans: Vec<(u32, u32)> = Vec::new();
        let mut p: usize = 0;
        while p < order.values.len()
            invariant
                regions == self.regions@,
                ordered(regions, order),
                p <= order.values@.len(),
                order.values@.len() == order.keys@.len(),
                forall|i: int|
                    0 <= i < regions.len() ==> (#[trigger] regions[i]).ram@.len() <= u32::MAX,
                spans@.len() == p,
                forall|k: int|
                    0 <= k < p ==> (#[trigger] spans@[k]).0 == order.keys@[k] && spans@[k].1
                        == regions[order.values@[k] as int].ram@.len(),
            decreases order.values@.len() - p,
        {
            let index: usize = order.values[p];
            assert(regions[index as int].ram@.len() <= u32::MAX);
            spans.push((self.regions[index].origin, self.regions[index].ram.len() as u32));
            p += 1;
        }
        proof {
            lemma_spans(regions, order, spans@);
            if regions.len() == 1 {
                let missing = if regions[0].origin == 0 {
                    regions[0].ram@.len() as u32
                } else {
                    0
                };
                assert(!held(regions, missing as int));
                assert(!self@.bytes.dom().contains(missing));
            } else if regions.len() == 0 {
                assert(!held(regions, 0));
                assert(!self@.bytes.dom().contains(0));
            } else {
                lemma_gap(regions);
            }
        }
        spans
    }
}

/// Beside another region there is none that fills the address space.
proof fn lemma_lengths(regions: Seq<Region>)
    requires
        apart(regions),
        all_regions_wf(regions),
        regions.len() == 1 ==> regions[0].ram@.len() <= u32::MAX,
    ensures
        forall|i: int| 0 <= i < regions.len() ==> (#[trigger] regions[i]).ram@.len() <= u32::MAX,
{
    assert forall|i: int| 0 <= i < regions.len() implies (#[trigger] regions[i]).ram@.len()
        <= u32::MAX by {
        assert(regions[i].wf());
        if regions.len() > 1 {
            let j: int = if i == 0 {
                1
            } else {
                0
            };
            assert(regions[j].wf());
            if i < j {
                assert(regions[i].stop() < regions[j].origin || regions[j].stop()
                    < regions[i].origin);
            } else {
                assert(regions[j].stop() < regions[i].origin || regions[i].stop()
                    < regions[j].origin);
            }
        }
    }
}

/// Between two regions there is an address that neither holds.
proof fn lemma_gap(regions: Seq<Region>)
    requires
        apart(regions),
        all_regions_wf(regions),
        regions.len() > 1,
    ensures
        exists|a: u32| !#[trigger] byte_map(regions).dom().contains(a),
{
    assert(regions[0].wf() && regions[1].wf());
    assert(regions[0].stop() < regions[1].origin || regions[1].stop() < regions[0].origin);
    let low: int = if regions[0].stop() < regions[1].origin {
        0
    } else {
        1
    };
    let missing = regions[low].stop() as u32;
    if held(regions, missing as int) {
        let h = holder(regions, missing as int);
        assert(0 <= h < regions.len() && regions[h].holds(missing as int));
        if h < low {
            assert(regions[h].stop() < regions[low].origin || regions[low].stop()
                < regions[h].origin);
        } else if low < h {
            assert(regions[low].stop() < regions[h].origin || regions[h].stop()
                < regions[low].origin);
        }
    }
    assert(!byte_map(regions).dom().contains(missing));
}

proof fn lemma_spans(regions: Seq<Region>, order: AddressMap<usize>, spans: Seq<(u32, u32)>)
    requires
        apart(regions),
        all_regions_wf(regions),
        ordered(regions, order),
        spans.len() == order.keys@.len(),
        order.values@.len() == order.keys@.len(),
        forall|k: int|
            0 <= k < spans.len() ==> (#[trigger] spans[k]).0 == order.keys@[k] && spans[k].1
                == regions[order.values@[k] as int].ram@.len(),
    ensures
        shows_spans(spans, byte_map(regions).dom()),
{
    let mapped = byte_map(regions).dom();
    assert forall|i: int| 0 <= i < spans.len() implies (#[trigger] spans[i]).1 > 0 && spans[i].0
        + spans[i].1 <= 0x1_0000_0000 by {
        let r = order.values@[i] as int;
        assert(regions[r].wf());
    }
    assert forall|i: int, j: int|
        #![trigger spans[i], spans[j]]
        0 <= i < j < spans.len() implies spans[i].0 + spans[i].1 < spans[j].0 by {
        let r = order.values@[i] as int;
        let t = order.values@[j] as int;
        let q = lemma_ordered(regions, order, j, r);
        order.lemma_entry(q);
        order.lemma_entry(i);
        assert(order.keys@[q] == regions[r].origin && order.keys@[i] == regions[r].origin);
        if q < i {
            assert(order.keys@[q] < order.keys@[i]);
        } else if i < q {
            assert(order.keys@[i] < order.keys@[q]);
        }
    }
    assert forall|i: int, a: u32|
        0 <= i < spans.len() && (#[trigger] spans[i]).0 <= a < spans[i].0
            + spans[i].1 implies #[trigger] mapped.contains(a) by {
        lemma_holder(regions, order.values@[i] as int, a);
    }
    assert forall|a: u32| #[trigger] mapped.contains(a) implies exists|i: int|
        0 <= i < spans.len() && (#[trigger] spans[i]).0 <= a < spans[i].0 + spans[i].1 by {
        let h = holder(regions, a as int);
        assert(held(regions, a as int));
        assert(0 <= h < regions.len() && regions[h].holds(a as int));
        let q = order.lemma_position(regions[h].origin);
        order.lemma_entry(q);
        assert(spans[q].0 <= a < spans[q].0 + spans[q].1);
    }
}

/// A contiguous run of addresses something changed, carrying the final bytes now
/// stored there.
#[derive(Debug, PartialEq, Eq)]
pub struct TouchedRegion {
    pub address: u32,
    pub bytes: Vec<u8>,
}

/// A run as a mathematical value.
#[verifier::ext_equal]
pub struct TouchedView {
    pub address: u32,
    pub bytes: Seq<u8>,
}

impl View for TouchedRegion {
    type V = TouchedView;

    open spec fn view(&self) -> TouchedView {
        TouchedView { address: self.address, bytes: self.bytes@ }
    }
}

impl TouchedView {
    /// One past the last address of the run.
    pub open spec fn stop(self) -> int {
        self.address + self.bytes.len()
    }
}

/// Runs as mathematical values.
pub open spec fn touched_views(runs: Seq<TouchedRegion>) -> Seq<TouchedView> {
    runs.map_values(|run: TouchedRegion| run@)
}

/// Whether runs are the maximal runs of a set of addresses, ascending, with the bytes
/// there.
pub open spec fn shows_runs(
    runs: Seq<TouchedView>,
    bytes: Map<u32, u8>,
    changed: Set<u32>,
) -> bool {
    &&& forall|i: int|
        0 <= i < runs.len() ==> (#[trigger] runs[i]).bytes.len() > 0 && runs[i].stop()
            <= 0x1_0000_0000
    &&& forall|i: int, j: int|
        #![trigger runs[i], runs[j]]
        0 <= i < j < runs.len() ==> runs[i].stop() < runs[j].address
    &&& forall|i: int, a: u32|
        0 <= i < runs.len() && (#[trigger] runs[i]).address <= a < runs[i].stop()
            ==> #[trigger] changed.contains(a) && bytes[a] == runs[i].bytes[a - runs[i].address]
    &&& forall|a: u32| #[trigger]
        changed.contains(a) ==> exists|i: int|
            0 <= i < runs.len() && (#[trigger] runs[i]).address <= a < runs[i].stop()
}

/// Add the next changed address to runs.
fn extend_runs(
    runs: &mut Vec<TouchedRegion>,
    address: u32,
    byte: u8,
    Ghost(bytes): Ghost<Map<u32, u8>>,
    Ghost(changed): Ghost<Set<u32>>,
)
    requires
        shows_runs(touched_views(old(runs)@), bytes, changed),
        forall|a: u32| #[trigger] changed.contains(a) ==> a < address,
        bytes[address] == byte,
    ensures
        shows_runs(touched_views(final(runs)@), bytes, changed.insert(address)),
{
    let ghost before = touched_views(runs@);
    let ghost more = changed.insert(address);
    let count: usize = runs.len();
    proof {
        assert forall|i: int| 0 <= i < before.len() implies (#[trigger] before[i]).stop()
            <= address by {
            let last = (before[i].stop() - 1) as u32;
            assert(before[i].address <= last < before[i].stop());
            assert(changed.contains(last));
        }
    }
    if count > 0 {
        let length: u64 = runs[count - 1].bytes.len() as u64;
        let start: u64 = runs[count - 1].address as u64;
        assert(before[count - 1] == runs@[count - 1]@);
        if start + length == address as u64 {
            runs[count - 1].bytes.push(byte);
            proof {
                let after = touched_views(runs@);
                assert forall|i: int| 0 <= i < count - 1 implies #[trigger] after[i]
                    == before[i] by {}
                assert(after[count - 1] == (TouchedView {
                    address: before[count - 1].address,
                    bytes: before[count - 1].bytes.push(byte),
                }));
                assert forall|a: u32| #[trigger] more.contains(a) implies exists|i: int|
                    0 <= i < after.len() && (#[trigger] after[i]).address <= a
                        < after[i].stop() by {
                    if changed.contains(a) {
                        let i = choose|i: int|
                            0 <= i < before.len() && (#[trigger] before[i]).address <= a
                                < before[i].stop();
                        assert(after[i].address <= a < after[i].stop());
                    } else {
                        assert(after[count - 1].address <= a < after[count - 1].stop());
                    }
                }
                assert forall|i: int, a: u32|
                    0 <= i < after.len() && (#[trigger] after[i]).address <= a
                        < after[i].stop() implies #[trigger] more.contains(a) && bytes[a]
                    == after[i].bytes[a - after[i].address] by {
                    if a != address {
                        assert(before[i].address <= a < before[i].stop());
                        assert(changed.contains(a));
                    } else {
                        assert(before[i].stop() <= address);
                    }
                }
            }
            return ;
        }
    }
    let mut fresh: Vec<u8> = Vec::new();
    fresh.push(byte);
    runs.push(TouchedRegion { address, bytes: fresh });
    proof {
        let after = touched_views(runs@);
        assert forall|i: int| 0 <= i < count implies #[trigger] after[i] == before[i] by {}
        assert(after[count as int] == (TouchedView { address, bytes: seq![byte] }));
        assert forall|i: int, j: int|
            #![trigger after[i], after[j]]
            0 <= i < j < after.len() implies after[i].stop() < after[j].address by {
            if j == count {
                assert(before[i].stop() <= address);
                if i < count - 1 {
                    assert(before[i].stop() < before[count - 1].address);
                }
            }
        }
        assert forall|a: u32| #[trigger] more.contains(a) implies exists|i: int|
            0 <= i < after.len() && (#[trigger] after[i]).address <= a < after[i].stop() by {
            if changed.contains(a) {
                let i = choose|i: int|
                    0 <= i < before.len() && (#[trigger] before[i]).address <= a
                        < before[i].stop();
                assert(after[i].address <= a < after[i].stop());
            } else {
                assert(after[count as int].address <= a < after[count as int].stop());
            }
        }
        assert forall|i: int, a: u32|
            0 <= i < after.len() && (#[trigger] after[i]).address <= a
                < after[i].stop() implies #[trigger] more.contains(a) && bytes[a]
            == after[i].bytes[a - after[i].address] by {
            if i < count {
                assert(before[i].address <= a < before[i].stop());
                assert(changed.contains(a));
            }
        }
    }
}

impl MemoryView {
    /// Whether a byte counts as changed: something wrote it, it is not excluded, and
    /// it differs from what it was before.
    pub open spec fn is_changed(
        self,
        before: Option<MemoryView>,
        excluded: Range<u32>,
        address: u32,
    ) -> bool {
        &&& self.dirty.contains(address)
        &&& !(excluded.start <= address < excluded.end)
        &&& match before {
            Some(baseline) => !baseline.bytes.dom().contains(address) || baseline.bytes[address]
                != self.bytes[address],
            None => true,
        }
    }

    /// The bytes that count as changed.
    pub open spec fn changed(self, before: Option<MemoryView>, excluded: Range<u32>) -> Set<u32> {
        Set::new(|address: u32| self.is_changed(before, excluded, address))
    }
}

/// A baseline as a mathematical value.
pub open spec fn baseline_view(before: Option<&Memory>) -> Option<MemoryView> {
    match before {
        Some(memory) => Some(memory@),
        None => None,
    }
}

/// The addresses of a set below a bound.
spec fn below(set: Set<u32>, bound: int) -> Set<u32> {
    Set::new(|a: u32| set.contains(a) && a < bound)
}

impl Memory {
    fn counts(&self, before: Option<&Memory>, excluded: &Range<u32>, address: u32, byte: u8) -> (r:
        bool)
        requires
            self@.dirty.contains(address),
            self@.bytes[address] == byte,
            before matches Some(memory) ==> memory.wf(),
        ensures
            r == self@.is_changed(baseline_view(before), *excluded, address),
    {
        if excluded.start <= address && address < excluded.end {
            return false;
        }
        match before {
            Some(memory) => match memory.locate(address, 1) {
                Some((region, start)) => {
                    proof {
                        lemma_covered(memory.regions@, region as int, address, 1);
                        assert(memory.regions@[region as int].ram@[start as int]
                            == memory@.bytes[address]);
                        assert(memory@.bytes.dom().contains(address));
                    }
                    memory.regions[region].ram[start] != byte
                },
                None => {
                    proof {
                        if memory@.bytes.dom().contains(address) {
                            assert(covers(memory@.bytes, address, 1));
                        }
                    }
                    true
                },
            },
            None => true,
        }
    }

    /// Add the changed bytes of one region to the runs of those below it.
    fn extend_over(
        &self,
        index: usize,
        before: Option<&Memory>,
        excluded: &Range<u32>,
        runs: &mut Vec<TouchedRegion>,
    )
        requires
            self.wf(),
            index < self.regions@.len(),
            before matches Some(memory) ==> memory.wf(),
            shows_runs(
                touched_views(old(runs)@),
                self@.bytes,
                below(
                    self@.changed(baseline_view(before), *excluded),
                    self.regions@[index as int].origin as int,
                ),
            ),
        ensures
            shows_runs(
                touched_views(final(runs)@),
                self@.bytes,
                below(
                    self@.changed(baseline_view(before), *excluded),
                    self.regions@[index as int].stop(),
                ),
            ),
    {
        let ghost changed = self@.changed(baseline_view(before), *excluded);
        let region = &self.regions[index];
        let origin: u32 = region.origin;
        let length: usize = region.ram.len();
        proof {
            assert(region.wf());
        }
        let mut at: usize = 0;
        while at < length
            invariant
                self.wf(),
                index < self.regions@.len(),
                *region == self.regions@[index as int],
                region.wf(),
                origin == region.origin,
                length == region.ram@.len(),
                before matches Some(memory) ==> memory.wf(),
                changed == self@.changed(baseline_view(before), *excluded),
                at <= length,
                shows_runs(touched_views(runs@), self@.bytes, below(changed, origin + at)),
            decreases length - at,
        {
            match region.dirty.next_marked(at) {
                Some(next) => {
                    let address: u32 = (origin as u64 + next as u64) as u32;
                    let byte: u8 = region.ram[next];
                    proof {
                        lemma_holder(self.regions@, index as int, address);
                        assert(below(changed, origin + at) =~= below(changed, address as int)) by {
                            assert forall|a: u32| origin + at <= a < address implies !changed.contains(
                                a,
                            ) by {
                                lemma_holder(self.regions@, index as int, a);
                                assert(!region.dirty.marked(a - origin));
                            }
                        }
                    }
                    if self.counts(before, excluded, address, byte) {
                        extend_runs(
                            runs,
                            address,
                            byte,
                            Ghost(self@.bytes),
                            Ghost(below(changed, address as int)),
                        );
                        assert(below(changed, address as int).insert(address) =~= below(
                            changed,
                            address + 1,
                        ));
                    } else {
                        assert(below(changed, address as int) =~= below(changed, address + 1));
                    }
                    at = next + 1;
                },
                None => {
                    proof {
                        assert(below(changed, origin + at) =~= below(changed, origin + length)) by {
                            assert forall|a: u32| origin + at <= a < origin
                                + length implies !changed.contains(a) by {
                                lemma_holder(self.regions@, index as int, a);
                                assert(!region.dirty.marked(a - origin));
                            }
                        }
                    }
                    at = length;
                },
            }
        }
    }
}

fn changed_runs(memory: &Memory, before: Option<&Memory>, excluded: &Range<u32>) -> (r: Vec<
    TouchedRegion,
>)
    requires
        memory.wf(),
        before matches Some(baseline) ==> baseline.wf(),
    ensures
        shows_runs(
            touched_views(r@),
            memory@.bytes,
            memory@.changed(baseline_view(before), *excluded),
        ),
{
    let ghost changed = memory@.changed(baseline_view(before), *excluded);
    let ghost regions = memory.regions@;
    let order = memory.order();
    let mut runs: Vec<TouchedRegion> = Vec::new();
    let mut p: usize = 0;
    let ghost mut bound: int = 0;
    assert(below(changed, 0) =~= Set::empty());
    while p < order.values.len()
        invariant
            memory.wf(),
            before matches Some(baseline) ==> baseline.wf(),
            regions == memory.regions@,
            ordered(regions, order),
            order.values@.len() == order.keys@.len(),
            changed == memory@.changed(baseline_view(before), *excluded),
            p <= order.values@.len(),
            p == 0 ==> bound == 0,
            p > 0 ==> bound == regions[order.values@[p - 1] as int].stop(),
            shows_runs(touched_views(runs@), memory@.bytes, below(changed, bound)),
        decreases order.values@.len() - p,
    {
        let index: usize = order.values[p];
        proof {
            let origin = regions[index as int].origin;
            assert(below(changed, bound) =~= below(changed, origin as int)) by {
                if p > 0 {
                    let q = lemma_ordered(regions, order, p as int, order.values@[p - 1] as int);
                    order.lemma_entry(q);
                    order.lemma_entry(p - 1);
                    assert(order.keys@[p - 1] < order.keys@[p as int]);
                }
                assert forall|a: u32| bound <= a < origin implies !changed.contains(a) by {
                    if memory@.dirty.contains(a) {
                        lemma_between(regions, order, p as int, bound, a);
                    }
                }
                assert(bound <= origin);
            }
        }
        memory.extend_over(index, before, excluded, &mut runs);
        proof {
            bound = regions[index as int].stop();
        }
        p += 1;
    }
    proof {
        assert(below(changed, bound) =~= changed) by {
            assert forall|a: u32| changed.contains(a) implies a < bound by {
                assert(memory@.dirty.contains(a));
                assert(held(regions, a as int));
                let h = holder(regions, a as int);
                assert(0 <= h < regions.len() && regions[h].holds(a as int));
                let q = lemma_ordered(regions, order, p - 1, h);
                order.lemma_entry(q);
            }
        }
    }
    runs
}

/// No region holds an address between the end of one and the start of the next.
proof fn lemma_between(
    regions: Seq<Region>,
    order: AddressMap<usize>,
    p: int,
    bound: int,
    a: u32,
)
    requires
        apart(regions),
        all_regions_wf(regions),
        ordered(regions, order),
        order.values@.len() == order.keys@.len(),
        0 <= p < order.keys@.len(),
        p == 0 ==> bound == 0,
        p > 0 ==> bound == regions[order.values@[p - 1] as int].stop(),
        bound <= a < order.keys@[p],
    ensures
        !held(regions, a as int),
{
    if held(regions, a as int) {
        let h = holder(regions, a as int);
        assert(0 <= h < regions.len() && regions[h].holds(a as int));
        let q = lemma_ordered(regions, order, p, h);
        order.lemma_entry(q);
        if p > 0 {
            let t = lemma_ordered(regions, order, p - 1, h);
            order.lemma_entry(t);
        }
    }
}

/// Coalesce every address written while producing `memory` into contiguous
/// [`TouchedRegion`]s carrying the final bytes now at those addresses (last write
/// wins).
///
/// The result is ordered by address and is the canonical "touched memory" output
/// for a golden record: it depends only on *which* bytes ended up changed and to
/// what, not on the order or width of the individual writes that produced them.
/// Writes an attached device performed by DMA count as written; a seeded image
/// ([`Memory::load`]) does not.
pub fn touched_regions(memory: &Memory) -> (r: Vec<TouchedRegion>)
    requires
        memory.wf(),
    ensures
        shows_runs(touched_views(r@), memory@.bytes, memory@.dirty),
{
    let none: Range<u32> = 0..0;
    proof {
        assert(memory@.changed(None, none) =~= memory@.dirty);
    }
    changed_runs(memory, None, &none)
}

/// Return final-state regions whose bytes differ from `before`, considering only
/// addresses written while producing `memory` and excluding the supplied address
/// range. This is intended for stable behavioral records: transient writes that
/// restore their original value disappear, and callers can omit sandbox-private
/// regions such as the simulated stack.
pub fn changed_regions(before: &Memory, memory: &Memory, excluded: &Range<u32>) -> (r: Vec<
    TouchedRegion,
>)
    requires
        before.wf(),
        memory.wf(),
    ensures
        shows_runs(touched_views(r@), memory@.bytes, memory@.changed(Some(before@), *excluded)),
{
    changed_runs(memory, Some(before), excluded)
}

proof fn lemma_same_run(
    left: Seq<TouchedView>,
    right: Seq<TouchedView>,
    bytes: Map<u32, u8>,
    changed: Set<u32>,
    i: int,
)
    requires
        shows_runs(left, bytes, changed),
        shows_runs(right, bytes, changed),
        0 <= i < left.len(),
        i <= right.len(),
        forall|k: int| 0 <= k < i ==> #[trigger] left[k] == right[k],
    ensures
        i < right.len(),
        right[i].address <= left[i].address,
        i < right.len() && right[i].address == left[i].address ==> right[i].stop()
            <= left[i].stop(),
{
    let first = left[i].address;
    assert(left[i].address <= first < left[i].stop());
    assert(changed.contains(first));
    let j = choose|j: int|
        0 <= j < right.len() && (#[trigger] right[j]).address <= first < right[j].stop();
    if j < i {
        assert(left[j] == right[j]);
        assert(left[j].stop() < left[i].address);
    }
    if right[i].address == left[i].address && right[i].stop() > left[i].stop() {
        let after = left[i].stop() as u32;
        assert(right[i].address <= after < right[i].stop());
        assert(changed.contains(after));
        let k = choose|k: int|
            0 <= k < left.len() && (#[trigger] left[k]).address <= after < left[k].stop();
        if k < i {
            assert(left[k].stop() < left[i].address);
        } else if k > i {
            assert(left[i].stop() < left[k].address);
        }
    }
}

proof fn lemma_same_runs(
    left: Seq<TouchedView>,
    right: Seq<TouchedView>,
    bytes: Map<u32, u8>,
    changed: Set<u32>,
    i: int,
)
    requires
        shows_runs(left, bytes, changed),
        shows_runs(right, bytes, changed),
        0 <= i <= left.len(),
        i <= right.len(),
        forall|k: int| 0 <= k < i ==> #[trigger] left[k] == right[k],
    ensures
        left == right,
    decreases left.len() - i,
{
    if i < left.len() {
        lemma_same_run(left, right, bytes, changed, i);
        lemma_same_run(right, left, bytes, changed, i);
        assert(left[i].bytes =~= right[i].bytes) by {
            assert forall|k: int| 0 <= k < left[i].bytes.len() implies left[i].bytes[k]
                == right[i].bytes[k] by {
                let a = (left[i].address + k) as u32;
                assert(left[i].address <= a < left[i].stop());
                assert(right[i].address <= a < right[i].stop());
                assert(changed.contains(a));
            }
        }
        lemma_same_runs(left, right, bytes, changed, i + 1);
    } else {
        if i < right.len() {
            lemma_same_run(right, left, bytes, changed, i);
        }
        assert(left =~= right);
    }
}

/// The runs reported of a memory are canonical: they depend only on which bytes ended up
/// changed and to what, not on the writes that produced them.
pub proof fn touched_runs_are_canonical(
    left: Seq<TouchedView>,
    right: Seq<TouchedView>,
    bytes: Map<u32, u8>,
    changed: Set<u32>,
)
    requires
        shows_runs(left, bytes, changed),
        shows_runs(right, bytes, changed),
    ensures
        left == right,
{
    lemma_same_runs(left, right, bytes, changed, 0);
}

/// Nothing that is not mapped counts as touched.
pub proof fn touched_addresses_are_mapped(memory: &Memory)
    requires
        memory.wf(),
    ensures
        memory@.dirty.subset_of(memory@.bytes.dom()),
{
    assert forall|a: u32| memory@.dirty.contains(a) implies memory@.bytes.dom().contains(a) by {
        assert(held(memory.regions@, a as int));
    }
}

/// Every run reported of a memory is what [`Memory::slice`] gives at its address.
pub proof fn touched_runs_are_what_slice_gives(memory: &Memory, runs: Seq<TouchedView>, i: int)
    requires
        memory.wf(),
        shows_runs(runs, memory@.bytes, memory@.dirty),
        0 <= i < runs.len(),
    ensures
        covers(memory@.bytes, runs[i].address, runs[i].bytes.len() as int),
        bytes_at(memory@.bytes, runs[i].address, runs[i].bytes.len()) == runs[i].bytes,
{
    let run = runs[i];
    touched_addresses_are_mapped(memory);
    assert forall|a: u32| run.address <= a < run.address
        + run.bytes.len() implies #[trigger] memory@.bytes.dom().contains(a) && memory@.bytes[a]
        == run.bytes[a - run.address] by {
        assert(runs[i].address <= a < runs[i].stop());
        assert(memory@.dirty.contains(a));
    }
    assert forall|k: int| 0 <= k < run.bytes.len() implies bytes_at(
        memory@.bytes,
        run.address,
        run.bytes.len(),
    )[k] == run.bytes[k] by {
        assert(memory@.bytes.dom().contains((run.address + k) as u32));
    }
    assert(bytes_at(memory@.bytes, run.address, run.bytes.len()) =~= run.bytes);
}

/// A byte counts as changed exactly where it was touched, is not excluded, and reads
/// otherwise than it did before; one that was not mapped before reads otherwise.
pub proof fn changed_bytes_read_otherwise(
    before: &Memory,
    memory: &Memory,
    excluded: Range<u32>,
    address: u32,
)
    requires
        before.wf(),
        memory.wf(),
    ensures
        memory@.changed(Some(before@), excluded).contains(address) <==> {
            &&& memory@.dirty.contains(address)
            &&& !(excluded.start <= address < excluded.end)
            &&& covers(memory@.bytes, address, 1)
            &&& covers(before@.bytes, address, 1) ==> bytes_at(before@.bytes, address, 1)
                != bytes_at(memory@.bytes, address, 1)
        },
{
    touched_addresses_are_mapped(memory);
    let old_byte = bytes_at(before@.bytes, address, 1);
    let new_byte = bytes_at(memory@.bytes, address, 1);
    assert(old_byte[0] == before@.bytes[address] && new_byte[0] == memory@.bytes[address]);
    assert(before@.bytes[address] == memory@.bytes[address] ==> old_byte =~= new_byte);
    assert(covers(before@.bytes, address, 1) == before@.bytes.dom().contains(address));
    assert(covers(memory@.bytes, address, 1) == memory@.bytes.dom().contains(address));
}

/// A memory has not changed from itself.
pub proof fn nothing_changes_from_itself(
    memory: &Memory,
    excluded: Range<u32>,
    runs: Seq<TouchedView>,
)
    requires
        memory.wf(),
        shows_runs(runs, memory@.bytes, memory@.changed(Some(memory@), excluded)),
    ensures
        runs.len() == 0,
{
    touched_addresses_are_mapped(memory);
    if runs.len() > 0 {
        let a = runs[0].address;
        assert(runs[0].address <= a < runs[0].stop());
        assert(memory@.changed(Some(memory@), excluded).contains(a));
    }
}

/// A watchpoint sees an access exactly if some byte belongs to both, and the access
/// goes in a direction that is watched.
pub proof fn watchpoints_see_shared_bytes(watchpoint: Watchpoint, event: MemoryAccessEvent)
    requires
        watchpoint.start < watchpoint.end,
        event.size > 0,
    ensures
        watchpoint.spec_matches(event) <==> {
            &&& exists|a: int|
                #![trigger is_watched(watchpoint, a)]
                is_watched(watchpoint, a) && event.address <= a < event.address + event.size
            &&& event.access == Access::Read ==> watchpoint.access != WatchAccess::Write
            &&& event.access == Access::Write ==> watchpoint.access != WatchAccess::Read
        },
{
    if watchpoint.spec_matches(event) {
        let a: int = if event.address < watchpoint.start {
            watchpoint.start as int
        } else {
            event.address as int
        };
        assert(is_watched(watchpoint, a) && event.address <= a < event.address + event.size);
    }
}

/// Whether a byte lies in a watched range.
pub open spec fn is_watched(watchpoint: Watchpoint, address: int) -> bool {
    watchpoint.start <= address < watchpoint.end
}

/// A store into a watched byte is noticed, and so is a load from one: it counts, and
/// where nothing was pending it is the access that is pending.
pub proof fn watched_bytes_are_noticed(
    memory: MemoryView,
    i: int,
    a: u32,
    address: u32,
    size: u8,
    value: u32,
)
    requires
        0 <= i < memory.watchpoints.len(),
        is_watched(memory.watchpoints[i], a as int),
        address <= a < address + size,
        covers(memory.bytes, address, size as int),
    ensures
        memory.watchpoints[i].access != WatchAccess::Read ==> {
            let after = memory.after_write(address, size, value).1;
            &&& after.watch_latch is Some
            &&& after.watch_events_total == counted_up(memory.watch_events_total)
            &&& memory.watch_latch is None ==> {
                let event = after.watch_latch->Some_0;
                &&& event.address == address
                &&& event.size == size
                &&& event.access == Access::Write
                &&& event.before == memory.value_at(address, size)
                &&& event.after == value
            }
        },
        memory.watchpoints[i].access != WatchAccess::Write ==> {
            let after = memory.after_read(address, size).1;
            &&& after.watch_latch is Some
            &&& after.watch_events_total == counted_up(memory.watch_events_total)
        },
{
    let watchpoint = memory.watchpoints[i];
    let before = memory.value_at(address, size);
    let write = MemoryAccessEvent {
        address,
        access: Access::Write,
        size,
        before,
        after: value,
        source: AccessSource::Cpu,
    };
    let read = MemoryAccessEvent { access: Access::Read, after: before, ..write };
    watchpoints_see_shared_bytes(watchpoint, write);
    watchpoints_see_shared_bytes(watchpoint, read);
    let stored = memory.stored(address, encoded(value, size)).logged(
        MemoryWrite { address, size, value },
    );
    assert(stored.watchpoints == memory.watchpoints);
    if watchpoint.access != WatchAccess::Read {
        assert(stored.watchpoints[i].spec_matches(write));
        assert(stored.watches(write));
    }
    if watchpoint.access != WatchAccess::Write {
        assert(memory.watchpoints[i].spec_matches(read));
        assert(memory.watches(read));
    }
}

/// Nothing is noticed that no watched byte has part in.
pub proof fn only_watched_bytes_are_noticed(
    memory: MemoryView,
    address: u32,
    size: u8,
    value: u32,
)
    requires
        size > 0,
        forall|i: int|
            #![trigger memory.watchpoints[i]]
            0 <= i < memory.watchpoints.len() ==> memory.watchpoints[i].start
                < memory.watchpoints[i].end && (memory.watchpoints[i].end <= address
                || address + size <= memory.watchpoints[i].start),
    ensures
        memory.after_write(address, size, value).1.watch_latch == memory.watch_latch,
        memory.after_write(address, size, value).1.accesses == memory.accesses,
        memory.after_read(address, size).1.watch_latch == memory.watch_latch,
        memory.after_read(address, size).1.accesses == memory.accesses,
{
    let before = memory.value_at(address, size);
    let write = MemoryAccessEvent {
        address,
        access: Access::Write,
        size,
        before,
        after: value,
        source: AccessSource::Cpu,
    };
    let read = MemoryAccessEvent { access: Access::Read, after: before, ..write };
    assert forall|i: int| 0 <= i < memory.watchpoints.len() implies !(
    #[trigger] memory.watchpoints[i]).spec_matches(write) && !memory.watchpoints[i].spec_matches(
        read,
    ) by {
        watchpoints_see_shared_bytes(memory.watchpoints[i], write);
        watchpoints_see_shared_bytes(memory.watchpoints[i], read);
    }
}

} // verus!
