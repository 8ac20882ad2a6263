//! When ranges of addresses share a byte, and what of one access another sees.

use crate::analysis::AnalysisView;
use crate::decoded::DecodedView;
use crate::device::{dispatched, straddles, BusView, Claim, Device};
use crate::execute::{seeded_stack, starting_memory, starting_registers, RunOptions};
use crate::jump_tables::{
    acceptable, entry_holds, entry_target, overlaps, spec_dispatch, spec_table, spec_targets,
};
use crate::dispatches::targets_are_those_of_all_entries;
use crate::memory::{
    bytes_at, covers, encoded, encoding_is_undone_by_reading, reads_give_back_writes, span, Access,
    AccessSource, MemoryView,
};
use crate::relocation::spec_operand_range;
use crate::unwinding::returned_from_subroutine;
use vstd::prelude::*;

verus! {

/// Two claims meet exactly if some address is in both.
pub proof fn claims_meet_in_shared_addresses(left: Claim, right: Claim)
    requires
        left.start < left.end,
        right.start < right.end,
    ensures
        left.meets(right) <==> exists|a: u32| #[trigger] left.holds(a) && right.holds(a),
        left.meets(right) == right.meets(left),
{
    if left.meets(right) {
        let a: u32 = if left.start < right.start {
            right.start
        } else {
            left.start
        };
        assert(left.holds(a) && right.holds(a));
    }
}

/// An access goes to a device exactly if all its bytes are the device's; one that starts in a
/// device and leaves it goes astray.
pub proof fn accesses_go_to_the_device_that_holds_them<D: Device>(
    bus: BusView<D>,
    address: u32,
    size: u8,
    i: int,
)
    requires
        0 <= i < bus.claims().len(),
        size > 0,
        address + size <= u32::MAX,
    ensures
        dispatched(bus, address, size, i) <==> forall|a: u32|
            address <= a < address + size ==> #[trigger] bus.claims()[i].holds(a),
        bus.claims()[i].holds(address) && !dispatched(bus, address, size, i) ==> straddles(
            bus,
            address,
            size,
        ),
{
    let claim = bus.claims()[i];
    if forall|a: u32| address <= a < address + size ==> #[trigger] claim.holds(a) {
        assert(claim.holds(address));
        let last = (address + size - 1) as u32;
        assert(claim.holds(last));
    }
}

/// A range overlaps an instruction exactly if they share a byte; an empty range, if it lies
/// inside the instruction and not at its start.
pub proof fn ranges_overlap_in_shared_bytes(
    instructions: Map<u32, DecodedView>,
    start: u32,
    end: u32,
    at: u32,
)
    requires
        start <= end,
        instructions.dom().contains(at),
        instructions[at].wf(),
        instructions[at].address == at,
    ensures
        start < end ==> (overlaps(instructions, start, end, at) <==> exists|b: int|
            start <= b < end && #[trigger] is_within(instructions[at], b)),
        start == end ==> (overlaps(instructions, start, end, at) <==> at < start
            < instructions[at].end),
{
    let decoded = instructions[at];
    if start < end && overlaps(instructions, start, end, at) {
        let b: int = if start < at {
            at as int
        } else {
            start as int
        };
        assert(start <= b < end && is_within(decoded, b));
    }
}

/// Whether a byte belongs to an instruction.
pub open spec fn is_within(decoded: DecodedView, byte: int) -> bool {
    decoded.address <= byte < decoded.end
}

/// The places at which a longword may be patched are those at which all of it lies in the
/// instruction and none of it in the opcode word.
pub proof fn patched_longwords_lie_in_the_operands(site: u32, end: u32, at: u32)
    ensures
        (spec_operand_range(site, end) matches Some((first, last)) && first <= at <= last) <==> site
            + 2 <= at && at + 4 <= end,
{
}

/// A mapping is refused exactly if it is empty, runs past the last address or shares a byte
/// with what is mapped.
pub proof fn mappings_are_refused_for_a_reason(memory: MemoryView, origin: u32, length: usize)
    ensures
        memory.refusal(origin, length) is None <==> {
            &&& length > 0
            &&& origin + length <= 0x1_0000_0000
            &&& forall|a: u32|
                origin <= a < origin + length ==> !#[trigger] memory.bytes.dom().contains(a)
        },
        memory.refusal(origin, length) is None ==> {
            let after = memory.mapped(origin, length);
            &&& covers(after.bytes, origin, length as int)
            &&& forall|a: u32|
                origin <= a < origin + length ==> #[trigger] after.bytes[a] == 0
            &&& forall|a: u32| #[trigger]
                memory.bytes.dom().contains(a) ==> after.bytes.dom().contains(a) && after.bytes[a]
                    == memory.bytes[a]
        },
{
    let wanted = span(origin, length as int);
    assert(forall|a: u32| wanted.contains(a) <==> origin <= a < origin + length);
    if memory.bytes.dom().disjoint(wanted) {
        assert forall|a: u32| origin <= a < origin + length implies !#[trigger] memory.bytes.dom().contains(a) by {
            assert(wanted.contains(a));
        }
    }
}

/// A device and the CPU see the same memory: a word that one writes the other reads, and the
/// telemetry tells them apart.
pub proof fn devices_and_the_processor_share_memory(memory: MemoryView, address: u32, value: u16)
    requires
        covers(memory.bytes, address, 2),
    ensures
        memory.after_dma_write(address, value).1.after_read(address, 2).0 == Some(value as u32),
        memory.after_dma_write(address, value).1.after_dma_read(address).0 == Some(value as u32),
        memory.after_write(address, 2, value as u32).1.after_dma_read(address).0 == Some(
            value as u32,
        ),
        memory.after_dma_write(address, value).1.bytes == memory.after_write(
            address,
            2,
            value as u32,
        ).1.bytes,
        memory.after_dma_write(address, value).1.writes == memory.writes,
        memory.watch_latch is None ==> (memory.after_dma_write(address, value).1.watch_latch
            matches Some(event) ==> event.source == AccessSource::DeviceDma && event.access
            == Access::Write),
        memory.watch_latch is None ==> (memory.after_write(address, 2, value as u32).1.watch_latch
            matches Some(event) ==> event.source == AccessSource::Cpu && event.access
            == Access::Write),
{
    reads_give_back_writes(memory, address, 2, value as u32);
    let after = memory.after_write(address, 2, value as u32).1;
    let other = memory.after_dma_write(address, value).1;
    assert(after.bytes == other.bytes);
    assert(covers(after.bytes, address, 2)) by {
        assert(after.bytes.dom() == memory.bytes.dom());
    }
}

/// A run starts as if its routine had been called: returning at once goes to the return marker
/// and leaves the stack pointer where it was said to be.
pub proof fn routines_start_as_if_called(options: RunOptions, entry: u32, memory: MemoryView)
    requires
        options.resume is None,
        4 <= options.stack_pointer,
        covers(memory.bytes, (options.stack_pointer - 4) as u32, 4),
    ensures
        ({
            let cpu = starting_registers(options, entry);
            let back = returned_from_subroutine(cpu, starting_memory(options, memory));
            &&& cpu.pc == entry
            &&& cpu.d == options.data@
            &&& cpu.a == options.address@
            &&& back.pc == options.return_marker
            &&& back.ssp == options.stack_pointer
        }),
{
    let sp = (options.stack_pointer - 4) as u32;
    let marker = options.return_marker;
    let after = starting_memory(options, memory);
    assert(seeded_stack(options) == sp);
    encoding_is_undone_by_reading(marker, 4);
    assert(bytes_at(after.bytes, sp, 4) =~= encoded(marker, 4)) by {
        assert forall|k: int| 0 <= k < 4 implies #[trigger] bytes_at(after.bytes, sp, 4)[k]
            == encoded(marker, 4)[k] by {
            let a = (sp + k) as u32;
            assert(memory.bytes.dom().contains(a));
        }
    }
}

/// The targets of a jump table are places that can be code: even, inside the image, neither in
/// the table nor in the dispatch, and not in the middle of an instruction.
pub proof fn table_targets_can_be_code(code: Seq<u8>, view: AnalysisView, site: u32, target: u32)
    requires
        spec_targets(code, view, site) is Some,
        spec_targets(code, view, site)->0.contains(target),
    ensures
        ({
            let d = spec_dispatch(view, site)->0;
            let table = spec_table(code.len(), view, d)->0;
            &&& target % 2 == 0
            &&& target < code.len()
            &&& target < table.start || table.start + table.count * table.width <= target
            &&& target < d.prefix[0].address || d.prefix.last().end <= target
            &&& forall|at: u32| #[trigger]
                view.instructions.dom().contains(at) && view.instructions[at].wf()
                    && view.instructions[at].address == at ==> !(at < target
                    < view.instructions[at].end)
        }),
{
    let d = spec_dispatch(view, site)->0;
    let table = spec_table(code.len(), view, d)->0;
    targets_are_those_of_all_entries(code, view, site, target);
    let i = choose|i: int|
        0 <= i < table.count && #[trigger] entry_target(code, view, table, i) == Some(target);
    assert(entry_holds(code, view, d, table, i));
    assert(acceptable(code, view, d, table, target));
    assert forall|at: u32| #[trigger]
        view.instructions.dom().contains(at) && view.instructions[at].wf()
            && view.instructions[at].address == at implies !(at < target
        < view.instructions[at].end) by {
        ranges_overlap_in_shared_bytes(view.instructions, target, target, at);
    }
}

} // verus!
