//! That whatever interrupts a program lets it go on where it was: the frames that are pushed
//! are the ones that returning pops.

use crate::execute::{guest_trapped, popped, trap_entry, trapped_status};
use crate::host::Point;
use crate::interrupts::{
    frame_pushed, handler_in, ticked, InterruptFrame, InterruptHandler, ScheduleView,
};
use crate::memory::{
    bytes_at, covers, reads_give_back_writes, MemoryView,
};
use crate::registers::RegistersView;
use vstd::prelude::*;

verus! {

/// What `RTE` does: the status register is popped, and behind it the program counter.
pub open spec fn returned_from_exception(cpu: RegistersView, memory: MemoryView) -> RegistersView {
    RegistersView {
        sr: memory.value_at(cpu.ssp, 2) as u16,
        pc: memory.value_at((cpu.ssp + 2) as u32, 4),
        ssp: (cpu.ssp + 6) as u32,
        ..cpu
    }
}

/// What `RTS` does: the program counter is popped.
pub open spec fn returned_from_subroutine(cpu: RegistersView, memory: MemoryView) -> RegistersView {
    RegistersView {
        pc: memory.value_at(cpu.ssp, 4),
        ssp: (cpu.ssp + 4) as u32,
        ..cpu
    }
}

/// What was written to memory and not overwritten is still there.
proof fn lemma_frame(memory: MemoryView, sp: u32, status: u16, pc: u32)
    requires
        6 <= sp,
        covers(memory.bytes, (sp - 4) as u32, 4),
        covers(memory.bytes, (sp - 6) as u32, 2),
    ensures
        ({
            let first = memory.after_write((sp - 4) as u32, 4, pc).1;
            let second = first.after_write((sp - 6) as u32, 2, status as u32).1;
            &&& first.value_at((sp - 4) as u32, 4) == pc
            &&& second.value_at((sp - 6) as u32, 2) == status
            &&& second.value_at((sp - 4) as u32, 4) == pc
        }),
{
    let upper = (sp - 4) as u32;
    let lower = (sp - 6) as u32;
    let first = memory.after_write(upper, 4, pc).1;
    reads_give_back_writes(memory, upper, 4, pc);
    assert(covers(first.bytes, lower, 2)) by {
        assert(first.bytes.dom() == memory.bytes.dom());
    }
    reads_give_back_writes(first, lower, 2, status as u32);
    let second = first.after_write(lower, 2, status as u32).1;
    let now = bytes_at(second.bytes, upper, 4);
    let then = bytes_at(first.bytes, upper, 4);
    assert forall|k: int| 0 <= k < 4 implies #[trigger] now[k] == then[k] by {
        let a = (upper + k) as u32;
        assert(covers(memory.bytes, upper, 4));
        assert(memory.bytes.dom().contains(a));
        assert(first.bytes.dom().contains(a));
    }
    assert(now =~= then);
}

/// A delivered interrupt returns to what it interrupted: `RTE` from an exception frame, and
/// `RTS` from a plain return address, give back the program counter and the stack pointer, and
/// `RTE` the status register too.
pub proof fn interrupts_return_to_what_they_interrupted(
    schedule: ScheduleView,
    cpu: RegistersView,
    memory: MemoryView,
)
    requires
        6 <= cpu.ssp,
        schedule.attempted(cpu) is Some,
        ticked(schedule, cpu, memory).0.delivered != schedule.delivered,
    ensures
        ({
            let (after, entered, left) = ticked(schedule, cpu, memory);
            let frame = schedule.entries[schedule.attempted(cpu)->0].frame;
            match frame {
                InterruptFrame::Exception => returned_from_exception(entered, left)
                    == cpu,
                InterruptFrame::Subroutine => returned_from_subroutine(entered, left)
                    == cpu,
            }
        }),
{
    let i = schedule.attempted(cpu)->0;
    let entry = schedule.entries[i];
    let (handler, looked_up) = handler_in(entry.handler, memory);
    assert(schedule.stepped(cpu).delivered == schedule.delivered);
    assert(handler is Some);
    let (stored, after) = frame_pushed(entry.frame, cpu, looked_up);
    assert(stored);
    let upper = (cpu.ssp - 4) as u32;
    assert(covers(looked_up.bytes, upper, 4));
    let first = looked_up.after_write(upper, 4, cpu.pc).1;
    reads_give_back_writes(looked_up, upper, 4, cpu.pc);
    if entry.frame == InterruptFrame::Exception {
        assert(first.bytes.dom() == looked_up.bytes.dom());
        assert(covers(first.bytes, (cpu.ssp - 6) as u32, 2));
        assert(covers(looked_up.bytes, (cpu.ssp - 6) as u32, 2));
        lemma_frame(looked_up, cpu.ssp, cpu.sr, cpu.pc);
    }
}

/// A handler that is looked up is the longword at four times its vector, and null is none.
pub proof fn handlers_are_looked_up_by_vector(vector: u8, memory: MemoryView)
    ensures
        match handler_in(InterruptHandler::Vector(vector), memory).0 {
            Some(handler) => handler != 0 && handler == memory.value_at((4 * vector) as u32, 4)
                && covers(memory.bytes, (4 * vector) as u32, 4),
            None => !covers(memory.bytes, (4 * vector) as u32, 4) || memory.value_at(
                (4 * vector) as u32,
                4,
            ) == 0,
        },
{
}

/// The supervisor bit is set, the trace bit is clear, and the rest of the status is as it was.
pub proof fn handlers_run_supervised(sr: u16)
    ensures
        (trapped_status(sr) / 0x2000) % 2 == 1,
        trapped_status(sr) / 0x8000 == 0,
        trapped_status(sr) % 0x2000 == sr % 0x2000,
        (trapped_status(sr) / 0x4000) % 2 == (sr / 0x4000) % 2,
{
    assert({
        let t = (sr | 0x2000) & 0x7fff;
        &&& (t / 0x2000) % 2 == 1
        &&& t / 0x8000 == 0
        &&& t % 0x2000 == sr % 0x2000
        &&& (t / 0x4000) % 2 == (sr / 0x4000) % 2
    }) by (bit_vector);
}

/// A guest trap that is dispatched enters the handler of its vector, and `RTE` there goes back
/// to the program counter, the status and the stack pointer from before.
pub proof fn traps_return_to_what_they_interrupted(point: Point, vector: u8, site: u32)
    requires
        guest_trapped(point, vector, site) matches (None, _),
    ensures
        ({
            let (_, after) = guest_trapped(point, vector, site);
            let back = returned_from_exception(after.registers, after.memory);
            &&& after.registers.pc == point.memory.value_at((4 * vector) as u32, 4)
            &&& after.registers.pc % 2 == 0
            &&& after.registers.sr == trapped_status(point.registers.sr)
            &&& back.pc == point.registers.pc
            &&& back.sr == point.registers.sr
            &&& back.ssp == point.registers.ssp
            &&& back.d == point.registers.d
            &&& back.a == point.registers.a
        }),
{
    let (handler, sp) = trap_entry(point, vector, site)->Ok_0;
    let (_, fetched) = point.memory.after_read((vector * 4) as u32, 4);
    assert(fetched.bytes == point.memory.bytes);
    assert(covers(fetched.bytes, (sp + 2) as u32, 4));
    let half = fetched.after_write((sp + 2) as u32, 4, point.registers.pc).1;
    assert(half.bytes.dom() =~= fetched.bytes.dom());
    assert(covers(half.bytes, sp, 2));
    assert(covers(fetched.bytes, sp, 2));
    assert((sp + 6 - 4) as u32 == (sp + 2) as u32);
    assert((sp + 6 - 6) as u32 == sp);
    lemma_frame(fetched, (sp + 6) as u32, point.registers.sr, point.registers.pc);
}

/// An emulated call that returns pops the address that the call pushed, and leaves the stack
/// pointer where it was before the call.
pub proof fn emulated_calls_return_behind_the_call(point: Point, address: u32)
    requires
        4 <= point.registers.ssp,
        covers(point.memory.bytes, (point.registers.ssp - 4) as u32, 4),
    ensures
        ({
            let sp = (point.registers.ssp - 4) as u32;
            let called = Point {
                registers: RegistersView { ssp: sp, ..point.registers },
                memory: point.memory.after_write(sp, 4, address).1,
                ..point
            };
            popped(called) matches Some(back) && back.registers.pc == address && back.registers.ssp
                == point.registers.ssp && back.memory == called.memory
        }),
{
    let sp = (point.registers.ssp - 4) as u32;
    reads_give_back_writes(point.memory, sp, 4, address);
}

} // verus!
