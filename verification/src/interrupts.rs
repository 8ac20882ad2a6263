//! Interrupts delivered at instruction counts.

use crate::bus::{
    acknowledged, extends_reflexively, kept, lemma_acknowledged, lemma_kept_transitively, made,
    BusRequest, HostMemory,
};
use crate::host::{Host, HostAction, Point};
use crate::memory::MemoryView;
use crate::registers::{CpuContext, RegistersView};
use vstd::prelude::*;

verus! {

/// Where a scheduled interrupt's handler lives.
#[derive(Clone, Copy, Debug, PartialEq, Eq, Structural)]
pub enum InterruptHandler {
    /// A fixed address, for a handler a recipe knows the location of.
    Address(u32),
    /// The longword in the 68000 vector table at `vector * 4`, so the handler
    /// the *program* installed is the one that runs. Read at delivery, not at
    /// setup: initialization installs the vector before it waits on it.
    Vector(u8),
}

/// How a scheduled handler returns.
#[derive(Clone, Copy, Debug, PartialEq, Eq, Structural)]
pub enum InterruptFrame {
    /// The 68000 exception frame: status register at `SP`, program counter at
    /// `SP+2`. What a handler ending in `RTE` pops, which is what a hardware
    /// vector holds.
    Exception,
    /// A plain return address, for a handler ending in `RTS`: the shape an
    /// exec interrupt *server* has, since exec's own handler calls the chain.
    Subroutine,
}

impl Default for InterruptFrame {
    fn default() -> (r: Self)
        ensures
            r == InterruptFrame::Exception,
    {
        InterruptFrame::Exception
    }
}

/// One deterministic delivery schedule.
#[derive(Clone, Copy, Debug, PartialEq, Eq, Structural)]
pub struct ScheduledInterrupt {
    pub handler: InterruptHandler,
    /// Instructions to execute before the first delivery.
    pub after_steps: usize,
    /// Instructions between deliveries. `None` delivers once.
    pub every_steps: Option<usize>,
    /// How many times to deliver at most. `None` is as often as the step budget
    /// allows, which is already finite.
    pub deliveries: Option<usize>,
    pub frame: InterruptFrame,
}

/// One delivery that happened.
#[derive(Clone, Copy, Debug, PartialEq, Eq, Structural)]
pub struct InterruptDelivery {
    /// Which scheduled entry delivered.
    pub index: usize,
    /// The instruction count at which it was delivered: how many had executed.
    pub step: u64,
    /// The handler address that ran.
    pub handler: u32,
    /// The address it interrupted, which is where the handler returns.
    pub resume: u32,
}

/// A [`Host`] that delivers scheduled interrupts at instruction counts.
///
/// Setup code commonly sets a synchronization flag and spins until an interrupt
/// handler clears it. The beam counter advances on its own, but nothing runs the
/// handler, so otherwise valid initialization never returns.
///
/// The schedule is in *instructions*, not in wall-clock or beam time, because
/// that is the one clock a sandbox can reproduce exactly: the same recipe over
/// the same bytes delivers at the same instruction on every machine.
///
/// **Deliveries never nest.** A delivery records the stack pointer of the frame
/// it pushed and refuses to deliver again until the stack has unwound past it:
/// a handler that has not returned is still running, and interrupting it would
/// build a state no schedule describes.
#[derive(Debug)]
pub struct InterruptSchedule {
    entries: Vec<ScheduledInterrupt>,
    counts: Vec<usize>,
    delivered: Vec<InterruptDelivery>,
    steps: usize,
    /// The stack pointer just after the most recent frame was pushed, while a
    /// handler is still running.
    frame_sp: Option<u32>,
}

/// A schedule as a mathematical value.
#[verifier::ext_equal]
pub struct ScheduleView {
    pub entries: Seq<ScheduledInterrupt>,
    /// How often each entry delivered.
    pub counts: Seq<usize>,
    pub delivered: Seq<InterruptDelivery>,
    /// How many instructions have executed.
    pub steps: usize,
    pub frame_sp: Option<u32>,
}

impl View for InterruptSchedule {
    type V = ScheduleView;

    closed spec fn view(&self) -> ScheduleView {
        ScheduleView {
            entries: self.entries@,
            counts: self.counts@,
            delivered: self.delivered@,
            steps: self.steps,
            frame_sp: self.frame_sp,
        }
    }
}

/// A value capped at the largest count.
pub open spec fn capped(value: int) -> usize {
    if value > usize::MAX {
        usize::MAX
    } else {
        value as usize
    }
}

/// Whether an entry that delivered `count` times is due after `steps` instructions.
pub open spec fn entry_is_due(entry: ScheduledInterrupt, count: usize, steps: usize) -> bool {
    &&& (entry.deliveries matches Some(limit) ==> count < limit)
    &&& if count == 0 {
        steps >= entry.after_steps
    } else {
        match entry.every_steps {
            Some(period) => {
                let next = entry.after_steps + capped(period * count);
                next <= usize::MAX && steps >= next
            },
            None => false,
        }
    }
}

/// The address `bytes` below a stack pointer.
pub open spec fn pushed_down(sp: u32, bytes: int) -> u32 {
    if sp >= bytes {
        (sp - bytes) as u32
    } else {
        (sp - bytes + 0x1_0000_0000) as u32
    }
}

/// The stack pointer below an entry's frame.
pub open spec fn frame_below(frame: InterruptFrame, sp: u32) -> u32 {
    match frame {
        InterruptFrame::Exception => pushed_down(pushed_down(sp, 4), 2),
        InterruptFrame::Subroutine => pushed_down(sp, 4),
    }
}

/// The handler an entry names, with what looking it up leaves of memory. A vector
/// that holds nothing names none.
pub open spec fn handler_in(handler: InterruptHandler, memory: MemoryView) -> (
    Option<u32>,
    MemoryView,
) {
    match handler {
        InterruptHandler::Address(address) => (Some(address), memory),
        InterruptHandler::Vector(vector) => {
            let (value, after) = memory.after_read((vector * 4) as u32, 4);
            (
                if value == Some(0u32) {
                    None
                } else {
                    value
                },
                after,
            )
        },
    }
}

/// Whether an entry's frame could be stored, with what storing it leaves of memory.
pub open spec fn frame_pushed(frame: InterruptFrame, cpu: RegistersView, memory: MemoryView) -> (
    bool,
    MemoryView,
) {
    let (stored, first) = memory.after_write(pushed_down(cpu.ssp, 4), 4, cpu.pc);
    if stored is None || frame == InterruptFrame::Subroutine {
        (stored is Some, first)
    } else {
        let (stored, second) = first.after_write(frame_below(frame, cpu.ssp), 2, cpu.sr as u32);
        (stored is Some, second)
    }
}

impl ScheduleView {
    /// How often an entry delivered.
    pub open spec fn count(self, i: int) -> usize {
        if 0 <= i < self.counts.len() {
            self.counts[i]
        } else {
            0
        }
    }

    /// Whether an entry is due at the current step count.
    pub open spec fn is_due(self, i: int) -> bool {
        entry_is_due(self.entries[i], self.count(i), self.steps)
    }

    /// The first entry from `i` on that is due.
    pub open spec fn first_due(self, i: int) -> Option<int>
        decreases self.entries.len() - i,
    {
        if i < 0 || i >= self.entries.len() {
            None
        } else if self.is_due(i) {
            Some(i)
        } else {
            self.first_due(i + 1)
        }
    }

    /// Whether a handler that was delivered is still running: the stack has not
    /// unwound past its frame.
    pub open spec fn is_running(self, cpu: RegistersView) -> bool {
        self.frame_sp matches Some(frame_sp) && cpu.ssp <= frame_sp
    }

    /// The schedule one instruction on.
    pub open spec fn stepped(self, cpu: RegistersView) -> ScheduleView {
        ScheduleView {
            steps: capped(self.steps + 1),
            frame_sp: if self.is_running(cpu) {
                self.frame_sp
            } else {
                None
            },
            ..self
        }
    }

    /// The schedule one instruction on, with entry `i` delivered to `handler`.
    pub open spec fn delivering(self, i: int, cpu: RegistersView, handler: u32) -> ScheduleView {
        ScheduleView {
            counts: if 0 <= i < self.counts.len() {
                self.counts.update(i, capped(self.count(i) + 1))
            } else {
                self.counts
            },
            delivered: self.delivered.push(
                InterruptDelivery {
                    index: i as usize,
                    step: self.steps as u64,
                    handler,
                    resume: cpu.pc,
                },
            ),
            frame_sp: Some(frame_below(self.entries[i].frame, cpu.ssp)),
            ..self.stepped(cpu)
        }
    }

    /// The entry that a tick tries to deliver.
    pub open spec fn attempted(self, cpu: RegistersView) -> Option<int> {
        if self.is_running(cpu) {
            None
        } else {
            self.first_due(0)
        }
    }
}

/// The registers in which a delivered handler starts.
pub open spec fn entered(frame: InterruptFrame, cpu: RegistersView, handler: u32) -> RegistersView {
    RegistersView { ssp: frame_below(frame, cpu.ssp), pc: handler, ..cpu }
}

/// What a tick makes of the schedule, the registers and plain memory.
pub open spec fn ticked(schedule: ScheduleView, cpu: RegistersView, memory: MemoryView) -> (
    ScheduleView,
    RegistersView,
    MemoryView,
) {
    let stepped = schedule.stepped(cpu);
    match schedule.attempted(cpu) {
        None => (stepped, cpu, memory),
        Some(i) => {
            let entry = schedule.entries[i];
            let (handler, looked_up) = handler_in(entry.handler, memory);
            match handler {
                None => (stepped, cpu, looked_up),
                Some(handler) => {
                    let (stored, after) = frame_pushed(entry.frame, cpu, looked_up);
                    if stored {
                        (
                            schedule.delivering(i, cpu, handler),
                            entered(entry.frame, cpu, handler),
                            after,
                        )
                    } else {
                        (stepped, cpu, after)
                    }
                },
            }
        },
    }
}

/// Whether looking up the handler that an entry names may give `found` and turn one memory
/// view into another. A vector that holds nothing names none.
pub open spec fn looked_up<M: HostMemory>(
    handler: InterruptHandler,
    before: M,
    found: Option<u32>,
    after: M,
) -> bool {
    match handler {
        InterruptHandler::Address(address) => found == Some(address) && after == before,
        InterruptHandler::Vector(vector) => exists|answer: Option<u32>|
            #[trigger] made(
                before,
                BusRequest::Read { addr: (vector * 4) as u32, size: 4 },
                answer,
                after,
            ) && found == if answer == Some(0u32) {
                None
            } else {
                answer
            },
    }
}

/// Whether storing an entry's frame may turn one memory view into another: the program
/// counter first, and below it the status register where the frame has one. `whole` says
/// whether all of it was stored.
pub open spec fn stored_frame<M: HostMemory>(
    frame: InterruptFrame,
    cpu: RegistersView,
    before: M,
    whole: bool,
    after: M,
) -> bool {
    exists|first: Option<()>, between: M|
        {
            &&& #[trigger] made(
                before,
                BusRequest::Write { addr: pushed_down(cpu.ssp, 4), size: 4, value: cpu.pc },
                acknowledged(first),
                between,
            )
            &&& if first is None || frame == InterruptFrame::Subroutine {
                whole == first is Some && after == between
            } else {
                made(
                    between,
                    BusRequest::Write {
                        addr: frame_below(frame, cpu.ssp),
                        size: 2,
                        value: cpu.sr as u32,
                    },
                    if whole {
                        Some(0u32)
                    } else {
                        None
                    },
                    after,
                )
            }
        }
}

/// Whether a tick may turn the schedule, the registers and one memory view into others:
/// the first entry that is due is delivered, unless it names no handler or its frame
/// cannot be stored.
pub open spec fn ticks_over<M: HostMemory>(
    schedule: ScheduleView,
    cpu: RegistersView,
    before: M,
    next: ScheduleView,
    registers: RegistersView,
    after: M,
) -> bool {
    let stepped = schedule.stepped(cpu);
    match schedule.attempted(cpu) {
        None => next == stepped && registers == cpu && after == before,
        Some(i) => {
            let entry = schedule.entries[i];
            exists|found: Option<u32>, between: M|
                #[trigger] looked_up(entry.handler, before, found, between) && match found {
                    None => next == stepped && registers == cpu && after == between,
                    Some(handler) => {
                        ||| stored_frame(entry.frame, cpu, between, false, after) && next == stepped
                            && registers == cpu
                        ||| stored_frame(entry.frame, cpu, between, true, after) && next
                            == schedule.delivering(i, cpu, handler) && registers == entered(
                            entry.frame,
                            cpu,
                            handler,
                        )
                    },
                }
        },
    }
}

/// Whether looking up a handler reaches a device.
pub open spec fn looks_at_device(handler: InterruptHandler, served: Set<u32>) -> bool {
    handler matches InterruptHandler::Vector(vector) && served.contains((vector * 4) as u32)
}

/// Whether storing a frame reaches a device.
pub open spec fn pushes_to_device(
    frame: InterruptFrame,
    cpu: RegistersView,
    served: Set<u32>,
) -> bool {
    ||| served.contains(pushed_down(cpu.ssp, 4))
    ||| frame == InterruptFrame::Exception && served.contains(frame_below(frame, cpu.ssp))
}

/// Whether a tick reaches a device.
pub open spec fn reaches_device(
    schedule: ScheduleView,
    cpu: RegistersView,
    served: Set<u32>,
) -> bool {
    match schedule.attempted(cpu) {
        None => false,
        Some(i) => {
            let entry = schedule.entries[i];
            looks_at_device(entry.handler, served) || pushes_to_device(entry.frame, cpu, served)
        },
    }
}

/// The part of [`ticked`] that no device can change: a tick delivers the first entry
/// that is due, or nothing.
pub open spec fn ticks_to(
    schedule: ScheduleView,
    cpu: RegistersView,
    after: ScheduleView,
    registers: RegistersView,
) -> bool {
    let stepped = schedule.stepped(cpu);
    match schedule.attempted(cpu) {
        None => after == stepped && registers == cpu,
        Some(i) => {
            let entry = schedule.entries[i];
            ||| after == stepped && registers == cpu
            ||| {
                &&& match entry.handler {
                    InterruptHandler::Address(address) => registers.pc == address,
                    InterruptHandler::Vector(_) => registers.pc != 0,
                }
                &&& registers == entered(entry.frame, cpu, registers.pc)
                &&& after == schedule.delivering(i, cpu, registers.pc)
            }
        },
    }
}

impl InterruptSchedule {
    /// A schedule of `entries` that has delivered nothing yet.
    pub fn new(entries: Vec<ScheduledInterrupt>) -> (r: Self)
        ensures
            r@.entries == entries@,
            r@.counts == Seq::new(entries@.len(), |i: int| 0usize),
            r@.delivered == Seq::<InterruptDelivery>::empty(),
            r@.steps == 0,
            r@.frame_sp is None,
    {
        let mut counts: Vec<usize> = Vec::new();
        let mut i: usize = 0;
        while i < entries.len()
            invariant
                i <= entries@.len(),
                counts@ == Seq::new(i as nat, |i: int| 0usize),
            decreases entries@.len() - i,
        {
            counts.push(0);
            i += 1;
        }
        InterruptSchedule { entries, counts, delivered: Vec::new(), steps: 0, frame_sp: None }
    }

    /// Every delivery that happened, in order.
    pub fn delivered(&self) -> (r: &[InterruptDelivery])
        ensures
            r@ == self@.delivered,
    {
        self.delivered.as_slice()
    }

    /// Whether entry `index` is due at the current step count.
    fn due(&self, index: usize) -> (r: bool)
        requires
            index < self@.entries.len(),
        ensures
            r == self@.is_due(index as int),
    {
        let entry: ScheduledInterrupt = self.entries[index];
        let count: usize = if index < self.counts.len() {
            self.counts[index]
        } else {
            0
        };
        if let Some(limit) = entry.deliveries {
            if count >= limit {
                return false;
            }
        }
        if count == 0 {
            return self.steps >= entry.after_steps;
        }
        let period: usize = match entry.every_steps {
            Some(period) => period,
            None => {
                return false;
            },
        };
        let span: usize = match period.checked_mul(count) {
            Some(span) => span,
            None => usize::MAX,
        };
        match entry.after_steps.checked_add(span) {
            Some(next) => self.steps >= next,
            None => false,
        }
    }

    /// The first entry that is due.
    fn next_due(&self) -> (r: Option<usize>)
        ensures
            match r {
                Some(i) => i < self@.entries.len() && self@.first_due(0) == Some(i as int),
                None => self@.first_due(0) is None,
            },
    {
        let mut i: usize = 0;
        while i < self.entries.len()
            invariant
                i <= self@.entries.len(),
                self@.first_due(0) == self@.first_due(i as int),
            decreases self@.entries.len() - i,
        {
            if self.due(i) {
                return Some(i);
            }
            i += 1;
        }
        None
    }
}

/// The handler that a scheduled interrupt runs.
fn find_handler<M: HostMemory>(handler: InterruptHandler, memory: &mut M) -> (r: Option<u32>)
    requires
        old(memory).ready(),
    ensures
        kept(*old(memory), *final(memory)),
        looked_up(handler, *old(memory), r, *final(memory)),
        !looks_at_device(handler, old(memory).devices().served) ==> final(memory).devices() == old(
            memory,
        ).devices() && (r, final(memory).contents()) == handler_in(
            handler,
            old(memory).contents(),
        ),
{
    match handler {
        InterruptHandler::Address(address) => {
            proof {
                extends_reflexively(memory.contents());
            }
            Some(address)
        },
        InterruptHandler::Vector(vector) => {
            let at: u32 = vector as u32 * 4;
            let answer = memory.read_long(at);
            assert(made(
                *old(memory),
                BusRequest::Read { addr: (vector * 4) as u32, size: 4 },
                answer,
                *memory,
            ));
            match answer {
                Some(found) => {
                    if found != 0 {
                        Some(found)
                    } else {
                        None
                    }
                },
                None => None,
            }
        },
    }
}

/// Store a frame, and return the stack pointer below it.
fn push_frame<M: HostMemory>(frame: InterruptFrame, cpu: &CpuContext, memory: &mut M) -> (r:
    Option<u32>)
    requires
        old(memory).ready(),
    ensures
        kept(*old(memory), *final(memory)),
        r matches Some(sp) ==> sp == frame_below(frame, cpu@.ssp),
        stored_frame(frame, cpu@, *old(memory), r is Some, *final(memory)),
        !pushes_to_device(frame, cpu@, old(memory).devices().served) ==> final(memory).devices()
            == old(memory).devices() && (r is Some, final(memory).contents()) == frame_pushed(
            frame,
            cpu@,
            old(memory).contents(),
        ),
{
    let mut sp: u32 = cpu.sp().wrapping_sub(4);
    let first = memory.write_long(sp, cpu.pc());
    proof {
        lemma_acknowledged(first);
        assert(made(
            *old(memory),
            BusRequest::Write { addr: pushed_down(cpu@.ssp, 4), size: 4, value: cpu@.pc },
            acknowledged(first),
            *memory,
        ));
    }
    if first.is_none() {
        return None;
    }
    if frame == InterruptFrame::Exception {
        let ghost between = *memory;
        sp = sp.wrapping_sub(2);
        let stored = memory.write_word(sp, cpu.sr());
        proof {
            lemma_kept_transitively(*old(memory), between, *memory);
            lemma_acknowledged(stored);
        }
        if stored.is_none() {
            return None;
        }
    }
    Some(sp)
}

impl Host for InterruptSchedule {
    open spec fn passive(&self) -> bool {
        false
    }

    open spec fn claimed(&self, pc: u32) -> bool {
        false
    }

    open spec fn ticks(&self, before: Point, next: &Self, after: Point) -> bool {
        if reaches_device(self@, before.registers, before.devices.served) {
            ticks_to(self@, before.registers, next@, after.registers)
        } else {
            &&& (next@, after.registers, after.memory) == ticked(
                self@,
                before.registers,
                before.memory,
            )
            &&& after.devices == before.devices
        }
    }

    open spec fn answers_call(
        &self,
        pc: u32,
        before: Point,
        action: HostAction,
        next: &Self,
        after: Point,
    ) -> bool {
        action == HostAction::Continue && *next == *self && after == before
    }

    open spec fn answers_trap(
        &self,
        vector: u8,
        site: u32,
        before: Point,
        action: Option<HostAction>,
        next: &Self,
        after: Point,
    ) -> bool {
        action is None && *next == *self && after == before
    }

    fn tick<M: HostMemory>(&mut self, cpu: &mut CpuContext, memory: &mut M)
        ensures
            ticks_over(
                old(self)@,
                old(cpu)@,
                *old(memory),
                final(self)@,
                final(cpu)@,
                *final(memory),
            ),
            !reaches_device(old(self)@, old(cpu)@, old(memory).devices().served) ==> (
                final(self)@,
                final(cpu)@,
                final(memory).contents(),
            ) == ticked(old(self)@, old(cpu)@, old(memory).contents()),
    {
        proof {
            extends_reflexively(memory.contents());
        }
        let running: bool = match self.frame_sp {
            Some(frame_sp) => cpu.sp() <= frame_sp,
            None => false,
        };
        let due: Option<usize> = if running {
            None
        } else {
            self.next_due()
        };
        let step: usize = self.steps;
        if self.steps < usize::MAX {
            self.steps = self.steps + 1;
        }
        if !running {
            self.frame_sp = None;
        }
        let index: usize = match due {
            Some(index) => index,
            None => {
                return;
            },
        };
        let entry: ScheduledInterrupt = self.entries[index];
        let handler: u32 = match find_handler(entry.handler, memory) {
            Some(handler) => handler,
            None => {
                return;
            },
        };
        let ghost between = *memory;
        let pushed = push_frame(entry.frame, cpu, memory);
        proof {
            lemma_kept_transitively(*old(memory), between, *memory);
        }
        let sp: u32 = match pushed {
            Some(sp) => sp,
            None => {
                return;
            },
        };
        let resume: u32 = cpu.pc();
        cpu.set_sp(sp);
        cpu.set_pc(handler);
        self.frame_sp = Some(sp);
        self.delivered.push(
            InterruptDelivery { index, step: step as u64, handler, resume },
        );
        if index < self.counts.len() {
            let count: usize = self.counts[index];
            if count < usize::MAX {
                self.counts[index] = count + 1;
            }
        }
        assert(self@ =~= old(self)@.delivering(index as int, old(cpu)@, handler));
    }

    fn claims(&self, pc: u32) -> (r: bool) {
        false
    }

    fn on_call<M: HostMemory>(&mut self, pc: u32, cpu: &mut CpuContext, memory: &mut M) -> (r:
        HostAction) {
        proof {
            extends_reflexively(memory.contents());
        }
        HostAction::Continue
    }

    fn on_trap<M: HostMemory>(
        &mut self,
        vector: u8,
        site: u32,
        cpu: &mut CpuContext,
        memory: &mut M,
    ) -> (r: Option<HostAction>) {
        proof {
            extends_reflexively(memory.contents());
        }
        None
    }
}

/// Deliveries never nest: nothing is delivered while the frame of an earlier delivery
/// is on the stack, and a delivery leaves its own frame there.
pub proof fn deliveries_never_nest(schedule: ScheduleView, cpu: RegistersView, memory: MemoryView)
    ensures
        schedule.is_running(cpu) ==> {
            let (after, registers, contents) = ticked(schedule, cpu, memory);
            &&& after.delivered == schedule.delivered
            &&& registers == cpu
            &&& contents == memory
        },
        ({
            let (after, registers, contents) = ticked(schedule, cpu, memory);
            after.delivered != schedule.delivered ==> after.is_running(registers)
        }),
{
}

proof fn lemma_first_due(schedule: ScheduleView, i: int)
    requires
        0 <= i,
    ensures
        schedule.first_due(i) matches Some(k) ==> i <= k < schedule.entries.len()
            && schedule.is_due(k),
    decreases schedule.entries.len() - i,
{
    if i < schedule.entries.len() && !schedule.is_due(i) {
        lemma_first_due(schedule, i + 1);
    }
}

/// Whether no entry delivered more often than its limit.
pub open spec fn within_limits(schedule: ScheduleView) -> bool {
    forall|i: int|
        0 <= i < schedule.entries.len() ==> ((#[trigger] schedule.entries[i]).deliveries matches Some(
            limit,
        ) ==> schedule.count(i) <= limit)
}

/// No entry ever delivers more often than its limit, nor before its first step.
pub proof fn deliveries_keep_to_the_schedule(
    schedule: ScheduleView,
    cpu: RegistersView,
    memory: MemoryView,
)
    requires
        schedule.entries.len() <= usize::MAX,
        within_limits(schedule),
    ensures
        within_limits(ticked(schedule, cpu, memory).0),
        ({
            let after = ticked(schedule, cpu, memory).0;
            after.delivered != schedule.delivered ==> {
                let delivery = after.delivered.last();
                &&& after.delivered == schedule.delivered.push(delivery)
                &&& delivery.index < schedule.entries.len()
                &&& delivery.step >= schedule.entries[delivery.index as int].after_steps
                &&& delivery.resume == cpu.pc
            }
        }),
{
    lemma_first_due(schedule, 0);
}

} // verus!
