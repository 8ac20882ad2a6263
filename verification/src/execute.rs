//! Executing a routine in a sandbox, one instruction at a time.

use crate::bus::{
    extends, extends_reflexively, extends_transitively, is_plain, kept, lemma_kept_transitively,
    no_devices,
    reading_extends, writing_extends, Bus, Devices, HostMemory,
};
use crate::host::{point_at, Host, HostAction, NoHost, Point, StopReason};
use crate::interpreter::{
    disassemble_and_interpret, executed, executes, fetch, fetched_at, fetches, interpret,
    is_cut_short, is_fetch, plain_executions_are_determined, plain_fetches_are_determined, text_of,
    trap_cycles, Outcome, Stepped,
};
use crate::memory::{
    covers, encoded, Access, Fault, Memory, MemoryAccessEvent, MemoryView, MemoryWrite, Watchpoint,
    DEFAULT_RETAINED_WATCH_EVENTS,
};
use crate::registers::{
    deltas, register_deltas, CpuContext, RegisterDelta, RegisterFile, RegistersView, STATUS_BITS,
};
use vstd::prelude::*;

verus! {

/// How many instructions a run executes unless it is told otherwise.
pub const DEFAULT_MAX_STEPS: usize = 100_000;

/// Default cap on how many trace rows a run retains.
pub const DEFAULT_RETAINED_STEPS: usize = 65_536;

/// The status register of a processor that starts: supervisor, interrupts masked.
pub const STARTING_STATUS: u16 = 0x2700;

/// One executed instruction.
#[derive(Clone, Debug, PartialEq)]
pub struct Step {
    /// Zero-based index of the executing iteration. A [`Host`] that services a
    /// call (an emulated OS vector) advances this counter without adding a
    /// `Step`, so `index` can exceed the step's position in [`Execution::steps`];
    /// with a [`NoHost`] the two always coincide.
    pub index: usize,
    /// Address of the instruction (its PC).
    pub address: u32,
    /// Disassembled instruction text.
    pub text: String,
    /// Cycles the instruction took.
    pub cycles: usize,
    /// Registers this instruction changed (the program counter is excluded, as
    /// it is implied by the following step's address).
    pub register_deltas: Vec<RegisterDelta>,
    /// Memory writes this instruction performed, as far as the bounded write
    /// log retained them.
    pub writes: Vec<MemoryWrite>,
    /// Whether this instruction wrote more than [`Step::writes`] lists, because
    /// the write log was already at its retention cap.
    ///
    /// Without this an empty `writes` is ambiguous: past the cap every row would
    /// assert that an instruction which wrote sixty bytes wrote nothing. A
    /// single `MOVEM` can straddle the boundary, so the flag is set on the
    /// partial row too, not only on the wholly empty ones after it.
    pub writes_truncated: bool,
    /// Accesses made by this instruction that matched a watchpoint.
    pub watch_events: Vec<MemoryAccessEvent>,
    /// The exception vector this instruction raised, if any.
    pub trap: Option<u8>,
}

/// A step as a mathematical value.
#[verifier::ext_equal]
pub struct StepView {
    pub index: usize,
    pub address: u32,
    pub text: Seq<char>,
    pub cycles: usize,
    pub register_deltas: Seq<RegisterDelta>,
    pub writes: Seq<MemoryWrite>,
    pub writes_truncated: bool,
    pub watch_events: Seq<MemoryAccessEvent>,
    pub trap: Option<u8>,
}

impl View for Step {
    type V = StepView;

    open spec fn view(&self) -> StepView {
        StepView {
            index: self.index,
            address: self.address,
            text: self.text@,
            cycles: self.cycles,
            register_deltas: self.register_deltas@,
            writes: self.writes@,
            writes_truncated: self.writes_truncated,
            watch_events: self.watch_events@,
            trap: self.trap,
        }
    }
}

/// The views of a trace.
pub open spec fn step_views(steps: Seq<Step>) -> Seq<StepView> {
    Seq::new(steps.len(), |i: int| steps[i]@)
}

/// How to seed and bound an execution.
#[derive(Clone, Debug)]
pub struct RunOptions {
    /// Maximum instructions to execute before stopping with [`StopReason::StepLimit`].
    pub max_steps: usize,
    /// Initial values of `D0`-`D7`.
    pub data: [u32; 8],
    /// Initial values of `A0`-`A6`.
    pub address: [u32; 7],
    /// Initial stack pointer (the supervisor SP; sandbox code runs supervisor).
    pub stack_pointer: u32,
    /// Return marker pushed as the top-level return address: when the program
    /// counter reaches it, the routine has returned and execution stops.
    pub return_marker: u32,
    /// Whether to retain a per-instruction [`Step`] trace in [`Execution::steps`].
    pub record_steps: bool,
    /// How many [`Step`]s to keep, when recording. `None` keeps every one.
    ///
    /// A step row holds the instruction's disassembled text, its register
    /// deltas, and its writes, so a long run's trace is far larger than the run
    /// itself: a budget a caller can raise is only finite in instructions if it
    /// is also finite in memory. Beyond the cap the run stops disassembling
    /// altogether: the rows would be discarded, and building a `String` to
    /// throw away is the cost, not the storing.
    ///
    /// [`Execution::steps_traced`] still counts every instruction that would
    /// have been recorded, so a capped trace never reads as a short run.
    pub retained_steps: Option<usize>,
    /// Address ranges whose matching accesses are attached to trace steps.
    pub watchpoints: Vec<Watchpoint>,
    /// How many matching accesses to retain across the whole run.
    ///
    /// A watched range's traffic is not bounded by the step count: an attached
    /// device can turn one instruction into a quarter of a million matching
    /// accesses. Past the cap, recording stops and later steps' windows are
    /// legitimately empty: [`Execution::watch_events_total`] and
    /// [`Execution::watch_events_truncated`] say that this is what happened.
    pub retained_watch_events: usize,
    /// Stop after the first instruction that touches a watchpoint.
    pub stop_on_watch: bool,
    /// Dispatch guest TRAP #0-#15 vectors (32-47) after an unclaimed host trap.
    /// Disabled by default. Handlers and six-byte supervisor frames must be
    /// mapped in RAM; other exception classes still stop. Handler instructions share
    /// the ordinary step budget, and RTE restores the saved SR and PC.
    pub guest_traps: bool,
    /// Continue a machine an earlier run left, instead of entering a routine.
    ///
    /// With this set the whole register file except the program counter is
    /// restored, and **no return marker is pushed**: the frame the earlier run
    /// left on the stack is still there, and a second marker would make the
    /// routine appear to return one level too early. [`RunOptions::stack_pointer`]
    /// is therefore not used either; the supervisor stack pointer comes from the
    /// restored file.
    ///
    /// The program counter still comes from the `entry` argument, which the
    /// caller passes as the address the earlier run stopped at.
    pub resume: Option<RegisterFile>,
}

impl RunOptions {
    /// Default options for the given stack pointer and return marker, with no
    /// seeded registers and the default step budget, recording a full trace.
    pub fn new(stack_pointer: u32, return_marker: u32) -> (r: Self)
        ensures
            r.max_steps == DEFAULT_MAX_STEPS,
            r.data@ == Seq::new(8, |i: int| 0u32),
            r.address@ == Seq::new(7, |i: int| 0u32),
            r.stack_pointer == stack_pointer,
            r.return_marker == return_marker,
            r.record_steps,
            r.retained_steps == Some(DEFAULT_RETAINED_STEPS),
            r.watchpoints@ == Seq::<Watchpoint>::empty(),
            r.retained_watch_events == DEFAULT_RETAINED_WATCH_EVENTS,
            !r.stop_on_watch,
            !r.guest_traps,
            r.resume is None,
    {
        RunOptions {
            max_steps: DEFAULT_MAX_STEPS,
            data: [0; 8],
            address: [0; 7],
            stack_pointer,
            return_marker,
            record_steps: true,
            retained_steps: Some(DEFAULT_RETAINED_STEPS),
            watchpoints: Vec::new(),
            retained_watch_events: DEFAULT_RETAINED_WATCH_EVENTS,
            stop_on_watch: false,
            guest_traps: false,
            resume: None,
        }
    }
}

/// The outcome of a run.
#[derive(Clone, Debug, PartialEq)]
pub struct Execution {
    /// The per-instruction trace, if [`RunOptions::record_steps`] was set, and
    /// as many rows of it as [`RunOptions::retained_steps`] allowed.
    pub steps: Vec<Step>,
    /// Instructions that would have been traced: every executed one, when
    /// recording. Reported beside the retained rows so a capped trace can never
    /// read as a short run.
    pub steps_traced: usize,
    /// How many instructions were executed.
    pub steps_executed: usize,
    /// Every access that matched a watchpoint, whether or not it was retained in
    /// a step's window. Includes accesses a [`Host`] hook made, which no step
    /// window contains.
    pub watch_events_total: u64,
    /// Whether more accesses matched than [`RunOptions::retained_watch_events`]
    /// allowed to be kept, so the events attached to steps are a prefix.
    pub watch_events_truncated: bool,
    pub stop: StopReason,
    /// The register file when execution stopped.
    pub registers: RegisterFile,
}

/// An execution as a mathematical value.
#[verifier::ext_equal]
pub struct ExecutionView {
    pub steps: Seq<StepView>,
    pub steps_traced: nat,
    pub steps_executed: nat,
    pub watch_events_total: u64,
    pub watch_events_truncated: bool,
    pub stop: StopReason,
    pub registers: RegistersView,
}

impl View for Execution {
    type V = ExecutionView;

    open spec fn view(&self) -> ExecutionView {
        ExecutionView {
            steps: step_views(self.steps@),
            steps_traced: self.steps_traced as nat,
            steps_executed: self.steps_executed as nat,
            watch_events_total: self.watch_events_total,
            watch_events_truncated: self.watch_events_truncated,
            stop: self.stop,
            registers: self.registers@,
        }
    }
}

/// A run at one moment.
#[verifier::ext_equal]
pub struct RunView {
    pub registers: RegistersView,
    pub memory: MemoryView,
    pub devices: Devices,
    pub steps: Seq<StepView>,
    pub steps_traced: nat,
    pub steps_executed: nat,
    pub stop: Option<StopReason>,
}

impl RunView {
    /// The run with these registers, this memory and these devices.
    pub open spec fn at(self, point: Point) -> RunView {
        RunView {
            registers: point.registers,
            memory: point.memory,
            devices: point.devices,
            ..self
        }
    }

    /// The run, stopped.
    pub open spec fn stopped(self, reason: StopReason) -> RunView {
        RunView { stop: Some(reason), ..self }
    }

    /// The registers, the memory and the devices.
    pub open spec fn point(self) -> Point {
        Point { registers: self.registers, memory: self.memory, devices: self.devices }
    }
}

/// A raised exception as a [`StopReason`]: an unmapped access recorded a [`Fault`] and
/// becomes one; anything else is a plain trap by vector.
pub open spec fn trap_reason(vector: u8, site: u32, fault: Option<Fault>) -> StopReason {
    match fault {
        Some(fault) => StopReason::Fault { fault, site },
        None => StopReason::Trap { vector, site },
    }
}

/// Classify a raised exception into a [`StopReason`].
fn trap_stop(vector: u8, site: u32, fault: Option<Fault>) -> (r: StopReason)
    ensures
        r == trap_reason(vector, site, fault),
{
    match fault {
        Some(fault) => StopReason::Fault { fault, site },
        None => StopReason::Trap { vector, site },
    }
}

/// The read of a return address from a stack pointer.
pub open spec fn stack_read(sp: u32) -> Fault {
    Fault { address: sp, access: Access::Read, size: 4 }
}

/// An emulated call resumes: the return address that the caller pushed is popped.
pub open spec fn popped(point: Point) -> Option<Point> {
    match point.memory.peeked(point.registers.ssp, 4) {
        Some(address) => Some(
            Point {
                registers: RegistersView {
                    ssp: ((point.registers.ssp + 4) % 0x1_0000_0000) as u32,
                    pc: address,
                    ..point.registers
                },
                ..point
            },
        ),
        None => None,
    }
}

/// Pop a caller's return address off the supervisor stack into PC (an emulated
/// call resuming). Returns the faulting read if the stack is unmapped.
fn pop_return<B: Bus>(registers: &mut RegisterFile, bus: &B) -> (r: Result<(), Fault>)
    requires
        bus.ready(),
    ensures
        match popped(point_at(old(registers)@, *bus)) {
            Some(point) => r is Ok && final(registers)@ == point.registers,
            None => r == Err::<(), Fault>(stack_read(old(registers)@.ssp)) && final(registers)@
                == old(registers)@,
        },
{
    let sp: u32 = registers.ssp;
    match bus.peek_long(sp) {
        Some(address) => {
            registers.ssp = sp.wrapping_add(4);
            registers.pc = address;
            Ok(())
        },
        None => Err(Fault { address: sp, access: Access::Read, size: 4 }),
    }
}

/// The status register of a handler that a trap enters: supervisor, not traced.
pub open spec fn trapped_status(sr: u16) -> u16 {
    (sr | 0x2000) & 0x7fff
}

/// The handler of a guest trap and the stack pointer below its frame, or why the trap is
/// not dispatched: the handler must be even, not null and mapped, and so must the frame.
pub open spec fn trap_entry(point: Point, vector: u8, site: u32) -> Result<(u32, u32), StopReason> {
    let refused = StopReason::Trap { vector, site };
    let sp = point.registers.ssp - 6;
    if point.memory.last_fault is Some {
        Err(StopReason::Fault { fault: point.memory.last_fault->Some_0, site })
    } else {
        match point.memory.peeked((vector * 4) as u32, 4) {
            None => Err(refused),
            Some(handler) => if handler == 0 || handler % 2 == 1 || point.memory.peeked(
                handler,
                2,
            ) is None {
                Err(refused)
            } else if sp < 0 || sp % 2 == 1 || point.memory.peeked(sp as u32, 4) is None
                || point.memory.peeked((sp + 2) as u32, 4) is None {
                Err(refused)
            } else {
                Ok((handler, sp as u32))
            },
        }
    }
}

/// The registers in which a guest handler starts.
pub open spec fn trap_entered(registers: RegistersView, handler: u32, sp: u32) -> RegistersView {
    RegistersView { ssp: sp, sr: trapped_status(registers.sr), pc: handler, ..registers }
}

/// What dispatching a guest trap makes of the registers and of memory. Only mapped
/// memory is reached, and no device answers there.
pub open spec fn guest_trapped(point: Point, vector: u8, site: u32) -> (Option<StopReason>, Point) {
    match trap_entry(point, vector, site) {
        Err(reason) => (Some(reason), point),
        Ok((handler, sp)) => {
            let (found, fetched) = point.memory.after_read((vector * 4) as u32, 4);
            let (first, half) = fetched.after_write((sp + 2) as u32, 4, point.registers.pc);
            let (second, whole) = half.after_write(sp, 2, point.registers.sr as u32);
            if found is None {
                (
                    Some(trap_reason(vector, site, fetched.last_fault)),
                    Point { memory: fetched, ..point },
                )
            } else if first is None {
                (
                    Some(trap_reason(vector, site, half.last_fault)),
                    Point { memory: half, ..point },
                )
            } else if second is None {
                (
                    Some(trap_reason(vector, site, whole.last_fault)),
                    Point { memory: whole, ..point },
                )
            } else {
                (
                    None,
                    Point {
                        registers: trap_entered(point.registers, handler, sp),
                        memory: whole,
                        ..point
                    },
                )
            }
        },
    }
}

/// The handler of a guest trap and the stack pointer below its frame.
fn find_trap_entry<B: Bus>(registers: &RegisterFile, bus: &B, vector: u8, site: u32) -> (r: Result<
    (u32, u32),
    StopReason,
>)
    requires
        bus.ready(),
    ensures
        r == trap_entry(point_at(registers@, *bus), vector, site),
        r matches Ok((_, sp)) ==> {
            let served = bus.devices().served;
            &&& !served.contains((vector * 4) as u32)
            &&& !served.contains(sp)
            &&& !served.contains((sp + 2) as u32)
        },
{
    let refused = StopReason::Trap { vector, site };
    if let Some(fault) = bus.last_fault() {
        return Err(StopReason::Fault { fault, site });
    }
    let handler: u32 = match bus.peek_long(vector as u32 * 4) {
        Some(handler) => handler,
        None => {
            return Err(refused);
        },
    };
    if handler == 0 || handler % 2 == 1 {
        return Err(refused);
    }
    if bus.peek_word(handler).is_none() {
        return Err(refused);
    }
    if registers.ssp < 6 {
        return Err(refused);
    }
    let sp: u32 = registers.ssp - 6;
    if sp % 2 == 1 || bus.peek_long(sp).is_none() || bus.peek_long(sp + 2).is_none() {
        return Err(refused);
    }
    Ok((handler, sp))
}

/// Bounded TRAP dispatch. The interpreter has already advanced PC past TRAP, but has
/// not stacked it. Only the vector fetch is observable: looking at the handler's first
/// word must not manufacture a watch hit before that instruction.
fn dispatch_guest_trap<B: Bus>(
    registers: &mut RegisterFile,
    bus: &mut B,
    vector: u8,
    site: u32,
) -> (r: Result<(), StopReason>)
    requires
        old(bus).ready(),
    ensures
        kept(*old(bus), *final(bus)),
        (r.err(), point_at(final(registers)@, *final(bus))) == guest_trapped(
            point_at(old(registers)@, *old(bus)),
            vector,
            site,
        ),
{
    proof {
        extends_reflexively(bus.contents());
    }
    let (handler, sp) = match find_trap_entry(registers, bus, vector, site) {
        Ok(entry) => entry,
        Err(reason) => {
            return Err(reason);
        },
    };
    let ghost first = *bus;
    if bus.read_long(vector as u32 * 4).is_none() {
        return Err(trap_stop(vector, site, bus.last_fault()));
    }
    let ghost second = *bus;
    let pushed = bus.write_long(sp + 2, registers.pc);
    proof {
        lemma_kept_transitively(first, second, *bus);
    }
    if pushed.is_none() {
        return Err(trap_stop(vector, site, bus.last_fault()));
    }
    let ghost third = *bus;
    let pushed = bus.write_word(sp, registers.sr);
    proof {
        lemma_kept_transitively(first, third, *bus);
    }
    if pushed.is_none() {
        return Err(trap_stop(vector, site, bus.last_fault()));
    }
    registers.ssp = sp;
    registers.sr = (registers.sr | 0x2000) & 0x7fff;
    registers.pc = handler;
    Ok(())
}

/// What the interpreter and the policy made of one instruction.
pub struct Executed<H> {
    pub text: Seq<char>,
    pub outcome: Outcome,
    /// The policy's answer to the exception, with what it left.
    pub trapped: (Option<HostAction>, Point),
    /// The policy after its answer.
    pub host: H,
    /// Why a guest trap was not dispatched, with what dispatching it left.
    pub dispatched: (Option<StopReason>, Point),
}

/// What the policy and the interpreter made of one iteration.
pub struct Round<H> {
    /// The policy before its tick.
    pub asked: H,
    /// What the policy's tick left.
    pub ticked: Point,
    /// The policy after its tick.
    pub ready: H,
    /// The policy's answer for the address, if it claimed it, with what it left.
    pub called: Option<(HostAction, Point)>,
    /// The policy after its answer for the address.
    pub heard: H,
    pub executed: Executed<H>,
}

impl<H> Round<H> {
    /// The point at which the instruction executes, if one does.
    pub open spec fn entry(self) -> Option<Point> {
        match self.called {
            None => Some(self.ticked),
            Some((HostAction::Continue, answered)) => Some(answered),
            Some(_) => None,
        }
    }

    /// The policy after the iteration.
    pub open spec fn left(self) -> H {
        if self.entry() is Some {
            self.executed.host
        } else {
            self.heard
        }
    }
}

/// The policy after some iterations.
pub open spec fn host_after<H>(host: H, rounds: Seq<Round<H>>) -> H {
    if rounds.len() == 0 {
        host
    } else {
        rounds.last().left()
    }
}

/// The memory in which an instruction starts: no pending fault, no matched watchpoint.
pub open spec fn cleared(memory: MemoryView) -> MemoryView {
    MemoryView { last_fault: None, watch_latch: None, ..memory }
}

/// Whether a run that holds `held` trace rows keeps the next one.
pub open spec fn retains(options: RunOptions, held: nat) -> bool {
    &&& options.record_steps
    &&& (options.retained_steps matches Some(cap) ==> held < cap)
}

/// What a stretch of execution did to memory: the writes that were logged, how many
/// there were, and the matching accesses that were retained.
#[verifier::ext_equal]
pub struct Shown {
    pub writes: Seq<MemoryWrite>,
    pub made: int,
    pub events: Seq<MemoryAccessEvent>,
}

impl Shown {
    /// Two stretches, one after the other.
    pub open spec fn then_shown(self, next: Shown) -> Shown {
        Shown {
            writes: self.writes + next.writes,
            made: self.made + next.made,
            events: self.events + next.events,
        }
    }
}

/// What happened to memory between `start` and `after`.
pub open spec fn shown(start: MemoryView, after: MemoryView) -> Shown {
    Shown {
        writes: after.writes.skip(start.writes.len() as int),
        made: after.writes_total - start.writes_total,
        events: after.accesses.skip(start.accesses.len() as int),
    }
}

/// The trace row of an instruction that took the registers from `before` to `after`.
pub open spec fn step_of(
    index: int,
    before: RegistersView,
    after: RegistersView,
    seen: Shown,
    text: Seq<char>,
    cycles: usize,
    trap: Option<u8>,
) -> StepView {
    StepView {
        index: index as usize,
        address: before.pc,
        text,
        cycles,
        register_deltas: deltas(before, after),
        writes: seen.writes,
        writes_truncated: seen.made > seen.writes.len(),
        watch_events: seen.events,
        trap,
    }
}

/// The point at which a guest trap is dispatched, after the policy's hook left it:
/// what the hook matched does not count as seen.
pub open spec fn unhooked(outcome: MemoryView, answered: Point) -> Point {
    Point {
        memory: MemoryView { watch_latch: outcome.watch_latch, ..answered.memory },
        ..answered
    }
}

/// Whether a raised exception is a guest trap that the run dispatches itself.
pub open spec fn dispatches(options: RunOptions, vector: u8) -> bool {
    options.guest_traps && 32 <= vector <= 47
}

/// A run after an instruction: a stopped processor and a matched watchpoint end it.
pub open spec fn settled(options: RunOptions, state: RunView, site: u32, stopped: bool) -> RunView {
    if stopped {
        state.stopped(StopReason::Stopped)
    } else {
        match state.memory.watch_latch {
            Some(event) => if options.stop_on_watch {
                state.stopped(StopReason::Watch { event, site })
            } else {
                state
            },
            None => state,
        }
    }
}

/// A run in which an emulated call returns.
pub open spec fn returned(state: RunView, site: u32) -> RunView {
    match popped(state.point()) {
        Some(point) => state.at(point),
        None => state.stopped(StopReason::Fault { fault: stack_read(state.registers.ssp), site }),
    }
}

/// The cycles of a trap that was dispatched.
pub open spec fn with_dispatch(cycles: usize, refusal: Option<StopReason>) -> usize {
    if refusal is Some {
        cycles
    } else if cycles + 34 > usize::MAX {
        usize::MAX
    } else {
        (cycles + 34) as usize
    }
}

/// A run after the instruction at its program counter.
pub open spec fn after_execution<H>(
    options: RunOptions,
    index: int,
    state: RunView,
    executed: Executed<H>,
) -> RunView {
    let before = state.registers;
    let site = before.pc;
    let start = cleared(state.memory);
    let retain = retains(options, state.steps.len());
    let outcome = executed.outcome;
    let (text, vector) = (executed.text, outcome.vector);
    let own = shown(start, outcome.memory);
    let traced = RunView {
        registers: outcome.registers,
        memory: outcome.memory,
        devices: outcome.devices,
        steps: if retain {
            state.steps.push(
                step_of(index, before, outcome.registers, own, text, outcome.cycles, vector),
            )
        } else {
            state.steps
        },
        steps_traced: if options.record_steps {
            state.steps_traced + 1
        } else {
            state.steps_traced
        },
        steps_executed: (index + 1) as nat,
        stop: None,
    };
    match vector {
        None => settled(options, traced, site, outcome.stopped),
        Some(number) => {
            let (action, answered) = executed.trapped;
            match action {
                Some(HostAction::Stop(reason)) => traced.at(answered).stopped(reason),
                Some(HostAction::ReturnFromCall) => returned(traced.at(answered), site),
                Some(HostAction::Continue) => traced.at(answered),
                None => if dispatches(options, number) {
                    let (refusal, dispatched) = executed.dispatched;
                    let after = RunView {
                        steps: if retain {
                            state.steps.push(
                                step_of(
                                    index,
                                    before,
                                    dispatched.registers,
                                    own.then_shown(shown(answered.memory, dispatched.memory)),
                                    text,
                                    with_dispatch(outcome.cycles, refusal),
                                    vector,
                                ),
                            )
                        } else {
                            state.steps
                        },
                        ..traced.at(dispatched)
                    };
                    match refusal {
                        Some(reason) => after.stopped(reason),
                        None => settled(options, after, site, outcome.stopped),
                    }
                } else {
                    traced.at(answered).stopped(
                        trap_reason(number, site, outcome.memory.last_fault),
                    )
                },
            }
        },
    }
}

/// A run after one iteration.
pub open spec fn advanced<H>(
    options: RunOptions,
    index: int,
    state: RunView,
    round: Round<H>,
) -> RunView {
    let ticked = state.at(round.ticked);
    match round.called {
        None => after_execution(options, index, ticked, round.executed),
        Some((action, answered)) => {
            let called = state.at(answered);
            match action {
                HostAction::ReturnFromCall => returned(
                    RunView { steps_executed: (index + 1) as nat, ..called },
                    round.ticked.registers.pc,
                ),
                HostAction::Stop(reason) => called.stopped(reason),
                HostAction::Continue => after_execution(options, index, called, round.executed),
            }
        },
    }
}

/// What an instruction leaves that cannot be fetched: an access error, before anything
/// else happened.
pub open spec fn unfetched_outcome(point: Point) -> Outcome {
    Outcome {
        registers: point.registers,
        memory: point.memory,
        devices: point.devices,
        cycles: 0,
        vector: Some(2),
        stopped: false,
    }
}

/// Whether executing one instruction may print `text`, leave `outcome` and turn one bus
/// into another: its words are read in turn, and where none of its extension words is
/// refused the core executes them.
#[verifier::opaque]
pub open spec fn performs<B: HostMemory>(
    retain: bool,
    registers: RegistersView,
    before: B,
    text: Seq<char>,
    outcome: Outcome,
    after: B,
) -> bool {
    exists|words: Seq<Option<u16>>, states: Seq<B>|
        {
            &&& #[trigger] fetches(registers.pc, words, states)
            &&& states[0] == before
            &&& if is_cut_short(registers.pc, words) {
                &&& after == states.last()
                &&& text == Seq::<char>::empty()
                &&& outcome == unfetched_outcome(point_at(registers, after))
            } else {
                &&& is_fetch(registers.pc, words)
                &&& text == text_of(retain, registers.pc, words)
                &&& executes(retain, registers, words, states.last(), outcome, after)
            }
        }
}

/// What executing one instruction prints and leaves over plain memory.
pub open spec fn performed(retain: bool, point: Point) -> (Seq<char>, Outcome) {
    let registers = point.registers;
    let (fetched, after) = fetched_at(registers.pc, point.memory);
    match fetched {
        None => (Seq::empty(), unfetched_outcome(Point { memory: after, ..point })),
        Some(words) => (
            text_of(retain, registers.pc, words),
            executed(retain, registers, words, after, point.devices),
        ),
    }
}

/// Whether a bus stands at a point.
pub open spec fn stands_at<B: HostMemory>(bus: B, point: Point) -> bool {
    &&& bus.ready()
    &&& bus.contents() == point.memory
    &&& bus.devices() == point.devices
}

/// What holds of the answers to one instruction over some bus: the core has the answers
/// of the memory and the devices that it reaches, and the policy decides what follows.
/// A passive policy decides nothing.
pub open spec fn is_execution<B: Bus, H: Host>(
    options: RunOptions,
    state: RunView,
    host: H,
    executed: Executed<H>,
    passive: bool,
) -> bool {
    let start = Point { memory: cleared(state.memory), ..state.point() };
    let outcome = executed.outcome;
    let site = state.registers.pc;
    &&& extends(start.memory, outcome.memory)
    &&& outcome.devices.served == start.devices.served
    &&& exists|begun: B, ended: B| #[trigger]
        performs(
            retains(options, state.steps.len()),
            state.registers,
            begun,
            executed.text,
            outcome,
            ended,
        ) && stands_at(begun, start) && stands_at(ended, outcome.point())
    &&& extends(outcome.memory, executed.trapped.1.memory)
    &&& executed.trapped.1.devices.served == start.devices.served
    &&& passive ==> executed.trapped == (None::<HostAction>, outcome.point())
    &&& match outcome.vector {
        Some(vector) => {
            let (action, answered) = executed.trapped;
            &&& host.answers_trap(vector, site, outcome.point(), action, &executed.host, answered)
            &&& action is None && dispatches(options, vector) ==> executed.dispatched
                == guest_trapped(unhooked(outcome.memory, answered), vector, site)
        },
        None => executed.host == host,
    }
}

/// What holds of the answers to one iteration over some bus.
pub open spec fn is_round<B: Bus, H: Host>(
    options: RunOptions,
    state: RunView,
    round: Round<H>,
    passive: bool,
) -> bool {
    let pc = round.ticked.registers.pc;
    &&& extends(state.memory, round.ticked.memory)
    &&& round.ticked.devices.served == state.devices.served
    &&& round.asked.ticks(state.point(), &round.ready, round.ticked)
    &&& round.called is Some == round.ready.claimed(pc)
    &&& match round.called {
        None => round.heard == round.ready,
        Some((action, answered)) => {
            &&& extends(round.ticked.memory, answered.memory)
            &&& answered.devices.served == state.devices.served
            &&& round.ready.answers_call(pc, round.ticked, action, &round.heard, answered)
        },
    }
    &&& passive ==> round.ticked == state.point() && round.called is None && round.left().passive()
    &&& match round.entry() {
        Some(point) => is_execution::<B, H>(
            options,
            state.at(point),
            round.heard,
            round.executed,
            passive,
        ),
        None => true,
    }
}

/// The answers to one instruction over plain memory, under a passive policy.
pub open spec fn plain_execution(options: RunOptions, state: RunView) -> Executed<NoHost> {
    let (text, outcome) = performed(
        retains(options, state.steps.len()),
        Point { memory: cleared(state.memory), ..state.point() },
    );
    Executed {
        text,
        outcome,
        trapped: (None, outcome.point()),
        host: NoHost,
        dispatched: match outcome.vector {
            Some(vector) => guest_trapped(outcome.point(), vector, state.registers.pc),
            None => (None, outcome.point()),
        },
    }
}

/// The answers to one iteration over plain memory, under a passive policy.
pub open spec fn plain_round(options: RunOptions, state: RunView) -> Round<NoHost> {
    Round {
        asked: NoHost,
        ticked: state.point(),
        ready: NoHost,
        called: None,
        heard: NoHost,
        executed: plain_execution(options, state),
    }
}

/// The machine that a run drives.
struct Machine {
    registers: RegisterFile,
    steps: Vec<Step>,
    steps_traced: usize,
    steps_executed: usize,
}

impl Machine {
    spec fn run_view<B: HostMemory>(self, bus: B, stop: Option<StopReason>) -> RunView {
        RunView {
            registers: self.registers@,
            memory: bus.contents(),
            devices: bus.devices(),
            steps: step_views(self.steps@),
            steps_traced: self.steps_traced as nat,
            steps_executed: self.steps_executed as nat,
            stop,
        }
    }
}

/// Add what stands in `items` from `start` on.
fn append<T: Copy>(list: &mut Vec<T>, items: &[T], start: usize)
    requires
        start <= items@.len(),
    ensures
        final(list)@ == old(list)@ + items@.skip(start as int),
{
    let mut i: usize = start;
    while i < items.len()
        invariant
            start <= i <= items@.len(),
            list@ == old(list)@ + items@.subrange(start as int, i as int),
        decreases items@.len() - i,
    {
        list.push(items[i]);
        i += 1;
    }
    assert(list@ =~= old(list)@ + items@.skip(start as int));
}

/// Where the telemetry stood when an instruction started.
struct Bookmark {
    writes: usize,
    writes_total: u64,
    accesses: usize,
}

impl Bookmark {
    spec fn marks(self, memory: MemoryView) -> bool {
        &&& self.writes == memory.writes.len()
        &&& self.writes_total == memory.writes_total
        &&& self.accesses == memory.accesses.len()
    }
}

/// The trace row of an instruction.
fn record_step<B: Bus>(
    bus: &B,
    bookmark: &Bookmark,
    Ghost(start): Ghost<MemoryView>,
    before: &RegisterFile,
    after: &RegisterFile,
    text: String,
    index: usize,
    cycles: usize,
    trap: Option<u8>,
) -> (r: Step)
    requires
        bookmark.marks(start),
        extends(start, bus.contents()),
    ensures
        r@ == step_of(
            index as int,
            before@,
            after@,
            shown(start, bus.contents()),
            text@,
            cycles,
            trap,
        ),
{
    let mut writes: Vec<MemoryWrite> = Vec::new();
    append(&mut writes, bus.writes(), bookmark.writes);
    let grown: u64 = bus.write_total() - bookmark.writes_total;
    let writes_truncated: bool = grown > writes.len() as u64;
    let mut watch_events: Vec<MemoryAccessEvent> = Vec::new();
    append(&mut watch_events, bus.accesses(), bookmark.accesses);
    proof {
        let seen = shown(start, bus.contents());
        assert(writes@ =~= seen.writes);
        assert(watch_events@ =~= seen.events);
    }
    Step {
        index,
        address: before.pc,
        text,
        cycles,
        register_deltas: register_deltas(before, after),
        writes,
        writes_truncated,
        watch_events,
        trap,
    }
}

/// The trace row of a trap once it was dispatched: what dispatching it did is added to
/// what the instruction did, and what the policy's hook did between them is not.
fn extend_step<B: Bus>(
    bus: &B,
    bookmark: &Bookmark,
    Ghost(start): Ghost<MemoryView>,
    step: Step,
    made: u64,
    before: &RegisterFile,
    after: &RegisterFile,
    cycles: usize,
) -> (r: Step)
    requires
        bookmark.marks(start),
        extends(start, bus.contents()),
        made + (bus.contents().writes_total - start.writes_total) <= u64::MAX,
    ensures
        r@ == step_of(
            step.index as int,
            before@,
            after@,
            (Shown {
                writes: step.writes@,
                made: made as int,
                events: step.watch_events@,
            }).then_shown(shown(start, bus.contents())),
            step.text@,
            cycles,
            step.trap,
        ),
{
    let mut writes: Vec<MemoryWrite> = step.writes;
    append(&mut writes, bus.writes(), bookmark.writes);
    let made: u64 = made + (bus.write_total() - bookmark.writes_total);
    let writes_truncated: bool = made > writes.len() as u64;
    let mut watch_events: Vec<MemoryAccessEvent> = step.watch_events;
    append(&mut watch_events, bus.accesses(), bookmark.accesses);
    Step {
        index: step.index,
        address: before.pc,
        text: step.text,
        cycles,
        register_deltas: register_deltas(before, after),
        writes,
        writes_truncated,
        watch_events,
        trap: step.trap,
    }
}

/// Execute the instruction at the program counter, printing it if it is retained.
fn perform<B: Bus>(bus: &mut B, registers: &RegisterFile, retain: bool) -> (r: (String, Stepped))
    requires
        old(bus).ready(),
    ensures
        kept(*old(bus), *final(bus)),
        performs(
            retain,
            registers@,
            *old(bus),
            r.0@,
            r.1.outcome(*final(bus)),
            *final(bus),
        ),
{
    proof {
        reveal(performs);
    }
    let text: String = String::new();
    assert(text@ =~= Seq::<char>::empty());
    let fetched: Vec<Option<u16>> = match fetch(bus, registers.pc) {
        Some(fetched) => fetched,
        None => {
            let refused = Stepped {
                registers: *registers,
                cycles: 0,
                vector: Some(2),
                stopped: false,
            };
            proof {
                let (words, states) = choose|words: Seq<Option<u16>>, states: Seq<B>|
                    {
                        &&& #[trigger] fetches(registers.pc, words, states)
                        &&& states[0] == *old(bus)
                        &&& states.last() == *bus
                        &&& is_cut_short(registers.pc, words)
                    };
                assert(fetches(registers@.pc, words, states));
                assert(refused.outcome(*bus) =~= unfetched_outcome(point_at(registers@, *bus)));
            }
            return (text, refused);
        },
    };
    let ghost between = *bus;
    let result = if retain {
        disassemble_and_interpret(registers, fetched, bus)
    } else {
        (text, interpret(registers, fetched, bus))
    };
    proof {
        lemma_kept_transitively(*old(bus), between, *bus);
    }
    result
}

/// Whether a run ends after an instruction.
fn settle<B: Bus>(bus: &B, options: &RunOptions, site: u32, stopped: bool) -> (r: Option<StopReason>)
    ensures
        forall|state: RunView|
            state.memory == bus.contents() && state.stop is None ==> #[trigger] settled(
                *options,
                state,
                site,
                stopped,
            ) == (RunView { stop: r, ..state }),
{
    if stopped {
        return Some(StopReason::Stopped);
    }
    if options.stop_on_watch {
        if let Some(event) = bus.watch_latch() {
            return Some(StopReason::Watch { event, site });
        }
    }
    None
}

proof fn lemma_step_views_push(steps: Seq<Step>, step: Step)
    ensures
        step_views(steps.push(step)) == step_views(steps).push(step@),
{
    assert(step_views(steps.push(step)) =~= step_views(steps).push(step@));
}

/// Execute the instruction at the program counter and service what it raised.
fn execute_one<B: Bus, H: Host>(
    bus: &mut B,
    host: &mut H,
    options: &RunOptions,
    machine: &mut Machine,
    index: usize,
) -> (r: (Option<StopReason>, Ghost<Executed<H>>))
    requires
        old(bus).ready(),
        index < usize::MAX,
        old(machine).steps_traced <= index,
    ensures
        final(bus).ready(),
        final(bus).devices().served == old(bus).devices().served,
        final(machine).steps_traced <= index + 1,
        old(host).passive() ==> final(host).passive(),
        final(machine).run_view(*final(bus), r.0) == after_execution(
            *options,
            index as int,
            old(machine).run_view(*old(bus), None),
            r.1@,
        ),
        is_execution::<B, H>(
            *options,
            old(machine).run_view(*old(bus), None),
            *old(host),
            r.1@,
            old(host).passive(),
        ),
        *final(host) == r.1@.host,
{
    let ghost state = machine.run_view(*bus, None);
    let ghost old_steps = machine.steps@;
    let site: u32 = machine.registers.pc;
    bus.clear_fault();
    bus.clear_watch_latch();
    let ghost start = bus.contents();
    assert(start == cleared(state.memory));
    if options.record_steps {
        machine.steps_traced = machine.steps_traced + 1;
    }
    let retain: bool = options.record_steps && match options.retained_steps {
        Some(cap) => machine.steps.len() < cap,
        None => true,
    };
    assert(retain == retains(*options, state.steps.len()));
    let before: RegisterFile = machine.registers;
    let bookmark = Bookmark {
        writes: bus.write_count(),
        writes_total: bus.write_total(),
        accesses: bus.access_count(),
    };
    let ghost begun = *bus;
    let (text, stepped) = perform(bus, &before, retain);
    let ghost text_view = text@;
    let ghost outcome = stepped.outcome(*bus);
    let ghost point = outcome.point();
    proof {
        let origin = Point { memory: start, ..state.point() };
        assert(stands_at(begun, origin) && stands_at(*bus, point));
        assert(performs(retain, state.registers, begun, text_view, outcome, *bus));
    }
    let cycles: usize = stepped.cycles;
    let made: u64 = bus.write_total() - bookmark.writes_total;
    machine.registers = stepped.registers;
    machine.steps_executed = index + 1;
    if retain {
        let step = record_step(
            bus,
            &bookmark,
            Ghost(start),
            &before,
            &machine.registers,
            text,
            index,
            cycles,
            stepped.vector,
        );
        proof {
            lemma_step_views_push(machine.steps@, step);
        }
        machine.steps.push(step);
    }
    proof {
        extends_reflexively(bus.contents());
    }
    let vector: u8 = match stepped.vector {
        Some(vector) => vector,
        None => {
            let stop = settle(bus, options, site, stepped.stopped);
            let ghost executed = Executed {
                text: text_view,
                outcome,
                trapped: (None, point),
                host: *host,
                dispatched: (None, point),
            };
            return (stop, Ghost(executed));
        },
    };
    let standard: StopReason = trap_stop(vector, site, bus.last_fault());
    let seen: Option<MemoryAccessEvent> = bus.watch_latch();
    let ghost raised = *bus;
    let mut cpu = CpuContext { registers: machine.registers };
    let action = host.on_trap(vector, site, &mut cpu, bus);
    machine.registers = cpu.registers;
    let ghost answered = point_at(machine.registers@, *bus);
    let ghost executed = Executed {
        text: text_view,
        outcome,
        trapped: (action, answered),
        host: *host,
        dispatched: (None, answered),
    };
    match action {
        Some(HostAction::Stop(reason)) => (Some(reason), Ghost(executed)),
        Some(HostAction::Continue) => (None, Ghost(executed)),
        Some(HostAction::ReturnFromCall) => {
            match pop_return(&mut machine.registers, bus) {
                Ok(()) => (None, Ghost(executed)),
                Err(fault) => (Some(StopReason::Fault { fault, site }), Ghost(executed)),
            }
        },
        None => {
            if !options.guest_traps || vector < 32 || vector > 47 {
                return (Some(standard), Ghost(executed));
            }
            if seen.is_none() {
                bus.clear_watch_latch();
            }
            let ghost unhooked_point = unhooked(outcome.memory, answered);
            assert(bus.contents() == unhooked_point.memory);
            let hooked = Bookmark {
                writes: bus.write_count(),
                writes_total: bus.write_total(),
                accesses: bus.access_count(),
            };
            let ghost before_dispatch = bus.contents();
            let dispatched = dispatch_guest_trap(&mut machine.registers, bus, vector, site);
            let ghost landed = point_at(machine.registers@, *bus);
            let ghost executed = Executed {
                text: text_view,
                outcome,
                trapped: (action, answered),
                host: *host,
                dispatched: (dispatched.err(), landed),
            };
            if retain {
                let last: Option<Step> = machine.steps.pop();
                if let Some(step) = last {
                    let cycles: usize = match dispatched {
                        Ok(()) => match cycles.checked_add(trap_cycles(vector)) {
                            Some(total) => total,
                            None => usize::MAX,
                        },
                        Err(_) => cycles,
                    };
                    let step = extend_step(
                        bus,
                        &hooked,
                        Ghost(before_dispatch),
                        step,
                        made,
                        &before,
                        &machine.registers,
                        cycles,
                    );
                    proof {
                        assert(machine.steps@ =~= old_steps);
                        lemma_step_views_push(machine.steps@, step);
                    }
                    machine.steps.push(step);
                }
            }
            match dispatched {
                Ok(()) => {
                    let stop = settle(bus, options, site, stepped.stopped);
                    (stop, Ghost(executed))
                },
                Err(reason) => (Some(reason), Ghost(executed)),
            }
        },
    }
}

/// One iteration of a run: the policy's tick, the call that it claims, or the
/// instruction at the program counter.
fn iterate<B: Bus, H: Host>(
    bus: &mut B,
    host: &mut H,
    options: &RunOptions,
    machine: &mut Machine,
    index: usize,
) -> (r: (Option<StopReason>, Ghost<Round<H>>))
    requires
        old(bus).ready(),
        index < usize::MAX,
        old(machine).steps_traced <= index,
    ensures
        final(bus).ready(),
        final(bus).devices().served == old(bus).devices().served,
        final(machine).steps_traced <= index + 1,
        old(host).passive() ==> final(host).passive(),
        final(machine).run_view(*final(bus), r.0) == advanced(
            *options,
            index as int,
            old(machine).run_view(*old(bus), None),
            r.1@,
        ),
        is_round::<B, H>(
            *options,
            old(machine).run_view(*old(bus), None),
            r.1@,
            old(host).passive(),
        ),
        r.1@.asked == *old(host),
        *final(host) == r.1@.left(),
{
    let ghost state = machine.run_view(*bus, None);
    let mut cpu = CpuContext { registers: machine.registers };
    host.tick(&mut cpu, bus);
    let ghost ticked = point_at(cpu@, *bus);
    let ghost mut called: Option<(HostAction, Point)> = None;
    let pc: u32 = cpu.pc();
    let ghost quiet = Executed {
        text: Seq::empty(),
        outcome: unfetched_outcome(ticked),
        trapped: (None, ticked),
        host: *host,
        dispatched: (None, ticked),
    };
    let ghost ready = *host;
    if host.claims(pc) {
        let action = host.on_call(pc, &mut cpu, bus);
        machine.registers = cpu.registers;
        proof {
            called = Some((action, point_at(cpu@, *bus)));
        }
        let ghost round = Round {
            asked: *old(host),
            ticked,
            ready,
            called,
            heard: *host,
            executed: quiet,
        };
        match action {
            HostAction::ReturnFromCall => {
                machine.steps_executed = index + 1;
                return match pop_return(&mut machine.registers, bus) {
                    Ok(()) => (None, Ghost(round)),
                    Err(fault) => (Some(StopReason::Fault { fault, site: pc }), Ghost(round)),
                };
            },
            HostAction::Stop(reason) => {
                return (Some(reason), Ghost(round));
            },
            HostAction::Continue => {},
        }
    }
    machine.registers = cpu.registers;
    assert(machine.run_view(*bus, None) == state.at(
        point_at(cpu@, *bus),
    ));
    let ghost heard = *host;
    let (stop, executed) = execute_one(bus, host, options, machine, index);
    let ghost round = Round {
        asked: *old(host),
        ticked,
        ready,
        called,
        heard,
        executed: executed@,
    };
    (stop, Ghost(round))
}

/// The registers in which a run starts at `entry`.
pub open spec fn starting_registers(options: RunOptions, entry: u32) -> RegistersView {
    match options.resume {
        Some(file) => RegistersView { pc: entry, sr: file.sr & STATUS_BITS, ..file@ },
        None => RegistersView {
            d: options.data@,
            a: options.address@,
            usp: 0,
            ssp: seeded_stack(options),
            pc: entry,
            sr: STARTING_STATUS,
        },
    }
}

/// Where the return marker is pushed.
pub open spec fn seeded_stack(options: RunOptions) -> u32 {
    ((options.stack_pointer - 4) % 0x1_0000_0000) as u32
}

/// The memory in which a run starts: the return marker is on the stack, if the stack is
/// mapped and the run enters a routine, and the watchpoints are set.
pub open spec fn starting_memory(options: RunOptions, memory: MemoryView) -> MemoryView {
    let sp = seeded_stack(options);
    let seeded = if options.resume is None && covers(memory.bytes, sp, 4) {
        memory.seeded(sp, encoded(options.return_marker, 4))
    } else {
        memory
    };
    seeded.watching(options.watchpoints@, options.retained_watch_events)
}

/// A run before its first instruction.
pub open spec fn started(
    options: RunOptions,
    entry: u32,
    memory: MemoryView,
    devices: Devices,
) -> RunView {
    RunView {
        registers: starting_registers(options, entry),
        memory: starting_memory(options, memory),
        devices,
        steps: Seq::empty(),
        steps_traced: 0,
        steps_executed: 0,
        stop: None,
    }
}

/// Whether a run executes one more instruction.
pub open spec fn goes_on(options: RunOptions, state: RunView, index: int) -> bool {
    &&& state.stop is None
    &&& state.registers.pc != options.return_marker
    &&& index < options.max_steps
}

/// A run after some iterations.
pub open spec fn after_rounds<H>(
    options: RunOptions,
    start: RunView,
    rounds: Seq<Round<H>>,
) -> RunView
    decreases rounds.len(),
{
    if rounds.len() == 0 {
        start
    } else {
        advanced(
            options,
            rounds.len() - 1,
            after_rounds(options, start, rounds.drop_last()),
            rounds.last(),
        )
    }
}

/// Whether iterations follow each other from `start` under a policy: each is made only
/// while the run goes on, answers as an iteration can, and finds the policy as the one
/// before left it.
pub open spec fn follow<B: Bus, H: Host>(
    options: RunOptions,
    start: RunView,
    host: H,
    rounds: Seq<Round<H>>,
) -> bool
    decreases rounds.len(),
{
    rounds.len() > 0 ==> {
        let prior = rounds.drop_last();
        let state = after_rounds(options, start, prior);
        &&& follow::<B, H>(options, start, host, prior)
        &&& goes_on(options, state, prior.len() as int)
        &&& rounds.last().asked == host_after(host, prior)
        &&& is_round::<B, H>(options, state, rounds.last(), host.passive())
    }
}

/// What a run reports when it ends in `state`. A routine whose final `RTS` is the last
/// instruction the budget allows has returned.
pub open spec fn concluded(options: RunOptions, state: RunView) -> ExecutionView {
    let reason = match state.stop {
        Some(reason) => reason,
        None => StopReason::StepLimit,
    };
    ExecutionView {
        steps: state.steps,
        steps_traced: state.steps_traced,
        steps_executed: state.steps_executed,
        watch_events_total: state.memory.watch_events_total,
        watch_events_truncated: state.memory.watch_events_total > state.memory.accesses.len(),
        stop: if reason == StopReason::StepLimit && state.registers.pc == options.return_marker {
            StopReason::Returned
        } else {
            reason
        },
        registers: state.registers,
    }
}

/// Whether these iterations make up a whole run, which reports `execution` and leaves
/// `memory` and `devices`.
pub open spec fn make_up<B: Bus, H: Host>(
    options: RunOptions,
    start: RunView,
    host: H,
    rounds: Seq<Round<H>>,
    execution: ExecutionView,
    memory: MemoryView,
    devices: Devices,
) -> bool {
    let state = after_rounds(options, start, rounds);
    &&& follow::<B, H>(options, start, host, rounds)
    &&& !goes_on(options, state, rounds.len() as int)
    &&& execution == concluded(options, state)
    &&& memory == state.memory
    &&& devices == state.devices
}

/// Where a run from `state` ends over plain memory, under a passive policy.
pub open spec fn plain_end(options: RunOptions, state: RunView, index: int) -> RunView
    decreases options.max_steps - index,
{
    if goes_on(options, state, index) {
        plain_end(
            options,
            advanced(options, index, state, plain_round(options, state)),
            index + 1,
        )
    } else {
        state
    }
}

/// What a run over plain memory reports and leaves, under a passive policy.
pub open spec fn plain_run(
    options: RunOptions,
    entry: u32,
    memory: MemoryView,
    devices: Devices,
) -> (ExecutionView, MemoryView) {
    let end = plain_end(options, started(options, entry, memory, devices), 0);
    (concluded(options, end), end.memory)
}

/// Over plain memory and under a passive policy nothing is left open of an iteration.
pub proof fn plain_rounds_are_determined<B: Bus, H: Host>(
    options: RunOptions,
    index: int,
    state: RunView,
    round: Round<H>,
)
    requires
        is_round::<B, H>(options, state, round, true),
        state.devices.serve_nothing(),
    ensures
        advanced(options, index, state, round) == advanced(
            options,
            index,
            state,
            plain_round(options, state),
        ),
{
    assert(state.at(state.point()) == state);
    lemma_plain_performance::<B, H>(options, state, round.heard, round.executed, true);
}

/// Over plain memory nothing is left open of what an instruction prints and leaves.
proof fn lemma_plain_performance<B: Bus, H: Host>(
    options: RunOptions,
    state: RunView,
    host: H,
    executed: Executed<H>,
    passive: bool,
)
    requires
        is_execution::<B, H>(options, state, host, executed, passive),
        state.devices.serve_nothing(),
    ensures
        (executed.text, executed.outcome) == performed(
            retains(options, state.steps.len()),
            Point { memory: cleared(state.memory), ..state.point() },
        ),
{
    let retain = retains(options, state.steps.len());
    let start = Point { memory: cleared(state.memory), ..state.point() };
    let outcome = executed.outcome;
    reveal(performs);
    let (begun, ended) = choose|begun: B, ended: B| #[trigger]
        performs(retain, state.registers, begun, executed.text, outcome, ended) && stands_at(
            begun,
            start,
        ) && stands_at(ended, outcome.point());
    let (words, states) = choose|words: Seq<Option<u16>>, states: Seq<B>|
        {
            &&& #[trigger] fetches(state.registers.pc, words, states)
            &&& states[0] == begun
            &&& if is_cut_short(state.registers.pc, words) {
                &&& ended == states.last()
                &&& executed.text == Seq::<char>::empty()
                &&& outcome == unfetched_outcome(point_at(state.registers, ended))
            } else {
                &&& is_fetch(state.registers.pc, words)
                &&& executed.text == text_of(retain, state.registers.pc, words)
                &&& executes(retain, state.registers, words, states.last(), outcome, ended)
            }
        };
    plain_fetches_are_determined(state.registers.pc, words, states);
    if !is_cut_short(state.registers.pc, words) {
        plain_executions_are_determined(
            retain,
            state.registers,
            words,
            states.last(),
            outcome,
            ended,
        );
    }
}

/// Seed the machine and the stack for a run.
fn start_machine<B: Bus>(bus: &mut B, entry: u32, options: &RunOptions) -> (r: Machine)
    requires
        old(bus).ready(),
    ensures
        final(bus).ready(),
        final(bus).devices().served == old(bus).devices().served,
        r.run_view(*final(bus), None) == started(
            *options,
            entry,
            old(bus).contents(),
            old(bus).devices(),
        ),
        r.steps_traced == 0,
{
    let registers: RegisterFile = match options.resume {
        Some(file) => RegisterFile { pc: entry, sr: file.sr & STATUS_BITS, ..file },
        None => {
            let sp: u32 = options.stack_pointer.wrapping_sub(4);
            bus.seed_long(sp, options.return_marker);
            RegisterFile {
                d: options.data,
                a: options.address,
                usp: 0,
                ssp: sp,
                pc: entry,
                sr: STARTING_STATUS,
            }
        },
    };
    bus.set_watch(options.watchpoints.as_slice(), options.retained_watch_events);
    let machine = Machine { registers, steps: Vec::new(), steps_traced: 0, steps_executed: 0 };
    assert(step_views(machine.steps@) =~= Seq::<StepView>::empty());
    machine
}

/// Execute over any [`Bus`] under the control of a [`Host`]. [`run`] is this with
/// a [`NoHost`]; a richer host emulates OS calls, services traps, and advances
/// device state, letting code that touches the OS or hardware run offline.
///
/// An instruction of which an extension word is refused does not execute: that is an
/// access error.
pub fn run_with_host<B: Bus, H: Host>(
    bus: &mut B,
    entry: u32,
    host: &mut H,
    options: &RunOptions,
) -> (r: Execution)
    requires
        old(bus).ready(),
    ensures
        final(bus).ready(),
        final(bus).devices().served == old(bus).devices().served,
        exists|rounds: Seq<Round<H>>|
            {
                &&& #[trigger] make_up::<B, H>(
                    *options,
                    started(*options, entry, old(bus).contents(), old(bus).devices()),
                    *old(host),
                    rounds,
                    r@,
                    final(bus).contents(),
                    final(bus).devices(),
                )
                &&& *final(host) == host_after(*old(host), rounds)
            },
        is_plain(*old(bus)) && old(host).passive() ==> (r@, final(bus).contents()) == plain_run(
            *options,
            entry,
            old(bus).contents(),
            old(bus).devices(),
        ),
{
    let ghost start = started(*options, entry, bus.contents(), bus.devices());
    let ghost passive = host.passive();
    let ghost plain = is_plain(*bus);
    let mut machine: Machine = start_machine(bus, entry, options);
    let mut stop: Option<StopReason> = None;
    let mut index: usize = 0;
    let ghost mut rounds: Seq<Round<H>> = Seq::empty();
    while stop.is_none() && index < options.max_steps && machine.registers.pc
        != options.return_marker
        invariant
            bus.ready(),
            bus.devices().served == old(bus).devices().served,
            plain == is_plain(*old(bus)),
            passive ==> host.passive(),
            index <= options.max_steps,
            machine.steps_traced <= index,
            rounds.len() == index,
            machine.run_view(*bus, stop) == after_rounds(*options, start, rounds),
            passive == old(host).passive(),
            follow::<B, H>(*options, start, *old(host), rounds),
            *host == host_after(*old(host), rounds),
            plain && passive ==> plain_end(*options, start, 0) == plain_end(
                *options,
                after_rounds(*options, start, rounds),
                index as int,
            ),
        decreases options.max_steps - index,
    {
        let ghost state = machine.run_view(*bus, None);
        let ghost was_passive = host.passive();
        let (reason, round) = iterate(bus, host, options, &mut machine, index);
        stop = reason;
        proof {
            assert(rounds.push(round@).drop_last() =~= rounds);
            lemma_round_weakens::<B, H>(*options, state, round@, was_passive, passive);
            if plain && passive {
                plain_rounds_are_determined::<B, H>(*options, index as int, state, round@);
            }
            rounds = rounds.push(round@);
        }
        index += 1;
    }
    let reason: StopReason = match stop {
        Some(reason) => reason,
        None => StopReason::StepLimit,
    };
    let stop: StopReason = if reason == StopReason::StepLimit && machine.registers.pc
        == options.return_marker {
        StopReason::Returned
    } else {
        reason
    };
    let execution = Execution {
        steps: machine.steps,
        steps_traced: machine.steps_traced,
        steps_executed: machine.steps_executed,
        watch_events_total: bus.watch_events_total(),
        watch_events_truncated: bus.watch_events_truncated(),
        stop,
        registers: machine.registers,
    };
    proof {
        assert(make_up::<B, H>(
            *options,
            start,
            *old(host),
            rounds,
            execution@,
            bus.contents(),
            bus.devices(),
        ));
    }
    execution
}

proof fn lemma_round_weakens<B: Bus, H: Host>(
    options: RunOptions,
    state: RunView,
    round: Round<H>,
    strong: bool,
    weak: bool,
)
    requires
        is_round::<B, H>(options, state, round, strong),
        weak ==> strong,
    ensures
        is_round::<B, H>(options, state, round, weak),
{
}

/// Execute from `entry` over `memory`, seeded and bounded by `options`.
///
/// The return marker is pushed onto the seeded stack, then registers and the
/// program counter are set and instructions are executed one at a time until the
/// routine returns to the marker, the step budget is exhausted, a `STOP` halts
/// the CPU, or an exception (including an unmapped memory access) traps. The
/// instruction that traps is included in the trace; nothing after it runs.
pub fn run(memory: &mut Memory, entry: u32, options: &RunOptions) -> (r: Execution)
    requires
        old(memory).wf(),
    ensures
        final(memory).wf(),
        (r@, final(memory)@) == plain_run(*options, entry, old(memory)@, no_devices()),
{
    let mut host = NoHost;
    run_with_host(memory, entry, &mut host, options)
}

/// A run that reports the step limit has not reached the return marker.
pub proof fn returns_are_recognised(options: RunOptions, state: RunView)
    ensures
        concluded(options, state).stop == StopReason::StepLimit ==> concluded(
            options,
            state,
        ).registers.pc != options.return_marker,
{
}

/// A run never executes more instructions than its budget, never keeps more trace rows
/// than it may, and counts every row that it does not keep. Without a trace it keeps and
/// counts none.
pub proof fn runs_are_bounded<B: Bus, H: Host>(
    options: RunOptions,
    start: RunView,
    host: H,
    rounds: Seq<Round<H>>,
)
    requires
        start.steps.len() == 0,
        start.steps_traced == 0,
        start.steps_executed == 0,
        follow::<B, H>(options, start, host, rounds),
    ensures
        ({
            let state = after_rounds(options, start, rounds);
            &&& rounds.len() <= options.max_steps
            &&& state.steps_executed <= rounds.len()
            &&& state.steps.len() <= state.steps_traced <= rounds.len()
            &&& (options.retained_steps matches Some(cap) ==> state.steps.len() <= cap)
            &&& !options.record_steps ==> state.steps.len() == 0 && state.steps_traced == 0
        }),
    decreases rounds.len(),
{
    if rounds.len() > 0 {
        runs_are_bounded::<B, H>(options, start, host, rounds.drop_last());
    }
}

/// What a run keeps of memory, whatever it executes: the map and what is watched. The
/// write log grows at its end, and nothing that was changed becomes unchanged.
pub open spec fn outlives(before: MemoryView, after: MemoryView) -> bool {
    &&& after.bytes.dom() == before.bytes.dom()
    &&& before.dirty.subset_of(after.dirty)
    &&& before.writes.is_prefix_of(after.writes)
    &&& before.writes_total <= after.writes_total
    &&& before.accesses.is_prefix_of(after.accesses)
    &&& after.watchpoints == before.watchpoints
}

/// Whether some writes are `m` that stand at `i` in a log, and then others that stand
/// at `j`.
pub open spec fn stand_in(
    writes: Seq<MemoryWrite>,
    log: Seq<MemoryWrite>,
    i: int,
    m: int,
    j: int,
) -> bool {
    &&& 0 <= i
    &&& 0 <= m <= writes.len()
    &&& i + m <= j <= log.len() - (writes.len() - m)
    &&& writes == log.subrange(i, i + m) + log.subrange(j, j + (writes.len() - m))
}

/// Whether some writes stand in a log in their order, in at most two stretches.
pub open spec fn is_excerpt(writes: Seq<MemoryWrite>, log: Seq<MemoryWrite>) -> bool {
    exists|i: int, m: int, j: int| #[trigger] stand_in(writes, log, i, m, j)
}

/// Whether the writes of each trace row stand in a log.
pub open spec fn shows_log(steps: Seq<StepView>, log: Seq<MemoryWrite>) -> bool {
    forall|k: int| 0 <= k < steps.len() ==> is_excerpt(#[trigger] steps[k].writes, log)
}

proof fn lemma_log_outlives(
    steps: Seq<StepView>,
    log: Seq<MemoryWrite>,
    longer: Seq<MemoryWrite>,
)
    requires
        shows_log(steps, log),
        log.is_prefix_of(longer),
    ensures
        shows_log(steps, longer),
{
    assert forall|k: int| 0 <= k < steps.len() implies is_excerpt(
        #[trigger] steps[k].writes,
        longer,
    ) by {
        let writes = steps[k].writes;
        let (i, m, j) = choose|i: int, m: int, j: int| #[trigger] stand_in(writes, log, i, m, j);
        let rest = writes.len() - m;
        assert(longer.subrange(i, i + m) =~= log.subrange(i, i + m));
        assert(longer.subrange(j, j + rest) =~= log.subrange(j, j + rest));
        assert(stand_in(writes, longer, i, m, j));
    }
}

/// The writes of two stretches of a log stand in it.
proof fn lemma_stretches_stand(
    start: Seq<MemoryWrite>,
    first: Seq<MemoryWrite>,
    second: Seq<MemoryWrite>,
    log: Seq<MemoryWrite>,
)
    requires
        start.is_prefix_of(first),
        first.is_prefix_of(second),
        second.is_prefix_of(log),
    ensures
        is_excerpt(first.skip(start.len() as int), log),
        is_excerpt(
            first.skip(start.len() as int) + log.skip(second.len() as int),
            log,
        ),
{
    let own = first.skip(start.len() as int);
    let rest = log.skip(second.len() as int);
    let i = start.len() as int;
    let m = own.len() as int;
    assert(own =~= log.subrange(i, i + m));
    assert(own =~= log.subrange(i, i + m) + log.subrange(i + m, i + m));
    assert(stand_in(own, log, i, m, i + m));
    let j = second.len() as int;
    assert(rest =~= log.subrange(j, j + ((own + rest).len() - m)));
    assert(stand_in(own + rest, log, i, m, j));
}

proof fn lemma_execution_shows_log<B: Bus, H: Host>(
    options: RunOptions,
    index: int,
    state: RunView,
    host: H,
    executed: Executed<H>,
    passive: bool,
)
    requires
        is_execution::<B, H>(options, state, host, executed, passive),
        shows_log(state.steps, state.memory.writes),
    ensures
        ({
            let after = after_execution(options, index, state, executed);
            &&& outlives(state.memory, after.memory)
            &&& shows_log(after.steps, after.memory.writes)
        }),
{
    let after = after_execution(options, index, state, executed);
    let start = cleared(state.memory).writes;
    let own = executed.outcome.memory.writes;
    let answered = executed.trapped.1.memory.writes;
    if let Some(vector) = executed.outcome.vector {
        let point = unhooked(executed.outcome.memory, executed.trapped.1);
        lemma_dispatching_extends(point, vector, state.registers.pc);
    }
    lemma_log_outlives(state.steps, state.memory.writes, after.memory.writes);
    lemma_stretches_stand(start, own, own, own);
    if own.is_prefix_of(after.memory.writes) {
        lemma_stretches_stand(start, own, own, after.memory.writes);
    }
    if own.is_prefix_of(answered) && answered.is_prefix_of(after.memory.writes) {
        lemma_stretches_stand(start, own, answered, after.memory.writes);
    }
}

/// Dispatching a guest trap keeps the map and only adds to the logs.
proof fn lemma_dispatching_extends(point: Point, vector: u8, site: u32)
    ensures
        extends(point.memory, guest_trapped(point, vector, site).1.memory),
        guest_trapped(point, vector, site).1.devices == point.devices,
{
    extends_reflexively(point.memory);
    if let Ok((handler, sp)) = trap_entry(point, vector, site) {
        let fetched = point.memory.after_read((vector * 4) as u32, 4).1;
        let half = fetched.after_write((sp + 2) as u32, 4, point.registers.pc).1;
        let whole = half.after_write(sp, 2, point.registers.sr as u32).1;
        reading_extends(point.memory, (vector * 4) as u32, 4);
        writing_extends(fetched, (sp + 2) as u32, 4, point.registers.pc);
        writing_extends(half, sp, 2, point.registers.sr as u32);
        extends_transitively(point.memory, fetched, half);
        extends_transitively(point.memory, half, whole);
    }
}

/// Whatever a run executes, the memory map stays as it was, the write log only grows,
/// and the writes of each trace row stand in the log: in one stretch, or in two where a
/// policy wrote between a trap and its dispatch.
pub proof fn traces_show_the_log<B: Bus, H: Host>(
    options: RunOptions,
    start: RunView,
    host: H,
    rounds: Seq<Round<H>>,
)
    requires
        start.steps.len() == 0,
        follow::<B, H>(options, start, host, rounds),
    ensures
        outlives(start.memory, after_rounds(options, start, rounds).memory),
        shows_log(
            after_rounds(options, start, rounds).steps,
            after_rounds(options, start, rounds).memory.writes,
        ),
    decreases rounds.len(),
{
    if rounds.len() > 0 {
        let prior = rounds.drop_last();
        let round = rounds.last();
        let index = prior.len() as int;
        let state = after_rounds(options, start, prior);
        traces_show_the_log::<B, H>(options, start, host, prior);
        let ticked = state.at(round.ticked);
        lemma_log_outlives(state.steps, state.memory.writes, ticked.memory.writes);
        match round.called {
            None => {
                lemma_execution_shows_log::<B, H>(
                    options,
                    index,
                    ticked,
                    round.heard,
                    round.executed,
                    host.passive(),
                );
            },
            Some((action, answered)) => {
                let called = state.at(answered);
                lemma_log_outlives(state.steps, ticked.memory.writes, called.memory.writes);
                if action == HostAction::Continue {
                    lemma_execution_shows_log::<B, H>(
                        options,
                        index,
                        called,
                        round.heard,
                        round.executed,
                        host.passive(),
                    );
                }
            },
        }
    }
}

/// Whether the run dispatches the trap that an instruction raised.
pub open spec fn is_dispatched<H>(options: RunOptions, executed: Executed<H>) -> bool {
    executed.trapped.0 is None && (executed.outcome.vector matches Some(vector) && dispatches(
        options,
        vector,
    ))
}

/// What an instruction that starts over `memory` does to it, with the dispatch of the
/// trap that it raised.
pub open spec fn own_traffic<H>(
    options: RunOptions,
    memory: MemoryView,
    executed: Executed<H>,
) -> Shown {
    let own = shown(cleared(memory), executed.outcome.memory);
    if is_dispatched(options, executed) {
        own.then_shown(shown(executed.trapped.1.memory, executed.dispatched.1.memory))
    } else {
        own
    }
}

/// Memory that a policy's hook reads or writes is not attributed to any trace row, and
/// cannot stop a run through a watchpoint: a row shows what its instruction did, with the
/// dispatch of the trap that it raised, and a matched access that stops the run is one of
/// those. Only a hook that itself asks for it stops the run otherwise.
pub proof fn hooks_stay_out_of_the_trace<B: Bus, H: Host>(
    options: RunOptions,
    index: int,
    state: RunView,
    round: Round<H>,
    passive: bool,
)
    requires
        is_round::<B, H>(options, state, round, passive),
        state.stop is None,
    ensures
        ({
            let after = advanced(options, index, state, round);
            let executed = round.executed;
            match round.entry() {
                None => after.steps == state.steps && (after.stop matches Some(
                    StopReason::Watch { .. },
                ) ==> round.called matches Some((HostAction::Stop(_), _))),
                Some(point) => {
                    let own = own_traffic(options, point.memory, executed);
                    &&& if retains(options, state.steps.len()) {
                        let row = after.steps.last();
                        &&& after.steps == state.steps.push(row)
                        &&& row.writes == own.writes
                        &&& row.watch_events == own.events
                        &&& row.writes_truncated == (own.made > own.writes.len())
                    } else {
                        after.steps == state.steps
                    }
                    &&& after.stop matches Some(StopReason::Watch { event, .. }) ==> {
                        ||| executed.trapped.0 matches Some(HostAction::Stop(_))
                        ||| executed.outcome.memory.watch_latch == Some(event)
                        ||| executed.outcome.memory.watch_latch is None && is_dispatched(
                            options,
                            executed,
                        ) && executed.dispatched.1.memory.watch_latch == Some(event)
                    }
                },
            }
        }),
{
}

/// Under a passive policy the trace has one row for each instruction, numbered by its
/// position, up to the cap, and every instruction that is executed is counted.
pub proof fn rows_are_numbered<B: Bus, H: Host>(
    options: RunOptions,
    start: RunView,
    host: H,
    rounds: Seq<Round<H>>,
)
    requires
        start.steps.len() == 0,
        start.steps_traced == 0,
        start.steps_executed == 0,
        host.passive(),
        follow::<B, H>(options, start, host, rounds),
    ensures
        ({
            let state = after_rounds(options, start, rounds);
            &&& state.steps_executed == rounds.len()
            &&& options.record_steps ==> {
                &&& state.steps_traced == rounds.len()
                &&& state.steps.len() == match options.retained_steps {
                    Some(cap) => if cap < rounds.len() {
                        cap as nat
                    } else {
                        rounds.len()
                    },
                    None => rounds.len(),
                }
                &&& forall|k: int| 0 <= k < state.steps.len() ==> (#[trigger] state.steps[k]).index == k
            }
        }),
    decreases rounds.len(),
{
    if rounds.len() > 0 {
        rows_are_numbered::<B, H>(options, start, host, rounds.drop_last());
    }
}

/// Whether two runs stand at the same point and are stopped alike.
pub open spec fn same_machine(left: RunView, right: RunView) -> bool {
    &&& left.registers == right.registers
    &&& left.memory == right.memory
    &&& left.devices == right.devices
    &&& left.stop == right.stop
}

/// Whether a run either prints every instruction or none.
pub open spec fn prints_all_or_none(options: RunOptions) -> bool {
    options.record_steps ==> options.retained_steps is None
}

/// Whether nothing is watched, and nothing was seen.
pub open spec fn is_unwatched(memory: MemoryView, retained: usize) -> bool {
    memory == memory.watching(Seq::empty(), retained)
}

proof fn lemma_execution_alike<B: Bus, H: Host>(
    left: RunOptions,
    right: RunOptions,
    i: int,
    j: int,
    one: RunView,
    two: RunView,
    host: H,
    executed: Executed<H>,
    passive: bool,
)
    requires
        left == (RunOptions { max_steps: left.max_steps, resume: left.resume, ..right }),
        prints_all_or_none(left),
        same_machine(one, two),
        one.stop is None,
    ensures
        same_machine(
            after_execution(left, i, one, executed),
            after_execution(right, j, two, executed),
        ),
        after_execution(left, i, one, executed).steps_executed == (i + 1) as nat,
        after_execution(right, j, two, executed).steps_executed == (j + 1) as nat,
        is_execution::<B, H>(left, one, host, executed, passive) == is_execution::<B, H>(
            right,
            two,
            host,
            executed,
            passive,
        ),
{
}

proof fn lemma_rounds_alike<B: Bus, H: Host>(
    left: RunOptions,
    right: RunOptions,
    i: int,
    j: int,
    one: RunView,
    two: RunView,
    round: Round<H>,
    passive: bool,
)
    requires
        left == (RunOptions { max_steps: left.max_steps, resume: left.resume, ..right }),
        prints_all_or_none(left),
        same_machine(one, two),
        one.stop is None,
        0 <= j <= i,
        one.steps_executed == two.steps_executed + (i - j),
    ensures
        same_machine(advanced(left, i, one, round), advanced(right, j, two, round)),
        advanced(left, i, one, round).steps_executed == advanced(
            right,
            j,
            two,
            round,
        ).steps_executed + (i - j),
        is_round::<B, H>(left, one, round, passive) == is_round::<B, H>(right, two, round, passive),
{
    lemma_execution_alike::<B, H>(
        left,
        right,
        i,
        j,
        one.at(round.ticked),
        two.at(round.ticked),
        round.heard,
        round.executed,
        passive,
    );
    if let Some((_, answered)) = round.called {
        lemma_execution_alike::<B, H>(
            left,
            right,
            i,
            j,
            one.at(answered),
            two.at(answered),
            round.heard,
            round.executed,
            passive,
        );
    }
}

proof fn lemma_larger_budget<B: Bus, H: Host>(
    small: RunOptions,
    large: RunOptions,
    start: RunView,
    host: H,
    rounds: Seq<Round<H>>,
)
    requires
        large == (RunOptions { max_steps: large.max_steps, ..small }),
        small.max_steps <= large.max_steps,
        follow::<B, H>(small, start, host, rounds),
        start.stop is None,
        start.steps_executed == 0,
    ensures
        follow::<B, H>(large, start, host, rounds),
        after_rounds(large, start, rounds) == after_rounds(small, start, rounds),
        after_rounds(small, start, rounds).stop is None ==> after_rounds(
            small,
            start,
            rounds,
        ).steps_executed == rounds.len(),
    decreases rounds.len(),
{
    if rounds.len() > 0 {
        lemma_larger_budget::<B, H>(small, large, start, host, rounds.drop_last());
    }
}

proof fn lemma_unwatched_execution<B: Bus, H: Host>(
    options: RunOptions,
    index: int,
    state: RunView,
    host: H,
    executed: Executed<H>,
    passive: bool,
    retained: usize,
)
    requires
        is_execution::<B, H>(options, state, host, executed, passive),
        is_unwatched(state.memory, retained),
    ensures
        is_unwatched(after_execution(options, index, state, executed).memory, retained),
{
    let start = cleared(state.memory);
    let outcome = executed.outcome;
    assert(start.watchpoints.len() == 0);
    assert(is_unwatched(outcome.memory, retained)) by {
        assert(outcome.memory =~= outcome.memory.watching(Seq::empty(), retained));
    }
    assert(is_unwatched(executed.trapped.1.memory, retained)) by {
        assert(executed.trapped.1.memory =~= executed.trapped.1.memory.watching(
            Seq::empty(),
            retained,
        ));
    }
    let dispatched = executed.dispatched.1.memory;
    if extends(executed.trapped.1.memory, dispatched) {
        assert(dispatched =~= dispatched.watching(Seq::empty(), retained));
    }
}

proof fn lemma_unwatched<B: Bus, H: Host>(
    options: RunOptions,
    start: RunView,
    host: H,
    rounds: Seq<Round<H>>,
    retained: usize,
)
    requires
        follow::<B, H>(options, start, host, rounds),
        is_unwatched(start.memory, retained),
    ensures
        is_unwatched(after_rounds(options, start, rounds).memory, retained),
    decreases rounds.len(),
{
    if rounds.len() > 0 {
        let prior = rounds.drop_last();
        let round = rounds.last();
        let state = after_rounds(options, start, prior);
        lemma_unwatched::<B, H>(options, start, host, prior, retained);
        assert(is_unwatched(round.ticked.memory, retained)) by {
            assert(round.ticked.memory =~= round.ticked.memory.watching(Seq::empty(), retained));
        }
        if let Some((_, answered)) = round.called {
            assert(answered.memory =~= answered.memory.watching(Seq::empty(), retained));
        }
        if let Some(point) = round.entry() {
            lemma_unwatched_execution::<B, H>(
                options,
                prior.len() as int,
                state.at(point),
                round.heard,
                round.executed,
                host.passive(),
                retained,
            );
        }
    }
}

proof fn lemma_passive_stays<B: Bus, H: Host>(
    options: RunOptions,
    start: RunView,
    host: H,
    rounds: Seq<Round<H>>,
)
    requires
        follow::<B, H>(options, start, host, rounds),
    ensures
        host.passive() ==> host_after(host, rounds).passive(),
{
}

/// A run that its budget stopped continues where it stood: if `earlier` are the
/// iterations of a run with a budget of `first`, and `later` those of a run that resumes
/// the register file which it left, then together they are iterations of one run whose
/// budget is the sum, and that run stands where the resumed one does. Nothing may be
/// watched, since a run forgets what an earlier one saw, and the trace must be whole or
/// none, since its cap counts the rows of each run by itself: a policy may look at what was
/// seen. Without one, neither matters
/// ([`runs_can_be_resumed`](crate::resume::runs_can_be_resumed)).
#[verifier::rlimit(40)]
pub proof fn resumed_runs_continue<B: Bus, H: Host>(
    options: RunOptions,
    entry: u32,
    memory: MemoryView,
    devices: Devices,
    host: H,
    first: usize,
    second: usize,
    file: RegisterFile,
    earlier: Seq<Round<H>>,
    later: Seq<Round<H>>,
)
    requires
        options.watchpoints@.len() == 0,
        prints_all_or_none(options),
        first + second <= usize::MAX,
        ({
            let budget = RunOptions { max_steps: first, ..options };
            let start = started(budget, entry, memory, devices);
            let middle = after_rounds(budget, start, earlier);
            let resumed = RunOptions { max_steps: second, resume: Some(file), ..options };
            let again = started(resumed, file.pc, middle.memory, middle.devices);
            &&& follow::<B, H>(budget, start, host, earlier)
            &&& earlier.len() == first
            &&& middle.stop is None
            &&& file@ == middle.registers
            &&& file.sr & STATUS_BITS == file.sr
            &&& follow::<B, H>(resumed, again, host_after(host, earlier), later)
        }),
    ensures
        ({
            let budget = RunOptions { max_steps: first, ..options };
            let middle = after_rounds(budget, started(budget, entry, memory, devices), earlier);
            let resumed = RunOptions { max_steps: second, resume: Some(file), ..options };
            let again = started(resumed, file.pc, middle.memory, middle.devices);
            let split = after_rounds(resumed, again, later);
            let total = RunOptions { max_steps: (first + second) as usize, ..options };
            let start = started(total, entry, memory, devices);
            let whole = after_rounds(total, start, earlier + later);
            &&& follow::<B, H>(total, start, host, earlier + later)
            &&& same_machine(whole, split)
            &&& whole.steps_executed == first + split.steps_executed
            &&& goes_on(total, whole, first + later.len()) == goes_on(
                resumed,
                split,
                later.len() as int,
            )
        }),
    decreases later.len(),
{
    let budget = RunOptions { max_steps: first, ..options };
    let start = started(budget, entry, memory, devices);
    let middle = after_rounds(budget, start, earlier);
    let resumed = RunOptions { max_steps: second, resume: Some(file), ..options };
    let again = started(resumed, file.pc, middle.memory, middle.devices);
    let total = RunOptions { max_steps: (first + second) as usize, ..options };
    let retained = options.retained_watch_events;
    assert(options.watchpoints@ =~= Seq::empty());
    assert(started(total, entry, memory, devices) == start);
    lemma_larger_budget::<B, H>(budget, total, start, host, earlier);
    if later.len() == 0 {
        assert(earlier + later =~= earlier);
        lemma_unwatched::<B, H>(budget, start, host, earlier, retained);
        assert(again.memory == middle.memory);
        assert(again.registers =~= middle.registers);
    } else {
        let prior = later.drop_last();
        let round = later.last();
        resumed_runs_continue::<B, H>(
            options,
            entry,
            memory,
            devices,
            host,
            first,
            second,
            file,
            earlier,
            prior,
        );
        assert((earlier + later).drop_last() =~= earlier + prior);
        assert((earlier + later).last() == round);
        let whole = after_rounds(total, start, earlier + prior);
        let split = after_rounds(resumed, again, prior);
        lemma_passive_stays::<B, H>(budget, start, host, earlier);
        lemma_rounds_alike::<B, H>(
            total,
            resumed,
            first + prior.len(),
            prior.len() as int,
            whole,
            split,
            round,
            host.passive(),
        );
        if prior.len() == 0 {
            assert(earlier + prior =~= earlier);
        } else {
            assert((earlier + prior).last() == prior.last());
        }
    }
}

} // verus!
