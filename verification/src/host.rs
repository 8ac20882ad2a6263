//! Policies over a run: emulated calls, serviced exceptions, breakpoints.

use crate::bus::{extends_reflexively, kept, lemma_kept_transitively, Devices, HostMemory};
use crate::collections::OrderedSet;
use crate::memory::{Fault, MemoryAccessEvent, MemoryView};
use crate::registers::{CpuContext, RegistersView};
use vstd::prelude::*;

verus! {

/// Why a run stopped executing.
#[derive(Clone, Copy, Debug, PartialEq, Eq, Structural)]
pub enum StopReason {
    /// The top-level routine executed `RTS` and popped the seeded return marker.
    Returned,
    /// The step budget was exhausted.
    StepLimit,
    /// A `STOP` instruction halted the CPU.
    Stopped,
    /// An unmapped memory access at instruction `site` trapped execution.
    Fault { fault: Fault, site: u32 },
    /// An exception vector (illegal instruction, zero divide, TRAP, ...) other than
    /// an unmapped-memory access was raised at instruction `site`.
    Trap { vector: u8, site: u32 },
    /// Execution reached an address a [`Breakpoints`] host was told to stop at.
    ///
    /// The instruction there has *not* executed: `site` is where the machine is
    /// now, so a resumed run continues by executing it.
    Breakpoint { site: u32 },
    /// A watched access matched and stop-on-watch was requested.
    Watch { event: MemoryAccessEvent, site: u32 },
    /// A [`Host`] was asked to service a call it does not implement (`site` is
    /// the vector address; `offset` is its signed library-vector offset).
    UnhandledCall { site: u32, offset: i16 },
}

/// What a [`Host`] hook asks a run to do next.
#[derive(Clone, Copy, Debug, PartialEq, Eq, Structural)]
pub enum HostAction {
    /// Let the instruction at the current PC execute normally.
    Continue,
    /// Treat the current point as a returned subroutine: pop the return address
    /// the caller pushed into PC and continue.
    ReturnFromCall,
    /// Stop the run with this reason.
    Stop(StopReason),
}

/// The registers, the memory and the devices behind it at one moment.
#[verifier::ext_equal]
pub struct Point {
    pub registers: RegistersView,
    pub memory: MemoryView,
    pub devices: Devices,
}

/// These registers over a memory view.
pub open spec fn point_at<M: HostMemory>(registers: RegistersView, memory: M) -> Point {
    Point { registers, memory: memory.contents(), devices: memory.devices() }
}

/// A policy layer over a run: it advances deterministic device state each step,
/// emulates calls into claimed OS-vector addresses, and may service exceptions. All
/// hooks are generic mechanism: the Amiga-OS meaning lives in the host
/// implementation, not here.
///
/// Memory a hook reads or writes is *not* attributed to any step, and cannot stop a
/// run through a watchpoint: the per-step access window and the first-match latch are
/// both captured around the executed instruction, not the hooks. It is still counted
/// in the total, which is the count of everything a watchpoint saw rather than of what
/// a step shows. Such writes enter the global write log and mark memory dirty.
pub trait Host: Sized {
    /// Whether the hooks of this host do nothing at all.
    spec fn passive(&self) -> bool;

    /// Whether the host emulates the routine entered at `pc`.
    spec fn claimed(&self, pc: u32) -> bool;

    /// Whether a tick may turn this host and `before` into `next` and `after`.
    spec fn ticks(&self, before: Point, next: &Self, after: Point) -> bool;

    /// Whether a call that the host claimed at `pc` may be answered by `action`, and turn
    /// this host and `before` into `next` and `after`.
    spec fn answers_call(
        &self,
        pc: u32,
        before: Point,
        action: HostAction,
        next: &Self,
        after: Point,
    ) -> bool;

    /// Whether an exception may be answered by `action`, and turn this host and `before`
    /// into `next` and `after`.
    spec fn answers_trap(
        &self,
        vector: u8,
        site: u32,
        before: Point,
        action: Option<HostAction>,
        next: &Self,
        after: Point,
    ) -> bool;

    /// Once per instruction, before it executes: advance deterministic device
    /// state (e.g. a beam counter) by step count, not by memory-read count.
    fn tick<M: HostMemory>(&mut self, cpu: &mut CpuContext, memory: &mut M)
        requires
            old(memory).ready(),
        ensures
            kept(*old(memory), *final(memory)),
            old(self).ticks(
                point_at(old(cpu)@, *old(memory)),
                final(self),
                point_at(final(cpu)@, *final(memory)),
            ),
            old(self).passive() ==> final(self).passive() && point_at(final(cpu)@, *final(memory))
                == point_at(old(cpu)@, *old(memory)),
    ;

    /// Whether the host emulates the routine entered at `pc` (an OS vector).
    fn claims(&self, pc: u32) -> (r: bool)
        ensures
            r == self.claimed(pc),
            self.passive() ==> !r,
    ;

    /// Emulate the call the host claimed at `pc`: set result registers, then
    /// usually return [`HostAction::ReturnFromCall`].
    fn on_call<M: HostMemory>(&mut self, pc: u32, cpu: &mut CpuContext, memory: &mut M) -> (r:
        HostAction)
        requires
            old(memory).ready(),
        ensures
            kept(*old(memory), *final(memory)),
            old(self).answers_call(
                pc,
                point_at(old(cpu)@, *old(memory)),
                r,
                final(self),
                point_at(final(cpu)@, *final(memory)),
            ),
    ;

    /// A raised exception; return `None` to let the run apply its standard,
    /// fault-aware stop, or `Some(action)` to service and resume.
    fn on_trap<M: HostMemory>(
        &mut self,
        vector: u8,
        site: u32,
        cpu: &mut CpuContext,
        memory: &mut M,
    ) -> (r: Option<HostAction>)
        requires
            old(memory).ready(),
        ensures
            kept(*old(memory), *final(memory)),
            old(self).answers_trap(
                vector,
                site,
                point_at(old(cpu)@, *old(memory)),
                r,
                final(self),
                point_at(final(cpu)@, *final(memory)),
            ),
            old(self).passive() ==> final(self).passive() && r is None && point_at(
                final(cpu)@,
                *final(memory),
            ) == point_at(old(cpu)@, *old(memory)),
    ;
}

/// A [`Host`] whose hooks do nothing: no call is claimed, no exception serviced.
#[derive(Clone, Copy, Debug, PartialEq, Eq, Structural)]
pub struct NoHost;

impl Host for NoHost {
    open spec fn passive(&self) -> bool {
        true
    }

    open spec fn claimed(&self, pc: u32) -> bool {
        false
    }

    open spec fn ticks(&self, before: Point, next: &Self, after: Point) -> bool {
        after == before
    }

    open spec fn answers_call(
        &self,
        pc: u32,
        before: Point,
        action: HostAction,
        next: &Self,
        after: Point,
    ) -> bool {
        action == HostAction::Continue && after == before
    }

    open spec fn answers_trap(
        &self,
        vector: u8,
        site: u32,
        before: Point,
        action: Option<HostAction>,
        next: &Self,
        after: Point,
    ) -> bool {
        action is None && after == before
    }

    fn tick<M: HostMemory>(&mut self, cpu: &mut CpuContext, memory: &mut M) {
    }

    fn claims(&self, pc: u32) -> (r: bool) {
        false
    }

    fn on_call<M: HostMemory>(&mut self, pc: u32, cpu: &mut CpuContext, memory: &mut M) -> (r:
        HostAction) {
        HostAction::Continue
    }

    fn on_trap<M: HostMemory>(
        &mut self,
        vector: u8,
        site: u32,
        cpu: &mut CpuContext,
        memory: &mut M,
    ) -> (r: Option<HostAction>) {
        None
    }
}

/// Two [`Host`]s driven as one, for a run that needs more than one policy: a device
/// that must be advanced every instruction *and* a schedule that delivers interrupts,
/// say. A chain is itself a host, so more of them chain in turn.
///
/// Each hook composes the only way it can:
///
/// | Hook | Rule |
/// |---|---|
/// | [`Host::tick`] | every host, in order |
/// | [`Host::claims`] | true if any host claims |
/// | [`Host::on_call`] | the **first host whose `claims` is true** |
/// | [`Host::on_trap`] | the **first host that returns `Some`** |
///
/// `on_trap` has no `claims` to ask and no `pc` to ask it about, so "the first
/// that claims" is not available there; returning `Some` *is* the claim. If none
/// does, the chain returns `None`, exactly as a single host that serviced nothing
/// would.
pub struct HostChain<'a, A: Host, B: Host> {
    pub first: &'a mut A,
    pub second: &'a mut B,
}

impl<'a, A: Host, B: Host> HostChain<'a, A, B> {
    /// Drive the hosts in the given order. The order matters for `on_call` and
    /// `on_trap`, where the first to answer wins.
    pub fn new(first: &'a mut A, second: &'a mut B) -> (r: Self)
        ensures
            *r.first == *old(first),
            *r.second == *old(second),
    {
        HostChain { first, second }
    }
}

/// Whether two hosts tick, one after the other.
pub open spec fn ticks_both<A: Host, B: Host>(
    first: A,
    second: B,
    before: Point,
    next_first: A,
    next_second: B,
    after: Point,
) -> bool {
    exists|between: Point| #[trigger]
        first.ticks(before, &next_first, between) && second.ticks(between, &next_second, after)
}

/// Whether the first of two hosts services an exception, or the second is asked.
pub open spec fn traps_both<A: Host, B: Host>(
    first: A,
    second: B,
    vector: u8,
    site: u32,
    before: Point,
    action: Option<HostAction>,
    next_first: A,
    next_second: B,
    after: Point,
) -> bool {
    if action is Some && first.answers_trap(vector, site, before, action, &next_first, after)
        && next_second == second {
        true
    } else {
        exists|between: Point| #[trigger]
            first.answers_trap(vector, site, before, None, &next_first, between)
                && second.answers_trap(vector, site, between, action, &next_second, after)
    }
}

impl<'a, A: Host, B: Host> Host for HostChain<'a, A, B> {
    open spec fn passive(&self) -> bool {
        self.first.passive() && self.second.passive()
    }

    open spec fn claimed(&self, pc: u32) -> bool {
        self.first.claimed(pc) || self.second.claimed(pc)
    }

    open spec fn ticks(&self, before: Point, next: &Self, after: Point) -> bool {
        ticks_both(*self.first, *self.second, before, *next.first, *next.second, after)
    }

    open spec fn answers_call(
        &self,
        pc: u32,
        before: Point,
        action: HostAction,
        next: &Self,
        after: Point,
    ) -> bool {
        if self.first.claimed(pc) {
            &&& self.first.answers_call(pc, before, action, next.first, after)
            &&& *next.second == *self.second
        } else if self.second.claimed(pc) {
            &&& self.second.answers_call(pc, before, action, next.second, after)
            &&& *next.first == *self.first
        } else {
            &&& action == HostAction::Continue
            &&& *next.first == *self.first
            &&& *next.second == *self.second
            &&& after == before
        }
    }

    open spec fn answers_trap(
        &self,
        vector: u8,
        site: u32,
        before: Point,
        action: Option<HostAction>,
        next: &Self,
        after: Point,
    ) -> bool {
        traps_both(
            *self.first,
            *self.second,
            vector,
            site,
            before,
            action,
            *next.first,
            *next.second,
            after,
        )
    }

    fn tick<M: HostMemory>(&mut self, cpu: &mut CpuContext, memory: &mut M) {
        let ghost first = *self.first;
        let ghost second = *self.second;
        let ghost before = point_at(cpu@, *memory);
        self.first.tick(cpu, memory);
        let ghost between = *memory;
        let ghost midway = point_at(cpu@, *memory);
        self.second.tick(cpu, memory);
        proof {
            lemma_kept_transitively(*old(memory), between, *memory);
            assert(first.ticks(before, self.first, midway));
        }
    }

    fn claims(&self, pc: u32) -> (r: bool) {
        let first = self.first.claims(pc);
        let second = self.second.claims(pc);
        first || second
    }

    fn on_call<M: HostMemory>(&mut self, pc: u32, cpu: &mut CpuContext, memory: &mut M) -> (r:
        HostAction) {
        if self.first.claims(pc) {
            return self.first.on_call(pc, cpu, memory);
        }
        if self.second.claims(pc) {
            return self.second.on_call(pc, cpu, memory);
        }
        proof {
            extends_reflexively(memory.contents());
        }
        HostAction::Continue
    }

    fn on_trap<M: HostMemory>(
        &mut self,
        vector: u8,
        site: u32,
        cpu: &mut CpuContext,
        memory: &mut M,
    ) -> (r: Option<HostAction>) {
        let ghost first = *self.first;
        let ghost second = *self.second;
        let ghost before = point_at(cpu@, *memory);
        let answer = self.first.on_trap(vector, site, cpu, memory);
        if answer.is_some() {
            return answer;
        }
        let ghost between = *memory;
        let ghost midway = point_at(cpu@, *memory);
        let answer = self.second.on_trap(vector, site, cpu, memory);
        proof {
            lemma_kept_transitively(*old(memory), between, *memory);
            assert(first.answers_trap(vector, site, before, None, self.first, midway));
        }
        answer
    }
}

/// A [`Host`] that stops the run when execution reaches one of a set of
/// addresses, before the instruction there executes.
///
/// **A breakpoint at the address a run starts from does not stop it before it
/// has executed anything.** Without that rule a run resumed at a breakpoint
/// would stop again immediately, having executed nothing, and a caller stepping
/// through a loop could never make progress. The suppression lasts only while
/// the program counter is still there: a loop that comes back to the same
/// address does stop.
pub struct Breakpoints {
    pub addresses: OrderedSet<u32>,
    /// The starting address, while the machine has not left it yet.
    pub suppressed: Option<u32>,
}

/// The suppression after an instruction at `pc` is looked at.
pub open spec fn still_suppressed(suppressed: Option<u32>, pc: u32) -> Option<u32> {
    if suppressed == Some(pc) {
        suppressed
    } else {
        None
    }
}

/// Whether breakpoints stop a run at `pc`.
pub open spec fn stops_at(addresses: Set<u32>, suppressed: Option<u32>, pc: u32) -> bool {
    addresses.contains(pc) && suppressed != Some(pc)
}

impl Breakpoints {
    /// Stop at each of `addresses`, except at `entry` before anything has run.
    pub fn new(addresses: &[u32], entry: u32) -> (r: Self)
        ensures
            r.addresses.wf(),
            r.addresses@ == addresses@.to_set(),
            r.suppressed == Some(entry),
    {
        Breakpoints { addresses: OrderedSet::from_slice(addresses), suppressed: Some(entry) }
    }

    /// Whether any address is set: a caller can skip attaching an empty host.
    pub fn is_empty(&self) -> (r: bool)
        requires
            self.addresses.wf(),
        ensures
            r == (self.addresses@ == Set::<u32>::empty()),
    {
        let empty = self.addresses.is_empty();
        proof {
            if empty {
                assert(self.addresses@ =~= Set::empty());
            } else {
                assert(self.addresses@.contains(self.addresses.items@[0]));
            }
        }
        empty
    }
}

impl Host for Breakpoints {
    open spec fn passive(&self) -> bool {
        false
    }

    open spec fn claimed(&self, pc: u32) -> bool {
        stops_at(self.addresses.items@.to_set(), self.suppressed, pc)
    }

    open spec fn ticks(&self, before: Point, next: &Self, after: Point) -> bool {
        &&& next.addresses == self.addresses
        &&& next.suppressed == still_suppressed(self.suppressed, before.registers.pc)
        &&& after == before
    }

    open spec fn answers_call(
        &self,
        pc: u32,
        before: Point,
        action: HostAction,
        next: &Self,
        after: Point,
    ) -> bool {
        &&& action == HostAction::Stop(StopReason::Breakpoint { site: pc })
        &&& *next == *self
        &&& after == before
    }

    open spec fn answers_trap(
        &self,
        vector: u8,
        site: u32,
        before: Point,
        action: Option<HostAction>,
        next: &Self,
        after: Point,
    ) -> bool {
        action is None && *next == *self && after == before
    }

    fn tick<M: HostMemory>(&mut self, cpu: &mut CpuContext, memory: &mut M) {
        proof {
            extends_reflexively(memory.contents());
        }
        let here = match self.suppressed {
            Some(address) => address == cpu.pc(),
            None => false,
        };
        if !here {
            self.suppressed = None;
        }
    }

    fn claims(&self, pc: u32) -> (r: bool) {
        let suppressed = match self.suppressed {
            Some(address) => address == pc,
            None => false,
        };
        if suppressed {
            return false;
        }
        let mut i: usize = 0;
        while i < self.addresses.items.len()
            invariant
                i <= self.addresses.items@.len(),
                self.suppressed != Some(pc),
                forall|k: int| 0 <= k < i ==> #[trigger] self.addresses.items@[k] != pc,
            decreases self.addresses.items@.len() - i,
        {
            if self.addresses.items[i] == pc {
                assert(self.addresses.items@.contains(pc));
                return true;
            }
            i += 1;
        }
        false
    }

    fn on_call<M: HostMemory>(&mut self, pc: u32, cpu: &mut CpuContext, memory: &mut M) -> (r:
        HostAction) {
        proof {
            extends_reflexively(memory.contents());
        }
        HostAction::Stop(StopReason::Breakpoint { site: pc })
    }

    fn on_trap<M: HostMemory>(
        &mut self,
        vector: u8,
        site: u32,
        cpu: &mut CpuContext,
        memory: &mut M,
    ) -> (r: Option<HostAction>) {
        proof {
            extends_reflexively(memory.contents());
        }
        None
    }
}

/// A run never stops at the breakpoint that it starts from, and it stops there once it
/// has been anywhere else.
pub proof fn breakpoints_let_a_run_start(addresses: Set<u32>, entry: u32, elsewhere: u32)
    requires
        elsewhere != entry,
        addresses.contains(entry),
    ensures
        !stops_at(addresses, still_suppressed(Some(entry), entry), entry),
        ({
            let left = still_suppressed(still_suppressed(Some(entry), entry), elsewhere);
            stops_at(addresses, still_suppressed(left, entry), entry)
        }),
{
}

} // verus!
