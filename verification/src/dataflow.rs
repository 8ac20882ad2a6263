//! Bounded forward dataflow over the control-flow graph's basic blocks.
//!
//! Analyses supply a deliberately small lattice and an instruction transfer.
//! This module supplies the shared mechanics: owner-local basic blocks,
//! deterministic worklist scheduling, conservative joins, and a hard work
//! bound. Exhaustion is an explicit result, so a caller can discard partial
//! precision instead of reporting a stale intermediate state.

use crate::analysis::{AnalysisView, ControlFlowAnalysis};
use crate::blocks::{block_lists, blocks, BlockGraph, Region};
use crate::collections::{in_order, lemma_in_order, AddressMap, OrderedSet};
use crate::decoded::{DecodedInstruction, DecodedView};
pub use vstd::prelude::View;
use vstd::prelude::*;

verus! {

/// Maximum block visits per owned instruction before a walk is refused.
///
/// A well-formed finite lattice converges in a small multiple of the graph
/// size. The multiplier leaves room for loops and joins while ensuring a bad
/// transfer or pathological graph degrades into fewer findings, not a hang.
pub const MAX_WORKLIST_STEPS_PER_INSTRUCTION: u64 = 8;

/// State a forward analysis propagates through the graph.
pub trait Domain: View + Sized {
    /// The state is in order.
    spec fn wf(&self) -> bool;

    /// What a stored state becomes when `incoming` is merged into it, and whether
    /// that counts as a change.
    spec fn joined(stored: Self::V, incoming: Self::V) -> (Self::V, bool);

    /// Merge `incoming` into this block's stored input state.
    ///
    /// Returns whether the stored state changed and therefore needs to be
    /// propagated again. Implementations must only lose precision at a join.
    fn join(&mut self, incoming: &Self) -> (r: bool)
        requires
            old(self).wf(),
            incoming.wf(),
        ensures
            final(self).wf(),
            (final(self)@, r) == Self::joined(old(self)@, incoming@),
    ;

    /// The same state again.
    fn duplicate(&self) -> (r: Self)
        requires
            self.wf(),
        ensures
            r.wf(),
            r@ == self@,
    ;
}

/// What an analysis that notes nothing notes.
#[derive(Clone, Copy, Debug)]
pub struct NoLog;

impl View for NoLog {
    type V = ();

    open spec fn view(&self) -> () {
        ()
    }
}

/// An analysis over one function's code: which instructions it looks at, what it
/// does to the state, and what it notes on the way.
pub trait Flow {
    type State: Domain;

    type Log: View;

    /// The analysis is in order.
    spec fn wf(&self) -> bool;

    /// Whether the instruction is part of the analyzed code.
    spec fn keeps(&self, decoded: DecodedView) -> bool;

    /// The state in which an instruction is entered.
    spec fn entered(
        &self,
        owner: u32,
        decoded: DecodedView,
        state: <Self::State as View>::V,
    ) -> <Self::State as View>::V;

    /// What is noted when an instruction is entered.
    spec fn noted_entering(
        &self,
        decoded: DecodedView,
        state: <Self::State as View>::V,
        log: <Self::Log as View>::V,
    ) -> <Self::Log as View>::V;

    /// The state behind an instruction.
    spec fn transferred(
        &self,
        decoded: DecodedView,
        state: <Self::State as View>::V,
    ) -> <Self::State as View>::V;

    /// What is noted when an instruction is left.
    spec fn noted_leaving(
        &self,
        decoded: DecodedView,
        state: <Self::State as View>::V,
        log: <Self::Log as View>::V,
    ) -> <Self::Log as View>::V;

    fn looks_at(&self, decoded: &DecodedInstruction) -> (r: bool)
        requires
            self.wf(),
            decoded.wf(),
        ensures
            r == self.keeps(decoded@),
    ;

    fn enter(
        &self,
        owner: u32,
        decoded: &DecodedInstruction,
        state: &mut Self::State,
        log: &mut Self::Log,
    )
        requires
            self.wf(),
            decoded.wf(),
            old(state).wf(),
        ensures
            final(state).wf(),
            final(state)@ == self.entered(owner, decoded@, old(state)@),
            final(log)@ == self.noted_entering(
                decoded@,
                self.entered(owner, decoded@, old(state)@),
                old(log)@,
            ),
    ;

    fn transfer(&self, decoded: &DecodedInstruction, state: &mut Self::State, log: &mut Self::Log)
        requires
            self.wf(),
            decoded.wf(),
            old(state).wf(),
        ensures
            final(state).wf(),
            final(state)@ == self.transferred(decoded@, old(state)@),
            final(log)@ == self.noted_leaving(decoded@, old(state)@, old(log)@),
    ;
}

/// In which order pending blocks are visited.
#[derive(Clone, Copy, Debug, PartialEq, Eq, Structural)]
pub enum Schedule {
    Ascending,
    Descending,
}

impl Schedule {
    /// The pending block that is visited next.
    pub open spec fn pick(self, pending: Set<u32>) -> u32 {
        match self {
            Schedule::Ascending => in_order(pending).first(),
            Schedule::Descending => in_order(pending).last(),
        }
    }

    fn pop(self, pending: &mut OrderedSet<u32>) -> (r: Option<u32>)
        requires
            old(pending).wf(),
        ensures
            final(pending).wf(),
            match r {
                Some(start) => {
                    &&& old(pending)@ != Set::<u32>::empty()
                    &&& start == self.pick(old(pending)@)
                    &&& final(pending)@ == old(pending)@.remove(start)
                },
                None => old(pending)@ == Set::<u32>::empty() && final(pending)@ == old(pending)@,
            },
    {
        proof {
            lemma_in_order(pending.items@);
            if pending.items@.len() == 0 {
                assert(pending@ =~= Set::empty());
            }
        }
        match self {
            Schedule::Ascending => pending.pop_first(),
            Schedule::Descending => pending.pop_last(),
        }
    }
}

/// A walk through a block: the state reached, the states that instructions were
/// entered in, and what was noted.
#[verifier::ext_equal]
#[verifier::reject_recursive_types(S)]
pub struct Walked<S, L> {
    pub state: S,
    pub before: Map<u32, S>,
    pub log: L,
}

/// A walk over a graph in progress: the states that reach blocks, the blocks to
/// be visited, the states that instructions were entered in, and what was noted.
#[verifier::ext_equal]
#[verifier::reject_recursive_types(S)]
pub struct Progress<S, L> {
    pub incoming: Map<u32, S>,
    pub pending: Set<u32>,
    pub before: Map<u32, S>,
    pub log: L,
}

/// A walk through the instructions of `list`.
pub open spec fn walk<F: Flow>(
    flow: F,
    view: AnalysisView,
    owner: u32,
    list: Seq<u32>,
    w: Walked<<F::State as View>::V, <F::Log as View>::V>,
) -> Walked<<F::State as View>::V, <F::Log as View>::V>
    decreases list.len(),
{
    if list.len() == 0 {
        w
    } else {
        let prior = walk(flow, view, owner, list.drop_last(), w);
        let at = list.last();
        if view.instructions.dom().contains(at) {
            let decoded = view.instructions[at];
            let entered = flow.entered(owner, decoded, prior.state);
            Walked {
                state: flow.transferred(decoded, entered),
                before: prior.before.insert(at, entered),
                log: flow.noted_leaving(
                    decoded,
                    entered,
                    flow.noted_entering(decoded, entered, prior.log),
                ),
            }
        } else {
            prior
        }
    }
}

/// The state reaches the block at `to`, which is visited again if that changes
/// what reaches it.
pub open spec fn reach<D: Domain, L>(p: Progress<D::V, L>, state: D::V, to: u32) -> Progress<
    D::V,
    L,
> {
    if p.incoming.dom().contains(to) {
        let (joined, changed) = D::joined(p.incoming[to], state);
        Progress {
            incoming: p.incoming.insert(to, joined),
            pending: if changed {
                p.pending.insert(to)
            } else {
                p.pending
            },
            ..p
        }
    } else {
        Progress {
            incoming: p.incoming.insert(to, state),
            pending: p.pending.insert(to),
            ..p
        }
    }
}

/// The state reaches each of the blocks.
pub open spec fn reach_all<D: Domain, L>(
    p: Progress<D::V, L>,
    state: D::V,
    list: Seq<u32>,
) -> Progress<D::V, L>
    decreases list.len(),
{
    if list.len() == 0 {
        p
    } else {
        reach::<D, L>(reach_all::<D, L>(p, state, list.drop_last()), state, list.last())
    }
}

/// What the block at `start` does to the walk.
pub open spec fn visit<F: Flow>(
    flow: F,
    view: AnalysisView,
    region: Region,
    p: Progress<<F::State as View>::V, <F::Log as View>::V>,
    start: u32,
) -> Progress<<F::State as View>::V, <F::Log as View>::V> {
    if blocks(region).lists.dom().contains(start) && p.incoming.dom().contains(start) {
        let w = walk(
            flow,
            view,
            region.owner,
            blocks(region).lists[start],
            Walked { state: p.incoming[start], before: p.before, log: p.log },
        );
        reach_all::<F::State, <F::Log as View>::V>(
            Progress { before: w.before, log: w.log, ..p },
            w.state,
            in_order(blocks(region).successors(region, start)),
        )
    } else {
        p
    }
}

/// The walk after at most `room` further visits, and whether blocks were left
/// unvisited.
pub open spec fn settle<F: Flow>(
    flow: F,
    view: AnalysisView,
    region: Region,
    schedule: Schedule,
    p: Progress<<F::State as View>::V, <F::Log as View>::V>,
    room: nat,
) -> (Progress<<F::State as View>::V, <F::Log as View>::V>, bool)
    decreases room,
{
    if p.pending == Set::<u32>::empty() {
        (p, false)
    } else if room == 0 {
        (p, true)
    } else {
        let start = schedule.pick(p.pending);
        settle(
            flow,
            view,
            region,
            schedule,
            visit(flow, view, region, Progress { pending: p.pending.remove(start), ..p }, start),
            (room - 1) as nat,
        )
    }
}

/// The instructions of `owner` that an analysis looks at.
pub open spec fn looked_at<F: Flow>(flow: F, view: AnalysisView, owner: u32) -> Set<u32> {
    Set::new(
        |at: u32|
            view.instructions.dom().contains(at) && view.instructions[at].owners.contains(owner)
                && flow.keeps(view.instructions[at]),
    )
}

/// The code of `owner` that an analysis looks at.
pub open spec fn region_of<F: Flow>(flow: F, view: AnalysisView, owner: u32) -> Region {
    Region {
        owner,
        owned: looked_at(flow, view, owner),
        functions: view.functions,
        flows: view.flows,
    }
}

/// How many blocks are visited at most.
pub open spec fn budget(region: Region) -> nat {
    let visits = blocks(region).homes.dom().len() * MAX_WORKLIST_STEPS_PER_INSTRUCTION as nat;
    if visits == 0 {
        1
    } else {
        visits
    }
}

/// What a forward analysis of `owner` comes to: the states that instructions are
/// entered in, what was noted, and whether the work bound was reached first.
pub open spec fn outcome<F: Flow>(
    flow: F,
    view: AnalysisView,
    owner: u32,
    schedule: Schedule,
    seed: <F::State as View>::V,
    log: <F::Log as View>::V,
) -> (Progress<<F::State as View>::V, <F::Log as View>::V>, bool) {
    let region = region_of(flow, view, owner);
    let entry = blocks(region).homes[owner];
    if blocks(region).homes.dom().contains(owner) {
        settle(
            flow,
            view,
            region,
            schedule,
            Progress {
                incoming: Map::empty().insert(entry, seed),
                pending: Set::empty().insert(entry),
                before: Map::empty(),
                log,
            },
            budget(region),
        )
    } else {
        (
            Progress { incoming: Map::empty(), pending: Set::empty(), before: Map::empty(), log },
            false,
        )
    }
}

/// The states of a map as mathematical values.
pub open spec fn state_map<D: View>(map: AddressMap<D>) -> Map<u32, D::V> {
    map@.map_values(|state: D| state@)
}

/// The map is in order, and so are its states.
pub open spec fn states_wf<D: Domain>(map: AddressMap<D>) -> bool {
    map.wf() && forall|i: int| 0 <= i < map.values@.len() ==> (#[trigger] map.values@[i]).wf()
}

/// The state entering every reached instruction of one function owner.
pub struct ForwardResult<State> {
    pub before: AddressMap<State>,
    pub exhausted: bool,
}

/// Store a state.
fn put_state<D: Domain>(map: &mut AddressMap<D>, key: u32, state: D)
    requires
        states_wf(*old(map)),
        state.wf(),
    ensures
        states_wf(*final(map)),
        state_map(*final(map)) == state_map(*old(map)).insert(key, state@),
{
    let ghost before = *map;
    let ghost stored = state;
    map.insert(key, state);
    proof {
        assert(state_map(*map) =~= state_map(before).insert(key, stored@));
        assert forall|i: int| 0 <= i < map.values@.len() implies (
        #[trigger] map.values@[i]).wf() by {
            map.lemma_entry(i);
            let other = map.keys@[i];
            if other != key {
                let k = before.lemma_position(other);
                assert(before.values@[k].wf());
            }
        }
    }
}

/// A walk over a graph in progress.
struct Walk<D> {
    incoming: AddressMap<D>,
    pending: OrderedSet<u32>,
    before: AddressMap<D>,
}

impl<D: Domain> Walk<D> {
    spec fn wf(&self) -> bool {
        states_wf(self.incoming) && states_wf(self.before) && self.pending.wf()
    }

    spec fn progress<L>(&self, log: L) -> Progress<D::V, L> {
        Progress {
            incoming: state_map(self.incoming),
            pending: self.pending@,
            before: state_map(self.before),
            log,
        }
    }

    /// The state reaches the block at `to`.
    fn reach<L>(&mut self, state: &D, to: u32, Ghost(log): Ghost<L>)
        requires
            old(self).wf(),
            state.wf(),
        ensures
            final(self).wf(),
            final(self).progress(log) == reach::<D, L>(old(self).progress(log), state@, to),
    {
        let ghost before = self.incoming;
        match self.incoming.find(to) {
            Some(at) => {
                proof {
                    before.lemma_entry(at as int);
                }
                let changed = self.incoming.values[at].join(state);
                proof {
                    before.lemma_replaced(self.incoming, at as int);
                    assert(state_map(self.incoming) =~= state_map(before).insert(
                        to,
                        self.incoming.values@[at as int]@,
                    ));
                }
                if changed {
                    self.pending.insert(to);
                }
            },
            None => {
                put_state(&mut self.incoming, to, state.duplicate());
                self.pending.insert(to);
            },
        }
    }

    /// The state reaches each of the blocks.
    fn reach_all<L>(&mut self, state: &D, list: &OrderedSet<u32>, Ghost(log): Ghost<L>)
        requires
            old(self).wf(),
            state.wf(),
        ensures
            final(self).wf(),
            final(self).progress(log) == reach_all::<D, L>(
                old(self).progress(log),
                state@,
                list.items@,
            ),
    {
        let ghost start = self.progress(log);
        let mut i: usize = 0;
        while i < list.items.len()
            invariant
                self.wf(),
                state.wf(),
                i <= list.items@.len(),
                self.progress(log) == reach_all::<D, L>(
                    start,
                    state@,
                    list.items@.take(i as int),
                ),
            decreases list.items@.len() - i,
        {
            self.reach(state, list.items[i], Ghost(log));
            proof {
                let more = list.items@.take(i + 1);
                assert(more.drop_last() =~= list.items@.take(i as int));
                assert(more.last() == list.items@[i as int]);
            }
            i += 1;
        }
        assert(list.items@.take(i as int) =~= list.items@);
    }
}

/// Walk through the instructions of a block.
fn walk_block<F: Flow>(
    flow: &F,
    analysis: &ControlFlowAnalysis,
    owner: u32,
    list: &Vec<u32>,
    state: &mut F::State,
    before: &mut AddressMap<F::State>,
    log: &mut F::Log,
)
    requires
        flow.wf(),
        analysis.wf(),
        old(state).wf(),
        states_wf(*old(before)),
    ensures
        final(state).wf(),
        states_wf(*final(before)),
        (Walked { state: final(state)@, before: state_map(*final(before)), log: final(log)@ })
            == walk(
            *flow,
            analysis@,
            owner,
            list@,
            Walked { state: old(state)@, before: state_map(*old(before)), log: old(log)@ },
        ),
{
    let ghost start = Walked { state: state@, before: state_map(*before), log: log@ };
    let mut i: usize = 0;
    while i < list.len()
        invariant
            flow.wf(),
            analysis.wf(),
            state.wf(),
            states_wf(*before),
            i <= list@.len(),
            (Walked { state: state@, before: state_map(*before), log: log@ }) == walk(
                *flow,
                analysis@,
                owner,
                list@.take(i as int),
                start,
            ),
        decreases list@.len() - i,
    {
        let at: u32 = list[i];
        proof {
            let more = list@.take(i + 1);
            assert(more.drop_last() =~= list@.take(i as int));
            assert(more.last() == at);
        }
        if let Some(position) = analysis.instructions.find(at) {
            let decoded = &analysis.instructions.values[position];
            proof {
                analysis.lemma_listing(position as int);
            }
            flow.enter(owner, decoded, state, log);
            put_state(before, at, state.duplicate());
            flow.transfer(decoded, state, log);
        }
        i += 1;
    }
    assert(list@.take(i as int) =~= list@);
}

/// The instructions of `owner` that an analysis looks at.
fn owned_instructions<F: Flow>(flow: &F, analysis: &ControlFlowAnalysis, owner: u32) -> (r:
    OrderedSet<u32>)
    requires
        flow.wf(),
        analysis.wf(),
    ensures
        r.wf(),
        r@ == looked_at(*flow, analysis@, owner),
{
    let mut r: OrderedSet<u32> = OrderedSet::new();
    let mut i: usize = 0;
    let ghost wanted = looked_at(*flow, analysis@, owner);
    while i < analysis.instructions.values.len()
        invariant
            flow.wf(),
            analysis.wf(),
            wanted == looked_at(*flow, analysis@, owner),
            r.wf(),
            i <= analysis.instructions.keys@.len(),
            forall|at: u32| #[trigger] r@.contains(at) ==> wanted.contains(at),
            forall|k: int|
                0 <= k < i && wanted.contains(#[trigger] analysis.instructions.keys@[k])
                    ==> r@.contains(analysis.instructions.keys@[k]),
        decreases analysis.instructions.keys@.len() - i,
    {
        let decoded = &analysis.instructions.values[i];
        proof {
            analysis.lemma_listing(i as int);
        }
        if decoded.owners.contains(&owner) && flow.looks_at(decoded) {
            r.insert(decoded.address);
        }
        i += 1;
    }
    proof {
        assert forall|at: u32| wanted.contains(at) implies r@.contains(at) by {
            let k = analysis.instructions.lemma_position(at);
            assert(wanted.contains(analysis.instructions.keys@[k]));
        }
        assert(r@ =~= wanted);
    }
    r
}

/// Run one owner's analysis in deterministic basic-block order, over those of its
/// instructions that the analysis looks at.
pub fn forward_with_schedule<F: Flow>(
    flow: &F,
    analysis: &ControlFlowAnalysis,
    owner: u32,
    seed: F::State,
    log: &mut F::Log,
    schedule: Schedule,
) -> (r: ForwardResult<F::State>)
    requires
        flow.wf(),
        analysis.wf(),
        seed.wf(),
    ensures
        states_wf(r.before),
        ({
            let (end, exhausted) = outcome(
                *flow,
                analysis@,
                owner,
                schedule,
                seed@,
                old(log)@,
            );
            state_map(r.before) == end.before && r.exhausted == exhausted && final(log)@ == end.log
        }),
{
    let owned = owned_instructions(flow, analysis, owner);
    let graph = BlockGraph::new(analysis, owner, &owned);
    let ghost region = region_of(*flow, analysis@, owner);
    let entry: u32 = match graph.homes.get(owner) {
        Some(entry) => *entry,
        None => {
            let before: AddressMap<F::State> = AddressMap::new();
            assert(state_map(before) =~= Map::empty());
            return ForwardResult { before, exhausted: false };
        },
    };
    let mut walk: Walk<F::State> = Walk {
        incoming: AddressMap::new(),
        pending: OrderedSet::new(),
        before: AddressMap::new(),
    };
    proof {
        assert(state_map(walk.incoming) =~= Map::empty());
        assert(state_map(walk.before) =~= Map::empty());
        graph.homes.lemma_len();
    }
    put_state(&mut walk.incoming, entry, seed);
    walk.pending.insert(entry);
    let mut room: u64 = graph.homes.len() as u64 * MAX_WORKLIST_STEPS_PER_INSTRUCTION;
    if room == 0 {
        room = 1;
    }
    let ghost whole = outcome(*flow, analysis@, owner, schedule, seed@, log@);
    while walk.pending.items.len() > 0
        invariant
            flow.wf(),
            analysis.wf(),
            region == region_of(*flow, analysis@, owner),
            graph.of(region),
            walk.wf(),
            whole == outcome(*flow, analysis@, owner, schedule, seed@, old(log)@),
            settle(*flow, analysis@, region, schedule, walk.progress(log@), room as nat) == whole,
        decreases room,
    {
        assert(walk.pending@.contains(walk.pending.items@[0]));
        if room == 0 {
            return ForwardResult { before: walk.before, exhausted: true };
        }
        let ghost p = walk.progress(log@);
        let start: u32 = schedule.pop(&mut walk.pending).unwrap();
        room -= 1;
        let ghost rest = walk.progress(log@);
        if let Some(at) = graph.blocks.find(start) {
            let block = &graph.blocks.values[at];
            proof {
                assert(block_lists(graph.blocks).dom().contains(start));
                assert(blocks(region).lists[start] == block.instructions@);
                lemma_in_order(block.successors.items@);
            }
            if let Some(position) = walk.incoming.find(start) {
                let mut state = walk.incoming.values[position].duplicate();
                walk_block(
                    flow,
                    analysis,
                    owner,
                    &block.instructions,
                    &mut state,
                    &mut walk.before,
                    log,
                );
                walk.reach_all(&state, &block.successors, Ghost(log@));
            }
        } else {
            assert(!block_lists(graph.blocks).dom().contains(start));
        }
        assert(walk.progress(log@) == visit(*flow, analysis@, region, rest, start));
    }
    assert(walk.pending@ =~= Set::empty());
    ForwardResult { before: walk.before, exhausted: false }
}

/// Run one owner's analysis in ascending basic-block order, over those of its
/// instructions that the analysis looks at.
pub fn forward<F: Flow>(
    flow: &F,
    analysis: &ControlFlowAnalysis,
    owner: u32,
    seed: F::State,
    log: &mut F::Log,
) -> (r: ForwardResult<F::State>)
    requires
        flow.wf(),
        analysis.wf(),
        seed.wf(),
    ensures
        states_wf(r.before),
        ({
            let (end, exhausted) = outcome(
                *flow,
                analysis@,
                owner,
                Schedule::Ascending,
                seed@,
                old(log)@,
            );
            state_map(r.before) == end.before && r.exhausted == exhausted && final(log)@ == end.log
        }),
{
    forward_with_schedule(flow, analysis, owner, seed, log, Schedule::Ascending)
}

} // verus!
