//! What a forward walk that comes to rest has found: a fixpoint, never a stale
//! intermediate state.

use crate::analysis::AnalysisView;
use crate::blocks::{all_addresses, blocks, chain, BlocksView, Region};
use crate::collections::{in_order, lemma_addresses_in_order};
use crate::dataflow::{
    budget, outcome, reach, reach_all, region_of, settle, visit, walk, Domain, Flow, Progress, Schedule,
    Walked,
};
use vstd::prelude::*;

verus! {

/// A join that adds nothing changes nothing; what was joined once adds nothing
/// any more, also after further joins.
pub open spec fn only_loses_precision<D: Domain>() -> bool {
    &&& forall|a: D::V| !(#[trigger] D::joined(a, a)).1
    &&& forall|a: D::V, b: D::V|
        !(#[trigger] D::joined(a, b)).1 ==> D::joined(a, b).0 == a
    &&& forall|a: D::V, b: D::V| !D::joined((#[trigger] D::joined(a, b)).0, b).1
    &&& forall|a: D::V, b: D::V, c: D::V|
        #![trigger D::joined(a, b), D::joined(a, c)]
        !D::joined(a, b).1 ==> !D::joined(D::joined(a, c).0, b).1
}

/// A walk through `list` that starts in `state` and notes nothing.
pub open spec fn afresh<F: Flow>(
    flow: F,
    view: AnalysisView,
    owner: u32,
    list: Seq<u32>,
    state: <F::State as View>::V,
    log: <F::Log as View>::V,
) -> Walked<<F::State as View>::V, <F::Log as View>::V> {
    walk(flow, view, owner, list, Walked { state, before: Map::empty(), log })
}

/// The block at `start` is at rest: what comes out of it adds nothing to what
/// reaches its successors, and its instructions are entered in the states that
/// follow from what reaches it.
pub open spec fn at_rest<F: Flow>(
    flow: F,
    view: AnalysisView,
    region: Region,
    p: Progress<<F::State as View>::V, <F::Log as View>::V>,
    start: u32,
) -> bool {
    let w = afresh(
        flow,
        view,
        region.owner,
        blocks(region).lists[start],
        p.incoming[start],
        p.log,
    );
    &&& forall|to: u32| #[trigger]
        blocks(region).successors(region, start).contains(to) ==> p.incoming.dom().contains(to)
            && !F::State::joined(p.incoming[to], w.state).1
    &&& forall|at: u32| #[trigger]
        w.before.dom().contains(at) ==> p.before.dom().contains(at) && p.before[at] == w.before[at]
}

/// Every block that is not to be visited any more is at rest.
pub open spec fn rests<F: Flow>(
    flow: F,
    view: AnalysisView,
    region: Region,
    p: Progress<<F::State as View>::V, <F::Log as View>::V>,
) -> bool {
    forall|start: u32|
        p.incoming.dom().contains(start) && !p.pending.contains(start) && blocks(
            region,
        ).lists.dom().contains(start) ==> #[trigger] at_rest(flow, view, region, p, start)
}

/// What is noted and what was found before does not influence a walk.
proof fn lemma_walk_is_pure<F: Flow>(
    flow: F,
    view: AnalysisView,
    owner: u32,
    list: Seq<u32>,
    w: Walked<<F::State as View>::V, <F::Log as View>::V>,
    log: <F::Log as View>::V,
)
    ensures
        walk(flow, view, owner, list, w).state == afresh(
            flow,
            view,
            owner,
            list,
            w.state,
            log,
        ).state,
        forall|at: u32| #[trigger]
            afresh(flow, view, owner, list, w.state, log).before.dom().contains(at)
                ==> list.contains(at) && walk(flow, view, owner, list, w).before.dom().contains(at)
                && walk(flow, view, owner, list, w).before[at] == afresh(
                flow,
                view,
                owner,
                list,
                w.state,
                log,
            ).before[at],
        forall|at: u32| #[trigger]
            w.before.dom().contains(at) && !list.contains(at) ==> walk(
                flow,
                view,
                owner,
                list,
                w,
            ).before.dom().contains(at) && walk(flow, view, owner, list, w).before[at]
                == w.before[at],
    decreases list.len(),
{
    if list.len() > 0 {
        lemma_walk_is_pure(flow, view, owner, list.drop_last(), w, log);
        let shorter = list.drop_last();
        assert(list =~= shorter.push(list.last()));
        assert forall|at: u32| shorter.contains(at) implies list.contains(at) by {
            let k = choose|k: int| 0 <= k < shorter.len() && shorter[k] == at;
            assert(list[k] == at);
        }
        assert(list.contains(list[list.len() - 1]));
    }
}

/// The instructions of a block were in no block before.
proof fn lemma_chain_is_fresh(region: Region, taken: Set<u32>, at: u32, room: nat)
    requires
        !taken.contains(at),
    ensures
        forall|x: u32| #[trigger] chain(region, taken, at, room).contains(x) ==> !taken.contains(x),
    decreases room,
{
    if room > 0 {
        let list = chain(region, taken, at, room);
        if let Some(next) = region.onward(at) {
            if !taken.insert(at).contains(next) {
                let rest = chain(region, taken.insert(at), next, (room - 1) as nat);
                lemma_chain_is_fresh(region, taken.insert(at), next, (room - 1) as nat);
                assert forall|x: u32| list.contains(x) implies !taken.contains(x) by {
                    let k = choose|k: int| 0 <= k < list.len() && list[k] == x;
                    if k > 0 {
                        assert(rest[k - 1] == x);
                        assert(rest.contains(x));
                    }
                }
            }
        }
    }
}

/// Every instruction is in the block that is its home.
pub open spec fn at_home(b: BlocksView) -> bool {
    forall|start: u32, at: u32|
        b.lists.dom().contains(start) && #[trigger] b.lists[start].contains(at)
            ==> b.homes.dom().contains(at) && b.homes[at] == start
}

proof fn lemma_block_at_home(region: Region, b: BlocksView, start: u32)
    requires
        at_home(b),
    ensures
        at_home(b.with_block(region, start)),
{
    if region.owned.contains(start) && !b.homes.dom().contains(start) {
        lemma_chain_is_fresh(region, b.homes.dom(), start, all_addresses());
    }
}

proof fn lemma_blocks_at_home(region: Region, b: BlocksView, starts: Seq<u32>)
    requires
        at_home(b),
    ensures
        at_home(b.with_blocks(region, starts)),
    decreases starts.len(),
{
    if starts.len() > 0 {
        lemma_blocks_at_home(region, b, starts.drop_last());
        lemma_block_at_home(region, b.with_blocks(region, starts.drop_last()), starts.last());
    }
}

/// No instruction is in two blocks.
pub proof fn blocks_are_disjoint(region: Region, left: u32, right: u32, at: u32)
    requires
        blocks(region).lists.dom().contains(left),
        blocks(region).lists.dom().contains(right),
        blocks(region).lists[left].contains(at),
        blocks(region).lists[right].contains(at),
    ensures
        left == right,
{
    let none = BlocksView { lists: Map::empty(), homes: Map::empty() };
    lemma_blocks_at_home(region, none, in_order(region.leaders()));
    lemma_blocks_at_home(
        region,
        none.with_blocks(region, in_order(region.leaders())),
        in_order(region.owned),
    );
}

/// What `p` had, `q` has still or visits again, and what was absorbed stays so.
spec fn goes_on<D: Domain, L>(p: Progress<D::V, L>, q: Progress<D::V, L>) -> bool {
    &&& q.before == p.before
    &&& q.log == p.log
    &&& forall|at: u32| #[trigger] p.pending.contains(at) ==> q.pending.contains(at)
    &&& forall|at: u32| #[trigger]
        p.incoming.dom().contains(at) ==> {
            &&& q.incoming.dom().contains(at)
            &&& q.incoming[at] == p.incoming[at] || q.pending.contains(at)
            &&& forall|s: D::V|
                !(#[trigger] D::joined(p.incoming[at], s)).1 ==> !D::joined(q.incoming[at], s).1
        }
    &&& forall|at: u32| #[trigger]
        q.incoming.dom().contains(at) ==> p.incoming.dom().contains(at) || q.pending.contains(at)
}

proof fn lemma_reach_goes_on<D: Domain, L>(p: Progress<D::V, L>, state: D::V, to: u32)
    requires
        only_loses_precision::<D>(),
    ensures
        goes_on::<D, L>(p, reach::<D, L>(p, state, to)),
        reach::<D, L>(p, state, to).incoming.dom().contains(to),
        !D::joined(reach::<D, L>(p, state, to).incoming[to], state).1,
{
    let q = reach::<D, L>(p, state, to);
    if p.incoming.dom().contains(to) {
        assert(q.incoming[to] == D::joined(p.incoming[to], state).0);
        assert forall|s: D::V| !(#[trigger] D::joined(p.incoming[to], s)).1 implies !D::joined(
            q.incoming[to],
            s,
        ).1 by {
            assert(!D::joined(D::joined(p.incoming[to], state).0, s).1);
        }
    }
}

proof fn lemma_reach_all_goes_on<D: Domain, L>(
    p: Progress<D::V, L>,
    state: D::V,
    list: Seq<u32>,
)
    requires
        only_loses_precision::<D>(),
    ensures
        goes_on::<D, L>(p, reach_all::<D, L>(p, state, list)),
        forall|to: u32| #[trigger]
            list.contains(to) ==> reach_all::<D, L>(p, state, list).incoming.dom().contains(to)
                && !D::joined(reach_all::<D, L>(p, state, list).incoming[to], state).1,
    decreases list.len(),
{
    if list.len() > 0 {
        let shorter = list.drop_last();
        let mid = reach_all::<D, L>(p, state, shorter);
        let q = reach_all::<D, L>(p, state, list);
        lemma_reach_all_goes_on::<D, L>(p, state, shorter);
        lemma_reach_goes_on::<D, L>(mid, state, list.last());
        assert forall|to: u32| #[trigger] list.contains(to) implies q.incoming.dom().contains(to)
            && !D::joined(q.incoming[to], state).1 by {
            let k = choose|k: int| 0 <= k < list.len() && list[k] == to;
            if k < shorter.len() {
                assert(shorter[k] == to);
                assert(shorter.contains(to));
                assert(mid.incoming.dom().contains(to));
                assert(!D::joined(mid.incoming[to], state).1);
            }
        }
        assert forall|at: u32| #[trigger] p.incoming.dom().contains(at) implies {
            &&& q.incoming.dom().contains(at)
            &&& q.incoming[at] == p.incoming[at] || q.pending.contains(at)
            &&& forall|s: D::V|
                !(#[trigger] D::joined(p.incoming[at], s)).1 ==> !D::joined(q.incoming[at], s).1
        } by {
            assert(mid.incoming.dom().contains(at));
            assert forall|s: D::V| !(#[trigger] D::joined(p.incoming[at], s)).1 implies !D::joined(
                q.incoming[at],
                s,
            ).1 by {
                assert(!D::joined(mid.incoming[at], s).1);
            }
        }
        assert forall|at: u32| #[trigger]
            q.incoming.dom().contains(at) implies p.incoming.dom().contains(at)
            || q.pending.contains(at) by {
            if mid.incoming.dom().contains(at) && !p.incoming.dom().contains(at) {
                assert(mid.pending.contains(at));
            }
        }
    }
}

proof fn lemma_visit_rests<F: Flow>(
    flow: F,
    view: AnalysisView,
    region: Region,
    p: Progress<<F::State as View>::V, <F::Log as View>::V>,
    start: u32,
)
    requires
        only_loses_precision::<F::State>(),
        rests(flow, view, region, p),
        p.pending.contains(start),
    ensures
        rests(
            flow,
            view,
            region,
            visit(flow, view, region, Progress { pending: p.pending.remove(start), ..p }, start),
        ),
{
    let rest = Progress { pending: p.pending.remove(start), ..p };
    let q = visit(flow, view, region, rest, start);
    let lists = blocks(region).lists;
    if lists.dom().contains(start) && p.incoming.dom().contains(start) {
        let from = Walked { state: p.incoming[start], before: p.before, log: p.log };
        let w = walk(flow, view, region.owner, lists[start], from);
        let mid = Progress { before: w.before, log: w.log, ..rest };
        let order = in_order(blocks(region).successors(region, start));
        lemma_reach_all_goes_on::<F::State, <F::Log as View>::V>(mid, w.state, order);
        assert forall|other: u32|
            q.incoming.dom().contains(other) && !q.pending.contains(other) && lists.dom().contains(
                other,
            ) implies #[trigger] at_rest(flow, view, region, q, other) by {
            assert(mid.incoming.dom().contains(other));
            assert(q.incoming[other] == p.incoming[other]);
            assert(!mid.pending.contains(other));
            let now = afresh(
                flow,
                view,
                region.owner,
                lists[other],
                q.incoming[other],
                q.log,
            );
            if other == start {
                lemma_walk_is_pure(flow, view, region.owner, lists[start], from, q.log);
                assert forall|to: u32| #[trigger]
                    blocks(region).successors(region, other).contains(
                        to,
                    ) implies q.incoming.dom().contains(to) && !F::State::joined(
                    q.incoming[to],
                    now.state,
                ).1 by {
                    lemma_addresses_in_order(blocks(region).successors(region, start));
                    assert(order.to_set().contains(to));
                }
            } else {
                assert(at_rest(flow, view, region, p, other));
                let then = afresh(
                    flow,
                    view,
                    region.owner,
                    lists[other],
                    p.incoming[other],
                    p.log,
                );
                let empty = Walked {
                    state: p.incoming[other],
                    before: Map::<u32, <F::State as View>::V>::empty(),
                    log: q.log,
                };
                lemma_walk_is_pure(flow, view, region.owner, lists[other], empty, p.log);
                let back = Walked { log: p.log, ..empty };
                lemma_walk_is_pure(flow, view, region.owner, lists[other], back, q.log);
                lemma_walk_is_pure(flow, view, region.owner, lists[start], from, q.log);
                assert forall|to: u32| #[trigger]
                    blocks(region).successors(region, other).contains(
                        to,
                    ) implies q.incoming.dom().contains(to) && !F::State::joined(
                    q.incoming[to],
                    now.state,
                ).1 by {
                    assert(mid.incoming.dom().contains(to));
                    assert(!F::State::joined(mid.incoming[to], then.state).1);
                }
                assert forall|at: u32| #[trigger]
                    now.before.dom().contains(at) implies q.before.dom().contains(at)
                    && q.before[at] == now.before[at] by {
                    assert(lists[other].contains(at));
                    assert(then.before.dom().contains(at) && then.before[at] == now.before[at]);
                    if lists[start].contains(at) {
                        blocks_are_disjoint(region, start, other, at);
                    }
                    assert(from.before.dom().contains(at));
                }
            }
        }
    } else {
        assert forall|other: u32|
            q.incoming.dom().contains(other) && !q.pending.contains(other) && lists.dom().contains(
                other,
            ) implies #[trigger] at_rest(flow, view, region, q, other) by {
            assert(at_rest(flow, view, region, p, other));
        }
    }
}

proof fn lemma_settle_rests<F: Flow>(
    flow: F,
    view: AnalysisView,
    region: Region,
    schedule: Schedule,
    p: Progress<<F::State as View>::V, <F::Log as View>::V>,
    room: nat,
)
    requires
        only_loses_precision::<F::State>(),
        rests(flow, view, region, p),
    ensures
        rests(flow, view, region, settle(flow, view, region, schedule, p, room).0),
        !settle(flow, view, region, schedule, p, room).1 ==> settle(
            flow,
            view,
            region,
            schedule,
            p,
            room,
        ).0.pending == Set::<u32>::empty(),
    decreases room,
{
    if p.pending != Set::<u32>::empty() && room > 0 {
        let start = schedule.pick(p.pending);
        lemma_addresses_in_order(p.pending);
        let order = in_order(p.pending);
        assert(order.len() > 0) by {
            if order.len() == 0 {
                assert(order.to_set() =~= Set::empty());
            }
        }
        assert(order.to_set().contains(order[0]) && order.to_set().contains(
            order[order.len() - 1],
        ));
        lemma_visit_rests(flow, view, region, p, start);
        lemma_settle_rests(
            flow,
            view,
            region,
            schedule,
            visit(flow, view, region, Progress { pending: p.pending.remove(start), ..p }, start),
            (room - 1) as nat,
        );
    }
}

/// A walk that comes to rest within its bound is at a fixpoint: every block that
/// is reached is at rest, whatever the order in which blocks were visited. No
/// state of an unfinished walk is among what it reports.
pub proof fn settled_walk_is_a_fixpoint<F: Flow>(
    flow: F,
    view: AnalysisView,
    owner: u32,
    schedule: Schedule,
    seed: <F::State as View>::V,
    log: <F::Log as View>::V,
    start: u32,
)
    requires
        only_loses_precision::<F::State>(),
        !outcome(flow, view, owner, schedule, seed, log).1,
        outcome(flow, view, owner, schedule, seed, log).0.incoming.dom().contains(start),
        blocks(region_of(flow, view, owner)).lists.dom().contains(start),
    ensures
        at_rest(
            flow,
            view,
            region_of(flow, view, owner),
            outcome(flow, view, owner, schedule, seed, log).0,
            start,
        ),
{
    let region = region_of(flow, view, owner);
    let entry = blocks(region).homes[owner];
    if blocks(region).homes.dom().contains(owner) {
        lemma_settle_rests(
            flow,
            view,
            region,
            schedule,
            Progress {
                incoming: Map::empty().insert(entry, seed),
                pending: Set::empty().insert(entry),
                before: Map::empty(),
                log,
            },
            budget(region),
        );
    }
}

/// Every step of an analysis of `owner` keeps a property of states: entering and leaving
/// an instruction, and joining two states.
pub open spec fn steps_keep<F: Flow>(
    flow: F,
    view: AnalysisView,
    owner: u32,
    property: spec_fn(<F::State as View>::V) -> bool,
) -> bool {
    &&& forall|at: u32, state: <F::State as View>::V|
        view.instructions.dom().contains(at) && property(state) ==> property(
            #[trigger] flow.entered(owner, view.instructions[at], state),
        )
    &&& forall|at: u32, state: <F::State as View>::V|
        view.instructions.dom().contains(at) && property(state) ==> property(
            #[trigger] flow.transferred(view.instructions[at], state),
        )
    &&& forall|a: <F::State as View>::V, b: <F::State as View>::V|
        property(a) && property(b) ==> property((#[trigger] F::State::joined(a, b)).0)
}

/// Every state of a map has a property.
pub open spec fn all_have<S>(states: Map<u32, S>, property: spec_fn(S) -> bool) -> bool {
    forall|at: u32| #[trigger] states.dom().contains(at) ==> property(states[at])
}

proof fn lemma_walk_keeps<F: Flow>(
    flow: F,
    view: AnalysisView,
    owner: u32,
    list: Seq<u32>,
    w: Walked<<F::State as View>::V, <F::Log as View>::V>,
    property: spec_fn(<F::State as View>::V) -> bool,
)
    requires
        steps_keep(flow, view, owner, property),
        property(w.state),
        all_have(w.before, property),
    ensures
        property(walk(flow, view, owner, list, w).state),
        all_have(walk(flow, view, owner, list, w).before, property),
    decreases list.len(),
{
    if list.len() > 0 {
        lemma_walk_keeps(flow, view, owner, list.drop_last(), w, property);
        let prior = walk(flow, view, owner, list.drop_last(), w);
        let at = list.last();
        if view.instructions.dom().contains(at) {
            let entered = flow.entered(owner, view.instructions[at], prior.state);
            assert(property(entered));
            assert(property(flow.transferred(view.instructions[at], entered)));
        }
    }
}

proof fn lemma_reach_keeps<F: Flow>(
    flow: F,
    view: AnalysisView,
    owner: u32,
    p: Progress<<F::State as View>::V, <F::Log as View>::V>,
    state: <F::State as View>::V,
    list: Seq<u32>,
    property: spec_fn(<F::State as View>::V) -> bool,
)
    requires
        steps_keep(flow, view, owner, property),
        property(state),
        all_have(p.incoming, property),
    ensures
        all_have(
            reach_all::<F::State, <F::Log as View>::V>(p, state, list).incoming,
            property,
        ),
        reach_all::<F::State, <F::Log as View>::V>(p, state, list).before == p.before,
    decreases list.len(),
{
    if list.len() > 0 {
        lemma_reach_keeps(flow, view, owner, p, state, list.drop_last(), property);
        let prior = reach_all::<F::State, <F::Log as View>::V>(p, state, list.drop_last());
        if prior.incoming.dom().contains(list.last()) {
            assert(property(F::State::joined(prior.incoming[list.last()], state).0));
        }
    }
}

proof fn lemma_settle_keeps<F: Flow>(
    flow: F,
    view: AnalysisView,
    region: Region,
    schedule: Schedule,
    p: Progress<<F::State as View>::V, <F::Log as View>::V>,
    room: nat,
    property: spec_fn(<F::State as View>::V) -> bool,
)
    requires
        steps_keep(flow, view, region.owner, property),
        all_have(p.incoming, property),
        all_have(p.before, property),
    ensures
        all_have(settle(flow, view, region, schedule, p, room).0.before, property),
    decreases room,
{
    if p.pending != Set::<u32>::empty() && room > 0 {
        let start = schedule.pick(p.pending);
        let p = Progress { pending: p.pending.remove(start), ..p };
        if blocks(region).lists.dom().contains(start) && p.incoming.dom().contains(start) {
            let list = blocks(region).lists[start];
            let begun = Walked { state: p.incoming[start], before: p.before, log: p.log };
            lemma_walk_keeps(flow, view, region.owner, list, begun, property);
            let w = walk(flow, view, region.owner, list, begun);
            lemma_reach_keeps(
                flow,
                view,
                region.owner,
                Progress { before: w.before, log: w.log, ..p },
                w.state,
                in_order(blocks(region).successors(region, start)),
                property,
            );
        }
        lemma_settle_keeps(
            flow,
            view,
            region,
            schedule,
            visit(flow, view, region, p, start),
            (room - 1) as nat,
            property,
        );
    }
}

/// What every step of an analysis keeps holds of every state that it reports.
pub proof fn reported_states_have_what_steps_keep<F: Flow>(
    flow: F,
    view: AnalysisView,
    owner: u32,
    schedule: Schedule,
    seed: <F::State as View>::V,
    log: <F::Log as View>::V,
    property: spec_fn(<F::State as View>::V) -> bool,
)
    requires
        steps_keep(flow, view, owner, property),
        property(seed),
    ensures
        all_have(outcome(flow, view, owner, schedule, seed, log).0.before, property),
{
    let region = region_of(flow, view, owner);
    let entry = blocks(region).homes[owner];
    if blocks(region).homes.dom().contains(owner) {
        lemma_settle_keeps(
            flow,
            view,
            region,
            schedule,
            Progress {
                incoming: Map::empty().insert(entry, seed),
                pending: Set::empty().insert(entry),
                before: Map::empty(),
                log,
            },
            budget(region),
            property,
        );
    }
}

} // verus!
