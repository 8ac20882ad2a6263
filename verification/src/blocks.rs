//! Basic blocks of one function's code.

use crate::analysis::{ControlFlowAnalysis, FlowEdge, FlowKind};
use crate::collections::{
    in_order, lemma_in_order, lemma_take_to_set, AddressMap,
    OrderedSet,
};
use vstd::prelude::*;

verus! {

/// The code of one function: the instructions it owns, and the edges and function
/// entries that divide them into blocks.
pub struct Region {
    pub owner: u32,
    pub owned: Set<u32>,
    pub functions: Set<u32>,
    pub flows: Set<FlowEdge>,
}

impl Region {
    /// Whether an edge stays in the region and is no call.
    pub open spec fn follows(self, flow: FlowEdge) -> bool {
        &&& flow.owner == self.owner
        &&& flow.kind != FlowKind::Call
        &&& self.owned.contains(flow.site)
        &&& self.owned.contains(flow.target)
    }

    /// Whether control goes from `site` to `target` inside the region.
    pub open spec fn goes(self, site: u32, target: u32) -> bool {
        exists|flow: FlowEdge| #[trigger]
            self.flows.contains(flow) && self.follows(flow) && flow.site == site && flow.target
                == target
    }

    /// Whether an edge of the region branches out of `site`.
    pub open spec fn branches(self, site: u32) -> bool {
        exists|flow: FlowEdge| #[trigger]
            self.flows.contains(flow) && self.follows(flow) && flow.site == site && flow.kind
                == FlowKind::Branch
    }

    /// Where control goes from `site`.
    pub open spec fn successors(self, site: u32) -> Set<u32> {
        Set::new(|target: u32| self.goes(site, target))
    }

    /// Where control comes from to `target`.
    pub open spec fn predecessors(self, target: u32) -> Set<u32> {
        Set::new(|site: u32| self.goes(site, target))
    }

    /// Whether control comes to `at` from `site` by a branch, as one of several
    /// ways, or to a place where several ways meet.
    pub open spec fn parts(self, site: u32, at: u32) -> bool {
        self.goes(site, at) && (self.branches(site) || self.successors(site).len() != 1
            || self.predecessors(at).len() != 1)
    }

    /// Whether a block starts at `at`.
    pub open spec fn is_leader(self, at: u32) -> bool {
        ||| at == self.owner
        ||| self.functions.contains(at) && self.owned.contains(at)
        ||| exists|site: u32| #[trigger] self.parts(site, at)
    }

    /// The addresses at which blocks start.
    pub open spec fn leaders(self) -> Set<u32> {
        Set::new(|at: u32| self.is_leader(at))
    }

    /// The instruction that follows `at` in its block.
    pub open spec fn onward(self, at: u32) -> Option<u32> {
        if self.successors(at).len() == 1 && !self.branches(at) && !self.is_leader(
            self.successors(at).choose(),
        ) {
            Some(self.successors(at).choose())
        } else {
            None
        }
    }
}

/// More than all addresses.
pub open spec fn all_addresses() -> nat {
    0x1_0000_0000
}

/// The instructions of the block that starts at `at`, when those of `taken` are
/// in other blocks.
pub open spec fn chain(region: Region, taken: Set<u32>, at: u32, room: nat) -> Seq<u32>
    decreases room,
{
    if room == 0 {
        Seq::empty()
    } else {
        match region.onward(at) {
            Some(next) => if taken.insert(at).contains(next) {
                seq![at]
            } else {
                seq![at] + chain(region, taken.insert(at), next, (room - 1) as nat)
            },
            None => seq![at],
        }
    }
}

/// Blocks as mathematical values: the instructions of each by its start, and the
/// start of the block that each instruction is in.
#[verifier::ext_equal]
pub struct BlocksView {
    pub lists: Map<u32, Seq<u32>>,
    pub homes: Map<u32, u32>,
}

impl BlocksView {
    /// One more block, unless `start` is in one already.
    pub open spec fn with_block(self, region: Region, start: u32) -> BlocksView {
        if !region.owned.contains(start) || self.homes.dom().contains(start) {
            self
        } else {
            let list = chain(region, self.homes.dom(), start, all_addresses());
            BlocksView {
                lists: self.lists.insert(start, list),
                homes: Map::new(
                    |at: u32| self.homes.dom().contains(at) || list.contains(at),
                    |at: u32|
                        if list.contains(at) {
                            start
                        } else {
                            self.homes[at]
                        },
                ),
            }
        }
    }

    /// One more block for each of `starts` that is in none yet.
    pub open spec fn with_blocks(self, region: Region, starts: Seq<u32>) -> BlocksView
        decreases starts.len(),
    {
        if starts.len() == 0 {
            self
        } else {
            self.with_blocks(region, starts.drop_last()).with_block(region, starts.last())
        }
    }

    /// Where control goes from the block at `start`. A block that falls into
    /// itself does not count as its own successor.
    pub open spec fn successors(self, region: Region, start: u32) -> Set<u32> {
        let last = self.lists[start].last();
        Set::new(
            |to: u32|
                (to != start || region.branches(last)) && exists|target: u32| #[trigger]
                    region.goes(last, target) && self.homes.dom().contains(target)
                        && self.homes[target] == to,
        )
    }
}

/// The blocks of a region. Those of leaders come first; code that no leader leads
/// to is divided in ascending order.
pub open spec fn blocks(region: Region) -> BlocksView {
    BlocksView { lists: Map::empty(), homes: Map::empty() }.with_blocks(
        region,
        in_order(region.leaders()),
    ).with_blocks(region, in_order(region.owned))
}

/// One basic block.
pub struct Block {
    pub instructions: Vec<u32>,
    pub successors: OrderedSet<u32>,
}

/// The basic blocks of one function's code.
pub struct BlockGraph {
    pub blocks: AddressMap<Block>,
    pub homes: AddressMap<u32>,
}

/// Edges by where they start and by where they end.
struct Edges {
    successors: AddressMap<OrderedSet<u32>>,
    predecessors: AddressMap<OrderedSet<u32>>,
    branching: OrderedSet<u32>,
}

/// The relation that an index of sets stands for.
pub open spec fn relates(index: AddressMap<OrderedSet<u32>>, from: u32, to: u32) -> bool {
    index@.dom().contains(from) && index@[from]@.contains(to)
}

/// The index is in order, and so are its sets.
pub open spec fn index_wf(index: AddressMap<OrderedSet<u32>>) -> bool {
    index.wf() && forall|i: int|
        0 <= i < index.values@.len() ==> (#[trigger] index.values@[i]).wf()
}

/// Note one more pair.
fn relate(index: &mut AddressMap<OrderedSet<u32>>, from: u32, to: u32)
    requires
        index_wf(*old(index)),
    ensures
        index_wf(*final(index)),
        forall|a: u32, b: u32| #[trigger]
            relates(*final(index), a, b) <==> relates(*old(index), a, b) || a == from && b == to,
{
    let ghost before = *index;
    match index.find(from) {
        Some(at) => {
            index.values[at].insert(to);
            proof {
                before.lemma_replaced(*index, at as int);
            }
        },
        None => {
            let mut set: OrderedSet<u32> = OrderedSet::new();
            set.insert(to);
            let ghost set_view = set@;
            index.insert(from, set);
            proof {
                assert forall|i: int| 0 <= i < index.values@.len() implies (
                #[trigger] index.values@[i]).wf() by {
                    index.lemma_entry(i);
                    let key = index.keys@[i];
                    if key != from {
                        let k = before.lemma_position(key);
                        assert(before.values@[k].wf());
                    }
                }
            }
        },
    }
}

/// How many there are in the set of `key`.
fn count(index: &AddressMap<OrderedSet<u32>>, key: u32) -> (r: usize)
    requires
        index_wf(*index),
    ensures
        r == Set::new(|to: u32| relates(*index, key, to)).len(),
{
    let ghost related = Set::new(|to: u32| relates(*index, key, to));
    match index.find(key) {
        Some(at) => {
            proof {
                assert(related =~= index.values@[at as int]@);
                index.values@[at as int].lemma_len();
            }
            index.values[at].len()
        },
        None => {
            assert(related =~= Set::empty());
            0
        },
    }
}

impl Edges {
    /// The edges are those of the region.
    spec fn of(&self, region: Region) -> bool {
        &&& index_wf(self.successors)
        &&& index_wf(self.predecessors)
        &&& self.branching.wf()
        &&& forall|site: u32, target: u32| #[trigger]
            relates(self.successors, site, target) <==> region.goes(site, target)
        &&& forall|target: u32, site: u32| #[trigger]
            relates(self.predecessors, target, site) <==> region.goes(site, target)
        &&& forall|site: u32| #[trigger] self.branching@.contains(site) <==> region.branches(site)
    }

    fn new(
        analysis: &ControlFlowAnalysis,
        owner: u32,
        owned: &OrderedSet<u32>,
        Ghost(region): Ghost<Region>,
    ) -> (r: Self)
        requires
            analysis.wf(),
            owned.wf(),
            region.owner == owner,
            region.owned == owned@,
            region.flows == analysis@.flows,
        ensures
            r.of(region),
    {
        let mut edges = Edges {
            successors: AddressMap::new(),
            predecessors: AddressMap::new(),
            branching: OrderedSet::new(),
        };
        let mut i: usize = 0;
        let ghost flows = analysis.flows.items@;
        let ghost mut seen = Region { flows: Set::empty(), ..region };
        assert(flows.take(0).to_set() =~= Set::<FlowEdge>::empty());
        while i < analysis.flows.items.len()
            invariant
                analysis.wf(),
                owned.wf(),
                region.owner == owner,
                region.owned == owned@,
                flows == analysis.flows.items@,
                i <= flows.len(),
                seen == (Region { flows: flows.take(i as int).to_set(), ..region }),
                edges.of(seen),
            decreases flows.len() - i,
        {
            let flow = analysis.flows.items[i];
            let ghost more = Region { flows: flows.take(i + 1).to_set(), ..region };
            proof {
                lemma_take_to_set(flows, i as int);
                assert forall|site: u32, target: u32|
                    more.goes(site, target) <==> seen.goes(site, target) || more.follows(flow)
                        && flow.site == site && flow.target == target by {
                    lemma_one_more_edge(seen, more, flow, site, target);
                }
                assert forall|site: u32|
                    more.branches(site) <==> seen.branches(site) || more.follows(flow) && flow.site
                        == site && flow.kind == FlowKind::Branch by {
                    lemma_one_more_edge(seen, more, flow, site, 0);
                }
            }
            if flow.owner == owner && flow.kind != FlowKind::Call && owned.contains(&flow.site)
                && owned.contains(&flow.target) {
                assert(more.follows(flow));
                relate(&mut edges.successors, flow.site, flow.target);
                relate(&mut edges.predecessors, flow.target, flow.site);
                if flow.kind == FlowKind::Branch {
                    edges.branching.insert(flow.site);
                }
            } else {
                assert(!more.follows(flow));
            }
            proof {
                seen = more;
            }
            i += 1;
        }
        proof {
            assert(flows.take(i as int) =~= flows);
            assert(seen == region);
        }
        edges
    }
}

proof fn lemma_one_more_edge(seen: Region, more: Region, flow: FlowEdge, site: u32, target: u32)
    requires
        more == (Region { flows: seen.flows.insert(flow), ..seen }),
    ensures
        more.goes(site, target) <==> seen.goes(site, target) || more.follows(flow) && flow.site
            == site && flow.target == target,
        more.branches(site) <==> seen.branches(site) || more.follows(flow) && flow.site == site
            && flow.kind == FlowKind::Branch,
{
    if seen.goes(site, target) {
        let other = choose|other: FlowEdge| #[trigger]
            seen.flows.contains(other) && seen.follows(other) && other.site == site && other.target
                == target;
        assert(more.flows.contains(other) && more.follows(other));
    }
    if more.goes(site, target) {
        let other = choose|other: FlowEdge| #[trigger]
            more.flows.contains(other) && more.follows(other) && other.site == site && other.target
                == target;
        assert(other == flow || seen.flows.contains(other) && seen.follows(other));
    }
    if seen.branches(site) {
        let other = choose|other: FlowEdge| #[trigger]
            seen.flows.contains(other) && seen.follows(other) && other.site == site && other.kind
                == FlowKind::Branch;
        assert(more.flows.contains(other) && more.follows(other));
    }
    if more.branches(site) {
        let other = choose|other: FlowEdge| #[trigger]
            more.flows.contains(other) && more.follows(other) && other.site == site && other.kind
                == FlowKind::Branch;
        assert(other == flow || seen.flows.contains(other) && seen.follows(other));
    }
    assert(more.flows.contains(flow));
}

impl Edges {
    /// How many ways lead out of `site`.
    fn ways_out(&self, site: u32, Ghost(region): Ghost<Region>) -> (r: usize)
        requires
            self.of(region),
        ensures
            r == region.successors(site).len(),
    {
        assert(region.successors(site) =~= Set::new(|to: u32| relates(self.successors, site, to)));
        count(&self.successors, site)
    }

    /// How many ways lead to `target`.
    fn ways_in(&self, target: u32, Ghost(region): Ghost<Region>) -> (r: usize)
        requires
            self.of(region),
        ensures
            r == region.predecessors(target).len(),
    {
        assert(region.predecessors(target) =~= Set::new(
            |from: u32| relates(self.predecessors, target, from),
        ));
        count(&self.predecessors, target)
    }

    /// Note those targets of the edges at position `i` at which blocks start.
    fn add_leaders(&self, i: usize, leaders: &mut OrderedSet<u32>, Ghost(region): Ghost<Region>)
        requires
            self.of(region),
            i < self.successors.keys@.len(),
            old(leaders).wf(),
            forall|at: u32| #[trigger] old(leaders)@.contains(at) ==> region.is_leader(at),
        ensures
            final(leaders).wf(),
            forall|at: u32| #[trigger] final(leaders)@.contains(at) ==> region.is_leader(at),
            forall|at: u32| #[trigger] old(leaders)@.contains(at) ==> final(leaders)@.contains(at),
            forall|at: u32| #[trigger]
                region.parts(self.successors.keys@[i as int], at) ==> final(leaders)@.contains(at),
    {
        let site: u32 = self.successors.keys[i];
        let split = self.branching.contains(&site) || self.ways_out(site, Ghost(region)) != 1;
        let targets = &self.successors.values[i];
        proof {
            self.successors.lemma_entry(i as int);
        }
        let mut j: usize = 0;
        while j < targets.items.len()
            invariant
                self.of(region),
                i < self.successors.keys@.len(),
                site == self.successors.keys@[i as int],
                *targets == self.successors.values@[i as int],
                self.successors@.dom().contains(site),
                self.successors@[site] == *targets,
                split == (region.branches(site) || region.successors(site).len() != 1),
                j <= targets.items@.len(),
                leaders.wf(),
                forall|at: u32| #[trigger] leaders@.contains(at) ==> region.is_leader(at),
                forall|at: u32| #[trigger] old(leaders)@.contains(at) ==> leaders@.contains(at),
                forall|k: int|
                    0 <= k < j && region.parts(site, #[trigger] targets.items@[k])
                        ==> leaders@.contains(targets.items@[k]),
            decreases targets.items@.len() - j,
        {
            let target: u32 = targets.items[j];
            proof {
                assert(targets@.contains(targets.items@[j as int]));
                assert(relates(self.successors, site, target));
            }
            if split || self.ways_in(target, Ghost(region)) != 1 {
                assert(region.parts(site, target));
                leaders.insert(target);
            }
            j += 1;
        }
        proof {
            assert forall|at: u32| #[trigger] region.parts(site, at) implies leaders@.contains(
                at,
            ) by {
                assert(relates(self.successors, site, at));
                let k = choose|k: int| 0 <= k < targets.items@.len() && targets.items@[k] == at;
                assert(region.parts(site, targets.items@[k]));
            }
        }
    }

    /// The addresses at which blocks start.
    fn leaders(
        &self,
        analysis: &ControlFlowAnalysis,
        owner: u32,
        owned: &OrderedSet<u32>,
        Ghost(region): Ghost<Region>,
    ) -> (r: OrderedSet<u32>)
        requires
            analysis.wf(),
            owned.wf(),
            self.of(region),
            region.owner == owner,
            region.owned == owned@,
            region.functions == analysis@.functions,
        ensures
            r.wf(),
            r@ == region.leaders(),
    {
        let mut leaders: OrderedSet<u32> = OrderedSet::new();
        leaders.insert(owner);
        let functions = &analysis.functions;
        let mut i: usize = 0;
        while i < functions.items.len()
            invariant
                *functions == analysis.functions,
                owned.wf(),
                region.owned == owned@,
                region.functions == analysis@.functions,
                leaders.wf(),
                leaders@.contains(region.owner),
                i <= functions.items@.len(),
                forall|at: u32| #[trigger] leaders@.contains(at) ==> region.is_leader(at),
                forall|k: int|
                    0 <= k < i && owned@.contains(#[trigger] functions.items@[k])
                        ==> leaders@.contains(functions.items@[k]),
            decreases functions.items@.len() - i,
        {
            let at: u32 = functions.items[i];
            assert(functions@.contains(functions.items@[i as int]));
            if owned.contains(&at) {
                leaders.insert(at);
            }
            i += 1;
        }
        assert forall|at: u32| #[trigger]
            region.functions.contains(at) && region.owned.contains(at) implies leaders@.contains(
            at,
        ) by {
            let k = choose|k: int| 0 <= k < functions.items@.len() && functions.items@[k] == at;
            assert(owned@.contains(functions.items@[k]));
        }
        let mut j: usize = 0;
        while j < self.successors.keys.len()
            invariant
                self.of(region),
                leaders.wf(),
                leaders@.contains(region.owner),
                j <= self.successors.keys@.len(),
                forall|at: u32| #[trigger] leaders@.contains(at) ==> region.is_leader(at),
                forall|at: u32| #[trigger]
                    region.functions.contains(at) && region.owned.contains(at)
                        ==> leaders@.contains(at),
                forall|k: int, at: u32|
                    0 <= k < j && #[trigger] region.parts(self.successors.keys@[k], at)
                        ==> leaders@.contains(at),
            decreases self.successors.keys@.len() - j,
        {
            self.add_leaders(j, &mut leaders, Ghost(region));
            j += 1;
        }
        proof {
            assert forall|at: u32| region.is_leader(at) implies leaders@.contains(at) by {
                if exists|site: u32| #[trigger] region.parts(site, at) {
                    let site = choose|site: u32| #[trigger] region.parts(site, at);
                    assert(relates(self.successors, site, at));
                    let k = self.successors.lemma_position(site);
                    assert(region.parts(self.successors.keys@[k], at));
                }
            }
            assert(leaders@ =~= region.leaders());
        }
        leaders
    }

    /// The instruction that follows `at` in its block.
    fn onward(
        &self,
        leaders: &OrderedSet<u32>,
        at: u32,
        Ghost(region): Ghost<Region>,
    ) -> (r: Option<u32>)
        requires
            self.of(region),
            leaders.wf(),
            leaders@ == region.leaders(),
        ensures
            r == region.onward(at),
    {
        if self.ways_out(at, Ghost(region)) != 1 || self.branching.contains(&at) {
            return None;
        }
        let position: usize = match self.successors.find(at) {
            Some(position) => position,
            None => {
                assert(region.successors(at) =~= Set::empty()) by {
                    assert forall|to: u32| !region.goes(at, to) by {
                        assert(!relates(self.successors, at, to));
                    }
                }
                return None;
            },
        };
        let set = &self.successors.values[position];
        proof {
            set.lemma_len();
            assert(region.successors(at) =~= set@) by {
                assert forall|to: u32| region.goes(at, to) == set@.contains(to) by {
                    assert(relates(self.successors, at, to) == set@.contains(to));
                }
            }
            assert(set.items@.len() == 1);
        }
        let next: u32 = set.items[0];
        proof {
            let chosen = region.successors(at).choose();
            assert(set@.contains(set.items@[0]));
            assert(set@.contains(chosen));
            let k = choose|k: int| 0 <= k < set.items@.len() && set.items@[k] == chosen;
            assert(k == 0);
        }
        if leaders.contains(&next) {
            None
        } else {
            Some(next)
        }
    }
}

/// The instructions of blocks by their start.
pub open spec fn block_lists(blocks: AddressMap<Block>) -> Map<u32, Seq<u32>> {
    blocks@.map_values(|block: Block| block.instructions@)
}

impl BlockGraph {
    /// The blocks without their successors.
    spec fn drawn(&self) -> BlocksView {
        BlocksView { lists: block_lists(self.blocks), homes: self.homes@ }
    }

    spec fn drawn_wf(&self) -> bool {
        &&& self.blocks.wf()
        &&& self.homes.wf()
        &&& forall|i: int|
            0 <= i < self.blocks.values@.len() ==> (
            #[trigger] self.blocks.values@[i]).instructions@.len() > 0
    }

    /// The graph is that of the region.
    pub open spec fn of(&self, region: Region) -> bool {
        &&& self.blocks.wf()
        &&& self.homes.wf()
        &&& self.homes@ == blocks(region).homes
        &&& block_lists(self.blocks) == blocks(region).lists
        &&& forall|i: int|
            #![trigger self.blocks.values@[i]]
            0 <= i < self.blocks.values@.len() ==> {
                &&& self.blocks.values@[i].instructions@.len() > 0
                &&& self.blocks.values@[i].successors.wf()
                &&& self.blocks.values@[i].successors@ == blocks(region).successors(
                    region,
                    self.blocks.keys@[i],
                )
            }
    }

    /// Add the block that starts at `start`, unless that is in one already.
    fn add_block(
        &mut self,
        edges: &Edges,
        leaders: &OrderedSet<u32>,
        owned: &OrderedSet<u32>,
        start: u32,
        Ghost(region): Ghost<Region>,
    )
        requires
            old(self).drawn_wf(),
            edges.of(region),
            leaders.wf(),
            leaders@ == region.leaders(),
            owned.wf(),
            owned@ == region.owned,
        ensures
            final(self).drawn_wf(),
            final(self).drawn() == old(self).drawn().with_block(region, start),
    {
        let ghost before = self.drawn();
        if !owned.contains(&start) || self.homes.contains_key(start) {
            return;
        }
        let mut list: Vec<u32> = Vec::new();
        let mut next: Option<u32> = Some(start);
        let ghost whole = chain(region, before.homes.dom(), start, all_addresses());
        proof {
            self.homes.lemma_len();
            assert(list@ + whole =~= whole);
        }
        while next.is_some()
            invariant
                edges.of(region),
                leaders.wf(),
                leaders@ == region.leaders(),
                self.homes.wf(),
                self.blocks == old(self).blocks,
                before == old(self).drawn(),
                before.homes.dom().finite(),
                self.homes@.dom().finite(),
                list@.len() + before.homes.dom().len() == self.homes@.dom().len(),
                self.homes@.dom().len() <= all_addresses(),
                next matches Some(at) ==> !self.homes@.dom().contains(at),
                next is None ==> list@.len() > 0,
                whole == list@ + match next {
                    Some(at) => chain(
                        region,
                        self.homes@.dom(),
                        at,
                        (all_addresses() - list@.len()) as nat,
                    ),
                    None => Seq::empty(),
                },
                forall|at: u32| #[trigger]
                    self.homes@.dom().contains(at) <==> before.homes.dom().contains(at)
                        || list@.contains(at),
                forall|at: u32| #[trigger]
                    self.homes@.dom().contains(at) ==> self.homes@[at] == (if list@.contains(at) {
                        start
                    } else {
                        before.homes[at]
                    }),
            decreases
                    all_addresses() - list@.len() + (if next is Some {
                        1int
                    } else {
                        0int
                    }),
        {
            let at: u32 = next.unwrap();
            let ghost shorter = list@;
            let ghost homes = self.homes@;
            self.homes.insert(at, start);
            list.push(at);
            let onward = edges.onward(leaders, at, Ghost(region));
            proof {
                self.homes.lemma_len();
                assert(self.homes@.dom() =~= homes.dom().insert(at));
                assert forall|x: u32| list@.contains(x) <==> shorter.contains(x) || x == at by {
                    if shorter.contains(x) {
                        let k = choose|k: int| 0 <= k < shorter.len() && shorter[k] == x;
                        assert(list@[k] == x);
                    }
                    assert(list@[shorter.len() as int] == at);
                    if list@.contains(x) {
                        let k = choose|k: int| 0 <= k < list@.len() && list@[k] == x;
                        if k < shorter.len() {
                            assert(shorter[k] == x);
                        }
                    }
                }
            }
            let ghost room = (all_addresses() - shorter.len()) as nat;
            let ghost tail = chain(region, homes.dom(), at, room);
            next =
            match onward {
                Some(to) => if self.homes.contains_key(to) {
                    None
                } else {
                    Some(to)
                },
                None => None,
            };
            proof {
                assert(room > 0);
                let rest = match next {
                    Some(to) => chain(region, self.homes@.dom(), to, (room - 1) as nat),
                    None => Seq::empty(),
                };
                assert(tail =~= seq![at] + rest);
                assert(shorter + tail =~= list@ + rest);
            }
        }
        let ghost list_view = list@;
        assert(list_view =~= whole);
        self.blocks.insert(start, Block { instructions: list, successors: OrderedSet::new() });
        proof {
            let after = before.with_block(region, start);
            assert(self.homes@ =~= after.homes);
            assert(block_lists(self.blocks) =~= after.lists);
            assert forall|i: int| 0 <= i < self.blocks.values@.len() implies (
            #[trigger] self.blocks.values@[i]).instructions@.len() > 0 by {
                self.blocks.lemma_entry(i);
                let key = self.blocks.keys@[i];
                if key != start {
                    let k = old(self).blocks.lemma_position(key);
                    assert(old(self).blocks.values@[k].instructions@.len() > 0);
                }
            }
        }
    }

    /// Add the blocks that start at each of `starts`.
    fn add_blocks(
        &mut self,
        edges: &Edges,
        leaders: &OrderedSet<u32>,
        owned: &OrderedSet<u32>,
        starts: &OrderedSet<u32>,
        Ghost(region): Ghost<Region>,
    )
        requires
            old(self).drawn_wf(),
            edges.of(region),
            leaders.wf(),
            leaders@ == region.leaders(),
            owned.wf(),
            owned@ == region.owned,
        ensures
            final(self).drawn_wf(),
            final(self).drawn() == old(self).drawn().with_blocks(region, starts.items@),
    {
        let ghost before = self.drawn();
        let mut i: usize = 0;
        while i < starts.items.len()
            invariant
                self.drawn_wf(),
                edges.of(region),
                leaders.wf(),
                leaders@ == region.leaders(),
                owned.wf(),
                owned@ == region.owned,
                i <= starts.items@.len(),
                self.drawn() == before.with_blocks(region, starts.items@.take(i as int)),
            decreases starts.items@.len() - i,
        {
            self.add_block(edges, leaders, owned, starts.items[i], Ghost(region));
            proof {
                let more = starts.items@.take(i + 1);
                assert(more.drop_last() =~= starts.items@.take(i as int));
                assert(more.last() == starts.items@[i as int]);
            }
            i += 1;
        }
        assert(starts.items@.take(i as int) =~= starts.items@);
    }

    /// Where control goes from the block at position `i`.
    fn block_successors(&self, edges: &Edges, i: usize, Ghost(region): Ghost<Region>) -> (r:
        OrderedSet<u32>)
        requires
            self.blocks.wf(),
            self.homes.wf(),
            edges.of(region),
            i < self.blocks.keys@.len(),
            self.blocks.values@[i as int].instructions@.len() > 0,
        ensures
            r.wf(),
            r@ == self.drawn().successors(region, self.blocks.keys@[i as int]),
    {
        let start: u32 = self.blocks.keys[i];
        let list = &self.blocks.values[i].instructions;
        let last: u32 = list[list.len() - 1];
        proof {
            self.blocks.lemma_entry(i as int);
            assert(self.drawn().lists[start].last() == last);
        }
        let mut r: OrderedSet<u32> = OrderedSet::new();
        let ghost wanted = self.drawn().successors(region, start);
        match edges.successors.find(last) {
            Some(at) => {
                let targets = &edges.successors.values[at];
                let branching = edges.branching.contains(&last);
                let mut j: usize = 0;
                while j < targets.items.len()
                    invariant
                        self.homes.wf(),
                        edges.of(region),
                        edges.successors@.dom().contains(last),
                        edges.successors@[last] == *targets,
                        branching == region.branches(last),
                        self.drawn().lists[start].last() == last,
                        wanted == self.drawn().successors(region, start),
                        j <= targets.items@.len(),
                        r.wf(),
                        forall|to: u32| #[trigger] r@.contains(to) ==> wanted.contains(to),
                        forall|k: int|
                            0 <= k < j && self.homes@.dom().contains(#[trigger] targets.items@[k])
                                && (self.homes@[targets.items@[k]] != start || branching)
                                ==> r@.contains(self.homes@[targets.items@[k]]),
                    decreases targets.items@.len() - j,
                {
                    let target: u32 = targets.items[j];
                    proof {
                        assert(targets@.contains(targets.items@[j as int]));
                        assert(relates(edges.successors, last, target));
                        assert(region.goes(last, target));
                    }
                    if let Some(home) = self.homes.get(target) {
                        if *home != start || branching {
                            assert(wanted.contains(*home));
                            r.insert(*home);
                        }
                    }
                    j += 1;
                }
                proof {
                    assert forall|to: u32| wanted.contains(to) implies r@.contains(to) by {
                        let target = choose|target: u32| #[trigger]
                            region.goes(last, target) && self.homes@.dom().contains(target)
                                && self.homes@[target] == to;
                        assert(relates(edges.successors, last, target));
                        let k = choose|k: int|
                            0 <= k < targets.items@.len() && targets.items@[k] == target;
                        assert(self.homes@.dom().contains(targets.items@[k]));
                    }
                }
            },
            None => {
                proof {
                    assert forall|to: u32| !wanted.contains(to) by {
                        if wanted.contains(to) {
                            let target = choose|target: u32| #[trigger]
                                region.goes(last, target) && self.homes@.dom().contains(target)
                                    && self.homes@[target] == to;
                            assert(relates(edges.successors, last, target));
                        }
                    }
                }
            },
        }
        assert(r@ =~= wanted);
        r
    }

    /// The basic blocks of the instructions `owned` of the function at `owner`.
    pub fn new(analysis: &ControlFlowAnalysis, owner: u32, owned: &OrderedSet<u32>) -> (r: Self)
        requires
            analysis.wf(),
            owned.wf(),
        ensures
            r.of(
                Region {
                    owner,
                    owned: owned@,
                    functions: analysis@.functions,
                    flows: analysis@.flows,
                },
            ),
    {
        let ghost region = Region {
            owner,
            owned: owned@,
            functions: analysis@.functions,
            flows: analysis@.flows,
        };
        let edges = Edges::new(analysis, owner, owned, Ghost(region));
        let leaders = edges.leaders(analysis, owner, owned, Ghost(region));
        let mut graph = BlockGraph { blocks: AddressMap::new(), homes: AddressMap::new() };
        proof {
            assert(block_lists(graph.blocks) =~= Map::empty());
            lemma_in_order(leaders.items@);
            lemma_in_order(owned.items@);
        }
        graph.add_blocks(&edges, &leaders, owned, &leaders, Ghost(region));
        graph.add_blocks(&edges, &leaders, owned, owned, Ghost(region));
        let mut i: usize = 0;
        while i < graph.blocks.keys.len()
            invariant
                graph.drawn_wf(),
                edges.of(region),
                graph.drawn() == blocks(region),
                i <= graph.blocks.keys@.len(),
                forall|k: int|
                    #![trigger graph.blocks.values@[k]]
                    0 <= k < i ==> graph.blocks.values@[k].successors.wf()
                        && graph.blocks.values@[k].successors@ == blocks(region).successors(
                        region,
                        graph.blocks.keys@[k],
                    ),
            decreases graph.blocks.keys@.len() - i,
        {
            let ghost before = graph.blocks;
            let set = graph.block_successors(&edges, i, Ghost(region));
            graph.blocks.values[i].successors = set;
            proof {
                before.lemma_replaced(graph.blocks, i as int);
                before.lemma_entry(i as int);
                assert(block_lists(graph.blocks) =~= block_lists(before));
            }
            i += 1;
        }
        graph
    }
}

} // verus!
