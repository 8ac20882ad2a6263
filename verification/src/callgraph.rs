//! The function/call-edge graph of a control-flow analysis.
//!
//! [`callgraph`] reduces a [`ControlFlowAnalysis`] to its functions (nodes) and
//! the call edges between them, with per-node in/out-degree and a per-edge count
//! of distinct call sites. It is a thin projection of what the traversal already
//! recorded, exposed so a large listing can be navigated and clustered instead
//! of scrolled.

use crate::analysis::{AnalysisView, CallEdge, ControlFlowAnalysis};
use crate::collections::{
    ascending, in_order, lemma_in_order, AddressMap, AddressPair, OrderedSet, Ranked,
};
use vstd::prelude::*;

verus! {

/// One function in the call graph, with its degree.
#[derive(Clone, Copy, Debug, PartialEq, Eq, Structural)]
pub struct CallGraphNode {
    /// Hunk-relative address of the function entry.
    pub function: u32,
    /// Number of distinct functions that call this one.
    pub in_degree: usize,
    /// Number of distinct functions this one calls.
    pub out_degree: usize,
}

/// A call relationship between two functions.
#[derive(Clone, Copy, Debug, PartialEq, Eq, Structural)]
pub struct CallGraphEdge {
    pub caller: u32,
    pub callee: u32,
    /// Number of distinct call sites in `caller` that reach `callee`.
    pub calls: usize,
}

/// The functions and call edges of an analysis.
#[derive(Debug, PartialEq, Eq)]
pub struct CallGraph {
    pub nodes: Vec<CallGraphNode>,
    pub edges: Vec<CallGraphEdge>,
}

/// How often a call occurs in a list.
pub open spec fn occurrences(calls: Seq<AddressPair>, call: AddressPair) -> nat
    decreases calls.len(),
{
    if calls.len() == 0 {
        0
    } else if calls.last() == call {
        occurrences(calls.drop_last(), call) + 1
    } else {
        occurrences(calls.drop_last(), call)
    }
}

/// The distinct functions that call `callee`.
pub open spec fn callers_of(calls: Seq<AddressPair>, callee: u32) -> Set<u32> {
    Set::new(|caller: u32| calls.contains(AddressPair { first: caller, second: callee }))
}

/// The distinct functions that `caller` calls.
pub open spec fn callees_of(calls: Seq<AddressPair>, caller: u32) -> Set<u32> {
    Set::new(|callee: u32| calls.contains(AddressPair { first: caller, second: callee }))
}

impl CallGraph {
    /// The graph has one node per function, in their order, and one edge per
    /// distinct call, in ascending order of caller and callee.
    pub open spec fn shows(&self, functions: Seq<u32>, calls: Seq<AddressPair>) -> bool {
        let pairs = in_order(calls.to_set());
        &&& self.nodes@.len() == functions.len()
        &&& forall|i: int|
            #![trigger self.nodes@[i]]
            0 <= i < functions.len() ==> {
                &&& self.nodes@[i].function == functions[i]
                &&& self.nodes@[i].in_degree == callers_of(calls, functions[i]).len()
                &&& self.nodes@[i].out_degree == callees_of(calls, functions[i]).len()
            }
        &&& self.edges@.len() == pairs.len()
        &&& forall|i: int|
            #![trigger self.edges@[i]]
            0 <= i < pairs.len() ==> {
                &&& self.edges@[i].caller == pairs[i].first
                &&& self.edges@[i].callee == pairs[i].second
                &&& self.edges@[i].calls == occurrences(calls, pairs[i])
            }
    }
}

proof fn lemma_occurrences(calls: Seq<AddressPair>, call: AddressPair)
    ensures
        occurrences(calls, call) <= calls.len(),
    decreases calls.len(),
{
    if calls.len() > 0 {
        lemma_occurrences(calls.drop_last(), call);
    }
}

proof fn lemma_callers(pairs: Seq<AddressPair>, i: int, callee: u32)
    requires
        ascending(pairs),
        0 <= i < pairs.len(),
        callers_of(pairs.take(i), callee).finite(),
    ensures
        callers_of(pairs.take(i + 1), callee).finite(),
        callers_of(pairs.take(i + 1), callee).len() == callers_of(pairs.take(i), callee).len() + (
        if pairs[i].second == callee {
            1int
        } else {
            0int
        }),
{
    let less = callers_of(pairs.take(i), callee);
    let more = callers_of(pairs.take(i + 1), callee);
    assert forall|caller: u32| #[trigger] more.contains(caller) == (less.contains(caller) || (
    pairs[i].second == callee && pairs[i].first == caller)) by {
        let pair = AddressPair { first: caller, second: callee };
        if pairs.take(i).contains(pair) {
            let k = choose|k: int| 0 <= k < i && pairs.take(i)[k] == pair;
            assert(pairs.take(i + 1)[k] == pair);
        }
        if pairs[i] == pair {
            assert(pairs.take(i + 1)[i] == pair);
        }
        if pairs.take(i + 1).contains(pair) {
            let longer = pairs.take(i + 1);
            let k = choose|k: int| 0 <= k < longer.len() && longer[k] == pair;
            if k < i {
                assert(pairs.take(i)[k] == pair);
            }
        }
    }
    if pairs[i].second == callee {
        let caller = pairs[i].first;
        if less.contains(caller) {
            let pair = AddressPair { first: caller, second: callee };
            let k = choose|k: int| 0 <= k < i && pairs.take(i)[k] == pair;
            assert(pairs[k].before(pairs[i]));
        }
        assert(more =~= less.insert(caller));
    } else {
        assert(more =~= less);
    }
}

proof fn lemma_callees(pairs: Seq<AddressPair>, i: int, caller: u32)
    requires
        ascending(pairs),
        0 <= i < pairs.len(),
        callees_of(pairs.take(i), caller).finite(),
    ensures
        callees_of(pairs.take(i + 1), caller).finite(),
        callees_of(pairs.take(i + 1), caller).len() == callees_of(pairs.take(i), caller).len() + (
        if pairs[i].first == caller {
            1int
        } else {
            0int
        }),
{
    let less = callees_of(pairs.take(i), caller);
    let more = callees_of(pairs.take(i + 1), caller);
    assert forall|callee: u32| #[trigger] more.contains(callee) == (less.contains(callee) || (
    pairs[i].first == caller && pairs[i].second == callee)) by {
        let pair = AddressPair { first: caller, second: callee };
        if pairs.take(i).contains(pair) {
            let k = choose|k: int| 0 <= k < i && pairs.take(i)[k] == pair;
            assert(pairs.take(i + 1)[k] == pair);
        }
        if pairs[i] == pair {
            assert(pairs.take(i + 1)[i] == pair);
        }
        if pairs.take(i + 1).contains(pair) {
            let longer = pairs.take(i + 1);
            let k = choose|k: int| 0 <= k < longer.len() && longer[k] == pair;
            if k < i {
                assert(pairs.take(i)[k] == pair);
            }
        }
    }
    if pairs[i].first == caller {
        let callee = pairs[i].second;
        if less.contains(callee) {
            let pair = AddressPair { first: caller, second: callee };
            let k = choose|k: int| 0 <= k < i && pairs.take(i)[k] == pair;
            assert(pairs[k].before(pairs[i]));
        }
        assert(more =~= less.insert(callee));
    } else {
        assert(more =~= less);
    }
}

/// The count that a map holds for an address, zero where it holds none.
pub open spec fn counted(counts: Map<u32, usize>, address: u32) -> nat {
    if counts.dom().contains(address) {
        counts[address] as nat
    } else {
        0
    }
}

fn count(counts: &AddressMap<usize>, address: u32) -> (r: usize)
    requires
        counts.wf(),
    ensures
        r == counted(counts@, address),
{
    match counts.get(address) {
        Some(n) => *n,
        None => 0,
    }
}

/// How many distinct callers each function has.
fn in_degrees(pairs: &OrderedSet<AddressPair>) -> (r: AddressMap<usize>)
    requires
        pairs.wf(),
    ensures
        r.wf(),
        forall|f: u32| #[trigger]
            counted(r@, f) == callers_of(pairs.items@, f).len() && callers_of(
                pairs.items@,
                f,
            ).finite(),
{
    let mut r: AddressMap<usize> = AddressMap::new();
    let mut i: usize = 0;
    proof {
        assert forall|f: u32| #[trigger] callers_of(pairs.items@.take(0), f) =~= Set::empty() by {}
    }
    while i < pairs.items.len()
        invariant
            pairs.wf(),
            r.wf(),
            i <= pairs.items@.len(),
            forall|f: u32| #[trigger]
                counted(r@, f) <= i && counted(r@, f) == callers_of(
                    pairs.items@.take(i as int),
                    f,
                ).len(),
            forall|f: u32| #[trigger] callers_of(pairs.items@.take(i as int), f).finite(),
        decreases pairs.items@.len() - i,
    {
        let callee: u32 = pairs.items[i].second;
        let ghost before = r@;
        let n: usize = count(&r, callee);
        r.insert(callee, n + 1);
        proof {
            assert forall|f: u32|
                #![trigger counted(r@, f)]
                #![trigger callers_of(pairs.items@.take(i + 1), f)]
                counted(r@, f) <= i + 1 && counted(r@, f) == callers_of(
                    pairs.items@.take(i + 1),
                    f,
                ).len() && callers_of(pairs.items@.take(i + 1), f).finite() by {
                assert(counted(before, f) <= i);
                lemma_callers(pairs.items@, i as int, f);
            }
        }
        i += 1;
    }
    assert(pairs.items@.take(i as int) =~= pairs.items@);
    r
}

/// How many distinct functions each function calls.
fn out_degrees(pairs: &OrderedSet<AddressPair>) -> (r: AddressMap<usize>)
    requires
        pairs.wf(),
    ensures
        r.wf(),
        forall|f: u32| #[trigger]
            counted(r@, f) == callees_of(pairs.items@, f).len() && callees_of(
                pairs.items@,
                f,
            ).finite(),
{
    let mut r: AddressMap<usize> = AddressMap::new();
    let mut i: usize = 0;
    proof {
        assert forall|f: u32| #[trigger] callees_of(pairs.items@.take(0), f) =~= Set::empty() by {}
    }
    while i < pairs.items.len()
        invariant
            pairs.wf(),
            r.wf(),
            i <= pairs.items@.len(),
            forall|f: u32| #[trigger]
                counted(r@, f) <= i && counted(r@, f) == callees_of(
                    pairs.items@.take(i as int),
                    f,
                ).len(),
            forall|f: u32| #[trigger] callees_of(pairs.items@.take(i as int), f).finite(),
        decreases pairs.items@.len() - i,
    {
        let caller: u32 = pairs.items[i].first;
        let ghost before = r@;
        let n: usize = count(&r, caller);
        r.insert(caller, n + 1);
        proof {
            assert forall|f: u32|
                #![trigger counted(r@, f)]
                #![trigger callees_of(pairs.items@.take(i + 1), f)]
                counted(r@, f) <= i + 1 && counted(r@, f) == callees_of(
                    pairs.items@.take(i + 1),
                    f,
                ).len() && callees_of(pairs.items@.take(i + 1), f).finite() by {
                assert(counted(before, f) <= i);
                lemma_callees(pairs.items@, i as int, f);
            }
        }
        i += 1;
    }
    assert(pairs.items@.take(i as int) =~= pairs.items@);
    r
}

/// One edge per distinct call, with the number of its sites.
fn count_edges(calls: &[AddressPair], pairs: &OrderedSet<AddressPair>) -> (r: Vec<CallGraphEdge>)
    requires
        pairs.wf(),
        pairs@ == calls@.to_set(),
    ensures
        r@.len() == pairs.items@.len(),
        forall|k: int|
            #![trigger r@[k]]
            0 <= k < r@.len() ==> r@[k].caller == pairs.items@[k].first && r@[k].callee
                == pairs.items@[k].second && r@[k].calls == occurrences(calls@, pairs.items@[k]),
{
    let mut r: Vec<CallGraphEdge> = Vec::new();
    let mut i: usize = 0;
    while i < pairs.items.len()
        invariant
            i <= pairs.items@.len(),
            r@.len() == i,
            forall|k: int|
                #![trigger r@[k]]
                0 <= k < i ==> r@[k].caller == pairs.items@[k].first && r@[k].callee
                    == pairs.items@[k].second && r@[k].calls == 0,
        decreases pairs.items@.len() - i,
    {
        let pair = pairs.items[i];
        r.push(CallGraphEdge { caller: pair.first, callee: pair.second, calls: 0 });
        i += 1;
    }
    let mut j: usize = 0;
    while j < calls.len()
        invariant
            pairs.wf(),
            pairs@ == calls@.to_set(),
            j <= calls@.len(),
            r@.len() == pairs.items@.len(),
            forall|k: int|
                #![trigger r@[k]]
                0 <= k < r@.len() ==> r@[k].caller == pairs.items@[k].first && r@[k].callee
                    == pairs.items@[k].second && r@[k].calls == occurrences(
                    calls@.take(j as int),
                    pairs.items@[k],
                ),
        decreases calls@.len() - j,
    {
        let call = calls[j];
        let at: usize = pairs.rank(&call);
        proof {
            assert(calls@.contains(calls@[j as int]));
            assert(pairs@.contains(call));
            let k = choose|k: int| 0 <= k < pairs.items@.len() && pairs.items@[k] == call;
            assert(!pairs.items@[k].before(call));
            assert(at <= k);
            if at < k {
                assert(pairs.items@[at as int].before(pairs.items@[k]));
            }
            assert(at == k);
            assert(calls@.take(j + 1).drop_last() =~= calls@.take(j as int));
            lemma_occurrences(calls@.take(j as int), call);
        }
        let ghost before = r@;
        let edge = r[at];
        r.set(
            at,
            CallGraphEdge { caller: edge.caller, callee: edge.callee, calls: edge.calls + 1 },
        );
        proof {
            assert forall|k: int|
                #![trigger r@[k]]
                0 <= k < r@.len() implies r@[k].caller == pairs.items@[k].first && r@[k].callee
                == pairs.items@[k].second && r@[k].calls == occurrences(
                calls@.take(j + 1),
                pairs.items@[k],
            ) by {
                assert(before[k].caller == pairs.items@[k].first);
                if k < at {
                    assert(pairs.items@[k].before(pairs.items@[at as int]));
                } else if at < k {
                    assert(pairs.items@[at as int].before(pairs.items@[k]));
                }
            }
        }
        j += 1;
    }
    assert(calls@.take(j as int) =~= calls@);
    r
}

proof fn lemma_same_members(pairs: Seq<AddressPair>, calls: Seq<AddressPair>, f: u32)
    requires
        pairs.to_set() == calls.to_set(),
    ensures
        callers_of(pairs, f) == callers_of(calls, f),
        callees_of(pairs, f) == callees_of(calls, f),
{
    assert forall|pair: AddressPair| #[trigger] pairs.contains(pair) == calls.contains(pair) by {
        assert(pairs.to_set().contains(pair) == pairs.contains(pair));
        assert(calls.to_set().contains(pair) == calls.contains(pair));
    }
    assert(callers_of(pairs, f) =~= callers_of(calls, f));
    assert(callees_of(pairs, f) =~= callees_of(calls, f));
}

/// The same graph from the functions and call sites alone.
///
/// For a consumer that has the edges without the traversal that found them. Each
/// call is a caller and a callee.
pub fn callgraph_from_edges(functions: &[u32], calls: &[AddressPair]) -> (r: CallGraph)
    ensures
        r.shows(functions@, calls@),
{
    let pairs: OrderedSet<AddressPair> = OrderedSet::from_slice(calls);
    let ingoing = in_degrees(&pairs);
    let outgoing = out_degrees(&pairs);
    let edges = count_edges(calls, &pairs);
    let mut nodes: Vec<CallGraphNode> = Vec::new();
    proof {
        lemma_in_order(pairs.items@);
    }
    let mut i: usize = 0;
    while i < functions.len()
        invariant
            ingoing.wf(),
            outgoing.wf(),
            pairs@ == calls@.to_set(),
            forall|f: u32| #[trigger] counted(ingoing@, f) == callers_of(pairs.items@, f).len(),
            forall|f: u32| #[trigger] counted(outgoing@, f) == callees_of(pairs.items@, f).len(),
            i <= functions@.len(),
            nodes@.len() == i,
            forall|k: int|
                #![trigger nodes@[k]]
                0 <= k < i ==> nodes@[k].function == functions@[k] && nodes@[k].in_degree
                    == callers_of(calls@, functions@[k]).len() && nodes@[k].out_degree
                    == callees_of(calls@, functions@[k]).len(),
        decreases functions@.len() - i,
    {
        let function: u32 = functions[i];
        proof {
            lemma_same_members(pairs.items@, calls@, function);
        }
        nodes.push(
            CallGraphNode {
                function,
                in_degree: count(&ingoing, function),
                out_degree: count(&outgoing, function),
            },
        );
        i += 1;
    }
    CallGraph { nodes, edges }
}

/// The caller and callee of a call edge.
pub open spec fn ends(edge: CallEdge) -> AddressPair {
    AddressPair { first: edge.caller, second: edge.callee }
}

/// The caller and callee of every call site of an analysis.
pub open spec fn call_sites(view: AnalysisView) -> Seq<AddressPair> {
    in_order(view.calls).map_values(|edge: CallEdge| ends(edge))
}

/// Build the call graph of `analysis`: one node per discovered function, one
/// edge per distinct `(caller, callee)` pair (collapsing multiple call sites
/// into a `calls` count), with in/out-degree computed from the collapsed edges.
pub fn callgraph(analysis: &ControlFlowAnalysis) -> (r: CallGraph)
    requires
        analysis.wf(),
    ensures
        r.shows(in_order(analysis@.functions), call_sites(analysis@)),
{
    let edges = &analysis.calls.items;
    let mut calls: Vec<AddressPair> = Vec::new();
    proof {
        lemma_in_order(edges@);
        lemma_in_order(analysis.functions.items@);
    }
    let mut i: usize = 0;
    while i < edges.len()
        invariant
            i <= edges@.len(),
            calls@.len() == i,
            forall|k: int| 0 <= k < i ==> #[trigger] calls@[k] == ends(edges@[k]),
        decreases edges@.len() - i,
    {
        calls.push(AddressPair { first: edges[i].caller, second: edges[i].callee });
        i += 1;
    }
    assert(calls@ =~= call_sites(analysis@));
    callgraph_from_edges(&analysis.functions.items, &calls)
}

} // verus!
