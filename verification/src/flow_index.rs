//! Control-flow edges by where they start and by where they end.

use crate::analysis::FlowEdge;
use crate::collections::{AddressMap, OrderedSet};
use vstd::prelude::*;

verus! {

/// Edges by their site and by their target.
pub struct FlowIndex {
    pub by_site: AddressMap<Vec<FlowEdge>>,
    pub by_target: AddressMap<Vec<FlowEdge>>,
}

/// The list of `key` holds exactly those edges of `flows` that `key` stands for.
pub open spec fn lists(
    index: AddressMap<Vec<FlowEdge>>,
    flows: Set<FlowEdge>,
    key_of: spec_fn(FlowEdge) -> u32,
) -> bool {
    &&& index.wf()
    &&& forall|key: u32, flow: FlowEdge|
        #![trigger index@[key]@.contains(flow)]
        index@.dom().contains(key) && index@[key]@.contains(flow) ==> flows.contains(flow)
            && key_of(flow) == key
    &&& forall|flow: FlowEdge| #[trigger]
        flows.contains(flow) ==> index@.dom().contains(key_of(flow))
            && index@[key_of(flow)]@.contains(flow)
}

impl FlowIndex {
    /// The index lists exactly the edges of `flows`.
    pub open spec fn indexes(&self, flows: Set<FlowEdge>) -> bool {
        &&& lists(self.by_site, flows, |flow: FlowEdge| flow.site)
        &&& lists(self.by_target, flows, |flow: FlowEdge| flow.target)
    }

    /// Index `flows`.
    pub fn new(flows: &OrderedSet<FlowEdge>) -> (r: Self)
        ensures
            r.indexes(flows@),
    {
        let mut by_site: AddressMap<Vec<FlowEdge>> = AddressMap::new();
        let mut by_target: AddressMap<Vec<FlowEdge>> = AddressMap::new();
        let mut i: usize = 0;
        let ghost site_of = |flow: FlowEdge| flow.site;
        let ghost target_of = |flow: FlowEdge| flow.target;
        while i < flows.items.len()
            invariant
                i <= flows.items@.len(),
                site_of == (|flow: FlowEdge| flow.site),
                target_of == (|flow: FlowEdge| flow.target),
                lists(by_site, flows.items@.take(i as int).to_set(), site_of),
                lists(by_target, flows.items@.take(i as int).to_set(), target_of),
            decreases flows.items@.len() - i,
        {
            let flow = flows.items[i];
            let ghost seen = flows.items@.take(i as int).to_set();
            file(&mut by_site, flow.site, flow, Ghost(seen), Ghost(site_of));
            file(&mut by_target, flow.target, flow, Ghost(seen), Ghost(target_of));
            proof {
                crate::collections::lemma_take_to_set(flows.items@, i as int);
            }
            i += 1;
        }
        assert(flows.items@.take(i as int) =~= flows.items@);
        FlowIndex { by_site, by_target }
    }
}

/// List one more edge under `key`.
fn file(
    index: &mut AddressMap<Vec<FlowEdge>>,
    key: u32,
    flow: FlowEdge,
    Ghost(seen): Ghost<Set<FlowEdge>>,
    Ghost(key_of): Ghost<spec_fn(FlowEdge) -> u32>,
)
    requires
        lists(*old(index), seen, key_of),
        key_of(flow) == key,
    ensures
        lists(*final(index), seen.insert(flow), key_of),
{
    let mut list: Vec<FlowEdge> = Vec::new();
    match index.get(key) {
        Some(existing) => {
            let mut i: usize = 0;
            while i < existing.len()
                invariant
                    i <= existing@.len(),
                    list@ == existing@.take(i as int),
                decreases existing@.len() - i,
            {
                list.push(existing[i]);
                i += 1;
                assert(list@ =~= existing@.take(i as int));
            }
            assert(list@ =~= existing@);
        },
        None => {},
    }
    let ghost before = list@;
    list.push(flow);
    let ghost after = list@;
    let ghost was = *index;
    index.insert(key, list);
    proof {
        assert(index@[key]@ == after);
        assert forall|x: FlowEdge| after.contains(x) == (before.contains(x) || x == flow) by {
            if before.contains(x) {
                let k = choose|k: int| 0 <= k < before.len() && before[k] == x;
                assert(after[k] == x);
            }
            assert(after[before.len() as int] == flow);
        }
        assert forall|k: u32, x: FlowEdge|
            #![trigger index@[k]@.contains(x)]
            index@.dom().contains(k) && index@[k]@.contains(x) implies seen.insert(flow).contains(
            x,
        ) && key_of(x) == k by {
            if k == key {
                if x != flow {
                    assert(was@[k]@.contains(x));
                }
            } else {
                assert(was@[k]@.contains(x));
            }
        }
        assert forall|x: FlowEdge| #[trigger]
            seen.insert(flow).contains(x) implies index@.dom().contains(key_of(x))
            && index@[key_of(x)]@.contains(x) by {
            if x != flow {
                assert(was@[key_of(x)]@.contains(x));
            }
        }
    }
}

} // verus!
