//! Traversal with recovered data jump tables.
//!
//! Ownership is rebuilt after discovering data tables, and then their guards are
//! checked against the expanded graph: a newly reached branch can bypass a guard
//! that looked exclusive in the first traversal. Refused sites stay refused; the
//! bounded search falls back to explicit unresolved jumps if nested discovery
//! and validation do not settle.

use crate::analysis::{AnalysisView, ControlFlowAnalysis, UnresolvedFlow};
use crate::collections::{lemma_same_order, lemma_take_to_set, AddressMap, OrderedSet};
use crate::control_flow::{
    analyze_entries_once, copy_list, table_map, traversed, Cancel, Cancelled, FlowOptions,
    Image, OptionsView,
};
use crate::flow_index::FlowIndex;
use crate::jump_tables::{spec_targets, targets};
use crate::m68k::Isa;
use vstd::prelude::*;

verus! {

/// How often the tables are looked for anew.
pub const MAX_ROUNDS: usize = 8;

/// The tables that hold so far, and the sites whose table did not.
#[verifier::ext_equal]
pub struct Search {
    pub found: Map<u32, Seq<u32>>,
    pub refused: Set<u32>,
}

/// Whether the flow out of `site` is unresolved for some owner.
pub open spec fn is_unresolved(view: AnalysisView, site: u32) -> bool {
    exists|owner: u32| #[trigger]
        view.unresolved.contains(UnresolvedFlow { owner, address: site })
}

/// Whether a table is looked for at `site`: an unresolved jump that was not
/// refused before.
pub open spec fn is_candidate(view: AnalysisView, refused: Set<u32>, site: u32) -> bool {
    &&& is_unresolved(view, site)
    &&& !refused.contains(site)
    &&& view.instructions.dom().contains(site)
    &&& view.instructions[site].instruction.isa == Isa::Jmp
}

/// Whether the table found for `site` still holds in `view`.
pub open spec fn upheld(code: Seq<u8>, view: AnalysisView, search: Search, site: u32) -> bool {
    search.found.dom().contains(site) && spec_targets(code, view, site) == Some(search.found[site])
}

/// Whether a table for `site` is known after looking at `view`.
pub open spec fn is_known(code: Seq<u8>, view: AnalysisView, search: Search, site: u32) -> bool {
    upheld(code, view, search, site) || is_candidate(view, search.refused, site) && spec_targets(
        code,
        view,
        site,
    ) is Some
}

/// The search after looking at `view`, the traversal with the tables found.
pub open spec fn looked_again(code: Seq<u8>, view: AnalysisView, search: Search) -> Search {
    Search {
        found: Map::new(
            |site: u32| is_known(code, view, search, site),
            |site: u32| spec_targets(code, view, site)->0,
        ),
        refused: search.refused.union(
            Set::new(
                |site: u32|
                    search.found.dom().contains(site) && !upheld(code, view, search, site),
            ),
        ),
    }
}

/// What a search finds in at most `rounds` further rounds.
pub open spec fn searched(
    code: Seq<u8>,
    options: OptionsView,
    entries: Seq<u32>,
    search: Search,
    rounds: nat,
) -> AnalysisView
    decreases rounds,
{
    if rounds == 0 {
        traversed(Image { code, options, tables: Map::empty() }, entries)
    } else {
        let view = traversed(Image { code, options, tables: search.found }, entries);
        let again = looked_again(code, view, search);
        if again.found == search.found {
            view
        } else {
            searched(code, options, entries, again, (rounds - 1) as nat)
        }
    }
}

/// What the traversal of `code` finds, data tables among it.
pub open spec fn with_data_tables(code: Seq<u8>, options: OptionsView, entries: Seq<u32>) -> AnalysisView {
    searched(
        code,
        options,
        entries,
        Search { found: Map::empty(), refused: Set::empty() },
        MAX_ROUNDS as nat,
    )
}

/// Two lists of addresses are the same.
fn same_list(left: &Vec<u32>, right: &Vec<u32>) -> (r: bool)
    ensures
        r == (left@ == right@),
{
    if left.len() != right.len() {
        return false;
    }
    let mut i: usize = 0;
    while i < left.len()
        invariant
            left@.len() == right@.len(),
            i <= left@.len(),
            forall|k: int| 0 <= k < i ==> left@[k] == right@[k],
        decreases left@.len() - i,
    {
        if left[i] != right[i] {
            return false;
        }
        i += 1;
    }
    assert(left@ =~= right@);
    true
}

/// The tables of a map by their position.
proof fn lemma_table(tables: AddressMap<Vec<u32>>, i: int)
    requires
        tables.wf(),
        0 <= i < tables.keys@.len(),
    ensures
        table_map(tables).dom().contains(tables.keys@[i]),
        table_map(tables)[tables.keys@[i]] == tables.values@[i]@,
{
    tables.lemma_entry(i);
}

fn same_tables(left: &AddressMap<Vec<u32>>, right: &AddressMap<Vec<u32>>) -> (r: bool)
    requires
        left.wf(),
        right.wf(),
    ensures
        r == (table_map(*left) == table_map(*right)),
{
    proof {
        assert(table_map(*left).dom() =~= left.keys@.to_set());
        assert(table_map(*right).dom() =~= right.keys@.to_set());
        if table_map(*left) == table_map(*right) {
            lemma_same_order(left.keys@, right.keys@);
        }
    }
    if left.keys.len() != right.keys.len() {
        return false;
    }
    let mut i: usize = 0;
    while i < left.keys.len()
        invariant
            left.wf(),
            right.wf(),
            left.keys@.len() == right.keys@.len(),
            i <= left.keys@.len(),
            table_map(*left) == table_map(*right) ==> left.keys@ == right.keys@,
            forall|k: int| 0 <= k < i ==> left.keys@[k] == right.keys@[k],
            forall|k: int| 0 <= k < i ==> left.values@[k]@ == right.values@[k]@,
        decreases left.keys@.len() - i,
    {
        proof {
            lemma_table(*left, i as int);
            lemma_table(*right, i as int);
        }
        if left.keys[i] != right.keys[i] || !same_list(&left.values[i], &right.values[i]) {
            return false;
        }
        i += 1;
    }
    proof {
        assert(left.keys@ =~= right.keys@);
        assert forall|site: u32| #[trigger] table_map(*left).dom().contains(site) implies table_map(
            *left,
        )[site] == table_map(*right)[site] by {
            let k = left.lemma_position(site);
            lemma_table(*left, k);
            lemma_table(*right, k);
        }
        assert(table_map(*left).dom() =~= table_map(*right).dom());
        assert(table_map(*left) =~= table_map(*right));
    }
    true
}

fn put_table(tables: &mut AddressMap<Vec<u32>>, site: u32, list: Vec<u32>)
    requires
        old(tables).wf(),
    ensures
        final(tables).wf(),
        table_map(*final(tables)) == table_map(*old(tables)).insert(site, list@),
{
    tables.insert(site, list);
    assert(table_map(*tables) =~= table_map(*old(tables)).insert(site, list@));
}

fn candidates(analysis: &ControlFlowAnalysis, refused: &OrderedSet<u32>) -> (r: OrderedSet<u32>)
    requires
        analysis.wf(),
        refused.wf(),
    ensures
        r.wf(),
        forall|site: u32| #[trigger]
            r@.contains(site) <==> is_candidate(analysis@, refused@, site),
{
    let mut r: OrderedSet<u32> = OrderedSet::new();
    let mut i: usize = 0;
    let ghost flows = analysis.unresolved.items@;
    while i < analysis.unresolved.items.len()
        invariant
            analysis.wf(),
            refused.wf(),
            r.wf(),
            flows == analysis.unresolved.items@,
            i <= flows.len(),
            forall|site: u32| #[trigger]
                r@.contains(site) ==> is_candidate(analysis@, refused@, site),
            forall|k: int|
                0 <= k < i && is_candidate(analysis@, refused@, (#[trigger] flows[k]).address)
                    ==> r@.contains(flows[k].address),
        decreases flows.len() - i,
    {
        let flow = analysis.unresolved.items[i];
        let site: u32 = flow.address;
        proof {
            assert(analysis@.unresolved.contains(flows[i as int]));
            assert(flow == (UnresolvedFlow { owner: flow.owner, address: site }));
            assert(is_unresolved(analysis@, site));
        }
        let jump = match analysis.instructions.get(site) {
            Some(decoded) => decoded.instruction.isa == Isa::Jmp,
            None => false,
        };
        if jump && !refused.contains(&site) {
            r.insert(site);
        }
        i += 1;
    }
    proof {
        assert forall|site: u32| is_candidate(analysis@, refused@, site) implies #[trigger]
            r@.contains(site) by {
            let owner = choose|owner: u32| #[trigger]
                analysis@.unresolved.contains(UnresolvedFlow { owner, address: site });
            let flow = UnresolvedFlow { owner, address: site };
            let k = choose|k: int| 0 <= k < flows.len() && flows[k] == flow;
            assert(flows[k].address == site);
        }
    }
    r
}

/// Look at the tables again: keep those that hold in `analysis`, refuse the
/// others, and add those of the candidates.
fn look_again<C: Cancel>(
    code: &[u8],
    analysis: &ControlFlowAnalysis,
    tables: &AddressMap<Vec<u32>>,
    refused: &mut OrderedSet<u32>,
    cancel: &C,
) -> (r: Result<AddressMap<Vec<u32>>, Cancelled>)
    requires
        analysis.wf(),
        tables.wf(),
        old(refused).wf(),
    ensures
        final(refused).wf(),
        match r {
            Ok(known) => {
                let again = looked_again(
                    code@,
                    analysis@,
                    Search { found: table_map(*tables), refused: old(refused)@ },
                );
                &&& known.wf()
                &&& table_map(known) == again.found
                &&& final(refused)@ == again.refused
            },
            Err(_) => cancel.may_fire(),
        },
{
    let ghost search = Search { found: table_map(*tables), refused: refused@ };
    let ghost view = analysis@;
    let sites = candidates(analysis, refused);
    let index = FlowIndex::new(&analysis.flows);
    let mut known: AddressMap<Vec<u32>> = AddressMap::new();
    let mut i: usize = 0;
    proof {
        assert(tables.keys@.take(0).to_set() =~= Set::empty());
    }
    while i < tables.keys.len()
        invariant
            analysis.wf(),
            view == analysis@,
            tables.wf(),
            known.wf(),
            refused.wf(),
            index.indexes(view.flows),
            search.found == table_map(*tables),
            i <= tables.keys@.len(),
            forall|site: u32| #[trigger]
                table_map(known).dom().contains(site) <==> tables.keys@.take(
                    i as int,
                ).to_set().contains(site) && upheld(code@, view, search, site),
            forall|site: u32| #[trigger]
                table_map(known).dom().contains(site) ==> spec_targets(code@, view, site) == Some(
                    table_map(known)[site],
                ),
            forall|site: u32| #[trigger]
                refused@.contains(site) <==> search.refused.contains(site) || tables.keys@.take(
                    i as int,
                ).to_set().contains(site) && !upheld(code@, view, search, site),
        decreases tables.keys@.len() - i,
    {
        if cancel.is_cancelled() {
            return Err(Cancelled);
        }
        let site: u32 = tables.keys[i];
        proof {
            lemma_table(*tables, i as int);
            lemma_take_to_set(tables.keys@, i as int);
        }
        let holds = match targets(code, analysis, &index, site) {
            Some(list) => same_list(&list, &tables.values[i]),
            None => false,
        };
        if holds {
            let list = copy_list(&tables.values[i]);
            put_table(&mut known, site, list);
        } else {
            refused.insert(site);
        }
        i += 1;
    }
    assert(tables.keys@.take(i as int) =~= tables.keys@);
    proof {
        assert(table_map(*tables).dom() =~= tables.keys@.to_set());
        assert(refused@ =~= looked_again(code@, view, search).refused);
        assert(sites.items@.take(0).to_set() =~= Set::empty());
    }
    let mut j: usize = 0;
    while j < sites.items.len()
        invariant
            analysis.wf(),
            view == analysis@,
            known.wf(),
            sites.wf(),
            refused.wf(),
            index.indexes(view.flows),
            j <= sites.items@.len(),
            forall|site: u32| #[trigger]
                table_map(known).dom().contains(site) <==> upheld(code@, view, search, site)
                    || sites.items@.take(j as int).to_set().contains(site) && spec_targets(
                    code@,
                    view,
                    site,
                ) is Some,
            forall|site: u32| #[trigger]
                table_map(known).dom().contains(site) ==> spec_targets(code@, view, site) == Some(
                    table_map(known)[site],
                ),
        decreases sites.items@.len() - j,
    {
        if cancel.is_cancelled() {
            return Err(Cancelled);
        }
        let site: u32 = sites.items[j];
        proof {
            lemma_take_to_set(sites.items@, j as int);
        }
        if !known.contains_key(site) {
            match targets(code, analysis, &index, site) {
                Some(list) => {
                    put_table(&mut known, site, list);
                },
                None => {},
            }
        } else {
            assert(table_map(known).dom().contains(site));
        }
        j += 1;
    }
    proof {
        assert(sites.items@.take(j as int) =~= sites.items@);
        let again = looked_again(code@, view, search);
        assert forall|site: u32| table_map(known).dom().contains(site)
            == again.found.dom().contains(site) by {
            assert(sites@.contains(site) <==> is_candidate(view, search.refused, site));
        }
        assert(table_map(known).dom() =~= again.found.dom());
        assert(table_map(known) =~= again.found);
    }
    Ok(known)
}

/// Traverse `code` from `entries`, with its data tables. A signal that is up stops
/// it.
pub fn analyze_with_data_tables<C: Cancel>(
    code: &[u8],
    entries: &[u32],
    options: &FlowOptions,
    cancel: &C,
) -> (r: Result<ControlFlowAnalysis, Cancelled>)
    requires
        options.wf(),
    ensures
        match r {
            Ok(analysis) => analysis.wf() && analysis@ == with_data_tables(
                code@,
                options@,
                entries@,
            ),
            Err(_) => cancel.may_fire(),
        },
        cancel.is_up() ==> r is Err,
{
    let mut tables: AddressMap<Vec<u32>> = AddressMap::new();
    let mut refused: OrderedSet<u32> = OrderedSet::new();
    let mut round: usize = 0;
    assert(table_map(tables) =~= Map::empty());
    while round < MAX_ROUNDS
        invariant
            options.wf(),
            tables.wf(),
            refused.wf(),
            round <= MAX_ROUNDS,
            round > 0 ==> !cancel.is_up(),
            with_data_tables(code@, options@, entries@) == searched(
                code@,
                options@,
                entries@,
                Search { found: table_map(tables), refused: refused@ },
                (MAX_ROUNDS - round) as nat,
            ),
        decreases MAX_ROUNDS - round,
    {
        let analysis = match analyze_entries_once(code, entries, options, &tables, cancel) {
            Ok(analysis) => analysis,
            Err(stop) => {
                return Err(stop);
            },
        };
        if cancel.is_cancelled() {
            return Err(Cancelled);
        }
        let known = match look_again(code, &analysis, &tables, &mut refused, cancel) {
            Ok(known) => known,
            Err(stop) => {
                return Err(stop);
            },
        };
        if same_tables(&known, &tables) {
            return Ok(analysis);
        }
        tables = known;
        round += 1;
    }
    let none: AddressMap<Vec<u32>> = AddressMap::new();
    assert(table_map(none) =~= Map::empty());
    analyze_entries_once(code, entries, options, &none, cancel)
}

} // verus!
