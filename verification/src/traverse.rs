//! The entry points of control-flow analysis, and the tail targets that it
//! promotes to functions.

use crate::analysis::{
    last_below, AnalysisView, ControlFlowAnalysis, FlowEdge, FlowKind,
};
use crate::collections::{
    in_order, lemma_address_count, lemma_in_order, lemma_take_to_set, OrderedSet,
};
use crate::control_flow::{
    is_return, spec_is_return, Cancel, Cancelled, FlowOptions, Never, OptionsView,
};
use crate::data_tables::{analyze_with_data_tables, with_data_tables};
use crate::flow_index::FlowIndex;
use crate::jump_tables::{instruction_map, lemma_below_rank};
use crate::m68k::{AddressingMode, Direction, Instruction, Isa, Operands, Size};
use std::collections::VecDeque;
use vstd::prelude::*;

verus! {

/// Whether the instruction at `site` is a `JMP` to a fixed address.
pub open spec fn spec_direct_jump_at(view: AnalysisView, site: u32) -> bool {
    view.instructions.dom().contains(site) && {
        let instruction = view.instructions[site].instruction;
        instruction.isa == Isa::Jmp && match instruction.operands {
            Operands::EffectiveAddress(AddressingMode::AbsLong(_)) => true,
            Operands::EffectiveAddress(AddressingMode::Pciwd(_, _)) => true,
            _ => false,
        }
    }
}

/// Whether the instruction at `site` is a `JMP` to a fixed address.
pub fn direct_jump_at(analysis: &ControlFlowAnalysis, site: u32) -> (r: bool)
    requires
        analysis.wf(),
    ensures
        r == spec_direct_jump_at(analysis@, site),
{
    match analysis.instructions.get(site) {
        Some(decoded) => decoded.instruction.isa == Isa::Jmp && match decoded.instruction.operands {
            Operands::EffectiveAddress(AddressingMode::AbsLong(_)) => true,
            Operands::EffectiveAddress(AddressingMode::Pciwd(_, _)) => true,
            _ => false,
        },
        None => false,
    }
}

/// Whether an instruction is one that compiled routines start with: it makes a
/// stack frame or saves registers.
pub open spec fn spec_is_prologue(instruction: Instruction) -> bool {
    match instruction.operands {
        Operands::RegisterDisplacement(_, _) => instruction.isa == Isa::Link,
        Operands::DirectionSizeEffectiveAddressList(
            Direction::RegisterToMemory,
            _,
            AddressingMode::Ariwpr(register),
            _,
        ) => register == 7,
        Operands::SizeEffectiveAddressEffectiveAddress(
            Size::Long,
            AddressingMode::Ariwpr(register),
            source,
        ) => register == 7 && (source is Drd || source is Ard),
        Operands::RegisterSizeEffectiveAddress(register, _, AddressingMode::Immediate(_)) =>
        register == 7 && instruction.isa == Isa::Suba,
        Operands::DataSizeEffectiveAddress(_, _, AddressingMode::Ard(register)) => register == 7
            && instruction.isa == Isa::Subq,
        Operands::RegisterEffectiveAddress(register, AddressingMode::Ariwd(base, displacement)) =>
        register == 7 && base == 7 && instruction.isa == Isa::Lea && displacement < 0,
        _ => false,
    }
}

/// Whether an instruction is one that compiled routines start with.
pub fn is_prologue(instruction: Instruction) -> (r: bool)
    ensures
        r == spec_is_prologue(instruction),
{
    match instruction.operands {
        Operands::RegisterDisplacement(_, _) => instruction.isa == Isa::Link,
        Operands::DirectionSizeEffectiveAddressList(
            Direction::RegisterToMemory,
            _,
            AddressingMode::Ariwpr(register),
            _,
        ) => register == 7,
        Operands::SizeEffectiveAddressEffectiveAddress(
            Size::Long,
            AddressingMode::Ariwpr(register),
            source,
        ) => register == 7 && matches!(source, AddressingMode::Drd(_) | AddressingMode::Ard(_)),
        Operands::RegisterSizeEffectiveAddress(register, _, AddressingMode::Immediate(_)) =>
        register == 7 && instruction.isa == Isa::Suba,
        Operands::DataSizeEffectiveAddress(_, _, AddressingMode::Ard(register)) => register == 7
            && instruction.isa == Isa::Subq,
        Operands::RegisterEffectiveAddress(register, AddressingMode::Ariwd(base, displacement)) =>
        register == 7 && base == 7 && instruction.isa == Isa::Lea && displacement < 0,
        _ => false,
    }
}

/// Whether something other than a jump says that a routine starts at `target`: a
/// prologue, or a return that ends right before it.
pub open spec fn spec_routine_entry_evidence(view: AnalysisView, target: u32) -> bool {
    view.instructions.dom().contains(target) && (spec_is_prologue(
        view.instructions[target].instruction,
    ) || match last_below(view.instructions, target) {
        Some(at) => view.instructions[at].end == target && spec_is_return(
            view.instructions[at].instruction.isa,
        ),
        None => false,
    })
}

/// Whether something other than a jump says that a routine starts at `target`.
pub fn routine_entry_evidence(analysis: &ControlFlowAnalysis, target: u32) -> (r: bool)
    requires
        analysis.wf(),
    ensures
        r == spec_routine_entry_evidence(analysis@, target),
{
    let first = match analysis.instructions.get(target) {
        Some(decoded) => decoded.instruction,
        None => {
            return false;
        },
    };
    let rank: usize = analysis.instructions.rank(target);
    proof {
        lemma_below_rank(analysis.instructions, target, rank as int);
        assert(instruction_map(analysis.instructions) == analysis@.instructions);
    }
    is_prologue(first) || rank > 0 && analysis.instructions.values[rank - 1].end == target
        && is_return(analysis.instructions.values[rank - 1].instruction.isa)
}

/// Whether the jump at `site`, which one function owns, is the only way to
/// `target`.
pub open spec fn only_jump_to(view: AnalysisView, site: u32, target: u32) -> bool {
    &&& view.instructions.dom().contains(site)
    &&& view.instructions[site].owner_total == 1
    &&& view.instructions[site].owners.len() == 1
    &&& forall|flow: FlowEdge| #[trigger]
        view.flows.contains(flow) && flow.target == target ==> flow.site == site
}

fn unique_unshared_incoming_jump(
    analysis: &ControlFlowAnalysis,
    index: &FlowIndex,
    site: u32,
    target: u32,
) -> (r: bool)
    requires
        analysis.wf(),
        index.indexes(analysis@.flows),
        exists|flow: FlowEdge| #[trigger] analysis@.flows.contains(flow) && flow.target == target,
    ensures
        r == only_jump_to(analysis@, site, target),
{
    let source = match analysis.instructions.find(site) {
        Some(at) => &analysis.instructions.values[at],
        None => {
            return false;
        },
    };
    proof {
        source.owners.lemma_len();
    }
    if source.owner_total != 1 || source.owners.len() != 1 {
        return false;
    }
    let arriving = match index.by_target.get(target) {
        Some(arriving) => arriving,
        None => {
            return false;
        },
    };
    let mut i: usize = 0;
    while i < arriving.len()
        invariant
            i <= arriving@.len(),
            index.indexes(analysis@.flows),
            index.by_target@.dom().contains(target),
            *arriving == index.by_target@[target],
            forall|k: int| 0 <= k < i ==> (#[trigger] arriving@[k]).site == site,
        decreases arriving@.len() - i,
    {
        if arriving[i].site != site {
            proof {
                assert(arriving@.contains(arriving@[i as int]));
                assert(index.by_target@[target]@.contains(arriving@[i as int]));
            }
            return false;
        }
        i += 1;
    }
    proof {
        assert forall|flow: FlowEdge| #[trigger]
            analysis@.flows.contains(flow) && flow.target == target implies flow.site == site by {
            assert(index.by_target@[target]@.contains(flow));
            let k = choose|k: int| 0 <= k < arriving@.len() && arriving@[k] == flow;
            assert(arriving@[k].site == site);
        }
    }
    true
}

/// Whether `owner` goes from `from` to `to` without a call, and without entering
/// a function other than `entry`.
pub open spec fn continues(view: AnalysisView, owner: u32, entry: u32, from: u32, to: u32) -> bool {
    &&& view.instructions.dom().contains(from)
    &&& to == entry || !view.functions.contains(to)
    &&& exists|kind: FlowKind|
        kind != FlowKind::Call && #[trigger] view.flows.contains(
            FlowEdge { owner, site: from, target: to, kind },
        )
}

/// Whether `path` leads from `entry` through code of `owner`.
pub open spec fn leads(view: AnalysisView, owner: u32, entry: u32, path: Seq<u32>) -> bool {
    &&& path.len() > 0
    &&& path[0] == entry
    &&& forall|i: int|
        0 <= i < path.len() - 1 ==> #[trigger] continues_at(view, owner, entry, path, i)
}

/// The path continues behind position `i`.
pub open spec fn continues_at(
    view: AnalysisView,
    owner: u32,
    entry: u32,
    path: Seq<u32>,
    i: int,
) -> bool {
    continues(view, owner, entry, path[i], path[i + 1])
}

/// Whether code of `owner` leads from `entry` to `to`.
pub open spec fn is_reached(view: AnalysisView, owner: u32, entry: u32, to: u32) -> bool {
    exists|path: Seq<u32>| #[trigger] leads(view, owner, entry, path) && path.last() == to
}

/// Whether the instruction at `at` returns.
pub open spec fn returns_at(view: AnalysisView, at: u32) -> bool {
    view.instructions.dom().contains(at) && spec_is_return(view.instructions[at].instruction.isa)
}

/// Whether code of `owner` leads from `entry` to a return.
pub open spec fn reaches_return(view: AnalysisView, owner: u32, entry: u32) -> bool {
    exists|to: u32| #[trigger] returns_at(view, to) && is_reached(view, owner, entry, to)
}

proof fn lemma_leads_on(view: AnalysisView, owner: u32, entry: u32, from: u32, to: u32)
    requires
        is_reached(view, owner, entry, from),
        continues(view, owner, entry, from, to),
    ensures
        is_reached(view, owner, entry, to),
{
    let path = choose|path: Seq<u32>| #[trigger]
        leads(view, owner, entry, path) && path.last() == from;
    let longer = path.push(to);
    assert forall|i: int| 0 <= i < longer.len() - 1 implies #[trigger] continues_at(
        view,
        owner,
        entry,
        longer,
        i,
    ) by {
        if i < path.len() - 1 {
            assert(continues_at(view, owner, entry, path, i));
        }
    }
    assert(leads(view, owner, entry, longer) && longer.last() == to);
}

/// What a closed set of addresses holds, a path from one of them does not leave.
proof fn lemma_path_stays(
    view: AnalysisView,
    owner: u32,
    entry: u32,
    path: Seq<u32>,
    seen: Set<u32>,
    i: int,
)
    requires
        leads(view, owner, entry, path),
        seen.contains(entry),
        forall|from: u32, to: u32|
            seen.contains(from) && #[trigger] continues(view, owner, entry, from, to)
                ==> seen.contains(to),
        0 <= i < path.len(),
    ensures
        seen.contains(path[i]),
    decreases i,
{
    if i > 0 {
        lemma_path_stays(view, owner, entry, path, seen, i - 1);
        assert(continues_at(view, owner, entry, path, i - 1));
    }
}

/// What is still to be looked at, or has been.
spec fn met(queue: Seq<u32>, visited: Set<u32>, at: u32) -> bool {
    queue.contains(at) || visited.contains(at)
}

fn reaches_ordinary_return(
    analysis: &ControlFlowAnalysis,
    index: &FlowIndex,
    owner: u32,
    target: u32,
) -> (r: bool)
    requires
        analysis.wf(),
        index.indexes(analysis@.flows),
    ensures
        r == reaches_return(analysis@, owner, target),
{
    let ghost view = analysis@;
    let mut queue: VecDeque<u32> = VecDeque::new();
    queue.push_back(target);
    let mut visited: OrderedSet<u32> = OrderedSet::new();
    proof {
        assert(leads(view, owner, target, seq![target]) && seq![target].last() == target);
        assert(queue@[0] == target);
    }
    while queue.len() > 0
        invariant
            analysis.wf(),
            view == analysis@,
            index.indexes(view.flows),
            visited.wf(),
            met(queue@, visited@, target),
            forall|k: int|
                0 <= k < queue@.len() ==> is_reached(view, owner, target, #[trigger] queue@[k]),
            forall|at: u32| #[trigger]
                visited@.contains(at) ==> is_reached(view, owner, target, at) && !returns_at(
                    view,
                    at,
                ),
            forall|from: u32, to: u32|
                visited@.contains(from) && #[trigger] continues(view, owner, target, from, to)
                    ==> met(queue@, visited@, to),
        decreases 0x1_0000_0000 - visited.items@.len(), queue@.len(),
    {
        let ghost queued = queue@;
        let ghost seen = visited@;
        let address: u32 = queue.pop_front().unwrap();
        proof {
            assert(queued[0] == address);
            assert forall|at: u32| met(queued, seen, at) implies met(queue@, seen, at) || at
                == address by {
                if queued.contains(at) {
                    let k = choose|k: int| 0 <= k < queued.len() && queued[k] == at;
                    if k > 0 {
                        assert(queue@[k - 1] == at);
                    }
                }
            }
            assert forall|k: int| 0 <= k < queue@.len() implies is_reached(
                view,
                owner,
                target,
                #[trigger] queue@[k],
            ) by {
                assert(queue@[k] == queued[k + 1]);
            }
            lemma_address_count(visited.items@);
        }
        let ghost length = visited.items@.len();
        if !visited.insert(address) {
            assert(visited@ == seen);
            continue;
        }
        proof {
            lemma_address_count(visited.items@);
        }
        let instruction = match analysis.instructions.get(address) {
            Some(decoded) => decoded.instruction,
            None => {
                continue;
            },
        };
        if is_return(instruction.isa) {
            assert(returns_at(view, address));
            return true;
        }
        let ghost rest = queue@;
        match index.by_site.get(address) {
            Some(flows) => {
                let mut i: usize = 0;
                while i < flows.len()
                    invariant
                        analysis.wf(),
                        view == analysis@,
                        index.indexes(view.flows),
                        view.instructions.dom().contains(address),
                        is_reached(view, owner, target, address),
                        index.by_site@.dom().contains(address),
                        *flows == index.by_site@[address],
                        i <= flows@.len(),
                        forall|k: int|
                            0 <= k < queue@.len() ==> is_reached(
                                view,
                                owner,
                                target,
                                #[trigger] queue@[k],
                            ),
                        forall|at: u32| #[trigger] rest.contains(at) ==> queue@.contains(at),
                        forall|k: int|
                            0 <= k < i && (#[trigger] flows@[k]).owner == owner && flows@[k].kind
                                != FlowKind::Call && (flows@[k].target == target
                                || !view.functions.contains(flows@[k].target))
                                ==> queue@.contains(flows@[k].target),
                    decreases flows@.len() - i,
                {
                    let flow = flows[i];
                    proof {
                        assert(flows@.contains(flows@[i as int]));
                        assert(index.by_site@[address]@.contains(flow));
                    }
                    if flow.owner == owner && flow.kind != FlowKind::Call && (flow.target == target
                        || !analysis.functions.contains(&flow.target)) {
                        let ghost shorter = queue@;
                        proof {
                            assert(view.flows.contains(
                                FlowEdge {
                                    owner,
                                    site: address,
                                    target: flow.target,
                                    kind: flow.kind,
                                },
                            ));
                            assert(continues(view, owner, target, address, flow.target));
                            lemma_leads_on(view, owner, target, address, flow.target);
                        }
                        queue.push_back(flow.target);
                        proof {
                            assert(queue@[shorter.len() as int] == flow.target);
                            assert forall|at: u32| shorter.contains(at) implies queue@.contains(
                                at,
                            ) by {
                                let k = choose|k: int| 0 <= k < shorter.len() && shorter[k] == at;
                                assert(queue@[k] == at);
                            }
                            assert forall|at: u32| #[trigger]
                                rest.contains(at) implies queue@.contains(at) by {
                                assert(shorter.contains(at));
                            }
                            assert forall|k: int| 0 <= k < queue@.len() implies is_reached(
                                view,
                                owner,
                                target,
                                #[trigger] queue@[k],
                            ) by {
                                if k < shorter.len() {
                                    assert(queue@[k] == shorter[k]);
                                }
                            }
                        }
                    }
                    i += 1;
                }
                proof {
                    assert forall|to: u32| #[trigger]
                        continues(view, owner, target, address, to) implies queue@.contains(
                        to,
                    ) by {
                        let kind = choose|kind: FlowKind|
                            kind != FlowKind::Call && #[trigger] view.flows.contains(
                                FlowEdge { owner, site: address, target: to, kind },
                            );
                        let flow = FlowEdge { owner, site: address, target: to, kind };
                        assert(index.by_site@[address]@.contains(flow));
                        let k = choose|k: int| 0 <= k < flows@.len() && flows@[k] == flow;
                        assert(flows@[k].target == to);
                    }
                }
            },
            None => {
                proof {
                    assert forall|to: u32| !#[trigger]
                        continues(view, owner, target, address, to) by {
                        if continues(view, owner, target, address, to) {
                            let kind = choose|kind: FlowKind|
                                kind != FlowKind::Call && #[trigger] view.flows.contains(
                                    FlowEdge { owner, site: address, target: to, kind },
                                );
                            assert(view.flows.contains(
                                FlowEdge { owner, site: address, target: to, kind },
                            ));
                        }
                    }
                }
            },
        }
    }
    proof {
        if reaches_return(view, owner, target) {
            let to = choose|to: u32| #[trigger]
                returns_at(view, to) && is_reached(view, owner, target, to);
            let path = choose|path: Seq<u32>| #[trigger]
                leads(view, owner, target, path) && path.last() == to;
            lemma_path_stays(view, owner, target, path, visited@, path.len() - 1);
        }
    }
    false
}

/// Whether the target of `flow` is promoted to a function: a direct forward
/// `JMP`, the only one to a target that has independent routine evidence and from
/// which the code returns.
pub open spec fn promotes(view: AnalysisView, flow: FlowEdge) -> bool {
    &&& flow.kind == FlowKind::Branch
    &&& flow.target > flow.site
    &&& !view.functions.contains(flow.target)
    &&& spec_direct_jump_at(view, flow.site)
    &&& spec_routine_entry_evidence(view, flow.target)
    &&& only_jump_to(view, flow.site, flow.target)
    &&& reaches_return(view, flow.owner, flow.target)
}

/// The targets that are promoted to functions.
pub open spec fn promoted(view: AnalysisView) -> Set<u32> {
    Set::new(
        |target: u32|
            exists|flow: FlowEdge| #[trigger]
                view.flows.contains(flow) && promotes(view, flow) && flow.target == target,
    )
}

/// The targets that are promoted to functions. A first traversal deliberately
/// treats every jump as a branch; promoted entries cause one clean second
/// traversal so ownership is recomputed rather than patched after the fact.
pub fn promotable_tail_targets(analysis: &ControlFlowAnalysis) -> (r: OrderedSet<u32>)
    requires
        analysis.wf(),
    ensures
        r.wf(),
        r@ == promoted(analysis@),
{
    let index = FlowIndex::new(&analysis.flows);
    let mut r: OrderedSet<u32> = OrderedSet::new();
    let mut i: usize = 0;
    let ghost view = analysis@;
    let ghost flows = analysis.flows.items@;
    while i < analysis.flows.items.len()
        invariant
            analysis.wf(),
            view == analysis@,
            flows == analysis.flows.items@,
            index.indexes(view.flows),
            r.wf(),
            i <= flows.len(),
            forall|target: u32| #[trigger] r@.contains(target) ==> promoted(view).contains(target),
            forall|k: int|
                0 <= k < i && promotes(view, #[trigger] flows[k]) ==> r@.contains(flows[k].target),
        decreases flows.len() - i,
    {
        let flow = analysis.flows.items[i];
        assert(view.flows.contains(flows[i as int]));
        if flow.kind == FlowKind::Branch && flow.target > flow.site
            && !analysis.functions.contains(&flow.target) && direct_jump_at(analysis, flow.site)
            && routine_entry_evidence(analysis, flow.target) && unique_unshared_incoming_jump(
            analysis,
            &index,
            flow.site,
            flow.target,
        ) && reaches_ordinary_return(analysis, &index, flow.owner, flow.target) {
            assert(promotes(view, flow));
            r.insert(flow.target);
        }
        i += 1;
    }
    proof {
        assert forall|target: u32| promoted(view).contains(target) implies r@.contains(target) by {
            let flow = choose|flow: FlowEdge| #[trigger]
                view.flows.contains(flow) && promotes(view, flow) && flow.target == target;
            let k = choose|k: int| 0 <= k < flows.len() && flows[k] == flow;
            assert(promotes(view, flows[k]));
        }
        assert(r@ =~= promoted(view));
    }
    r
}

/// What the analysis of `code` from `entries` finds.
pub open spec fn analyzed(code: Seq<u8>, options: OptionsView, entries: Seq<u32>) -> AnalysisView {
    let first = with_data_tables(code, options, entries);
    if promoted(first) == Set::<u32>::empty() {
        first
    } else {
        with_data_tables(code, options, in_order(entries.to_set().union(promoted(first))))
    }
}

/// [`analyze_entries_with`], stopping between queue items when `cancel` fires.
///
/// The traversal's natural checkpoint is the worklist: an item is one address
/// to walk from, and the walk between two items is bounded by the code size.
/// Checking here rather than per instruction keeps the cost invisible while
/// still stopping promptly, because a large executable has many queue items.
///
/// # Errors
/// Returns [`Cancelled`] rather than the partial analysis. A half-traversed
/// control-flow graph would report missing calls and spurious unresolved exits as
/// if they were findings.
pub fn analyze_entries_cancellable<C: Cancel>(
    code: &[u8],
    entries: &[u32],
    options: &FlowOptions,
    cancel: &C,
) -> (r: Result<ControlFlowAnalysis, Cancelled>)
    requires
        options.wf(),
    ensures
        match r {
            Ok(analysis) => analysis.wf() && analysis@ == analyzed(code@, options@, entries@),
            Err(_) => cancel.may_fire(),
        },
        cancel.is_up() ==> r is Err,
{
    let analysis = match analyze_with_data_tables(code, entries, options, cancel) {
        Ok(analysis) => analysis,
        Err(stop) => {
            return Err(stop);
        },
    };
    let found = promotable_tail_targets(&analysis);
    if found.is_empty() {
        return Ok(analysis);
    }
    let mut augmented: OrderedSet<u32> = OrderedSet::from_slice(entries);
    let mut i: usize = 0;
    proof {
        assert(found.items@.take(0).to_set() =~= Set::empty());
        assert(augmented@ =~= entries@.to_set().union(found.items@.take(0).to_set()));
    }
    while i < found.items.len()
        invariant
            i <= found.items@.len(),
            augmented.wf(),
            augmented@ == entries@.to_set().union(found.items@.take(i as int).to_set()),
        decreases found.items@.len() - i,
    {
        augmented.insert(found.items[i]);
        proof {
            lemma_take_to_set(found.items@, i as int);
            assert(augmented@ =~= entries@.to_set().union(found.items@.take(i + 1).to_set()));
        }
        i += 1;
    }
    proof {
        assert(found.items@.take(i as int) =~= found.items@);
        lemma_in_order(augmented.items@);
    }
    analyze_with_data_tables(code, &augmented.items, options, cancel)
}

/// Analyze `code` from `entries` with what the caller knows about addressing.
///
/// With [`FlowOptions::rebase`] set, an absolute-long `JMP`/`JSR` target inside
/// the loaded range is converted to a file offset and traversal continues into
/// it; targets outside the range become unresolved. This lets an image copied
/// to a fixed absolute address and executed there be traced. Without it,
/// absolute targets are taken as file offsets (correct for a plain, in-place
/// hunk).
///
/// With [`FlowOptions::relocations`] set, an absolute-long target whose operand
/// a relocation patches is read through that record rather than through its
/// stored addend: into another hunk it becomes an external flow instead of a
/// call edge inside this one.
pub fn analyze_entries_with(code: &[u8], entries: &[u32], options: &FlowOptions) -> (r:
    ControlFlowAnalysis)
    requires
        options.wf(),
    ensures
        r.wf(),
        r@ == analyzed(code@, options@, entries@),
{
    analyze_entries_cancellable(code, entries, options, &Never).unwrap()
}

/// Analyze `code` starting from several `entries` (in file-offset space).
pub fn analyze_entries(code: &[u8], entries: &[u32]) -> (r: ControlFlowAnalysis)
    ensures
        r.wf(),
        r@ == analyzed(code@, OptionsView { rebase: None, relocations: None }, entries@),
{
    let options = FlowOptions::default();
    analyze_entries_with(code, entries, &options)
}

/// Analyze `code` starting from a single `entry` offset.
pub fn analyze(code: &[u8], entry: u32) -> (r: ControlFlowAnalysis)
    ensures
        r.wf(),
        r@ == analyzed(code@, OptionsView { rebase: None, relocations: None }, seq![entry]),
{
    let entries: [u32; 1] = [entry];
    assert(entries@ =~= seq![entry]);
    analyze_entries(code, &entries)
}

} // verus!
