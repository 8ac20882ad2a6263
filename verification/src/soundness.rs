//! What holds of every traversal: all that it reports, it read in the image, and all
//! that control flow reaches, it reports.

use crate::analysis::{AnalysisView, CallEdge, ExternalFlow, FlowEdge, FlowKind, UnresolvedFlow};
use crate::collections::{in_order, lemma_addresses_in_order, AddressPair};
use crate::control_flow::{
    follow, jump_target, lemma_run_adds, next, run, settles, spec_relative_target, spec_resolve_direct, start,
    traversed, Config, DirectTargetView, Image, OptionsView, Walk,
};
use crate::data_tables::{looked_again, searched, with_data_tables, Search, MAX_ROUNDS};
use crate::decoded::{spec_decode, spec_valid_address, DecodedView};
use crate::m68k::Operands;
use crate::traverse::{analyzed, promoted};
use vstd::prelude::*;
use vstd::set_lib::{lemma_int_range, lemma_len_subset, lemma_map_size, set_int_range};

verus! {

/// Whether an instruction is what the image holds at `at`.
pub open spec fn is_read(code: Seq<u8>, at: u32, decoded: DecodedView) -> bool {
    &&& spec_valid_address(code, at)
    &&& decoded.address == at
    &&& at <= decoded.end <= code.len()
    &&& decoded.encoded == code.subrange(at as int, decoded.end as int)
}

/// Whether all that an analysis reports was found in the image: every instruction stands
/// there; every edge leaves a decoded instruction of its owner, and falls through only to
/// the instruction's end; a call is an edge to a function entry; and a transfer is
/// reported as leaving the hunk only where a relocation says so.
pub open spec fn is_sound(code: Seq<u8>, options: OptionsView, view: AnalysisView) -> bool {
    &&& forall|at: u32| #[trigger]
        view.instructions.dom().contains(at) ==> is_read(code, at, view.instructions[at])
    &&& forall|flow: FlowEdge| #[trigger] view.flows.contains(flow) ==> is_sound_flow(view, flow)
    &&& forall|call: CallEdge| #[trigger]
        view.calls.contains(call) ==> view.functions.contains(call.callee) && view.flows.contains(
            call_flow(call),
        )
    &&& forall|site: u32| #[trigger]
        view.library_calls.contains(site) ==> view.instructions.dom().contains(site)
    &&& forall|flow: ExternalFlow| #[trigger]
        view.external.contains(flow) ==> view.instructions.dom().contains(flow.site) && leaves_hunk(
            options,
            flow,
        )
    &&& view.relocations == options.relocations
    &&& view.rebase == options.rebase
}

/// The edge of a call.
pub open spec fn call_flow(call: CallEdge) -> FlowEdge {
    FlowEdge {
        owner: call.caller,
        site: call.call_site,
        target: call.callee,
        kind: FlowKind::Call,
    }
}

/// Whether an edge leaves a decoded instruction of its owner, and falls through only to
/// the instruction's end. A call edge has its call.
pub open spec fn is_sound_flow(view: AnalysisView, flow: FlowEdge) -> bool {
    &&& view.instructions.dom().contains(flow.site)
    &&& view.instructions[flow.site].owners.contains(flow.owner)
    &&& flow.kind == FlowKind::Fallthrough ==> flow.target == view.instructions[flow.site].end
    &&& flow.kind == FlowKind::Call ==> view.calls.contains(
        CallEdge { caller: flow.owner, call_site: flow.site, callee: flow.target },
    )
}

/// Whether relocations were supplied, and the transfer goes to another hunk than theirs.
pub open spec fn leaves_hunk(options: OptionsView, flow: ExternalFlow) -> bool {
    options.relocations matches Some(index) && flow.target_hunk != index.hunk
}

/// Whether the traversal for `owner` says what is at `at`: an instruction that was
/// decoded, or an end that it could not get past.
pub open spec fn is_accounted(view: AnalysisView, at: u32, owner: u32) -> bool {
    view.instructions.dom().contains(at) || view.unresolved.contains(
        UnresolvedFlow { owner, address: at },
    )
}

/// Whether all that control flow reaches is reported: what every function entry and
/// every edge leads to, wherever that is an address of the image.
pub open spec fn is_complete(code: Seq<u8>, entries: Seq<u32>, view: AnalysisView) -> bool {
    &&& forall|entry: u32| #[trigger]
        entries.contains(entry) ==> view.functions.contains(entry) && (spec_valid_address(
            code,
            entry,
        ) ==> is_accounted(view, entry, entry))
    &&& forall|flow: FlowEdge| #[trigger]
        view.flows.contains(flow) && spec_valid_address(code, flow.target) ==> is_accounted(
            view,
            flow.target,
            walker(flow),
        )
}

/// The function for which the target of an edge is walked.
pub open spec fn walker(flow: FlowEdge) -> u32 {
    if flow.kind == FlowKind::Call {
        flow.target
    } else {
        flow.owner
    }
}

/// Where the target of an edge is walked from.
pub open spec fn place_of(flow: FlowEdge) -> AddressPair {
    AddressPair { first: flow.target, second: walker(flow) }
}

/// What following the instruction at `address`, which ends at `end`, for `owner` can add.
/// `falls` tells whether it can fall through.
spec fn adds(
    image: Image,
    address: u32,
    end: u32,
    owner: u32,
    falls: bool,
    w: Walk,
    after: Walk,
) -> bool {
    let view = w.analysis;
    let more = after.analysis;
    &&& more.instructions == view.instructions
    &&& more.relocations == view.relocations
    &&& more.rebase == view.rebase
    &&& after.visited == w.visited
    &&& forall|at: AddressPair| #[trigger] w.queue.contains(at) ==> after.queue.contains(at)
    &&& view.functions.subset_of(more.functions)
    &&& view.flows.subset_of(more.flows)
    &&& view.calls.subset_of(more.calls)
    &&& view.unresolved.subset_of(more.unresolved)
    &&& forall|flow: FlowEdge| #[trigger]
        more.flows.contains(flow) ==> view.flows.contains(flow) || {
            &&& flow.owner == owner
            &&& flow.site == address
            &&& flow.kind == FlowKind::Fallthrough ==> falls && flow.target == end
            &&& flow.kind == FlowKind::Call ==> more.calls.contains(
                CallEdge { caller: owner, call_site: address, callee: flow.target },
            )
            &&& flow.kind != FlowKind::Fallthrough && spec_valid_address(image.code, flow.target)
                ==> after.queue.contains(place_of(flow))
        }
    &&& forall|call: CallEdge| #[trigger]
        more.calls.contains(call) ==> view.calls.contains(call) || more.functions.contains(
            call.callee,
        ) && more.flows.contains(call_flow(call))
    &&& forall|site: u32| #[trigger]
        more.library_calls.contains(site) ==> view.library_calls.contains(site) || site == address
    &&& forall|flow: ExternalFlow| #[trigger]
        more.external.contains(flow) ==> view.external.contains(flow) || flow.site == address
            && leaves_hunk(image.options, flow)
}

proof fn lemma_adds_on(
    image: Image,
    address: u32,
    end: u32,
    owner: u32,
    falls: bool,
    w: Walk,
    between: Walk,
    after: Walk,
)
    requires
        adds(image, address, end, owner, false, w, between),
        adds(image, address, end, owner, falls, between, after),
    ensures
        adds(image, address, end, owner, falls, w, after),
{
}

proof fn lemma_pushed(queue: Seq<AddressPair>, place: AddressPair)
    ensures
        queue.push(place).contains(place),
        forall|at: AddressPair| #[trigger]
            queue.contains(at) ==> queue.push(place).contains(at),
{
    let longer = queue.push(place);
    assert(longer[queue.len() as int] == place);
    assert forall|at: AddressPair| #[trigger] queue.contains(at) implies longer.contains(at) by {
        let k = choose|k: int| 0 <= k < queue.len() && queue[k] == at;
        assert(longer[k] == at);
    }
}

proof fn lemma_call_adds(image: Image, w: Walk, address: u32, end: u32, owner: u32, callee: u32)
    ensures
        adds(image, address, end, owner, false, w, w.call(owner, address, callee)),
{
    lemma_pushed(w.queue, AddressPair { first: callee, second: callee });
}

proof fn lemma_branch_adds(image: Image, w: Walk, address: u32, end: u32, owner: u32, target: u32)
    ensures
        adds(image, address, end, owner, false, w, w.branch(image.code, owner, address, target)),
{
    lemma_pushed(w.queue, AddressPair { first: target, second: owner });
}

proof fn lemma_calls_add(
    image: Image,
    w: Walk,
    address: u32,
    end: u32,
    owner: u32,
    callees: Seq<u32>,
)
    ensures
        adds(image, address, end, owner, false, w, w.call_all(owner, address, callees)),
    decreases callees.len(),
{
    if callees.len() > 0 {
        lemma_calls_add(image, w, address, end, owner, callees.drop_last());
        let between = w.call_all(owner, address, callees.drop_last());
        let after = between.call(owner, address, callees.last());
        lemma_call_adds(image, between, address, end, owner, callees.last());
        lemma_adds_on(image, address, end, owner, false, w, between, after);
    }
}

proof fn lemma_branches_add(
    image: Image,
    w: Walk,
    address: u32,
    end: u32,
    owner: u32,
    targets: Seq<u32>,
)
    ensures
        adds(image, address, end, owner, false, w, w.branch_all(image.code, owner, address, targets)),
    decreases targets.len(),
{
    if targets.len() > 0 {
        lemma_branches_add(image, w, address, end, owner, targets.drop_last());
        let between = w.branch_all(image.code, owner, address, targets.drop_last());
        let after = between.branch(image.code, owner, address, targets.last());
        lemma_branch_adds(image, between, address, end, owner, targets.last());
        lemma_adds_on(image, address, end, owner, false, w, between, after);
    }
}

/// What an operand can resolve to outside the hunk.
spec fn goes_out_rightly(options: OptionsView, target: DirectTargetView) -> bool {
    target matches DirectTargetView::External(relocation) ==> (options.relocations matches Some(
        index,
    ) && relocation.target_hunk != index.hunk)
}

proof fn lemma_transfer_call_adds(
    image: Image,
    w: Walk,
    address: u32,
    end: u32,
    owner: u32,
    target: DirectTargetView,
)
    requires
        goes_out_rightly(image.options, target),
    ensures
        adds(image, address, end, owner, false, w, w.transfer_call(owner, address, target)),
{
    match target {
        DirectTargetView::Offset(target) => {
            lemma_call_adds(image, w, address, end, owner, target);
        },
        DirectTargetView::Table(targets) => {
            lemma_calls_add(image, w, address, end, owner, targets);
        },
        _ => {},
    }
}

proof fn lemma_transfer_jump_adds(
    image: Image,
    w: Walk,
    address: u32,
    end: u32,
    owner: u32,
    target: DirectTargetView,
)
    requires
        goes_out_rightly(image.options, target),
    ensures
        adds(
            image,
            address,
            end,
            owner,
            false,
            w,
            w.transfer_jump(image.code, owner, address, target),
        ),
{
    match target {
        DirectTargetView::Offset(target) => {
            lemma_branch_adds(image, w, address, end, owner, target);
        },
        DirectTargetView::Table(targets) => {
            lemma_branches_add(image, w, address, end, owner, targets);
        },
        _ => {},
    }
}

proof fn lemma_follow_adds(image: Image, w: Walk, address: u32, owner: u32)
    ensures
        ({
            let end = w.analysis.instructions[address].end;
            let (after, on) = follow(image, w, address, owner);
            &&& on is None || on == Some(end)
            &&& adds(image, address, end, owner, on is Some, w, after)
        }),
{
    let decoded = w.analysis.instructions[address];
    let isa = decoded.instruction.isa;
    let end = decoded.end;
    let (after, on) = follow(image, w, address, owner);
    match decoded.instruction.operands {
        Operands::Displacement(displacement) => {
            let target = spec_relative_target(address, displacement);
            lemma_call_adds(image, w, address, end, owner, target);
            lemma_branch_adds(image, w, address, end, owner, target);
        },
        Operands::ConditionDisplacement(_, displacement) => {
            let target = spec_relative_target(address, displacement);
            lemma_call_adds(image, w, address, end, owner, target);
            lemma_branch_adds(image, w, address, end, owner, target);
        },
        Operands::ConditionRegisterDisplacement(_, _, displacement) => {
            let target = spec_relative_target(address, displacement);
            lemma_branch_adds(image, w, address, end, owner, target);
        },
        Operands::EffectiveAddress(mode) => {
            let called = spec_resolve_direct(image.code, image.options, mode, address, end);
            lemma_transfer_call_adds(image, w, address, end, owner, called);
            let jumped = jump_target(image, w.analysis.instructions, mode, address, end);
            lemma_transfer_jump_adds(image, w, address, end, owner, jumped);
        },
        _ => {},
    }
}

/// Whether a traversal has walked from a place, or is going to.
spec fn is_waiting(c: Config, place: AddressPair) -> bool {
    c.walk.visited.contains(place) || c.walk.queue.contains(place) || c.cursor == Some(place)
}

/// What holds of a traversal in progress: what it reports is sound, and it has walked
/// from every place that control flow reaches, or is going to.
spec fn is_on_course(image: Image, entries: Seq<u32>, c: Config) -> bool {
    let view = c.walk.analysis;
    &&& is_sound(image.code, image.options, view)
    &&& forall|entry: u32| #[trigger]
        entries.contains(entry) ==> view.functions.contains(entry) && (spec_valid_address(
            image.code,
            entry,
        ) ==> is_waiting(c, AddressPair { first: entry, second: entry }))
    &&& forall|flow: FlowEdge| #[trigger]
        view.flows.contains(flow) && spec_valid_address(image.code, flow.target) ==> is_waiting(
            c,
            place_of(flow),
        )
    &&& forall|place: AddressPair| #[trigger]
        c.walk.visited.contains(place) ==> is_accounted(view, place.first, place.second)
}

/// The instruction at `address` of `owner` is followed.
proof fn lemma_follow_keeps(image: Image, w: Walk, address: u32, owner: u32)
    requires
        is_sound(image.code, image.options, w.analysis),
        w.analysis.instructions.dom().contains(address),
        w.analysis.instructions[address].owners.contains(owner),
    ensures
        is_sound(image.code, image.options, follow(image, w, address, owner).0.analysis),
{
    lemma_follow_adds(image, w, address, owner);
    let view = w.analysis;
    let more = follow(image, w, address, owner).0.analysis;
    assert forall|flow: FlowEdge| #[trigger] more.flows.contains(flow) implies is_sound_flow(
        more,
        flow,
    ) by {
        if view.flows.contains(flow) {
            assert(is_sound_flow(view, flow));
        }
    }
}

/// The instruction at `address` is replaced by one that differs in its owners only, of
/// which none is lost.
proof fn lemma_owner_keeps(image: Image, w: Walk, address: u32, decoded: DecodedView)
    requires
        is_sound(image.code, image.options, w.analysis),
        is_read(image.code, address, decoded),
        w.analysis.instructions.dom().contains(address) ==> {
            let existing = w.analysis.instructions[address];
            existing.end == decoded.end && existing.owners.subset_of(decoded.owners)
        },
    ensures
        is_sound(image.code, image.options, w.with_instruction(address, decoded).analysis),
{
    let view = w.analysis;
    let more = w.with_instruction(address, decoded).analysis;
    assert forall|flow: FlowEdge| #[trigger] more.flows.contains(flow) implies is_sound_flow(
        more,
        flow,
    ) by {
        assert(is_sound_flow(view, flow));
    }
}

proof fn lemma_arrive_keeps(image: Image, entries: Seq<u32>, c: Config, at: AddressPair)
    requires
        is_on_course(image, entries, c),
        c.cursor == Some(at),
        spec_valid_address(image.code, at.first),
    ensures
        is_on_course(image, entries, next(image, c)),
{
    let address = at.first;
    let owner = at.second;
    let w = c.walk;
    if !w.visited.contains(at) {
        let seen = Walk { visited: w.visited.insert(at), ..w };
        let existing = w.analysis.instructions[address];
        let known = w.analysis.instructions.dom().contains(address);
        let decoded = if known {
            Some(existing.with_owner(owner))
        } else {
            spec_decode(image.code, address, owner)
        };
        if let Some(decoded) = decoded {
            lemma_owner_keeps(image, seen, address, decoded);
            let owned = seen.with_instruction(address, decoded);
            if !known || existing.admits(owner) {
                lemma_follow_keeps(image, owned, address, owner);
                lemma_follow_adds(image, owned, address, owner);
            }
        }
        let after = next(image, c);
        let more = after.walk.analysis;
        assert forall|flow: FlowEdge| #[trigger]
            more.flows.contains(flow) && spec_valid_address(image.code, flow.target) implies is_waiting(
            after,
            place_of(flow),
        ) by {
            if w.analysis.flows.contains(flow) {
                assert(is_waiting(c, place_of(flow)));
            }
        }
        assert forall|entry: u32| #[trigger]
            entries.contains(entry) && spec_valid_address(image.code, entry) implies is_waiting(
            after,
            AddressPair { first: entry, second: entry },
        ) by {
            assert(is_waiting(c, AddressPair { first: entry, second: entry }));
        }
    }
}

proof fn lemma_next_keeps(image: Image, entries: Seq<u32>, c: Config)
    requires
        is_on_course(image, entries, c),
    ensures
        is_on_course(image, entries, next(image, c)),
{
    match c.cursor {
        Some(at) => {
            if spec_valid_address(image.code, at.first) {
                lemma_arrive_keeps(image, entries, c, at);
            }
        },
        None => {
            if c.walk.queue.len() > 0 {
                let rest = c.walk.queue.subrange(1, c.walk.queue.len() as int);
                assert forall|place: AddressPair| #[trigger]
                    c.walk.queue.contains(place) implies rest.contains(place) || c.walk.queue[0]
                    == place by {
                    let k = choose|k: int|
                        0 <= k < c.walk.queue.len() && c.walk.queue[k] == place;
                    if k > 0 {
                        assert(rest[k - 1] == place);
                    }
                }
            }
        },
    }
}

proof fn lemma_run_keeps(image: Image, entries: Seq<u32>, n: nat)
    ensures
        is_on_course(image, entries, run(image, start(image.options, entries), n)),
    decreases n,
{
    let origin = start(image.options, entries);
    if n == 0 {
        assert forall|entry: u32| #[trigger] entries.contains(entry) implies is_waiting(
            origin,
            AddressPair { first: entry, second: entry },
        ) by {
            let k = choose|k: int| 0 <= k < entries.len() && entries[k] == entry;
            assert(origin.walk.queue[k] == (AddressPair { first: entry, second: entry }));
        }
    } else {
        lemma_run_keeps(image, entries, (n - 1) as nat);
        lemma_next_keeps(image, entries, run(image, origin, (n - 1) as nat));
    }
}

/// A set of places has at most as many elements as there are places.
proof fn lemma_place_count(places: Set<AddressPair>)
    requires
        places.finite(),
    ensures
        places.len() <= 0x1_0000_0000_0000_0000,
{
    let number = |place: AddressPair| place.first * 0x1_0000_0000 + place.second;
    let numbers = places.map(number);
    lemma_map_size(places, numbers, number);
    lemma_int_range(0, 0x1_0000_0000_0000_0000);
    lemma_len_subset(numbers, set_int_range(0, 0x1_0000_0000_0000_0000));
}

/// A traversal halts after some steps.
proof fn lemma_halts(image: Image, c: Config) -> (n: nat)
    requires
        c.walk.visited.finite(),
    ensures
        run(image, c, n).halted(),
    decreases
            0x1_0000_0000_0000_0000 - c.walk.visited.len(),
            c.walk.queue.len(),
            if c.cursor is Some {
                1int
            } else {
                0
            },
{
    if c.halted() {
        0
    } else {
        let after = next(image, c);
        if let Some(at) = c.cursor {
            if spec_valid_address(image.code, at.first) && !c.walk.visited.contains(at) {
                let seen = Walk { visited: c.walk.visited.insert(at), ..c.walk };
                let decoded = if c.walk.analysis.instructions.dom().contains(at.first) {
                    Some(c.walk.analysis.instructions[at.first].with_owner(at.second))
                } else {
                    spec_decode(image.code, at.first, at.second)
                };
                if let Some(decoded) = decoded {
                    lemma_follow_adds(
                        image,
                        seen.with_instruction(at.first, decoded),
                        at.first,
                        at.second,
                    );
                }
                assert(after.walk.visited == c.walk.visited.insert(at));
            }
        }
        lemma_place_count(after.walk.visited);
        let n = lemma_halts(image, after);
        lemma_run_adds(image, c, 1, n);
        assert(run(image, c, 0) == c);
        assert(run(image, c, 1) == next(image, run(image, c, 0)));
        1 + n
    }
}

/// Every traversal comes to a halt.
pub proof fn traversals_halt(image: Image, entries: Seq<u32>)
    ensures
        settles(image, start(image.options, entries)),
{
    let n = lemma_halts(image, start(image.options, entries));
}

/// One traversal reports only what it read, and all that control flow reaches.
pub proof fn traversals_are_sound_and_complete(image: Image, entries: Seq<u32>)
    ensures
        is_sound(image.code, image.options, traversed(image, entries)),
        is_complete(image.code, entries, traversed(image, entries)),
{
    traversals_halt(image, entries);
    let origin = start(image.options, entries);
    let n = choose|n: nat| (#[trigger] run(image, origin, n)).halted();
    lemma_run_keeps(image, entries, n);
    let c = run(image, origin, n);
    let view = c.walk.analysis;
    assert forall|entry: u32| #[trigger]
        entries.contains(entry) && spec_valid_address(image.code, entry) implies is_accounted(
        view,
        entry,
        entry,
    ) by {
        let place = AddressPair { first: entry, second: entry };
        assert(is_waiting(c, place));
        assert(c.walk.visited.contains(place));
    }
    assert forall|flow: FlowEdge| #[trigger]
        view.flows.contains(flow) && spec_valid_address(image.code, flow.target) implies is_accounted(
        view,
        flow.target,
        walker(flow),
    ) by {
        assert(is_waiting(c, place_of(flow)));
        assert(c.walk.visited.contains(place_of(flow)));
    }
}

proof fn lemma_searched(
    code: Seq<u8>,
    options: OptionsView,
    entries: Seq<u32>,
    search: Search,
    rounds: nat,
)
    ensures
        is_sound(code, options, searched(code, options, entries, search, rounds)),
        is_complete(code, entries, searched(code, options, entries, search, rounds)),
    decreases rounds,
{
    if rounds == 0 {
        traversals_are_sound_and_complete(Image { code, options, tables: Map::empty() }, entries);
    } else {
        let image = Image { code, options, tables: search.found };
        traversals_are_sound_and_complete(image, entries);
        let again = looked_again(code, traversed(image, entries), search);
        lemma_searched(code, options, entries, again, (rounds - 1) as nat);
    }
}

/// An analysis reports only what it read, and all that control flow reaches: every
/// instruction stands in the image, every edge leaves a decoded instruction of its owner,
/// every call leads to a function entry, a transfer leaves the hunk only where a
/// relocation says so; and whatever an entry or an edge leads to in the image was decoded,
/// or is among the ends that the analysis warns of.
pub proof fn analyses_are_sound_and_complete(
    code: Seq<u8>,
    options: OptionsView,
    entries: Seq<u32>,
)
    ensures
        is_sound(code, options, analyzed(code, options, entries)),
        is_complete(code, entries, analyzed(code, options, entries)),
{
    let search = Search { found: Map::empty(), refused: Set::empty() };
    lemma_searched(code, options, entries, search, MAX_ROUNDS as nat);
    let first = with_data_tables(code, options, entries);
    let wanted = entries.to_set().union(promoted(first));
    let more = in_order(wanted);
    lemma_searched(code, options, more, search, MAX_ROUNDS as nat);
    lemma_addresses_in_order(wanted);
    assert forall|entry: u32| #[trigger] entries.contains(entry) implies more.contains(entry) by {
        assert(entries.to_set().contains(entry));
        assert(more.to_set().contains(entry));
    }
}

/// Without relocations, nothing is reported as leaving the hunk.
pub proof fn nothing_is_external_without_relocations(
    code: Seq<u8>,
    options: OptionsView,
    entries: Seq<u32>,
)
    requires
        options.relocations is None,
    ensures
        analyzed(code, options, entries).external == Set::<ExternalFlow>::empty(),
{
    analyses_are_sound_and_complete(code, options, entries);
    let external = analyzed(code, options, entries).external;
    assert forall|flow: ExternalFlow| !external.contains(flow) by {
        if external.contains(flow) {
            assert(leaves_hunk(options, flow));
        }
    }
    assert(external =~= Set::empty());
}

} // verus!
