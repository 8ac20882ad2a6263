//! The result of a control-flow traversal: instructions, edges and the records
//! that say what an operand names.

use crate::collections::{in_order, lemma_in_order, AddressMap, OrderedSet, Ranked};
use crate::decoded::{operand_longword_position, DecodedInstruction, DecodedView, OperandRole};
use crate::relocation::{spec_operand_range, operand_range, Rebase, RelocationView, Relocations};
use vstd::prelude::*;

verus! {

/// A resolved call edge.
#[derive(Clone, Copy, Debug, PartialEq, Eq, Structural)]
pub struct CallEdge {
    pub caller: u32,
    pub call_site: u32,
    pub callee: u32,
}

impl Ranked for CallEdge {
    open spec fn before(self, other: Self) -> bool {
        self.caller < other.caller || self.caller == other.caller && (self.call_site
            < other.call_site || self.call_site == other.call_site && self.callee < other.callee)
    }

    proof fn never_before_itself(x: Self) {
    }

    proof fn chains(x: Self, y: Self, z: Self) {
    }

    proof fn compares(x: Self, y: Self) {
    }

    fn is_before(&self, other: &Self) -> bool {
        self.caller < other.caller || self.caller == other.caller && (self.call_site
            < other.call_site || self.call_site == other.call_site && self.callee < other.callee)
    }
}

/// The semantic kind of a statically resolved control-flow edge.
#[derive(Clone, Copy, Debug, PartialEq, Eq, Structural)]
pub enum FlowKind {
    Fallthrough,
    Branch,
    Call,
}

impl FlowKind {
    /// The position of the kind in its declaration.
    pub open spec fn spec_rank(self) -> int {
        match self {
            FlowKind::Fallthrough => 0,
            FlowKind::Branch => 1,
            FlowKind::Call => 2,
        }
    }

    fn rank(self) -> (r: u8)
        ensures
            r == self.spec_rank(),
    {
        match self {
            FlowKind::Fallthrough => 0,
            FlowKind::Branch => 1,
            FlowKind::Call => 2,
        }
    }
}

/// One instruction-level edge in the control-flow graph.
#[derive(Clone, Copy, Debug, PartialEq, Eq, Structural)]
pub struct FlowEdge {
    /// Function entry whose traversal discovered the edge.
    pub owner: u32,
    pub site: u32,
    pub target: u32,
    pub kind: FlowKind,
}

impl Ranked for FlowEdge {
    open spec fn before(self, other: Self) -> bool {
        self.owner < other.owner || self.owner == other.owner && (self.site < other.site
            || self.site == other.site && (self.target < other.target || self.target == other.target
            && self.kind.spec_rank() < other.kind.spec_rank()))
    }

    proof fn never_before_itself(x: Self) {
    }

    proof fn chains(x: Self, y: Self, z: Self) {
    }

    proof fn compares(x: Self, y: Self) {
    }

    fn is_before(&self, other: &Self) -> bool {
        self.owner < other.owner || self.owner == other.owner && (self.site < other.site
            || self.site == other.site && (self.target < other.target || self.target == other.target
            && self.kind.rank() < other.kind.rank()))
    }
}

/// A control-flow transfer whose target could not be resolved statically.
#[derive(Clone, Copy, Debug, PartialEq, Eq, Structural)]
pub struct UnresolvedFlow {
    pub owner: u32,
    pub address: u32,
}

impl Ranked for UnresolvedFlow {
    open spec fn before(self, other: Self) -> bool {
        self.owner < other.owner || self.owner == other.owner && self.address < other.address
    }

    proof fn never_before_itself(x: Self) {
    }

    proof fn chains(x: Self, y: Self, z: Self) {
    }

    proof fn compares(x: Self, y: Self) {
    }

    fn is_before(&self, other: &Self) -> bool {
        self.owner < other.owner || self.owner == other.owner && self.address < other.address
    }
}

/// How a relocation-proved transfer leaves the analyzed hunk.
#[derive(Clone, Copy, Debug, PartialEq, Eq, Structural)]
pub enum ExternalKind {
    /// `JSR`: control is expected back at the following instruction.
    Call,
    /// `JMP`: a tail transfer that does not come back to this hunk.
    Jump,
}

impl ExternalKind {
    /// The snake_case name shared by text renderers and serialization.
    pub open spec fn spec_label(self) -> Seq<char> {
        match self {
            ExternalKind::Call => "call"@,
            ExternalKind::Jump => "jump"@,
        }
    }

    /// The snake_case name shared by text renderers and serialization.
    pub fn label(self) -> (r: &'static str)
        ensures
            r@ == self.spec_label(),
    {
        match self {
            ExternalKind::Call => "call",
            ExternalKind::Jump => "jump",
        }
    }
}

/// A control-flow transfer a relocation proves leaves the analyzed hunk.
///
/// Its target is resolved (the record names the destination hunk and offset),
/// but it is not reachable from here, so it is neither an in-hunk edge nor an
/// [`UnresolvedFlow`] warning. The transfer carries no owner of its own: which
/// functions reach it is a property of the instruction.
#[derive(Clone, Copy, Debug, PartialEq, Eq, Structural)]
pub struct ExternalFlow {
    /// Hunk offset of the transferring instruction.
    pub site: u32,
    pub kind: ExternalKind,
    /// Hunk offset of the patched longword whose relocation proves the target.
    pub relocation: u32,
    pub target_hunk: u32,
    pub target_offset: u32,
}

impl Ranked for ExternalFlow {
    open spec fn before(self, other: Self) -> bool {
        self.site < other.site || self.site == other.site && (self.kind is Call && other.kind is Jump
            || self.kind == other.kind && (self.relocation < other.relocation || self.relocation
            == other.relocation && (self.target_hunk < other.target_hunk || self.target_hunk
            == other.target_hunk && self.target_offset < other.target_offset)))
    }

    proof fn never_before_itself(x: Self) {
    }

    proof fn chains(x: Self, y: Self, z: Self) {
    }

    proof fn compares(x: Self, y: Self) {
    }

    fn is_before(&self, other: &Self) -> bool {
        self.site < other.site || self.site == other.site && (matches!(self.kind, ExternalKind::Call)
            && matches!(other.kind, ExternalKind::Jump) || self.kind == other.kind && (
        self.relocation < other.relocation || self.relocation == other.relocation && (
        self.target_hunk < other.target_hunk || self.target_hunk == other.target_hunk
            && self.target_offset < other.target_offset)))
    }
}

/// What an address-bearing longword operand names.
#[derive(Clone, Copy, Debug, PartialEq, Eq, Structural)]
pub enum OperandAddress {
    /// No relocation patches the operand, so the stored longword is its
    /// address.
    Encoded(u32),
    /// The relocation names an offset in the analyzed hunk.
    ThisHunk(u32),
    /// The relocation names a hunk whose runtime mapping is unknown here.
    OtherHunk { hunk: u32, offset: u32 },
}

/// The result of analyzing a code image from one or more entry points.
#[derive(Debug)]
pub struct ControlFlowAnalysis {
    pub instructions: AddressMap<DecodedInstruction>,
    pub functions: OrderedSet<u32>,
    pub calls: OrderedSet<CallEdge>,
    pub flows: OrderedSet<FlowEdge>,
    /// Control flow with no static target and no explaining convention.
    pub unresolved: OrderedSet<UnresolvedFlow>,
    /// Sites of `JSR`/`JMP (d16,A6)` with a negative displacement, the AmigaOS
    /// library-call convention. Statically unresolved too, but the convention
    /// explains the target, so they are not warned about as unresolved.
    pub library_calls: OrderedSet<u32>,
    /// Calls and jumps whose relocation proves they leave the analyzed hunk.
    /// Empty unless the caller supplied relocations.
    pub external: OrderedSet<ExternalFlow>,
    /// The relocation index used by this traversal. Keeping it with the graph
    /// makes every later interpretation of an operand use the same record.
    pub relocations: Option<Relocations>,
    /// The runtime-to-image mapping used by this traversal.
    pub rebase: Option<Rebase>,
}

/// An analysis as a mathematical value.
#[verifier::ext_equal]
pub struct AnalysisView {
    pub instructions: Map<u32, DecodedView>,
    pub functions: Set<u32>,
    pub calls: Set<CallEdge>,
    pub flows: Set<FlowEdge>,
    pub unresolved: Set<UnresolvedFlow>,
    pub library_calls: Set<u32>,
    pub external: Set<ExternalFlow>,
    pub relocations: Option<RelocationView>,
    pub rebase: Option<Rebase>,
}

/// The relocation index behind an optional one.
pub open spec fn relocation_view(relocations: Option<Relocations>) -> Option<RelocationView> {
    match relocations {
        Some(index) => Some(index@),
        None => None,
    }
}

impl View for ControlFlowAnalysis {
    type V = AnalysisView;

    open spec fn view(&self) -> AnalysisView {
        AnalysisView {
            instructions: self.instructions@.map_values(|decoded: DecodedInstruction| decoded@),
            functions: self.functions@,
            calls: self.calls@,
            flows: self.flows@,
            unresolved: self.unresolved@,
            library_calls: self.library_calls@,
            external: self.external@,
            relocations: relocation_view(self.relocations),
            rebase: self.rebase,
        }
    }
}

/// What the operand of `decoded` that stores `addend` names, given the
/// relocations of the image.
pub open spec fn spec_operand_address(
    relocations: Option<RelocationView>,
    decoded: DecodedView,
    role: OperandRole,
    addend: u32,
) -> OperandAddress {
    match relocations {
        None => OperandAddress::Encoded(addend),
        Some(index) => match index.resolve_operand(
            decoded.address,
            decoded.end,
            decoded.operand_longword_position(role),
            addend,
        ) {
            None => OperandAddress::Encoded(addend),
            Some(relocation) => if relocation.target_hunk == index.hunk {
                OperandAddress::ThisHunk(relocation.target_offset)
            } else {
                OperandAddress::OtherHunk {
                    hunk: relocation.target_hunk,
                    offset: relocation.target_offset,
                }
            },
        },
    }
}

/// `address` in the coordinate system of the image.
pub open spec fn spec_image_offset(rebase: Option<Rebase>, address: u32) -> Option<u32> {
    match rebase {
        None => Some(address),
        Some(rebase) => address.checked_sub(rebase.origin),
    }
}

/// `at` is the greatest key below `bound`.
pub open spec fn is_last_below<V>(map: Map<u32, V>, bound: u32, at: u32) -> bool {
    &&& map.dom().contains(at)
    &&& at < bound
    &&& forall|other: u32| #[trigger] map.dom().contains(other) && other < bound ==> other <= at
}

/// The greatest key below `bound`.
pub open spec fn last_below<V>(map: Map<u32, V>, bound: u32) -> Option<u32> {
    if exists|at: u32| #[trigger] is_last_below(map, bound, at) {
        Some(choose|at: u32| #[trigger] is_last_below(map, bound, at))
    } else {
        None
    }
}

pub proof fn lemma_last_below<V>(map: Map<u32, V>, bound: u32, at: u32)
    requires
        is_last_below(map, bound, at),
    ensures
        last_below(map, bound) == Some(at),
{
    let chosen = choose|at: u32| #[trigger] is_last_below(map, bound, at);
    assert(is_last_below(map, bound, chosen));
    assert(chosen <= at && at <= chosen);
}

/// Every instruction is filed under its own address and is well formed.
pub open spec fn filed(instructions: AddressMap<DecodedInstruction>) -> bool {
    forall|i: int|
        0 <= i < instructions.values@.len() ==> {
            &&& (#[trigger] instructions.values@[i]).wf()
            &&& instructions.values@[i].address == instructions.keys@[i]
        }
}

/// The instructions of an analysis in ascending order of address.
pub open spec fn listing_of(instructions: AddressMap<DecodedInstruction>) -> Seq<DecodedView> {
    instructions.values@.map_values(|decoded: DecodedInstruction| decoded@)
}

impl ControlFlowAnalysis {
    /// Every collection is in order; every instruction is filed under its own
    /// address and is well formed.
    pub open spec fn wf(&self) -> bool {
        &&& self.instructions.wf()
        &&& filed(self.instructions)
        &&& self.functions.wf()
        &&& self.calls.wf()
        &&& self.flows.wf()
        &&& self.unresolved.wf()
        &&& self.library_calls.wf()
        &&& self.external.wf()
        &&& self.relocations matches Some(index) ==> index.wf()
    }

    /// The instructions in ascending order of address.
    pub open spec fn listing(&self) -> Seq<DecodedView> {
        listing_of(self.instructions)
    }

    /// The instruction at a position of the listing is the one filed under its
    /// address.
    pub proof fn lemma_listing(&self, i: int)
        requires
            self.wf(),
            0 <= i < self.instructions.keys@.len(),
        ensures
            self.listing().len() == self.instructions.keys@.len(),
            self.listing()[i] == self.instructions.values@[i]@,
            self.listing()[i].address == self.instructions.keys@[i],
            self.listing()[i].wf(),
            self@.instructions.dom().contains(self.instructions.keys@[i]),
            self@.instructions[self.instructions.keys@[i]] == self.listing()[i],
    {
        self.instructions.lemma_entry(i);
    }

    /// The relocation index used to traverse this image, when one was supplied.
    pub fn relocations(&self) -> (r: Option<&Relocations>)
        ensures
            match r {
                Some(index) => self.relocations == Some(*index),
                None => self.relocations is None,
            },
    {
        match &self.relocations {
            Some(index) => Some(index),
            None => None,
        }
    }

    /// Read an unrelocated absolute address in the same coordinate system the
    /// traversal used. The caller still decides whether the resulting offset
    /// names an instruction it owns.
    pub fn image_offset(&self, address: u32) -> (r: Option<u32>)
        ensures
            r == spec_image_offset(self.rebase, address),
    {
        match self.rebase {
            None => Some(address),
            Some(rebase) => address.checked_sub(rebase.origin),
        }
    }

    /// What an address-bearing longword operand names after consulting the
    /// relocation index used by this traversal.
    pub fn operand_address(
        &self,
        decoded: &DecodedInstruction,
        role: OperandRole,
        addend: u32,
    ) -> (r: OperandAddress)
        requires
            self.relocations matches Some(index) ==> index.wf(),
        ensures
            r == spec_operand_address(self@.relocations, decoded@, role, addend),
    {
        match &self.relocations {
            None => OperandAddress::Encoded(addend),
            Some(index) => {
                let relocation = index.resolve_operand(
                    decoded.address,
                    decoded.end,
                    operand_longword_position(decoded, role),
                    addend,
                );
                match relocation {
                    None => OperandAddress::Encoded(addend),
                    Some(relocation) => if relocation.target_hunk == index.hunk() {
                        OperandAddress::ThisHunk(relocation.target_offset)
                    } else {
                        OperandAddress::OtherHunk {
                            hunk: relocation.target_hunk,
                            offset: relocation.target_offset,
                        }
                    },
                }
            },
        }
    }
}

/// Whether the longword at `patched` lies in the operand bytes of the
/// instruction at `at`.
pub open spec fn holds_operand_at(
    instructions: Map<u32, DecodedView>,
    patched: u32,
    at: u32,
) -> bool {
    &&& instructions.dom().contains(at)
    &&& spec_operand_range(at, instructions[at].end) matches Some((first, last)) && first <= patched
        <= last
}

/// The same, and no instruction that starts later holds it too.
pub open spec fn holds_operand_last(
    instructions: Map<u32, DecodedView>,
    patched: u32,
    at: u32,
) -> bool {
    &&& holds_operand_at(instructions, patched, at)
    &&& forall|other: u32| #[trigger]
        holds_operand_at(instructions, patched, other) ==> other <= at
}

impl Relocations {
    /// The inverse question: which decoded instruction's operand does the
    /// patched longword at `patched` belong to?
    ///
    /// Answered by the same operand-range rule [`Self::covering`] uses. `None`
    /// for a relocation in data, or in an instruction's opcode word.
    ///
    /// Takes no `self`: the answer is a property of the decoded code, so the
    /// question is askable about a relocation record this index does not hold.
    ///
    /// Instructions that overlap (a jump into the middle of another) can both
    /// contain the longword. The innermost, i.e. the one starting latest, wins.
    pub fn covering_instruction(analysis: &ControlFlowAnalysis, patched: u32) -> (r: Option<u32>)
        requires
            analysis.wf(),
        ensures
            match r {
                Some(at) => holds_operand_last(analysis@.instructions, patched, at),
                None => forall|at: u32| !#[trigger]
                    holds_operand_at(analysis@.instructions, patched, at),
            },
    {
        let mut i: usize = analysis.instructions.len();
        while i > 0
            invariant
                analysis.wf(),
                i <= analysis.instructions.keys@.len(),
                forall|k: int|
                    #![trigger analysis.instructions.keys@[k]]
                    i <= k < analysis.instructions.keys@.len() ==> !holds_operand_at(
                        analysis@.instructions,
                        patched,
                        analysis.instructions.keys@[k],
                    ),
            decreases i,
        {
            i -= 1;
            let at: u32 = analysis.instructions.keys[i];
            proof {
                analysis.lemma_listing(i as int);
            }
            match operand_range(at, analysis.instructions.values[i].end) {
                Some((first, last)) => {
                    if first <= patched && patched <= last {
                        proof {
                            assert(holds_operand_at(analysis@.instructions, patched, at));
                            assert forall|other: u32| #[trigger]
                                holds_operand_at(
                                    analysis@.instructions,
                                    patched,
                                    other,
                                ) implies other <= at by {
                                let k = analysis.instructions.lemma_position(other);
                                if k > i {
                                    assert(analysis.instructions.keys@[k] == other);
                                } else if k < i {
                                    assert(analysis.instructions.keys@[k]
                                        < analysis.instructions.keys@[i as int]);
                                }
                            }
                        }
                        return Some(at);
                    }
                },
                None => {},
            }
            assert(!holds_operand_at(analysis@.instructions, patched, at));
        }
        proof {
            assert forall|at: u32| !#[trigger]
                holds_operand_at(analysis@.instructions, patched, at) by {
                if analysis@.instructions.dom().contains(at) {
                    let k = analysis.instructions.lemma_position(at);
                    assert(analysis.instructions.keys@[k] == at);
                }
            }
        }
        None
    }
}

impl AnalysisView {
    /// The instructions in ascending order of address.
    pub open spec fn listing(self) -> Seq<DecodedView> {
        in_order(self.instructions.dom()).map_values(|key: u32| self.instructions[key])
    }
}

impl ControlFlowAnalysis {
    /// The listing is determined by the instructions as a map.
    pub proof fn lemma_listing_view(&self)
        requires
            self.wf(),
        ensures
            self.listing() == self@.listing(),
            self.listing().len() == self.instructions.keys@.len(),
    {
        let keys = self.instructions.keys@;
        assert(self@.instructions.dom() =~= keys.to_set());
        lemma_in_order(keys);
        assert forall|i: int| 0 <= i < keys.len() implies self.listing()[i]
            == self@.listing()[i] by {
            self.lemma_listing(i);
        }
        assert(self.listing() =~= self@.listing());
    }
}

/// The two questions agree: an instruction owns a patched longword exactly if
/// the index, asked about that instruction and that addend, could find it there.
pub proof fn covering_questions_agree(
    index: RelocationView,
    instructions: Map<u32, DecodedView>,
    at: u32,
    patched: u32,
)
    requires
        instructions.dom().contains(at),
        index.patched.dom().contains(patched),
        index.patched[patched].patched == patched,
    ensures
        holds_operand_at(instructions, patched, at) <==> (spec_operand_range(
            at,
            instructions[at].end,
        ) matches Some((first, last)) && index.stores(
            first,
            last,
            index.patched[patched].target_offset,
            patched,
        )),
{
}

} // verus!
