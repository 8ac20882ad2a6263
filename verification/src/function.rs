//! Bounded inference of MC68000 function interfaces and stack frames.
//!
//! The analysis reports only properties supported by every owned path it can
//! inspect. Register inputs are reads reached before a definition, outputs are
//! registers defined on every ordinary return path, and joins intersect the
//! set of definitions. Unsupported code or exhausted ownership clears the
//! register claims instead of turning a partial walk into a prototype.

use crate::analysis::{
    AnalysisView, ControlFlowAnalysis, ExternalFlow, ExternalKind, FlowEdge, FlowKind,
    UnresolvedFlow,
};
use crate::collections::{gathered, in_order, lemma_in_order, AddressMap, OrderedSet};
use crate::dataflow::{forward, outcome, state_map, Domain, Flow, NoLog, Schedule};
use crate::decoded::{DecodedInstruction, DecodedView};
use crate::derived::{listed, spec_listed};
use crate::effects::{
    lanes_for_registers, lanes_of, lemma_listed_lanes, register_effects, registers_for_lanes, restored_register_mask,
    saved_register_mask, spec_lanes_for_registers, spec_lanes_of, spec_register_effects,
    spec_registers_for_lanes, spec_restored_register_mask, spec_saved_register_mask,
    GENERAL_REGISTERS, GENERAL_REGISTER_LANES,
};
use crate::fixpoint::only_loses_precision;
use crate::lvo::library_call;
use crate::m68k::{Instruction, Isa};
use crate::stack::{
    all_wf, analyze_stack, belongs_to_tail_target, is_stack_analysis, return_kind, slots_of,
    spec_belongs_to_tail_target, spec_return_kind, stack_slots, views, FrameStyle, FunctionReturn,
    StackDepth, StackFlow, StackSlot,
};
use crate::text::{append_decimal, append_hexadecimal, decimal, hexadecimal};
use crate::values::RegisterKind;
use vstd::prelude::*;
use vstd::string::*;

verus! {

/// How many instructions a signature lists as evidence.
pub const MAX_SIGNATURE_EVIDENCE: usize = 32;

/// One MC68000 general register.
#[derive(Clone, Copy, Debug, PartialEq, Eq, Structural)]
pub struct FunctionRegister {
    pub kind: RegisterKind,
    pub index: u8,
}

/// The register with a number among all sixteen.
pub open spec fn spec_register_from_bit(bit: u8) -> FunctionRegister {
    if bit < 8 {
        FunctionRegister { kind: RegisterKind::Data, index: bit }
    } else {
        FunctionRegister { kind: RegisterKind::Address, index: (bit - 8) as u8 }
    }
}

/// The register with a number among all sixteen.
pub fn register_from_bit(bit: u8) -> (r: FunctionRegister)
    ensures
        r == spec_register_from_bit(bit),
{
    if bit < 8 {
        FunctionRegister { kind: RegisterKind::Data, index: bit }
    } else {
        FunctionRegister { kind: RegisterKind::Address, index: (bit - 8) as u8 }
    }
}

impl FunctionRegister {
    /// Conventional assembly spelling (`D0` or `A2`).
    pub open spec fn spec_label(self) -> Seq<char> {
        let kind = match self.kind {
            RegisterKind::Data => "D"@,
            RegisterKind::Address => "A"@,
        };
        kind + decimal(self.index as nat)
    }

    /// Conventional assembly spelling (`D0` or `A2`).
    pub fn label(self) -> (r: String)
        ensures
            r@ == self.spec_label(),
    {
        let mut text: String = match self.kind {
            RegisterKind::Data => "D".to_owned(),
            RegisterKind::Address => "A".to_owned(),
        };
        append_decimal(&mut text, self.index as u64);
        text
    }
}

/// Byte lanes of one 32-bit MC68000 register value.
#[derive(Clone, Copy, Debug, PartialEq, Eq, Structural)]
pub struct RegisterLanes(pub u8);

impl RegisterLanes {
    /// The least-significant byte.
    pub fn byte() -> (r: Self)
        ensures
            r == RegisterLanes(1),
    {
        RegisterLanes(1)
    }

    /// The least-significant word.
    pub fn word() -> (r: Self)
        ensures
            r == RegisterLanes(3),
    {
        RegisterLanes(3)
    }

    /// The whole register.
    pub fn long() -> (r: Self)
        ensures
            r == RegisterLanes(15),
    {
        RegisterLanes(15)
    }

    /// Four-bit mask from least- to most-significant byte.
    pub fn bits(self) -> (r: u8)
        ensures
            r == self.0,
    {
        self.0
    }
}

/// One register probably supplied by the caller.
#[derive(Clone, Copy, Debug, PartialEq, Eq, Structural)]
pub struct FunctionInput {
    pub register: FunctionRegister,
    /// Byte lanes supplied by the caller. Bit zero is the least-significant
    /// byte; address-register inputs always carry all four lanes.
    pub lanes: RegisterLanes,
    /// The register formed a memory effective address before being defined.
    pub pointer: bool,
}

/// One register value consistently established on every ordinary return.
#[derive(Clone, Copy, Debug, PartialEq, Eq, Structural)]
pub struct FunctionOutput {
    pub register: FunctionRegister,
    /// Lanes established by the function on every return path.
    pub lanes: RegisterLanes,
}

/// One conservative, register-oriented function interface.
#[derive(Debug, PartialEq, Eq)]
pub struct FunctionSignature {
    pub entry: u32,
    /// False when ownership, decoding, or the bounded worklist was incomplete.
    /// In that state register claims are empty, while independently recognized
    /// frame and return shapes remain available.
    pub complete: bool,
    pub inputs: Vec<FunctionInput>,
    pub outputs: Vec<FunctionOutput>,
    pub clobbered: Vec<FunctionRegister>,
    pub preserved: Vec<FunctionRegister>,
    pub frame: FrameStyle,
    pub stack_slots: Vec<StackSlot>,
    pub returns: FunctionReturn,
    pub leaf: bool,
    pub tail_call: bool,
    /// Bounded instruction evidence in address order.
    pub evidence: Vec<u32>,
    pub evidence_total: usize,
}

/// A register with the lanes of it that count.
pub open spec fn rendered(register: FunctionRegister, lanes: RegisterLanes) -> Seq<char> {
    if lanes.0 == 1 {
        register.spec_label() + ".b"@
    } else if lanes.0 == 3 {
        register.spec_label() + ".w"@
    } else if lanes.0 == 15 {
        register.spec_label()
    } else {
        register.spec_label() + "[lanes="@ + hexadecimal(lanes.0 as nat) + "]"@
    }
}

fn append_register(text: &mut String, register: FunctionRegister, lanes: RegisterLanes)
    ensures
        final(text)@ == old(text)@ + rendered(register, lanes),
{
    let label = register.label();
    text.append(label.as_str());
    if lanes.0 == 1 {
        text.append(".b");
    } else if lanes.0 == 3 {
        text.append(".w");
    } else if lanes.0 != 15 {
        text.append("[lanes=");
        append_hexadecimal(text, lanes.0 as u64);
        text.append("]");
    }
    assert(text@ =~= old(text)@ + rendered(register, lanes));
}

/// An input as a prototype shows it.
pub open spec fn rendered_input(input: FunctionInput) -> Seq<char> {
    if input.pointer {
        input.register.spec_label() + ": ptr"@
    } else {
        rendered(input.register, input.lanes)
    }
}

/// Inputs, separated by commas.
pub open spec fn rendered_inputs(inputs: Seq<FunctionInput>) -> Seq<char>
    decreases inputs.len(),
{
    if inputs.len() == 0 {
        Seq::empty()
    } else if inputs.len() == 1 {
        rendered_input(inputs[0])
    } else {
        rendered_inputs(inputs.drop_last()) + ", "@ + rendered_input(inputs.last())
    }
}

/// Outputs, separated by commas.
pub open spec fn rendered_outputs(outputs: Seq<FunctionOutput>) -> Seq<char>
    decreases outputs.len(),
{
    if outputs.len() == 0 {
        Seq::empty()
    } else if outputs.len() == 1 {
        rendered(outputs[0].register, outputs[0].lanes)
    } else {
        rendered_outputs(outputs.drop_last()) + ", "@ + rendered(
            outputs.last().register,
            outputs.last().lanes,
        )
    }
}

/// A compact register-oriented prototype.
pub open spec fn prototype_text(
    name: Seq<char>,
    inputs: Seq<FunctionInput>,
    outputs: Seq<FunctionOutput>,
) -> Seq<char> {
    if outputs.len() == 0 {
        name + "("@ + rendered_inputs(inputs) + ")"@
    } else {
        name + "("@ + rendered_inputs(inputs) + ") -> "@ + rendered_outputs(outputs)
    }
}

impl FunctionSignature {
    fn append_inputs(&self, text: &mut String)
        ensures
            final(text)@ == old(text)@ + rendered_inputs(self.inputs@),
    {
        let ghost before = text@;
        let mut i: usize = 0;
        assert(before + rendered_inputs(self.inputs@.take(0)) =~= before);
        while i < self.inputs.len()
            invariant
                i <= self.inputs@.len(),
                text@ == before + rendered_inputs(self.inputs@.take(i as int)),
            decreases self.inputs@.len() - i,
        {
            let input = self.inputs[i];
            proof {
                let more = self.inputs@.take(i + 1);
                assert(more.drop_last() =~= self.inputs@.take(i as int));
                assert(more.last() == input);
                assert(more[0] == self.inputs@[0]);
            }
            if i > 0 {
                text.append(", ");
            }
            if input.pointer {
                let label = input.register.label();
                text.append(label.as_str());
                text.append(": ptr");
            } else {
                append_register(text, input.register, input.lanes);
            }
            assert(text@ =~= before + rendered_inputs(self.inputs@.take(i + 1)));
            i += 1;
        }
        assert(self.inputs@.take(i as int) =~= self.inputs@);
    }

    fn append_outputs(&self, text: &mut String)
        ensures
            final(text)@ == old(text)@ + rendered_outputs(self.outputs@),
    {
        let ghost before = text@;
        let mut i: usize = 0;
        assert(before + rendered_outputs(self.outputs@.take(0)) =~= before);
        while i < self.outputs.len()
            invariant
                i <= self.outputs@.len(),
                text@ == before + rendered_outputs(self.outputs@.take(i as int)),
            decreases self.outputs@.len() - i,
        {
            let output = self.outputs[i];
            proof {
                let more = self.outputs@.take(i + 1);
                assert(more.drop_last() =~= self.outputs@.take(i as int));
                assert(more.last() == output);
                assert(more[0] == self.outputs@[0]);
            }
            if i > 0 {
                text.append(", ");
            }
            append_register(text, output.register, output.lanes);
            assert(text@ =~= before + rendered_outputs(self.outputs@.take(i + 1)));
            i += 1;
        }
        assert(self.outputs@.take(i as int) =~= self.outputs@);
    }

    /// Compact register-oriented prototype. The supplied name is presentation
    /// text; callers remain responsible for escaping user-supplied names.
    pub fn prototype(&self, name: &str) -> (r: String)
        ensures
            r@ == prototype_text(name@, self.inputs@, self.outputs@),
    {
        let mut text: String = name.to_owned();
        text.append("(");
        self.append_inputs(&mut text);
        if self.outputs.len() == 0 {
            text.append(")");
        } else {
            text.append(") -> ");
            self.append_outputs(&mut text);
        }
        assert(text@ =~= prototype_text(name@, self.inputs@, self.outputs@));
        text
    }
}

/// The lanes that are defined on every path.
#[derive(Clone, Copy, Debug, PartialEq, Eq, Structural)]
pub struct Defined(pub u64);

impl View for Defined {
    type V = Defined;

    open spec fn view(&self) -> Defined {
        *self
    }
}

impl Domain for Defined {
    open spec fn wf(&self) -> bool {
        true
    }

    open spec fn joined(stored: Defined, incoming: Defined) -> (Defined, bool) {
        (Defined(stored.0 & incoming.0), stored.0 & incoming.0 != stored.0)
    }

    fn join(&mut self, incoming: &Self) -> (r: bool) {
        let joined: u64 = self.0 & incoming.0;
        let changed = joined != self.0;
        self.0 = joined;
        changed
    }

    fn duplicate(&self) -> (r: Self) {
        *self
    }
}

/// The registers that hold what they held at function entry, and those whose
/// entry value is on the stack.
#[derive(Clone, Copy, Debug, PartialEq, Eq, Structural)]
pub struct Preservation {
    pub original: u16,
    pub saved: u16,
}

impl View for Preservation {
    type V = Preservation;

    open spec fn view(&self) -> Preservation {
        *self
    }
}

impl Domain for Preservation {
    open spec fn wf(&self) -> bool {
        true
    }

    open spec fn joined(stored: Preservation, incoming: Preservation) -> (Preservation, bool) {
        (
            Preservation {
                original: stored.original & incoming.original,
                saved: stored.saved & incoming.saved,
            },
            stored.original & incoming.original != stored.original || stored.saved & incoming.saved
                != stored.saved,
        )
    }

    fn join(&mut self, incoming: &Self) -> (r: bool) {
        let joined = Preservation {
            original: self.original & incoming.original,
            saved: self.saved & incoming.saved,
        };
        let changed = joined.original != self.original || joined.saved != self.saved;
        *self = joined;
        changed
    }

    fn duplicate(&self) -> (r: Self) {
        *self
    }
}

proof fn lemma_lane_masks(a: u64, b: u64, c: u64)
    ensures
        a & a == a,
        (a & b) & b == a & b,
        a & b == a ==> (a & c) & b == a & c,
{
    assert(a & a == a && (a & b) & b == a & b && (a & b == a ==> (a & c) & b == a & c))
        by (bit_vector);
}

proof fn lemma_register_masks(a: u16, b: u16, c: u16)
    ensures
        a & a == a,
        (a & b) & b == a & b,
        a & b == a ==> (a & c) & b == a & c,
{
    assert(a & a == a && (a & b) & b == a & b && (a & b == a ==> (a & c) & b == a & c))
        by (bit_vector);
}

/// Intersecting definitions only loses precision, so a walk that comes to rest is
/// at a fixpoint.
pub proof fn definition_join_only_loses_precision()
    ensures
        only_loses_precision::<Defined>(),
{
    assert forall|a: u64| a & a == a by {
        lemma_lane_masks(a, a, a);
    }
    assert forall|a: u64, b: u64| (a & b) & b == a & b by {
        lemma_lane_masks(a, b, b);
    }
    assert forall|a: Defined, b: Defined, c: Defined|
        #![trigger Defined::joined(a, b), Defined::joined(a, c)]
        !Defined::joined(a, b).1 implies !Defined::joined(Defined::joined(a, c).0, b).1 by {
        lemma_lane_masks(a.0, b.0, c.0);
    }
}

/// Intersecting preserved registers only loses precision, so a walk that comes to
/// rest is at a fixpoint.
pub proof fn preservation_join_only_loses_precision()
    ensures
        only_loses_precision::<Preservation>(),
{
    assert forall|a: u16| a & a == a by {
        lemma_register_masks(a, a, a);
    }
    assert forall|a: u16, b: u16| (a & b) & b == a & b by {
        lemma_register_masks(a, b, b);
    }
    assert forall|a: Preservation, b: Preservation, c: Preservation|
        #![trigger Preservation::joined(a, b), Preservation::joined(a, c)]
        !Preservation::joined(a, b).1 implies !Preservation::joined(
        Preservation::joined(a, c).0,
        b,
    ).1 by {
        lemma_register_masks(a.original, b.original, c.original);
        lemma_register_masks(a.saved, b.saved, c.saved);
    }
}

/// Which registers hold their entry value behind an instruction: what is pushed
/// is saved, what is written is lost, what is popped is what was saved.
pub open spec fn spec_preservation_transfer(instruction: Instruction, state: Preservation) -> Preservation {
    let pushed: u16 = spec_saved_register_mask(instruction);
    let popped: u16 = spec_restored_register_mask(instruction);
    let written: u16 = spec_registers_for_lanes(spec_register_effects(instruction).writes);
    let saved: u16 = (state.saved & !pushed) | (state.original & pushed);
    let original: u16 = state.original & !(written & !popped);
    Preservation {
        original: (original & !popped) | (saved & popped),
        saved: saved & !popped,
    }
}

/// Which registers hold their entry value behind an instruction: what is pushed
/// is saved, what is written is lost, what is popped is what was saved.
pub fn preservation_transfer(instruction: Instruction, state: Preservation) -> (r: Preservation)
    requires
        instruction.wf(),
    ensures
        r == spec_preservation_transfer(instruction, state),
{
    let pushed: u16 = saved_register_mask(instruction);
    let popped: u16 = restored_register_mask(instruction);
    let written: u16 = registers_for_lanes(register_effects(instruction).writes);
    let saved: u16 = (state.saved & !pushed) | (state.original & pushed);
    let original: u16 = state.original & !(written & !popped);
    Preservation {
        original: (original & !popped) | (saved & popped),
        saved: saved & !popped,
    }
}

/// The walk over preserved registers.
pub struct PreservationFlow<'a> {
    pub tails: &'a OrderedSet<u32>,
}

impl<'a> Flow for PreservationFlow<'a> {
    type State = Preservation;

    type Log = NoLog;

    open spec fn wf(&self) -> bool {
        self.tails.wf()
    }

    open spec fn keeps(&self, decoded: DecodedView) -> bool {
        !spec_belongs_to_tail_target(decoded, self.tails@)
    }

    open spec fn entered(
        &self,
        owner: u32,
        decoded: DecodedView,
        state: Preservation,
    ) -> Preservation {
        state
    }

    open spec fn noted_entering(&self, decoded: DecodedView, state: Preservation, log: ()) -> () {
        log
    }

    open spec fn transferred(&self, decoded: DecodedView, state: Preservation) -> Preservation {
        spec_preservation_transfer(decoded.instruction, state)
    }

    open spec fn noted_leaving(&self, decoded: DecodedView, state: Preservation, log: ()) -> () {
        log
    }

    fn looks_at(&self, decoded: &DecodedInstruction) -> bool {
        !belongs_to_tail_target(decoded, self.tails)
    }

    fn enter(
        &self,
        owner: u32,
        decoded: &DecodedInstruction,
        state: &mut Preservation,
        log: &mut NoLog,
    ) {
    }

    fn transfer(&self, decoded: &DecodedInstruction, state: &mut Preservation, log: &mut NoLog) {
        *state = preservation_transfer(decoded.instruction, *state);
    }
}

/// The lanes that are read before they are defined, and the registers among them
/// that form addresses.
#[derive(Clone, Copy, Debug, PartialEq, Eq, Structural)]
pub struct InputLog {
    pub lanes: u64,
    pub pointers: u16,
}

impl View for InputLog {
    type V = InputLog;

    open spec fn view(&self) -> InputLog {
        *self
    }
}

/// What an instruction reads before it is defined. A register that is only pushed
/// to preserve it is no input.
pub open spec fn spec_note_inputs(
    instruction: Instruction,
    preserved: u16,
    state: Defined,
    log: InputLog,
) -> InputLog {
    let effect = spec_register_effects(instruction);
    let preservation_only: u64 = spec_lanes_for_registers(spec_saved_register_mask(instruction) & preserved);
    let inputs: u64 = effect.reads & !state.0 & !preservation_only;
    InputLog {
        lanes: log.lanes | inputs,
        pointers: log.pointers | (effect.pointers & spec_registers_for_lanes(inputs)),
    }
}

/// What an instruction reads before it is defined. A register that is only pushed
/// to preserve it is no input.
pub fn note_inputs(
    instruction: Instruction,
    preserved: u16,
    state: Defined,
    log: InputLog,
) -> (r: InputLog)
    requires
        instruction.wf(),
    ensures
        r == spec_note_inputs(instruction, preserved, state, log),
{
    let effect = register_effects(instruction);
    let preservation_only: u64 = lanes_for_registers(saved_register_mask(instruction) & preserved);
    let inputs: u64 = effect.reads & !state.0 & !preservation_only;
    InputLog {
        lanes: log.lanes | inputs,
        pointers: log.pointers | (effect.pointers & registers_for_lanes(inputs)),
    }
}

/// The walk over register inputs.
pub struct InputFlow<'a> {
    pub tails: &'a OrderedSet<u32>,
    /// The registers that every return preserves.
    pub preserved: u16,
}

impl<'a> Flow for InputFlow<'a> {
    type State = Defined;

    type Log = InputLog;

    open spec fn wf(&self) -> bool {
        self.tails.wf()
    }

    open spec fn keeps(&self, decoded: DecodedView) -> bool {
        !spec_belongs_to_tail_target(decoded, self.tails@)
    }

    open spec fn entered(&self, owner: u32, decoded: DecodedView, state: Defined) -> Defined {
        state
    }

    open spec fn noted_entering(
        &self,
        decoded: DecodedView,
        state: Defined,
        log: InputLog,
    ) -> InputLog {
        spec_note_inputs(decoded.instruction, self.preserved, state, log)
    }

    open spec fn transferred(&self, decoded: DecodedView, state: Defined) -> Defined {
        Defined(state.0 | spec_register_effects(decoded.instruction).writes)
    }

    open spec fn noted_leaving(
        &self,
        decoded: DecodedView,
        state: Defined,
        log: InputLog,
    ) -> InputLog {
        log
    }

    fn looks_at(&self, decoded: &DecodedInstruction) -> bool {
        !belongs_to_tail_target(decoded, self.tails)
    }

    fn enter(
        &self,
        owner: u32,
        decoded: &DecodedInstruction,
        state: &mut Defined,
        log: &mut InputLog,
    ) {
        *log = note_inputs(decoded.instruction, self.preserved, *state, *log);
    }

    fn transfer(&self, decoded: &DecodedInstruction, state: &mut Defined, log: &mut InputLog) {
        *state = Defined(state.0 | register_effects(decoded.instruction).writes);
    }
}

/// The walk over register outputs.
pub struct OutputFlow<'a> {
    pub tails: &'a OrderedSet<u32>,
}

impl<'a> Flow for OutputFlow<'a> {
    type State = Defined;

    type Log = NoLog;

    open spec fn wf(&self) -> bool {
        self.tails.wf()
    }

    open spec fn keeps(&self, decoded: DecodedView) -> bool {
        !spec_belongs_to_tail_target(decoded, self.tails@)
    }

    open spec fn entered(&self, owner: u32, decoded: DecodedView, state: Defined) -> Defined {
        state
    }

    open spec fn noted_entering(&self, decoded: DecodedView, state: Defined, log: ()) -> () {
        log
    }

    open spec fn transferred(&self, decoded: DecodedView, state: Defined) -> Defined {
        let effect = spec_register_effects(decoded.instruction);
        Defined((state.0 & !effect.writes) | effect.meaningful_writes)
    }

    open spec fn noted_leaving(&self, decoded: DecodedView, state: Defined, log: ()) -> () {
        log
    }

    fn looks_at(&self, decoded: &DecodedInstruction) -> bool {
        !belongs_to_tail_target(decoded, self.tails)
    }

    fn enter(
        &self,
        owner: u32,
        decoded: &DecodedInstruction,
        state: &mut Defined,
        log: &mut NoLog,
    ) {
    }

    fn transfer(&self, decoded: &DecodedInstruction, state: &mut Defined, log: &mut NoLog) {
        let effect = register_effects(decoded.instruction);
        *state = Defined((state.0 & !effect.writes) | effect.meaningful_writes);
    }
}

/// Whether an edge is a `JMP` out of the function at `entry` to another function.
pub open spec fn is_tail_flow(view: AnalysisView, entry: u32, flow: FlowEdge) -> bool {
    &&& flow.owner == entry
    &&& flow.kind == FlowKind::Branch
    &&& flow.target != entry
    &&& view.functions.contains(flow.target)
    &&& view.instructions.dom().contains(flow.site)
    &&& view.instructions[flow.site].instruction.isa == Isa::Jmp
}

/// The functions that the function at `entry` jumps to.
pub open spec fn tail_targets(view: AnalysisView, entry: u32) -> Set<u32> {
    Set::new(
        |target: u32|
            exists|flow: FlowEdge| #[trigger]
                view.flows.contains(flow) && is_tail_flow(view, entry, flow) && flow.target
                    == target,
    )
}

/// The instruction, where it is one of the function's own.
pub open spec fn own(decoded: DecodedView, entry: u32, tails: Set<u32>) -> Option<DecodedView> {
    if decoded.owners.contains(entry) && !spec_belongs_to_tail_target(decoded, tails) {
        Some(decoded)
    } else {
        None
    }
}

/// The instructions of a function in ascending order of address, without those of
/// the functions it jumps to.
pub open spec fn owned_by(view: AnalysisView, entry: u32) -> Seq<DecodedView> {
    gathered(
        view.listing().len() as int,
        |i: int| own(view.listing()[i], entry, tail_targets(view, entry)),
    )
}

fn find_tail_targets(analysis: &ControlFlowAnalysis, entry: u32) -> (r: OrderedSet<u32>)
    requires
        analysis.wf(),
    ensures
        r.wf(),
        r@ == tail_targets(analysis@, entry),
{
    let ghost view = analysis@;
    let ghost flows = analysis.flows.items@;
    let mut r: OrderedSet<u32> = OrderedSet::new();
    let mut i: usize = 0;
    while i < analysis.flows.items.len()
        invariant
            analysis.wf(),
            view == analysis@,
            flows == analysis.flows.items@,
            r.wf(),
            i <= flows.len(),
            forall|target: u32| #[trigger]
                r@.contains(target) ==> tail_targets(view, entry).contains(target),
            forall|k: int|
                0 <= k < i && is_tail_flow(view, entry, #[trigger] flows[k]) ==> r@.contains(
                    flows[k].target,
                ),
        decreases flows.len() - i,
    {
        let flow = analysis.flows.items[i];
        assert(view.flows.contains(flows[i as int]));
        if flow.owner == entry && flow.kind == FlowKind::Branch && flow.target != entry
            && analysis.functions.contains(&flow.target) {
            let jump = match analysis.instructions.get(flow.site) {
                Some(decoded) => decoded.instruction.isa == Isa::Jmp,
                None => false,
            };
            if jump {
                assert(is_tail_flow(view, entry, flow));
                r.insert(flow.target);
            }
        }
        i += 1;
    }
    proof {
        assert forall|target: u32| tail_targets(view, entry).contains(target) implies r@.contains(
            target,
        ) by {
            let flow = choose|flow: FlowEdge| #[trigger]
                view.flows.contains(flow) && is_tail_flow(view, entry, flow) && flow.target
                    == target;
            let k = choose|k: int| 0 <= k < flows.len() && flows[k] == flow;
            assert(is_tail_flow(view, entry, flows[k]));
        }
        assert(r@ =~= tail_targets(view, entry));
    }
    r
}

fn find_owned<'a>(analysis: &'a ControlFlowAnalysis, entry: u32, tails: &OrderedSet<u32>) -> (r:
    Vec<&'a DecodedInstruction>)
    requires
        analysis.wf(),
        tails.wf(),
        tails@ == tail_targets(analysis@, entry),
    ensures
        all_wf(r@),
        views(r@) == owned_by(analysis@, entry),
{
    let ghost listing = analysis.listing();
    let ghost each = |i: int|
        own(analysis@.listing()[i], entry, tail_targets(analysis@, entry));
    let mut r: Vec<&'a DecodedInstruction> = Vec::new();
    let mut i: usize = 0;
    proof {
        analysis.lemma_listing_view();
        assert(views(r@) =~= gathered(0, each));
    }
    while i < analysis.instructions.values.len()
        invariant
            analysis.wf(),
            tails.wf(),
            tails@ == tail_targets(analysis@, entry),
            listing == analysis.listing(),
            listing == analysis@.listing(),
            listing.len() == analysis.instructions.values@.len(),
            each == (|i: int|
                own(analysis@.listing()[i], entry, tail_targets(analysis@, entry))),
            i <= listing.len(),
            all_wf(r@),
            views(r@) == gathered(i as int, each),
        decreases listing.len() - i,
    {
        let decoded = &analysis.instructions.values[i];
        let ghost before = r@;
        proof {
            analysis.lemma_listing(i as int);
        }
        if decoded.owners.contains(&entry) && !belongs_to_tail_target(decoded, tails) {
            r.push(decoded);
            assert(views(r@) =~= views(before).push(decoded@));
        }
        i += 1;
    }
    r
}

/// Whether the owners of every instruction are all recorded.
pub open spec fn ownership_complete(owned: Seq<DecodedView>) -> bool {
    forall|k: int|
        0 <= k < owned.len() ==> (#[trigger] owned[k]).owner_total == owned[k].owners.len()
}

/// Whether the effects of every instruction are known.
pub open spec fn effects_complete(owned: Seq<DecodedView>) -> bool {
    forall|k: int|
        0 <= k < owned.len() ==> spec_register_effects(
            (#[trigger] owned[k]).instruction,
        ).complete
}

/// The registers that some instruction writes.
pub open spec fn all_writes(owned: Seq<DecodedView>) -> u16
    decreases owned.len(),
{
    if owned.len() == 0 {
        0
    } else {
        all_writes(owned.drop_last()) | spec_registers_for_lanes(
            spec_register_effects(owned.last().instruction).writes,
        )
    }
}

/// Whether some instruction is a call, or one that the decoder cannot name.
pub open spec fn makes_calls(owned: Seq<DecodedView>) -> bool {
    exists|k: int| 0 <= k < owned.len() && spec_leaves(#[trigger] owned[k].instruction.isa)
}

/// Whether an instruction transfers control to code that is not the function's.
pub open spec fn spec_leaves(isa: Isa) -> bool {
    matches!(isa, Isa::Jsr | Isa::Bsr | Isa::Trap | Isa::Trapv | Isa::Unknown)
}

/// Whether an instruction transfers control to code that is not the function's.
pub fn leaves(isa: Isa) -> (r: bool)
    ensures
        r == spec_leaves(isa),
{
    matches!(isa, Isa::Jsr | Isa::Bsr | Isa::Trap | Isa::Trapv | Isa::Unknown)
}

/// What one pass over a function's instructions shows.
struct Survey {
    owners_known: bool,
    effects_known: bool,
    written: u16,
    calls: bool,
}

fn survey(owned: &Vec<&DecodedInstruction>) -> (r: Survey)
    requires
        all_wf(owned@),
    ensures
        r.owners_known == ownership_complete(views(owned@)),
        r.effects_known == effects_complete(views(owned@)),
        r.written == all_writes(views(owned@)),
        r.calls == makes_calls(views(owned@)),
{
    let ghost list = views(owned@);
    let mut r = Survey { owners_known: true, effects_known: true, written: 0, calls: false };
    let mut i: usize = 0;
    while i < owned.len()
        invariant
            all_wf(owned@),
            list == views(owned@),
            i <= owned@.len(),
            r.owners_known == ownership_complete(list.take(i as int)),
            r.effects_known == effects_complete(list.take(i as int)),
            r.written == all_writes(list.take(i as int)),
            r.calls == makes_calls(list.take(i as int)),
        decreases owned@.len() - i,
    {
        let decoded = owned[i];
        let effect = register_effects(decoded.instruction);
        let ghost less = list.take(i as int);
        let ghost more = list.take(i + 1);
        proof {
            decoded.owners.lemma_len();
            assert(list[i as int] == decoded@);
            assert(more.drop_last() =~= less);
            assert(more.last() == decoded@);
            assert forall|k: int| 0 <= k < less.len() implies #[trigger] less[k] == more[k] by {}
            assert(ownership_complete(more) == (ownership_complete(less) && decoded@.owner_total
                == decoded@.owners.len())) by {
                if ownership_complete(more) {
                    assert(more[i as int] == decoded@);
                    assert forall|k: int| 0 <= k < less.len() implies (
                    #[trigger] less[k]).owner_total == less[k].owners.len() by {
                        assert(more[k] == less[k]);
                    }
                }
            }
            assert(effects_complete(more) == (effects_complete(less) && effect.complete)) by {
                if effects_complete(more) {
                    assert(more[i as int] == decoded@);
                    assert forall|k: int| 0 <= k < less.len() implies spec_register_effects(
                        (#[trigger] less[k]).instruction,
                    ).complete by {
                        assert(more[k] == less[k]);
                    }
                }
            }
            assert(makes_calls(more) == (makes_calls(less) || spec_leaves(
                decoded.instruction.isa,
            ))) by {
                if makes_calls(less) {
                    let k = choose|k: int|
                        0 <= k < less.len() && spec_leaves(#[trigger] less[k].instruction.isa);
                    assert(spec_leaves(more[k].instruction.isa));
                }
                if spec_leaves(decoded.instruction.isa) {
                    assert(spec_leaves(more[i as int].instruction.isa));
                }
                if makes_calls(more) {
                    let k = choose|k: int|
                        0 <= k < more.len() && spec_leaves(#[trigger] more[k].instruction.isa);
                    if k < less.len() {
                        assert(spec_leaves(less[k].instruction.isa));
                    }
                }
            }
        }
        if decoded.owner_total != decoded.owners.len() {
            r.owners_known = false;
        }
        if !effect.complete {
            r.effects_known = false;
        }
        r.written = r.written | registers_for_lanes(effect.writes);
        if leaves(decoded.instruction.isa) {
            r.calls = true;
        }
        i += 1;
    }
    assert(list.take(i as int) =~= list);
    r
}

/// Whether the function at `entry` ends in a jump to another one: into another
/// hunk, to another function, or through a library vector.
pub open spec fn tail_calls(view: AnalysisView, entry: u32, owned: Seq<DecodedView>) -> bool {
    ||| exists|flow: ExternalFlow| #[trigger]
        view.external.contains(flow) && flow.kind == ExternalKind::Jump
            && view.instructions.dom().contains(flow.site)
            && view.instructions[flow.site].owners.contains(entry)
    ||| exists|flow: FlowEdge| #[trigger]
        view.flows.contains(flow) && is_tail_flow(view, entry, flow)
    ||| exists|k: int|
        0 <= k < owned.len() && (#[trigger] owned[k]).instruction.isa == Isa::Jmp
            && owned[k].library_call() is Some
}

fn has_external_jump(analysis: &ControlFlowAnalysis, entry: u32) -> (r: bool)
    requires
        analysis.wf(),
    ensures
        r == exists|flow: ExternalFlow| #[trigger]
            analysis@.external.contains(flow) && flow.kind == ExternalKind::Jump
                && analysis@.instructions.dom().contains(flow.site)
                && analysis@.instructions[flow.site].owners.contains(entry),
{
    let ghost view = analysis@;
    let ghost flows = analysis.external.items@;
    let mut i: usize = 0;
    while i < analysis.external.items.len()
        invariant
            analysis.wf(),
            view == analysis@,
            flows == analysis.external.items@,
            i <= flows.len(),
            forall|k: int|
                0 <= k < i ==> !((#[trigger] flows[k]).kind == ExternalKind::Jump
                    && view.instructions.dom().contains(flows[k].site)
                    && view.instructions[flows[k].site].owners.contains(entry)),
        decreases flows.len() - i,
    {
        let flow = analysis.external.items[i];
        assert(view.external.contains(flows[i as int]));
        if flow.kind == ExternalKind::Jump {
            if let Some(at) = analysis.instructions.find(flow.site) {
                proof {
                    analysis.lemma_listing(at as int);
                }
                if analysis.instructions.values[at].owners.contains(&entry) {
                    return true;
                }
            }
        }
        i += 1;
    }
    proof {
        assert forall|flow: ExternalFlow| #[trigger] view.external.contains(flow) implies !(
        flow.kind == ExternalKind::Jump && view.instructions.dom().contains(flow.site)
            && view.instructions[flow.site].owners.contains(entry)) by {
            let k = choose|k: int| 0 <= k < flows.len() && flows[k] == flow;
            assert(flows[k] == flow);
        }
    }
    false
}

fn has_library_jump(owned: &Vec<&DecodedInstruction>) -> (r: bool)
    requires
        all_wf(owned@),
    ensures
        r == exists|k: int|
            0 <= k < views(owned@).len() && (#[trigger] views(owned@)[k]).instruction.isa
                == Isa::Jmp && views(owned@)[k].library_call() is Some,
{
    let ghost list = views(owned@);
    let mut i: usize = 0;
    while i < owned.len()
        invariant
            list == views(owned@),
            i <= owned@.len(),
            forall|k: int|
                0 <= k < i ==> !((#[trigger] list[k]).instruction.isa == Isa::Jmp
                    && list[k].library_call() is Some),
        decreases owned@.len() - i,
    {
        let decoded = owned[i];
        assert(list[i as int] == decoded@);
        if decoded.instruction.isa == Isa::Jmp && library_call(decoded).is_some() {
            return true;
        }
        i += 1;
    }
    false
}

fn has_tail_call(
    analysis: &ControlFlowAnalysis,
    entry: u32,
    owned: &Vec<&DecodedInstruction>,
    tails: &OrderedSet<u32>,
) -> (r: bool)
    requires
        analysis.wf(),
        all_wf(owned@),
        tails.wf(),
        tails@ == tail_targets(analysis@, entry),
    ensures
        r == tail_calls(analysis@, entry, views(owned@)),
{
    let jumps = !tails.is_empty();
    proof {
        if jumps {
            let target = tails.items@[0];
            assert(tails@.contains(target)) by {
                if tails.items@.len() == 0 {
                    assert(tails@ =~= Set::empty());
                }
            }
            let flow = choose|flow: FlowEdge| #[trigger]
                analysis@.flows.contains(flow) && is_tail_flow(analysis@, entry, flow)
                    && flow.target == target;
            assert(analysis@.flows.contains(flow) && is_tail_flow(analysis@, entry, flow));
        } else {
            assert forall|flow: FlowEdge| #[trigger] analysis@.flows.contains(flow) implies !is_tail_flow(
                analysis@,
                entry,
                flow,
            ) by {
                if is_tail_flow(analysis@, entry, flow) {
                    assert(tails@.contains(flow.target));
                }
            }
        }
    }
    has_external_jump(analysis, entry) || jumps || has_library_jump(owned)
}

/// The returns of a function, in address order.
pub open spec fn returns_of(owned: Seq<DecodedView>) -> Seq<FunctionReturn> {
    gathered(owned.len() as int, |k: int| spec_return_kind(owned[k].instruction.isa))
}

/// The return shape that all of a function's returns share.
pub open spec fn combined(kinds: Seq<FunctionReturn>) -> FunctionReturn {
    if kinds.len() == 0 {
        FunctionReturn::Never
    } else if forall|k: int| 0 <= k < kinds.len() ==> #[trigger] kinds[k] == kinds[0] {
        kinds[0]
    } else {
        FunctionReturn::Mixed
    }
}

fn combined_return(owned: &Vec<&DecodedInstruction>) -> (r: FunctionReturn)
    ensures
        r == combined(returns_of(views(owned@))),
{
    let ghost list = views(owned@);
    let ghost each = |k: int| spec_return_kind(list[k].instruction.isa);
    let mut first: Option<FunctionReturn> = None;
    let mut mixed = false;
    let mut i: usize = 0;
    while i < owned.len()
        invariant
            list == views(owned@),
            each == (|k: int| spec_return_kind(list[k].instruction.isa)),
            i <= owned@.len(),
            match first {
                None => gathered(i as int, each).len() == 0 && !mixed,
                Some(kind) => gathered(i as int, each).len() > 0 && gathered(i as int, each)[0]
                    == kind && mixed == !(forall|k: int|
                    0 <= k < gathered(i as int, each).len() ==> #[trigger] gathered(
                        i as int,
                        each,
                    )[k] == kind),
            },
        decreases owned@.len() - i,
    {
        let ghost less = gathered(i as int, each);
        let ghost more = gathered(i + 1, each);
        assert(list[i as int] == owned@[i as int]@);
        if let Some(kind) = return_kind(owned[i].instruction.isa) {
            assert(more == less.push(kind));
            match first {
                None => {
                    first = Some(kind);
                },
                Some(other) => {
                    if other != kind {
                        mixed = true;
                        assert(more[less.len() as int] != other);
                    }
                    proof {
                        if mixed && other == kind {
                            let k = choose|k: int| 0 <= k < less.len() && less[k] != other;
                            assert(more[k] == less[k]);
                        }
                    }
                },
            }
        } else {
            assert(more == less);
        }
        i += 1;
    }
    match first {
        None => FunctionReturn::Never,
        Some(kind) => if mixed {
            FunctionReturn::Mixed
        } else {
            kind
        },
    }
}

/// The registers that hold their entry value at every return that the walk
/// reaches, `None` where it reaches none.
pub open spec fn preserved_at(owned: Seq<DecodedView>, before: Map<u32, Preservation>) -> Option<u16>
    decreases owned.len(),
{
    if owned.len() == 0 {
        None
    } else {
        let so_far = preserved_at(owned.drop_last(), before);
        let decoded = owned.last();
        if spec_return_kind(decoded.instruction.isa) is Some && before.dom().contains(
            decoded.address,
        ) {
            match so_far {
                Some(mask) => Some(mask & before[decoded.address].original),
                None => Some(before[decoded.address].original),
            }
        } else {
            so_far
        }
    }
}

fn find_preserved(owned: &Vec<&DecodedInstruction>, before: &AddressMap<Preservation>) -> (r: u16)
    requires
        before.wf(),
    ensures
        r == match preserved_at(views(owned@), state_map(*before)) {
            Some(mask) => mask,
            None => 0,
        },
{
    let ghost list = views(owned@);
    let mut so_far: Option<u16> = None;
    let mut i: usize = 0;
    while i < owned.len()
        invariant
            before.wf(),
            list == views(owned@),
            i <= owned@.len(),
            so_far == preserved_at(list.take(i as int), state_map(*before)),
        decreases owned@.len() - i,
    {
        let decoded = owned[i];
        proof {
            let more = list.take(i + 1);
            assert(more.drop_last() =~= list.take(i as int));
            assert(more.last() == decoded@);
        }
        if return_kind(decoded.instruction.isa).is_some() {
            if let Some(state) = before.get(decoded.address) {
                so_far =
                match so_far {
                    Some(mask) => Some(mask & state.original),
                    None => Some(state.original),
                };
            }
        }
        i += 1;
    }
    assert(list.take(i as int) =~= list);
    match so_far {
        Some(mask) => mask,
        None => 0,
    }
}

/// The lanes that are defined at every return that the walk reaches, `None` where
/// it reaches none.
pub open spec fn defined_at(owned: Seq<DecodedView>, before: Map<u32, Defined>) -> Option<u64>
    decreases owned.len(),
{
    if owned.len() == 0 {
        None
    } else {
        let so_far = defined_at(owned.drop_last(), before);
        let decoded = owned.last();
        if spec_return_kind(decoded.instruction.isa) is Some && before.dom().contains(
            decoded.address,
        ) {
            match so_far {
                Some(lanes) => Some(lanes & before[decoded.address].0),
                None => Some(before[decoded.address].0),
            }
        } else {
            so_far
        }
    }
}

fn find_defined(owned: &Vec<&DecodedInstruction>, before: &AddressMap<Defined>) -> (r: u64)
    requires
        before.wf(),
    ensures
        r == match defined_at(views(owned@), state_map(*before)) {
            Some(lanes) => lanes,
            None => 0,
        },
{
    let ghost list = views(owned@);
    let mut so_far: Option<u64> = None;
    let mut i: usize = 0;
    while i < owned.len()
        invariant
            before.wf(),
            list == views(owned@),
            i <= owned@.len(),
            so_far == defined_at(list.take(i as int), state_map(*before)),
        decreases owned@.len() - i,
    {
        let decoded = owned[i];
        proof {
            let more = list.take(i + 1);
            assert(more.drop_last() =~= list.take(i as int));
            assert(more.last() == decoded@);
        }
        if return_kind(decoded.instruction.isa).is_some() {
            if let Some(state) = before.get(decoded.address) {
                so_far =
                match so_far {
                    Some(lanes) => Some(lanes & state.0),
                    None => Some(state.0),
                };
            }
        }
        i += 1;
    }
    assert(list.take(i as int) =~= list);
    match so_far {
        Some(lanes) => lanes,
        None => 0,
    }
}

/// Whether the flow out of every instruction of the function is resolved, but for
/// calls, whose return is known.
pub open spec fn flow_complete(view: AnalysisView, entry: u32) -> bool {
    forall|site: u32| #[trigger]
        view.unresolved.contains(UnresolvedFlow { owner: entry, address: site })
            ==> view.instructions.dom().contains(site) && view.instructions[site].instruction.isa
            == Isa::Jsr
}

fn is_flow_complete(analysis: &ControlFlowAnalysis, entry: u32) -> (r: bool)
    requires
        analysis.wf(),
    ensures
        r == flow_complete(analysis@, entry),
{
    let flows = &analysis.unresolved;
    let ghost view = analysis@;
    let mut i: usize = 0;
    while i < flows.items.len()
        invariant
            analysis.wf(),
            view == analysis@,
            *flows == analysis.unresolved,
            i <= flows.items@.len(),
            forall|k: int|
                #![trigger flows.items@[k]]
                0 <= k < i && flows.items@[k].owner == entry ==> view.instructions.dom().contains(
                    flows.items@[k].address,
                ) && view.instructions[flows.items@[k].address].instruction.isa == Isa::Jsr,
        decreases flows.items@.len() - i,
    {
        let flow = flows.items[i];
        if flow.owner == entry {
            let call = match analysis.instructions.get(flow.address) {
                Some(decoded) => decoded.instruction.isa == Isa::Jsr,
                None => false,
            };
            if !call {
                proof {
                    assert(flows@.contains(flows.items@[i as int]));
                    assert(view.unresolved.contains(
                        UnresolvedFlow { owner: entry, address: flow.address },
                    ));
                }
                return false;
            }
        }
        i += 1;
    }
    proof {
        assert forall|site: u32| #[trigger]
            view.unresolved.contains(
                UnresolvedFlow { owner: entry, address: site },
            ) implies view.instructions.dom().contains(site)
            && view.instructions[site].instruction.isa == Isa::Jsr by {
            let flow = UnresolvedFlow { owner: entry, address: site };
            let k = choose|k: int| 0 <= k < flows.items@.len() && flows.items@[k] == flow;
            assert(flows.items@[k].owner == entry);
        }
    }
    true
}

/// The register of a number, where a mask holds it.
pub open spec fn spec_masked_register(mask: u16, bit: u8) -> Option<FunctionRegister> {
    if spec_listed(mask, bit as u16) {
        Some(spec_register_from_bit(bit))
    } else {
        None
    }
}

/// The register of a number, where a mask holds it.
pub fn masked_register(mask: u16, bit: u8) -> (r: Option<FunctionRegister>)
    requires
        bit < 16,
    ensures
        r == spec_masked_register(mask, bit),
{
    if listed(mask, bit as u16) {
        Some(register_from_bit(bit))
    } else {
        None
    }
}

/// The registers of a mask, without A7.
pub open spec fn spec_registers(mask: u16) -> Seq<FunctionRegister> {
    gathered(15, |bit: int| spec_masked_register(mask, bit as u8))
}

/// The registers of a mask, without A7.
pub fn registers(mask: u16) -> (r: Vec<FunctionRegister>)
    ensures
        r@ == spec_registers(mask),
{
    let ghost each = |bit: int| spec_masked_register(mask, bit as u8);
    let mut r: Vec<FunctionRegister> = Vec::new();
    let mut bit: u8 = 0;
    while bit < 15
        invariant
            bit <= 15,
            each == (|bit: int| spec_masked_register(mask, bit as u8)),
            r@ == gathered(bit as int, each),
        decreases 15 - bit,
    {
        if let Some(register) = masked_register(mask, bit) {
            r.push(register);
        }
        bit += 1;
    }
    r
}

/// The input of a register number, where the caller supplies one.
pub open spec fn spec_masked_input(lanes: u64, pointers: u16, bit: u8) -> Option<FunctionInput> {
    if spec_lanes_of(lanes, bit) != 0 {
        Some(
            FunctionInput {
                register: spec_register_from_bit(bit),
                lanes: RegisterLanes(spec_lanes_of(lanes, bit)),
                pointer: spec_listed(pointers, bit as u16),
            },
        )
    } else {
        None
    }
}

/// The input of a register number, where the caller supplies one.
pub fn masked_input(lanes: u64, pointers: u16, bit: u8) -> (r: Option<FunctionInput>)
    requires
        bit < 16,
    ensures
        r == spec_masked_input(lanes, pointers, bit),
{
    if lanes_of(lanes, bit) != 0 {
        Some(
            FunctionInput {
                register: register_from_bit(bit),
                lanes: RegisterLanes(lanes_of(lanes, bit)),
                pointer: listed(pointers, bit as u16),
            },
        )
    } else {
        None
    }
}

/// The inputs of lane masks, without A7.
pub open spec fn spec_inputs(lanes: u64, pointers: u16) -> Seq<FunctionInput> {
    gathered(15, |bit: int| spec_masked_input(lanes, pointers, bit as u8))
}

fn inputs(lanes: u64, pointers: u16) -> (r: Vec<FunctionInput>)
    ensures
        r@ == spec_inputs(lanes, pointers),
{
    let ghost each = |bit: int| spec_masked_input(lanes, pointers, bit as u8);
    let mut r: Vec<FunctionInput> = Vec::new();
    let mut bit: u8 = 0;
    while bit < 15
        invariant
            bit <= 15,
            each == (|bit: int| spec_masked_input(lanes, pointers, bit as u8)),
            r@ == gathered(bit as int, each),
        decreases 15 - bit,
    {
        if let Some(input) = masked_input(lanes, pointers, bit) {
            r.push(input);
        }
        bit += 1;
    }
    r
}

/// The output of a register number, where the function establishes one.
pub open spec fn spec_masked_output(lanes: u64, bit: u8) -> Option<FunctionOutput> {
    if spec_lanes_of(lanes, bit) != 0 {
        Some(
            FunctionOutput {
                register: spec_register_from_bit(bit),
                lanes: RegisterLanes(spec_lanes_of(lanes, bit)),
            },
        )
    } else {
        None
    }
}

/// The output of a register number, where the function establishes one.
pub fn masked_output(lanes: u64, bit: u8) -> (r: Option<FunctionOutput>)
    requires
        bit < 16,
    ensures
        r == spec_masked_output(lanes, bit),
{
    if lanes_of(lanes, bit) != 0 {
        Some(
            FunctionOutput {
                register: register_from_bit(bit),
                lanes: RegisterLanes(lanes_of(lanes, bit)),
            },
        )
    } else {
        None
    }
}

/// The outputs of a lane mask, without A7.
pub open spec fn spec_outputs(lanes: u64) -> Seq<FunctionOutput> {
    gathered(15, |bit: int| spec_masked_output(lanes, bit as u8))
}

fn outputs(lanes: u64) -> (r: Vec<FunctionOutput>)
    ensures
        r@ == spec_outputs(lanes),
{
    let ghost each = |bit: int| spec_masked_output(lanes, bit as u8);
    let mut r: Vec<FunctionOutput> = Vec::new();
    let mut bit: u8 = 0;
    while bit < 15
        invariant
            bit <= 15,
            each == (|bit: int| spec_masked_output(lanes, bit as u8)),
            r@ == gathered(bit as int, each),
        decreases 15 - bit,
    {
        if let Some(output) = masked_output(lanes, bit) {
            r.push(output);
        }
        bit += 1;
    }
    r
}

/// What the three walks over a function's registers come to.
pub struct RegisterWalks {
    pub preserved: u16,
    pub inputs: InputLog,
    pub defined: u64,
    pub exhausted: bool,
}

/// What the three walks over a function's registers come to.
pub open spec fn walks_of(
    view: AnalysisView,
    entry: u32,
    owned: Seq<DecodedView>,
    tails: &OrderedSet<u32>,
) -> RegisterWalks {
    let (preservation, preservation_exhausted) = outcome(
        PreservationFlow { tails },
        view,
        entry,
        Schedule::Ascending,
        Preservation { original: GENERAL_REGISTERS, saved: 0 },
        (),
    );
    let preserved = match preserved_at(owned, preservation.before) {
        Some(mask) => mask,
        None => 0,
    };
    let (reading, reading_exhausted) = outcome(
        InputFlow { tails, preserved },
        view,
        entry,
        Schedule::Ascending,
        Defined(0),
        InputLog { lanes: 0, pointers: 0 },
    );
    let (writing, writing_exhausted) = outcome(
        OutputFlow { tails },
        view,
        entry,
        Schedule::Ascending,
        Defined(0),
        (),
    );
    RegisterWalks {
        preserved,
        inputs: reading.log,
        defined: match defined_at(owned, writing.before) {
            Some(lanes) => lanes,
            None => 0,
        },
        exhausted: preservation_exhausted || reading_exhausted || writing_exhausted,
    }
}

fn walk_registers(
    analysis: &ControlFlowAnalysis,
    entry: u32,
    owned: &Vec<&DecodedInstruction>,
    tails: &OrderedSet<u32>,
) -> (r: RegisterWalks)
    requires
        analysis.wf(),
        tails.wf(),
    ensures
        r == walks_of(analysis@, entry, views(owned@), tails),
{
    let mut none = NoLog;
    let preservation = forward(
        &PreservationFlow { tails },
        analysis,
        entry,
        Preservation { original: GENERAL_REGISTERS, saved: 0 },
        &mut none,
    );
    let preserved: u16 = find_preserved(owned, &preservation.before);
    let mut log = InputLog { lanes: 0, pointers: 0 };
    let reading = forward(&InputFlow { tails, preserved }, analysis, entry, Defined(0), &mut log);
    let mut nothing = NoLog;
    let writing = forward(&OutputFlow { tails }, analysis, entry, Defined(0), &mut nothing);
    RegisterWalks {
        preserved,
        inputs: log,
        defined: find_defined(owned, &writing.before),
        exhausted: preservation.exhausted || reading.exhausted || writing.exhausted,
    }
}

/// Whether everything that register claims rest on is known.
pub open spec fn claims_hold(
    view: AnalysisView,
    entry: u32,
    owned: Seq<DecodedView>,
    walks: RegisterWalks,
) -> bool {
    &&& ownership_complete(owned)
    &&& effects_complete(owned)
    &&& flow_complete(view, entry)
    &&& !tail_calls(view, entry, owned)
    &&& !walks.exhausted
}

impl FunctionSignature {
    /// The register claims are those of the walks, or none where something that
    /// they rest on is not known.
    pub open spec fn claims(&self, owned: Seq<DecodedView>, walks: RegisterWalks) -> bool {
        if self.complete {
            &&& self.inputs@ == spec_inputs(
                walks.inputs.lanes & GENERAL_REGISTER_LANES,
                walks.inputs.pointers,
            )
            &&& self.outputs@ == spec_outputs(
                walks.defined & !spec_lanes_for_registers(walks.preserved) & GENERAL_REGISTER_LANES,
            )
            &&& self.clobbered@ == spec_registers(
                all_writes(owned) & !walks.preserved & GENERAL_REGISTERS,
            )
            &&& self.preserved@ == spec_registers(walks.preserved & GENERAL_REGISTERS)
        } else {
            &&& self.inputs@ == Seq::<FunctionInput>::empty()
            &&& self.outputs@ == Seq::<FunctionOutput>::empty()
            &&& self.clobbered@ == Seq::<FunctionRegister>::empty()
            &&& self.preserved@ == Seq::<FunctionRegister>::empty()
        }
    }

    /// This is the signature of the function at `entry`.
    pub open spec fn describes(&self, view: AnalysisView, entry: u32) -> bool {
        exists|tails: OrderedSet<u32>| #[trigger] self.describes_past(view, entry, &tails)
    }

    /// This is the signature of the function at `entry`, with the functions that it
    /// jumps to at hand.
    pub open spec fn describes_past(&self, view: AnalysisView, entry: u32, tails: &OrderedSet<u32>) -> bool {
        let owned = owned_by(view, entry);
        let walks = walks_of(view, entry, owned, tails);
        &&& tails.wf()
        &&& tails@ == tail_targets(view, entry)
        &&& self.entry == entry
        &&& self.complete == claims_hold(view, entry, owned, walks)
        &&& self.claims(owned, walks)
        &&& exists|depths: Map<u32, StackDepth>| #[trigger]
            is_stack_analysis(StackFlow { tails }, view, entry, owned, depths, self.frame)
                && self.stack_slots@ == slots_of(owned, self.frame, depths)
        &&& self.returns == combined(returns_of(owned))
        &&& self.tail_call == tail_calls(view, entry, owned)
        &&& self.leaf == (!tail_calls(view, entry, owned) && !makes_calls(owned))
        &&& self.evidence_total == owned.len()
        &&& self.evidence@ == first_addresses(owned)
    }
}

/// The addresses of a list's first instructions.
pub open spec fn first_addresses(owned: Seq<DecodedView>) -> Seq<u32> {
    let shown = if owned.len() < MAX_SIGNATURE_EVIDENCE {
        owned.len()
    } else {
        MAX_SIGNATURE_EVIDENCE as nat
    };
    Seq::new(shown, |k: int| owned[k].address)
}

fn evidence_of(owned: &Vec<&DecodedInstruction>) -> (r: Vec<u32>)
    ensures
        r@ == first_addresses(views(owned@)),
{
    let mut r: Vec<u32> = Vec::new();
    let mut i: usize = 0;
    while i < owned.len() && i < MAX_SIGNATURE_EVIDENCE
        invariant
            i <= owned@.len(),
            i <= MAX_SIGNATURE_EVIDENCE,
            r@.len() == i,
            forall|k: int| 0 <= k < i ==> #[trigger] r@[k] == owned@[k]@.address,
        decreases owned@.len() - i,
    {
        r.push(owned[i].address);
        i += 1;
    }
    assert(r@ =~= first_addresses(views(owned@)));
    r
}

/// Infer the signature of the function at `entry`.
pub fn function_signature(analysis: &ControlFlowAnalysis, entry: u32) -> (r: FunctionSignature)
    requires
        analysis.wf(),
    ensures
        r.describes(analysis@, entry),
{
    let tails = find_tail_targets(analysis, entry);
    let owned = find_owned(analysis, entry, &tails);
    let seen = survey(&owned);
    let tail_call = has_tail_call(analysis, entry, &owned, &tails);
    let walks = walk_registers(analysis, entry, &owned, &tails);
    let complete = seen.owners_known && seen.effects_known && is_flow_complete(analysis, entry)
        && !tail_call && !walks.exhausted;
    let stack = analyze_stack(analysis, entry, &owned, &tails);
    let slots = stack_slots(&owned, stack.frame, &stack.before);
    let mut signature = FunctionSignature {
        entry,
        complete,
        inputs: Vec::new(),
        outputs: Vec::new(),
        clobbered: Vec::new(),
        preserved: Vec::new(),
        frame: stack.frame,
        stack_slots: slots,
        returns: combined_return(&owned),
        leaf: !tail_call && !seen.calls,
        tail_call,
        evidence: evidence_of(&owned),
        evidence_total: owned.len(),
    };
    if complete {
        signature.inputs =
        inputs(walks.inputs.lanes & GENERAL_REGISTER_LANES, walks.inputs.pointers);
        signature.outputs =
        outputs(
            walks.defined & !lanes_for_registers(walks.preserved) & GENERAL_REGISTER_LANES,
        );
        signature.clobbered = registers(seen.written & !walks.preserved & GENERAL_REGISTERS);
        signature.preserved = registers(walks.preserved & GENERAL_REGISTERS);
    }
    assert(signature.describes_past(analysis@, entry, &tails));
    signature
}

/// Infer one signature for every function entry, ordered by entry.
pub fn function_signatures(analysis: &ControlFlowAnalysis) -> (r: Vec<FunctionSignature>)
    requires
        analysis.wf(),
    ensures
        r@.len() == in_order(analysis@.functions).len(),
        forall|i: int|
            0 <= i < r@.len() ==> (#[trigger] r@[i]).describes(
                analysis@,
                in_order(analysis@.functions)[i],
            ),
{
    let mut r: Vec<FunctionSignature> = Vec::new();
    let entries = &analysis.functions.items;
    proof {
        lemma_in_order(entries@);
    }
    let mut i: usize = 0;
    while i < entries.len()
        invariant
            analysis.wf(),
            *entries == analysis.functions.items,
            i <= entries@.len(),
            r@.len() == i,
            forall|k: int|
                0 <= k < i ==> (#[trigger] r@[k]).describes(analysis@, entries@[k]),
        decreases entries@.len() - i,
    {
        r.push(function_signature(analysis, entries[i]));
        i += 1;
    }
    r
}

/// A signature that is not complete makes no register claims.
pub proof fn incomplete_signatures_claim_nothing(
    signature: FunctionSignature,
    view: AnalysisView,
    entry: u32,
)
    requires
        signature.describes(view, entry),
        !signature.complete,
    ensures
        signature.inputs@.len() == 0,
        signature.outputs@.len() == 0,
        signature.clobbered@.len() == 0,
        signature.preserved@.len() == 0,
{
}

pub(crate) proof fn lemma_gathered_from<T>(n: int, each: spec_fn(int) -> Option<T>, item: T) -> (k: int)
    requires
        gathered(n, each).contains(item),
    ensures
        0 <= k < n,
        each(k) == Some(item),
    decreases n,
{
    let list = gathered(n, each);
    let i = choose|i: int| 0 <= i < list.len() && list[i] == item;
    if each(n - 1) == Some(item) {
        n - 1
    } else {
        let shorter = gathered(n - 1, each);
        assert(shorter[i] == item);
        lemma_gathered_from(n - 1, each, item)
    }
}

proof fn lemma_masked_register(mask: u16, register: FunctionRegister) -> (bit: u8)
    requires
        spec_registers(mask).contains(register),
    ensures
        bit < 15,
        register == spec_register_from_bit(bit),
        spec_listed(mask, bit as u16),
{
    let k = lemma_gathered_from(
        15,
        |bit: int| spec_masked_register(mask, bit as u8),
        register,
    );
    k as u8
}

/// A register that a function preserves is neither among those that it clobbers nor one of
/// its outputs.
pub proof fn preserved_registers_are_kept(
    signature: FunctionSignature,
    view: AnalysisView,
    entry: u32,
    register: FunctionRegister,
)
    requires
        signature.describes(view, entry),
        signature.preserved@.contains(register),
    ensures
        !signature.clobbered@.contains(register),
        forall|output: FunctionOutput| #[trigger]
            signature.outputs@.contains(output) ==> output.register != register,
{
    let tails = choose|tails: OrderedSet<u32>| #[trigger]
        signature.describes_past(view, entry, &tails);
    let owned = owned_by(view, entry);
    let walks = walks_of(view, entry, owned, &tails);
    let kept = walks.preserved;
    let written = all_writes(owned);
    let bit = lemma_masked_register(kept & GENERAL_REGISTERS, register);
    let at: u16 = bit as u16;
    assert(kept & (1u16 << at) != 0) by (bit_vector)
        requires
            (kept & 0x7fff) & (1u16 << at) != 0,
    ;
    if signature.clobbered@.contains(register) {
        let other = lemma_masked_register(written & !kept & GENERAL_REGISTERS, register);
        assert(other == bit);
        assert((written & !kept & 0x7fff) & (1u16 << at) == 0) by (bit_vector)
            requires
                at < 16,
                (kept & 0x7fff) & (1u16 << at) != 0,
        ;
    }
    assert forall|output: FunctionOutput| #[trigger]
        signature.outputs@.contains(output) implies output.register != register by {
        let lanes = spec_lanes_for_registers(kept);
        let defined = walks.defined;
        let all = GENERAL_REGISTER_LANES;
        let k = lemma_gathered_from(
            15,
            |bit: int| spec_masked_output(defined & !lanes & GENERAL_REGISTER_LANES, bit as u8),
            output,
        );
        if output.register == register {
            assert(k == bit);
            lemma_listed_lanes(kept, 16, bit);
            let shift: u32 = ((bit as u32) * 4) as u32;
            assert(((defined & !lanes & all) >> shift) & 0xf == 0) by (bit_vector)
                requires
                    (lanes >> shift) & 0xf == 0xf,
            ;
        }
    }
}

} // verus!
