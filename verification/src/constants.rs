//! Exact register values at each instruction, propagated through control flow.
//!
//! This exists to fill in library-call arguments. An fd table says
//! `AllocMem(byteSize=D0, requirements=D1)`; that names the registers but not
//! what a given call passes in them, which is the part a reader actually wants.
//! The analysis is a deliberately small abstract domain: it knows *unknown*, an
//! exact 32-bit value, and a symbolic 32-bit memory read. It follows
//! whole-register immediates, `MOVE.L` register copies and bounded additive
//! transformations, PC-relative address formation, and a small set of exact
//! 32-bit arithmetic through a bounded forward worklist.
//!
//! ## Conservative control-flow joins
//!
//! Each function owner is analyzed separately over a shared internal
//! basic-block engine. Two incoming paths retain a value only when both hold
//! the same exact number or the same symbolic expression. A path with no value,
//! two different values, a call, an unknown write, a function boundary, or
//! unresolved control flow produces an explicit [`Unresolved`] reason rather
//! than a guess.
//!
//! The worklist is deterministic and bounded. A pathological graph that cannot
//! converge within its budget loses every result for that owner with
//! [`Unresolved::StepLimit`]; it never exposes a partial fixpoint.
//!
//! Every retained value has a bounded chain of the instructions that
//! established, copied, or transformed it. The chain is evidence for the
//! report, not merely an implementation detail.
//!
//! ## Relocated operands are not the numbers they encode
//!
//! An unloaded HUNK file stores an *addend* in every longword a relocation
//! patches, so `LEA $1c.L,A0` patched into hunk 1 encodes `$1c` while naming an
//! address this hunk's coordinate space has no number for. Reading the encoded
//! bytes alone therefore states an address in the wrong frame. The relocation
//! index retained by [`ControlFlowAnalysis`] makes an address-bearing longword
//! operand read through the same record the traversal used: into the analyzed
//! hunk it is an offset (converted to a runtime address only where a mapped
//! origin proves one), and into any other hunk it is retained as an explicit
//! hunk and offset rather than flattened into a `u32`.
//!
//! ## Exact values and sized memory reads
//!
//! Only writes covering the whole register establish an exact value. A narrow
//! immediate write remains unknown. Byte/word memory writes to Dn instead keep
//! an explicit replacement of its low bits, with its old high bits named by a
//! register snapshot. MOVEA.W and MOVEM.W memory reads sign-extend to 32 bits.
//! Indexed reads retain the base, signed brief displacement and word/long index
//! snapshot. MOVEM loads retain each transfer's byte offset and final base update.

use crate::analysis::{
    spec_image_offset, spec_operand_address, AnalysisView, ControlFlowAnalysis, OperandAddress,
    UnresolvedFlow,
};
use crate::collections::{in_order, lemma_in_order, AddressMap, OrderedSet, Ranked};
use crate::dataflow::{
    forward, outcome, state_map, states_wf, Domain, Flow, NoLog, Schedule,
};
use crate::decoded::{DecodedInstruction, DecodedView, OperandRole};
use crate::fixpoint::{
    all_have, only_loses_precision, reported_states_have_what_steps_keep, steps_keep,
};
use crate::globals::{sign_extend_word, spec_sign_extend_word};
use crate::m68k::{AddressingMode, Instruction, Isa, Operands, Size};
use crate::register_write::{
    address_amount, is_call, register_write, spec_address_amount, spec_is_call,
    spec_register_write,
};
use crate::text::{characters, trim, trim_range};
use crate::values::{
    copied, register_index, spec_register_index, transformed, value_join,
    value_join_only_loses_precision, AbstractValue, AbstractView, ConstantValue, ConstantView,
    RegisterKind, RegisterWrite, SymbolicValue, SymbolicView, Unresolved, MAX_VALUE_EVIDENCE,
};
use vstd::prelude::*;

verus! {

/// What the caller knows about the analyzed hunk's runtime mapping.
///
/// Relocations are intentionally absent: [`ControlFlowAnalysis`] retains the
/// record used by traversal so value analysis cannot be given a different one.
/// The default is the plain, in-place reading, where a PC-relative address is
/// an offset in the analysis' own coordinate space.
#[derive(Clone, Copy, Debug, PartialEq, Eq, Structural)]
pub struct ValueOptions {
    /// Absolute address of hunk offset zero, for an image mapped to a fixed
    /// load address. Turns image-relative results into runtime addresses.
    pub image_origin: Option<u32>,
}

impl Default for ValueOptions {
    fn default() -> (r: Self)
        ensures
            r.image_origin is None,
    {
        ValueOptions { image_origin: None }
    }
}

/// The kind of register that a letter names.
pub open spec fn spec_register_letter(letter: char) -> Option<RegisterKind> {
    if letter == 'd' || letter == 'D' {
        Some(RegisterKind::Data)
    } else if letter == 'a' || letter == 'A' {
        Some(RegisterKind::Address)
    } else {
        None
    }
}

/// The kind of register that a letter names.
pub fn register_letter(letter: char) -> (r: Option<RegisterKind>)
    ensures
        r == spec_register_letter(letter),
{
    if letter == 'd' || letter == 'D' {
        Some(RegisterKind::Data)
    } else if letter == 'a' || letter == 'A' {
        Some(RegisterKind::Address)
    } else {
        None
    }
}

/// The register that a name such as `d0` or `A1` stands for: a letter and a digit
/// below eight, with white space around them.
pub open spec fn spec_parse_register(name: Seq<char>) -> Option<(RegisterKind, u8)> {
    let bare = trim(name);
    if bare.len() == 2 && 48 <= bare[1] as u32 <= 55 {
        match spec_register_letter(bare[0]) {
            Some(kind) => Some((kind, (bare[1] as u32 - 48) as u8)),
            None => None,
        }
    } else {
        None
    }
}

/// Parse an fd-style register name such as `d0` or `A1`.
pub fn parse_register(name: &str) -> (r: Option<(RegisterKind, u8)>)
    ensures
        r == spec_parse_register(name@),
        r matches Some((_, register)) ==> register < 8,
{
    let text = characters(name);
    assert(text@.subrange(0, text@.len() as int) =~= text@);
    let (start, end) = trim_range(&text, 0, text.len());
    if end - start != 2 {
        return None;
    }
    proof {
        let bare = trim(name@);
        assert(bare == text@.subrange(start as int, end as int));
        assert(bare[0] == text@[start as int] && bare[1] == text@[start + 1]);
    }
    let digit: u32 = text[start + 1] as u32;
    if digit < 48 || digit > 55 {
        return None;
    }
    match register_letter(text[start]) {
        Some(kind) => Some((kind, (digit - 48) as u8)),
        None => None,
    }
}

/// What is known of all sixteen registers.
#[derive(Debug)]
pub struct RegisterState {
    pub registers: Vec<AbstractValue>,
}

impl View for RegisterState {
    type V = Seq<AbstractView>;

    open spec fn view(&self) -> Seq<AbstractView> {
        self.registers@.map_values(|value: AbstractValue| value@)
    }
}

/// No register is known, for one reason.
pub open spec fn all_unknown(reason: Unresolved) -> Seq<AbstractView> {
    Seq::new(16, |i: int| AbstractView::Unknown(reason))
}

/// Whether a value that arrives changes the one at position `i`.
pub open spec fn changes(stored: Seq<AbstractView>, incoming: Seq<AbstractView>, i: int) -> bool {
    value_join(stored[i], incoming[i]).1
}

impl RegisterState {
    fn unknown(reason: Unresolved) -> (r: Self)
        ensures
            r.wf(),
            r@ == all_unknown(reason),
    {
        let mut registers: Vec<AbstractValue> = Vec::new();
        while registers.len() < 16
            invariant
                registers@.len() <= 16,
                forall|k: int|
                    0 <= k < registers@.len() ==> (#[trigger] registers@[k])@
                        == AbstractView::Unknown(reason),
            decreases 16 - registers@.len(),
        {
            registers.push(AbstractValue::Unknown(reason));
        }
        let r = RegisterState { registers };
        assert(r@ =~= all_unknown(reason));
        r
    }
}

impl Domain for RegisterState {
    open spec fn wf(&self) -> bool {
        self.registers@.len() == 16
    }

    open spec fn joined(stored: Seq<AbstractView>, incoming: Seq<AbstractView>) -> (
        Seq<AbstractView>,
        bool,
    ) {
        (
            Seq::new(stored.len(), |i: int| value_join(stored[i], incoming[i]).0),
            exists|i: int| 0 <= i < stored.len() && #[trigger] changes(stored, incoming, i),
        )
    }

    fn join(&mut self, incoming: &Self) -> (r: bool) {
        let ghost stored = self@;
        let mut changed = false;
        let mut i: usize = 0;
        while i < 16
            invariant
                i <= 16,
                self.wf(),
                incoming.wf(),
                stored.len() == 16,
                forall|k: int|
                    0 <= k < i ==> (#[trigger] self.registers@[k])@ == value_join(
                        stored[k],
                        incoming@[k],
                    ).0,
                forall|k: int| i <= k < 16 ==> (#[trigger] self.registers@[k])@ == stored[k],
                changed == exists|k: int| 0 <= k < i && #[trigger] changes(stored, incoming@, k),
            decreases 16 - i,
        {
            assert(incoming@[i as int] == incoming.registers@[i as int]@);
            if self.registers[i].join(&incoming.registers[i]) {
                assert(changes(stored, incoming@, i as int));
                changed = true;
            } else {
                assert(!changes(stored, incoming@, i as int));
            }
            i += 1;
        }
        assert(self@ =~= Self::joined(stored, incoming@).0);
        changed
    }

    fn duplicate(&self) -> (r: Self) {
        let mut registers: Vec<AbstractValue> = Vec::new();
        let mut i: usize = 0;
        while i < self.registers.len()
            invariant
                i <= self.registers@.len(),
                registers@.len() == i,
                forall|k: int|
                    0 <= k < i ==> (#[trigger] registers@[k])@ == self.registers@[k]@,
            decreases self.registers@.len() - i,
        {
            registers.push(self.registers[i].duplicate());
            i += 1;
        }
        let r = RegisterState { registers };
        assert(r@ =~= self@);
        r
    }
}

/// Joining register states only loses precision, so a walk that comes to rest is
/// at a fixpoint.
pub proof fn register_join_only_loses_precision()
    ensures
        only_loses_precision::<RegisterState>(),
{
    assert forall|a: Seq<AbstractView>| !(#[trigger] RegisterState::joined(a, a)).1 by {
        assert forall|i: int| !#[trigger] changes(a, a, i) by {
            value_join_only_loses_precision(a[i], a[i], a[i]);
        }
    }
    assert forall|a: Seq<AbstractView>, b: Seq<AbstractView>|
        !(#[trigger] RegisterState::joined(a, b)).1 implies RegisterState::joined(a, b).0 == a by {
        assert forall|i: int| 0 <= i < a.len() implies RegisterState::joined(a, b).0[i] == a[i] by {
            assert(!changes(a, b, i));
            value_join_only_loses_precision(a[i], b[i], b[i]);
        }
        assert(RegisterState::joined(a, b).0 =~= a);
    }
    assert forall|a: Seq<AbstractView>, b: Seq<AbstractView>|
        !RegisterState::joined((#[trigger] RegisterState::joined(a, b)).0, b).1 by {
        let c = RegisterState::joined(a, b).0;
        assert forall|i: int| 0 <= i < c.len() implies !#[trigger] changes(c, b, i) by {
            value_join_only_loses_precision(a[i], b[i], b[i]);
        }
    }
    assert forall|a: Seq<AbstractView>, b: Seq<AbstractView>, c: Seq<AbstractView>|
        #![trigger RegisterState::joined(a, b), RegisterState::joined(a, c)]
        !RegisterState::joined(a, b).1 implies !RegisterState::joined(
        RegisterState::joined(a, c).0,
        b,
    ).1 by {
        let d = RegisterState::joined(a, c).0;
        assert forall|i: int| 0 <= i < d.len() implies !#[trigger] changes(d, b, i) by {
            assert(!changes(a, b, i));
            value_join_only_loses_precision(a[i], b[i], c[i]);
        }
    }
}

/// The register at a position among all sixteen.
pub open spec fn spec_kind_at(i: usize) -> RegisterKind {
    if i < 8 {
        RegisterKind::Data
    } else {
        RegisterKind::Address
    }
}

/// The register at a position among all sixteen.
pub fn kind_at(i: usize) -> (r: RegisterKind)
    ensures
        r == spec_kind_at(i),
{
    if i < 8 {
        RegisterKind::Data
    } else {
        RegisterKind::Address
    }
}

/// What a write makes of a register, given all of them before the instruction.
pub open spec fn written(
    write: RegisterWrite,
    state: Seq<AbstractView>,
    i: int,
    site: u32,
) -> AbstractView {
    match write {
        RegisterWrite::Exact(value) => AbstractView::Exact(
            ConstantView { value, site, evidence: seq![site] },
        ),
        RegisterWrite::Symbolic(subject, location) => AbstractView::Symbolic(
            SymbolicView { subject, location, offset: 0, site, evidence: seq![site] },
        ),
        RegisterWrite::Copy(kind, register) => copied(
            state[spec_register_index(kind, register) as int],
            site,
        ),
        RegisterWrite::Transform(operation) => transformed(state[i], site, operation),
        RegisterWrite::Unknown => AbstractView::Unknown(Unresolved::WriteNotValued),
    }
}

/// What is known of a register behind an instruction.
pub open spec fn known_after(
    view: AnalysisView,
    image_origin: Option<u32>,
    decoded: DecodedView,
    state: Seq<AbstractView>,
    i: int,
) -> AbstractView {
    match spec_register_write(
        view,
        image_origin,
        decoded,
        spec_kind_at(i as usize),
        (i % 8) as u8,
    ) {
        Some(write) => written(write, state, i, decoded.address),
        None => state[i],
    }
}

/// What is known of all registers behind an instruction. A call may clobber
/// anything.
pub open spec fn registers_after(
    view: AnalysisView,
    image_origin: Option<u32>,
    decoded: DecodedView,
    state: Seq<AbstractView>,
) -> Seq<AbstractView> {
    if spec_is_call(decoded.instruction.isa) {
        all_unknown(Unresolved::Call)
    } else {
        Seq::new(16, |i: int| known_after(view, image_origin, decoded, state, i))
    }
}

fn one_site(site: u32) -> (r: Vec<u32>)
    ensures
        r@ == seq![site],
{
    let mut list: Vec<u32> = Vec::new();
    list.push(site);
    assert(list@ =~= seq![site]);
    list
}

impl RegisterState {
    fn after_write(&self, write: RegisterWrite, i: usize, site: u32) -> (r: AbstractValue)
        requires
            self.wf(),
            i < 16,
            write matches RegisterWrite::Copy(_, register) ==> register < 8,
        ensures
            r@ == written(write, self@, i as int, site),
    {
        match write {
            RegisterWrite::Exact(value) => AbstractValue::Exact(
                ConstantValue { value, site, evidence: one_site(site) },
            ),
            RegisterWrite::Symbolic(subject, location) => AbstractValue::Symbolic(
                SymbolicValue { subject, location, offset: 0, site, evidence: one_site(site) },
            ),
            RegisterWrite::Copy(kind, register) => {
                let from: usize = register_index(kind, register);
                self.registers[from].copied(site)
            },
            RegisterWrite::Transform(operation) => self.registers[i].transformed(site, operation),
            RegisterWrite::Unknown => AbstractValue::Unknown(Unresolved::WriteNotValued),
        }
    }

    fn after(
        &self,
        analysis: &ControlFlowAnalysis,
        image_origin: Option<u32>,
        decoded: &DecodedInstruction,
    ) -> (r: Self)
        requires
            self.wf(),
            analysis.wf(),
            decoded.wf(),
        ensures
            r.wf(),
            r@ == registers_after(analysis@, image_origin, decoded@, self@),
    {
        if is_call(decoded.instruction.isa) {
            return RegisterState::unknown(Unresolved::Call);
        }
        let mut registers: Vec<AbstractValue> = Vec::new();
        let mut i: usize = 0;
        while i < 16
            invariant
                self.wf(),
                analysis.wf(),
                decoded.wf(),
                i <= 16,
                registers@.len() == i,
                forall|k: int|
                    0 <= k < i ==> (#[trigger] registers@[k])@ == known_after(
                        analysis@,
                        image_origin,
                        decoded@,
                        self@,
                        k,
                    ),
            decreases 16 - i,
        {
            let register: u8 = (i % 8) as u8;
            assert((i as int % 8) as u8 == register);
            let value = match register_write(
                analysis,
                image_origin,
                decoded,
                kind_at(i),
                register,
            ) {
                Some(write) => self.after_write(write, i, decoded.address),
                None => self.registers[i].duplicate(),
            };
            registers.push(value);
            i += 1;
        }
        let r = RegisterState { registers };
        assert(r@ =~= registers_after(analysis@, image_origin, decoded@, self@));
        r
    }
}

/// The propagation of register values through one function's code.
pub struct ConstantFlow<'a> {
    pub analysis: &'a ControlFlowAnalysis,
    pub image_origin: Option<u32>,
}

impl<'a> Flow for ConstantFlow<'a> {
    type State = RegisterState;

    type Log = NoLog;

    open spec fn wf(&self) -> bool {
        self.analysis.wf()
    }

    open spec fn keeps(&self, decoded: DecodedView) -> bool {
        true
    }

    open spec fn entered(
        &self,
        owner: u32,
        decoded: DecodedView,
        state: Seq<AbstractView>,
    ) -> Seq<AbstractView> {
        if decoded.address != owner && self.analysis@.functions.contains(decoded.address) {
            all_unknown(Unresolved::FunctionEntry)
        } else {
            state
        }
    }

    open spec fn noted_entering(
        &self,
        decoded: DecodedView,
        state: Seq<AbstractView>,
        log: (),
    ) -> () {
        log
    }

    open spec fn transferred(&self, decoded: DecodedView, state: Seq<AbstractView>) -> Seq<
        AbstractView,
    > {
        registers_after(self.analysis@, self.image_origin, decoded, state)
    }

    open spec fn noted_leaving(
        &self,
        decoded: DecodedView,
        state: Seq<AbstractView>,
        log: (),
    ) -> () {
        log
    }

    fn looks_at(&self, decoded: &DecodedInstruction) -> bool {
        true
    }

    fn enter(
        &self,
        owner: u32,
        decoded: &DecodedInstruction,
        state: &mut RegisterState,
        log: &mut NoLog,
    ) {
        if decoded.address != owner && self.analysis.functions.contains(&decoded.address) {
            *state = RegisterState::unknown(Unresolved::FunctionEntry);
        }
    }

    fn transfer(&self, decoded: &DecodedInstruction, state: &mut RegisterState, log: &mut NoLog) {
        *state = state.after(self.analysis, self.image_origin, decoded);
    }
}

/// The address register that an indirect call goes through.
pub open spec fn spec_indirect_base_register(mode: AddressingMode) -> Option<u8> {
    match mode {
        AddressingMode::Ari(register) => Some(register),
        AddressingMode::Ariwd(register, _) => Some(register),
        AddressingMode::Ariwi8(register, _) => Some(register),
        _ => None,
    }
}

/// The address register that an indirect call goes through.
pub fn indirect_base_register(mode: AddressingMode) -> (r: Option<u8>)
    ensures
        r == spec_indirect_base_register(mode),
{
    match mode {
        AddressingMode::Ari(register) => Some(register),
        AddressingMode::Ariwd(register, _) => Some(register),
        AddressingMode::Ariwi8(register, _) => Some(register),
        _ => None,
    }
}

/// The address register that an instruction calls through.
pub open spec fn spec_register_call(instruction: Instruction) -> Option<u8> {
    match instruction.operands {
        Operands::EffectiveAddress(mode) => if instruction.isa == Isa::Jsr {
            spec_indirect_base_register(mode)
        } else {
            None
        },
        _ => None,
    }
}

/// The address register that an instruction calls through.
pub fn register_call(instruction: Instruction) -> (r: Option<u8>)
    ensures
        r == spec_register_call(instruction),
{
    match instruction.operands {
        Operands::EffectiveAddress(mode) => if instruction.isa == Isa::Jsr {
            indirect_base_register(mode)
        } else {
            None
        },
        _ => None,
    }
}

/// Where a statically named address comes from.
#[derive(Clone, Copy, Debug, PartialEq, Eq, Structural)]
pub enum CandidateSource {
    Address(AddressingMode),
    Immediate(Size, u32),
}

/// The address register that an instruction puts a statically named address in.
/// Memory loads are deliberately absent: their runtime contents cannot prove that
/// an unresolved call stays outside this owner.
pub open spec fn spec_address_register_candidate(instruction: Instruction) -> Option<(u8, CandidateSource)> {
    match instruction.operands {
        Operands::RegisterEffectiveAddress(register, mode) => if instruction.isa == Isa::Lea {
            Some((register, CandidateSource::Address(mode)))
        } else {
            None
        },
        Operands::SizeEffectiveAddressEffectiveAddress(
            size,
            AddressingMode::Ard(register),
            AddressingMode::Immediate(value),
        ) => Some((register, CandidateSource::Immediate(size, value))),
        Operands::SizeRegisterEffectiveAddress(
            size,
            register,
            AddressingMode::Immediate(value),
        ) => Some((register, CandidateSource::Immediate(size, value))),
        _ => None,
    }
}

/// The address register that an instruction puts a statically named address in.
/// Memory loads are deliberately absent: their runtime contents cannot prove that
/// an unresolved call stays outside this owner.
pub fn address_register_candidate(instruction: Instruction) -> (r: Option<(u8, CandidateSource)>)
    ensures
        r == spec_address_register_candidate(instruction),
{
    match instruction.operands {
        Operands::RegisterEffectiveAddress(register, mode) => if instruction.isa == Isa::Lea {
            Some((register, CandidateSource::Address(mode)))
        } else {
            None
        },
        Operands::SizeEffectiveAddressEffectiveAddress(
            size,
            AddressingMode::Ard(register),
            AddressingMode::Immediate(value),
        ) => Some((register, CandidateSource::Immediate(size, value))),
        Operands::SizeRegisterEffectiveAddress(
            size,
            register,
            AddressingMode::Immediate(value),
        ) => Some((register, CandidateSource::Immediate(size, value))),
        _ => None,
    }
}

/// The image offset that an address names.
pub open spec fn spec_named_offset(analysis: AnalysisView, address: OperandAddress) -> Option<u32> {
    match address {
        OperandAddress::Encoded(address) => spec_image_offset(analysis.rebase, address),
        OperandAddress::ThisHunk(offset) => Some(offset),
        OperandAddress::OtherHunk { .. } => None,
    }
}

/// The image offset that an address names.
pub fn named_offset(analysis: &ControlFlowAnalysis, address: OperandAddress) -> (r: Option<u32>)
    ensures
        r == spec_named_offset(analysis@, address),
{
    match address {
        OperandAddress::Encoded(address) => analysis.image_offset(address),
        OperandAddress::ThisHunk(offset) => Some(offset),
        OperandAddress::OtherHunk { .. } => None,
    }
}

/// The image offset that a statically named address stands for.
pub open spec fn spec_candidate_offset(analysis: AnalysisView, decoded: DecodedView, source: CandidateSource) -> Option<u32> {
    match source {
        CandidateSource::Address(AddressingMode::Pciwd(pc, displacement)) =>
        pc.checked_add_signed(displacement as i32),
        CandidateSource::Address(AddressingMode::AbsShort(address)) => spec_named_offset(
            analysis,
            OperandAddress::Encoded(spec_sign_extend_word(address)),
        ),
        CandidateSource::Address(AddressingMode::AbsLong(addend)) => spec_named_offset(
            analysis,
            spec_operand_address(analysis.relocations, decoded, OperandRole::Source, addend),
        ),
        CandidateSource::Immediate(size, value) => spec_named_offset(
            analysis,
            if size == Size::Long {
                spec_operand_address(analysis.relocations, decoded, OperandRole::Source, value)
            } else {
                OperandAddress::Encoded(spec_address_amount(Size::Word, value))
            },
        ),
        CandidateSource::Address(_) => None,
    }
}

/// The image offset that a statically named address stands for.
pub fn candidate_offset(
    analysis: &ControlFlowAnalysis,
    decoded: &DecodedInstruction,
    source: CandidateSource,
) -> (r: Option<u32>)
    requires
        analysis.wf(),
    ensures
        r == spec_candidate_offset(analysis@, decoded@, source),
{
    match source {
        CandidateSource::Address(AddressingMode::Pciwd(pc, displacement)) =>
        pc.checked_add_signed(displacement as i32),
        CandidateSource::Address(AddressingMode::AbsShort(address)) => named_offset(
            analysis,
            OperandAddress::Encoded(sign_extend_word(address)),
        ),
        CandidateSource::Address(AddressingMode::AbsLong(addend)) => named_offset(
            analysis,
            analysis.operand_address(decoded, OperandRole::Source, addend),
        ),
        CandidateSource::Immediate(size, value) => named_offset(
            analysis,
            if size == Size::Long {
                analysis.operand_address(decoded, OperandRole::Source, value)
            } else {
                OperandAddress::Encoded(address_amount(Size::Word, value))
            },
        ),
        CandidateSource::Address(_) => None,
    }
}

/// Whether `owner` reaches an instruction at `at`.
pub open spec fn owns(view: AnalysisView, owner: u32, at: u32) -> bool {
    view.instructions.dom().contains(at) && view.instructions[at].owners.contains(owner)
}

/// Whether the instruction at `at`, which `owner` reaches, puts the address of
/// code of the same owner in the register.
pub open spec fn names_own_code(view: AnalysisView, owner: u32, register: u8, at: u32) -> bool {
    owns(view, owner, at) && match spec_address_register_candidate(
        view.instructions[at].instruction,
    ) {
        Some((loaded, source)) => loaded == register && match spec_candidate_offset(
            view,
            view.instructions[at],
            source,
        ) {
            Some(target) => owns(view, owner, target),
            None => false,
        },
        None => false,
    }
}

/// Whether the unresolved flow at `site` could introduce an unknown
/// intraprocedural predecessor. An indirect `JSR` has no known callee target, but
/// its return address is the decoded fallthrough already present in the graph; it
/// does so only if its register may hold the address of code of the same owner.
pub open spec fn invalidates(view: AnalysisView, owner: u32, site: u32) -> bool {
    if view.instructions.dom().contains(site) {
        match spec_register_call(view.instructions[site].instruction) {
            Some(register) => exists|at: u32| #[trigger] names_own_code(view, owner, register, at),
            None => true,
        }
    } else {
        true
    }
}

/// Whether an owner's unresolved control flow could introduce an unknown
/// intraprocedural predecessor.
pub open spec fn spec_owner_has_invalidating_unresolved_flow(view: AnalysisView, owner: u32) -> bool {
    exists|site: u32| #[trigger]
        view.unresolved.contains(UnresolvedFlow { owner, address: site }) && invalidates(
            view,
            owner,
            site,
        )
}

fn holds_own_code(analysis: &ControlFlowAnalysis, owner: u32, decoded: &DecodedInstruction) -> (r:
    Option<u8>)
    requires
        analysis.wf(),
        decoded.wf(),
        analysis@.instructions.dom().contains(decoded.address),
        analysis@.instructions[decoded.address] == decoded@,
    ensures
        forall|register: u8|
            (r == Some(register)) == #[trigger] names_own_code(
                analysis@,
                owner,
                register,
                decoded.address,
            ),
        r matches Some(register) ==> register < 8,
{
    if !decoded.owners.contains(&owner) {
        return None;
    }
    match address_register_candidate(decoded.instruction) {
        Some((register, source)) => match candidate_offset(analysis, decoded, source) {
            Some(target) => match analysis.instructions.find(target) {
                Some(at) => {
                    proof {
                        analysis.lemma_listing(at as int);
                    }
                    if analysis.instructions.values[at].owners.contains(&owner) {
                        Some(register)
                    } else {
                        None
                    }
                },
                None => None,
            },
            None => None,
        },
        None => None,
    }
}

/// Which address registers may hold the address of code of the same owner.
fn registers_with_own_code(analysis: &ControlFlowAnalysis, owner: u32) -> (r: [bool; 8])
    requires
        analysis.wf(),
    ensures
        forall|register: u8|
            register < 8 ==> #[trigger] r@[register as int] == exists|at: u32| #[trigger]
                names_own_code(analysis@, owner, register, at),
{
    let mut held: [bool; 8] = [false, false, false, false, false, false, false, false];
    let ghost view = analysis@;
    let mut i: usize = 0;
    while i < analysis.instructions.values.len()
        invariant
            analysis.wf(),
            view == analysis@,
            i <= analysis.instructions.values@.len(),
            forall|register: u8|
                register < 8 && #[trigger] held@[register as int] ==> exists|at: u32| #[trigger]
                    names_own_code(view, owner, register, at),
            forall|k: int, register: u8|
                #![trigger analysis.instructions.keys@[k], held@[register as int]]
                0 <= k < i && register < 8 && names_own_code(
                    view,
                    owner,
                    register,
                    analysis.instructions.keys@[k],
                ) ==> held@[register as int],
        decreases analysis.instructions.values@.len() - i,
    {
        let decoded = &analysis.instructions.values[i];
        proof {
            analysis.lemma_listing(i as int);
        }
        if let Some(register) = holds_own_code(analysis, owner, decoded) {
            assert(names_own_code(view, owner, register, decoded.address));
            held[register as usize] = true;
        }
        i += 1;
    }
    proof {
        assert forall|register: u8|
            register < 8 && (exists|at: u32| #[trigger]
                names_own_code(view, owner, register, at)) implies #[trigger] held@[register as int] by {
            let at = choose|at: u32| #[trigger] names_own_code(view, owner, register, at);
            let k = analysis.instructions.lemma_position(at);
            assert(analysis.instructions.keys@[k] == at);
        }
    }
    held
}

/// Whether an owner's unresolved control flow could introduce an unknown
/// intraprocedural predecessor.
///
/// An indirect `JSR` has no known callee target, but its return address is the
/// decoded fallthrough already present in the graph. The propagation clobbers the
/// complete register state at every call, so an unknown callee *outside* this
/// owner adds no state the owner-local walk lacks. Jumps and opaque/missing
/// instructions have no such return edge and still invalidate the entire owner.
pub fn owner_has_invalidating_unresolved_flow(analysis: &ControlFlowAnalysis, owner: u32) -> (r:
    bool)
    requires
        analysis.wf(),
    ensures
        r == spec_owner_has_invalidating_unresolved_flow(analysis@, owner),
{
    let flows = &analysis.unresolved;
    let first = UnresolvedFlow { owner, address: 0 };
    let from: usize = flows.rank(&first);
    let ghost view = analysis@;
    if from >= flows.items.len() || flows.items[from].owner != owner {
        proof {
            assert forall|site: u32| !#[trigger]
                view.unresolved.contains(UnresolvedFlow { owner, address: site }) by {
                let flow = UnresolvedFlow { owner, address: site };
                if view.unresolved.contains(flow) {
                    let k = choose|k: int| 0 <= k < flows.items@.len() && flows.items@[k] == flow;
                    if k > from {
                        assert(flows.items@[from as int].before(flows.items@[k]));
                        assert(!flows.items@[from as int].before(first));
                    } else if k < from {
                        assert(flows.items@[k].before(first));
                    }
                }
            }
        }
        return false;
    }
    let held = registers_with_own_code(analysis, owner);
    let mut i: usize = from;
    while i < flows.items.len() && flows.items[i].owner == owner
        invariant
            analysis.wf(),
            view == analysis@,
            *flows == analysis.unresolved,
            from <= i <= flows.items@.len(),
            forall|register: u8|
                register < 8 ==> #[trigger] held@[register as int] == exists|at: u32| #[trigger]
                    names_own_code(view, owner, register, at),
            forall|k: int|
                #![trigger flows.items@[k]]
                from <= k < i ==> flows.items@[k].owner == owner && !invalidates(
                    view,
                    owner,
                    flows.items@[k].address,
                ),
        decreases flows.items@.len() - i,
    {
        let flow = flows.items[i];
        proof {
            assert(flows@.contains(flows.items@[i as int]));
            assert(flow == (UnresolvedFlow { owner, address: flow.address }));
        }
        let invalid = match analysis.instructions.find(flow.address) {
            Some(at) => {
                proof {
                    analysis.lemma_listing(at as int);
                }
                match register_call(analysis.instructions.values[at].instruction) {
                    Some(register) => {
                        assert(register < 8);
                        held[register as usize]
                    },
                    None => true,
                }
            },
            None => true,
        };
        if invalid {
            assert(view.unresolved.contains(UnresolvedFlow { owner, address: flow.address }));
            assert(invalidates(view, owner, flow.address));
            return true;
        }
        i += 1;
    }
    proof {
        assert forall|site: u32| #[trigger]
            view.unresolved.contains(UnresolvedFlow { owner, address: site }) implies !invalidates(
            view,
            owner,
            site,
        ) by {
            let flow = UnresolvedFlow { owner, address: site };
            let k = choose|k: int| 0 <= k < flows.items@.len() && flows.items@[k] == flow;
            if k < from {
                assert(flows.items@[k].before(first));
            } else if k >= i {
                assert(!flows.items@[i as int].before(first));
                if k > i {
                    assert(flows.items@[i as int].before(flows.items@[k]));
                }
            }
        }
    }
    false
}

/// The register states that reach the instructions of one owner, or why there are
/// none.
pub open spec fn owner_states(
    flow: ConstantFlow,
    view: AnalysisView,
    owner: u32,
) -> Result<Map<u32, Seq<AbstractView>>, Unresolved> {
    if spec_owner_has_invalidating_unresolved_flow(view, owner) {
        Err(Unresolved::UnresolvedFlow)
    } else {
        let (end, exhausted) = outcome(
            flow,
            view,
            owner,
            Schedule::Ascending,
            all_unknown(Unresolved::NoPredecessor),
            (),
        );
        if exhausted {
            Err(Unresolved::StepLimit)
        } else {
            Ok(end.before)
        }
    }
}

/// Register states computed once for all lookups in one report.
pub struct ConstantAnalysis {
    pub site_owners: AddressMap<OrderedSet<u32>>,
    pub owners: AddressMap<Result<AddressMap<RegisterState>, Unresolved>>,
}

/// The states of one owner as a mathematical value.
pub open spec fn result_view(states: Result<AddressMap<RegisterState>, Unresolved>) -> Result<
    Map<u32, Seq<AbstractView>>,
    Unresolved,
> {
    match states {
        Ok(states) => Ok(state_map(states)),
        Err(reason) => Err(reason),
    }
}

/// Register states computed once, as a mathematical value: the owners of each
/// instruction, and the states of each owner.
#[verifier::ext_equal]
pub struct ConstantsView {
    pub site_owners: Map<u32, Set<u32>>,
    pub owners: Map<u32, Result<Map<u32, Seq<AbstractView>>, Unresolved>>,
}

impl View for ConstantAnalysis {
    type V = ConstantsView;

    open spec fn view(&self) -> ConstantsView {
        ConstantsView {
            site_owners: self.site_owners@.map_values(|owners: OrderedSet<u32>| owners@),
            owners: self.owners@.map_values(
                |states: Result<AddressMap<RegisterState>, Unresolved>| result_view(states),
            ),
        }
    }
}

impl ConstantsView {
    /// The value of a register before `site` that the owners of `list` agree on,
    /// `None` where no owner's walk reaches the site.
    pub open spec fn agreed(self, site: u32, i: int, list: Seq<u32>) -> Result<
        Option<AbstractView>,
        Unresolved,
    >
        decreases list.len(),
    {
        if list.len() == 0 {
            Ok(None)
        } else {
            match self.agreed(site, i, list.drop_last()) {
                Err(reason) => Err(reason),
                Ok(so_far) => if !self.owners.dom().contains(list.last()) {
                    Ok(so_far)
                } else {
                    match self.owners[list.last()] {
                        Err(reason) => Err(reason),
                        Ok(states) => if !states.dom().contains(site) {
                            Ok(so_far)
                        } else {
                            match so_far {
                                None => Ok(Some(states[site][i])),
                                Some(value) => Ok(Some(value_join(value, states[site][i]).0)),
                            }
                        },
                    }
                },
            }
        }
    }

    /// The value of a register before `site`, exact or symbolic.
    pub open spec fn before_value(self, site: u32, kind: RegisterKind, register: u8) -> Result<
        AbstractView,
        Unresolved,
    > {
        if !self.site_owners.dom().contains(site) {
            Err(Unresolved::NotDecoded)
        } else if register >= 8 {
            Err(Unresolved::UnknownRegister)
        } else {
            match self.agreed(
                site,
                spec_register_index(kind, register) as int,
                in_order(self.site_owners[site]),
            ) {
                Err(reason) => Err(reason),
                Ok(None) => Err(Unresolved::NoPredecessor),
                Ok(Some(AbstractView::Unknown(reason))) => Err(reason),
                Ok(Some(value)) => Ok(value),
            }
        }
    }

    /// The exact value of a register before `site`.
    pub open spec fn before(self, site: u32, kind: RegisterKind, register: u8) -> Result<
        ConstantView,
        Unresolved,
    > {
        match self.before_value(site, kind, register) {
            Ok(AbstractView::Exact(value)) => Ok(value),
            Ok(_) => Err(Unresolved::WriteNotValued),
            Err(reason) => Err(reason),
        }
    }
}

/// The register states of an analysis.
pub open spec fn constants_of(flow: ConstantFlow, view: AnalysisView) -> ConstantsView {
    ConstantsView {
        site_owners: view.instructions.map_values(|decoded: DecodedView| decoded.owners),
        owners: Map::new(
            |owner: u32| exists|at: u32| #[trigger] owns(view, owner, at),
            |owner: u32| owner_states(flow, view, owner),
        ),
    }
}

fn walk_owner(flow: &ConstantFlow, owner: u32) -> (r: Result<AddressMap<RegisterState>, Unresolved>)
    requires
        flow.analysis.wf(),
    ensures
        result_view(r) == owner_states(*flow, flow.analysis@, owner),
        r matches Ok(states) ==> states_wf(states),
{
    if owner_has_invalidating_unresolved_flow(flow.analysis, owner) {
        return Err(Unresolved::UnresolvedFlow);
    }
    let mut log = NoLog;
    let walked = forward(
        flow,
        flow.analysis,
        owner,
        RegisterState::unknown(Unresolved::NoPredecessor),
        &mut log,
    );
    if walked.exhausted {
        Err(Unresolved::StepLimit)
    } else {
        Ok(walked.before)
    }
}

impl ConstantAnalysis {
    /// Every collection and every state is in order.
    pub open spec fn wf(&self) -> bool {
        &&& self.site_owners.wf()
        &&& self.owners.wf()
        &&& forall|i: int|
            0 <= i < self.site_owners.values@.len() ==> (#[trigger] self.site_owners.values@[i]).wf()
        &&& forall|i: int|
            0 <= i < self.owners.values@.len() ==> match #[trigger] self.owners.values@[i] {
                Ok(states) => states_wf(states),
                Err(_) => true,
            }
    }

    /// Walk every owner's code once.
    pub fn new(analysis: &ControlFlowAnalysis, options: ValueOptions) -> (r: Self)
        requires
            analysis.wf(),
        ensures
            r.wf(),
            r@ == constants_of(
                ConstantFlow { analysis, image_origin: options.image_origin },
                analysis@,
            ),
    {
        let flow = ConstantFlow { analysis, image_origin: options.image_origin };
        let mut site_owners: AddressMap<OrderedSet<u32>> = AddressMap::new();
        let mut ids: OrderedSet<u32> = OrderedSet::new();
        let ghost view = analysis@;
        let mut i: usize = 0;
        while i < analysis.instructions.values.len()
            invariant
                analysis.wf(),
                view == analysis@,
                i <= analysis.instructions.values@.len(),
                ids.wf(),
                site_owners.wf(),
                site_owners.keys@ == analysis.instructions.keys@.take(i as int),
                forall|k: int|
                    #![trigger site_owners.values@[k]]
                    0 <= k < i ==> site_owners.values@[k].wf() && site_owners.values@[k]@
                        == analysis.instructions.values@[k]@.owners,
                forall|owner: u32| #[trigger]
                    ids@.contains(owner) <==> exists|k: int|
                        0 <= k < i && (
                        #[trigger] analysis.instructions.values@[k]).owners@.contains(owner),
            decreases analysis.instructions.values@.len() - i,
        {
            let decoded = &analysis.instructions.values[i];
            let ghost before = ids@;
            proof {
                analysis.lemma_listing(i as int);
            }
            let mut j: usize = 0;
            while j < decoded.owners.items.len()
                invariant
                    ids.wf(),
                    j <= decoded.owners.items@.len(),
                    ids@ == before.union(decoded.owners.items@.take(j as int).to_set()),
                decreases decoded.owners.items@.len() - j,
            {
                ids.insert(decoded.owners.items[j]);
                proof {
                    crate::collections::lemma_take_to_set(decoded.owners.items@, j as int);
                    assert(ids@ =~= before.union(decoded.owners.items@.take(j + 1).to_set()));
                }
                j += 1;
            }
            assert(decoded.owners.items@.take(j as int) =~= decoded.owners.items@);
            let ghost keys = site_owners.keys@;
            site_owners.keys.push(decoded.address);
            site_owners.values.push(decoded.owners.duplicate());
            proof {
                assert(site_owners.keys@ =~= analysis.instructions.keys@.take(i + 1));
                assert forall|owner: u32| #[trigger]
                    ids@.contains(owner) implies exists|k: int|
                    0 <= k < i + 1 && (
                    #[trigger] analysis.instructions.values@[k]).owners@.contains(owner) by {
                    if before.contains(owner) {
                        let k = choose|k: int|
                            0 <= k < i && (
                            #[trigger] analysis.instructions.values@[k]).owners@.contains(owner);
                        assert(analysis.instructions.values@[k].owners@.contains(owner));
                    } else {
                        assert(analysis.instructions.values@[i as int].owners@.contains(owner));
                    }
                }
            }
            i += 1;
        }
        let mut owners: AddressMap<Result<AddressMap<RegisterState>, Unresolved>> =
            AddressMap::new();
        let mut n: usize = 0;
        while n < ids.items.len()
            invariant
                analysis.wf(),
                view == analysis@,
                flow == (ConstantFlow { analysis, image_origin: options.image_origin }),
                ids.wf(),
                n <= ids.items@.len(),
                owners.wf(),
                owners.keys@ == ids.items@.take(n as int),
                forall|k: int|
                    #![trigger owners.values@[k]]
                    0 <= k < n ==> result_view(owners.values@[k]) == owner_states(
                        flow,
                        view,
                        ids.items@[k],
                    ) && match owners.values@[k] {
                        Ok(states) => states_wf(states),
                        Err(_) => true,
                    },
            decreases ids.items@.len() - n,
        {
            let owner: u32 = ids.items[n];
            let states = walk_owner(&flow, owner);
            owners.keys.push(owner);
            owners.values.push(states);
            proof {
                assert(owners.keys@ =~= ids.items@.take(n + 1));
            }
            n += 1;
        }
        let r = ConstantAnalysis { site_owners, owners };
        proof {
            let wanted = constants_of(flow, view);
            assert(r.site_owners.keys@ =~= analysis.instructions.keys@);
            assert forall|site: u32| r@.site_owners.dom().contains(site) implies #[trigger]
                r@.site_owners[site] == wanted.site_owners[site] by {
                let k = r.site_owners.lemma_position(site);
                analysis.lemma_listing(k);
            }
            assert(r@.site_owners.dom() =~= wanted.site_owners.dom());
            assert(r@.site_owners =~= wanted.site_owners);
            assert(r.owners.keys@ =~= ids.items@);
            assert forall|owner: u32| r@.owners.dom().contains(owner)
                == wanted.owners.dom().contains(owner) by {
                if ids@.contains(owner) {
                    let k = choose|k: int|
                        0 <= k < i && (
                        #[trigger] analysis.instructions.values@[k]).owners@.contains(owner);
                    analysis.lemma_listing(k);
                    assert(owns(view, owner, analysis.instructions.keys@[k]));
                }
                if exists|at: u32| #[trigger] owns(view, owner, at) {
                    let at = choose|at: u32| #[trigger] owns(view, owner, at);
                    let k = analysis.instructions.lemma_position(at);
                    analysis.lemma_listing(k);
                    assert(analysis.instructions.values@[k].owners@.contains(owner));
                    assert(ids@.contains(owner));
                }
            }
            assert(r@.owners.dom() =~= wanted.owners.dom());
            assert forall|owner: u32| r@.owners.dom().contains(owner) implies #[trigger]
                r@.owners[owner] == wanted.owners[owner] by {
                let k = r.owners.lemma_position(owner);
                assert(wanted.owners.dom().contains(owner));
                assert(ids.items@[k] == owner);
                assert(r@.owners[owner] == result_view(r.owners.values@[k]));
            }
            assert(r@.owners =~= wanted.owners);
        }
        r
    }

    fn agreed(&self, site: u32, i: usize, list: &OrderedSet<u32>) -> (r: Result<
        Option<AbstractValue>,
        Unresolved,
    >)
        requires
            self.wf(),
            i < 16,
        ensures
            match r {
                Ok(Some(value)) => self@.agreed(site, i as int, list.items@) == Ok::<
                    Option<AbstractView>,
                    Unresolved,
                >(Some(value@)),
                Ok(None) => self@.agreed(site, i as int, list.items@) == Ok::<
                    Option<AbstractView>,
                    Unresolved,
                >(None),
                Err(reason) => self@.agreed(site, i as int, list.items@) == Err::<
                    Option<AbstractView>,
                    Unresolved,
                >(reason),
            },
    {
        let mut so_far: Option<AbstractValue> = None;
        let mut n: usize = 0;
        while n < list.items.len()
            invariant
                self.wf(),
                i < 16,
                n <= list.items@.len(),
                self@.agreed(site, i as int, list.items@.take(n as int)) == Ok::<
                    Option<AbstractView>,
                    Unresolved,
                >(match so_far {
                    Some(value) => Some(value@),
                    None => None,
                }),
            decreases list.items@.len() - n,
        {
            let owner: u32 = list.items[n];
            proof {
                let more = list.items@.take(n + 1);
                assert(more.drop_last() =~= list.items@.take(n as int));
                assert(more.last() == owner);
            }
            if let Some(at) = self.owners.find(owner) {
                match &self.owners.values[at] {
                    Err(reason) => {
                        proof {
                            lemma_refusal_stays(
                                self@,
                                site,
                                i as int,
                                list.items@,
                                n + 1,
                                *reason,
                            );
                        }
                        return Err(*reason);
                    },
                    Ok(states) => {
                        if let Some(position) = states.find(site) {
                            let value = &states.values[position].registers[i];
                            proof {
                                assert(states.values@[position as int].wf());
                                assert(state_map(*states)[site][i as int] == value@);
                            }
                            so_far =
                            match so_far {
                                None => Some(value.duplicate()),
                                Some(current) => {
                                    let mut joined = current;
                                    joined.join(value);
                                    Some(joined)
                                },
                            };
                        }
                    },
                }
            }
            n += 1;
        }
        assert(list.items@.take(n as int) =~= list.items@);
        Ok(so_far)
    }

    /// The value of a register before `site`, exact or symbolic.
    pub fn before_value(&self, site: u32, kind: RegisterKind, register: u8) -> (r: Result<
        TrackedValue,
        Unresolved,
    >)
        requires
            self.wf(),
        ensures
            match r {
                Ok(value) => self@.before_value(site, kind, register) == Ok::<
                    AbstractView,
                    Unresolved,
                >(value@),
                Err(reason) => self@.before_value(site, kind, register) == Err::<
                    AbstractView,
                    Unresolved,
                >(reason),
            },
    {
        let position: usize = match self.site_owners.find(site) {
            Some(position) => position,
            None => {
                return Err(Unresolved::NotDecoded);
            },
        };
        if register >= 8 {
            return Err(Unresolved::UnknownRegister);
        }
        let owners = &self.site_owners.values[position];
        proof {
            lemma_in_order(owners.items@);
        }
        match self.agreed(site, register_index(kind, register), owners) {
            Err(reason) => Err(reason),
            Ok(None) => Err(Unresolved::NoPredecessor),
            Ok(Some(value)) => match value {
                AbstractValue::Unknown(reason) => Err(reason),
                AbstractValue::Exact(exact) => Ok(TrackedValue::Exact(exact)),
                AbstractValue::Symbolic(symbolic) => Ok(TrackedValue::Symbolic(symbolic)),
            },
        }
    }

    /// The exact value of a register before `site`.
    pub fn before(&self, site: u32, kind: RegisterKind, register: u8) -> (r: Result<
        ConstantValue,
        Unresolved,
    >)
        requires
            self.wf(),
        ensures
            match r {
                Ok(value) => self@.before(site, kind, register) == Ok::<ConstantView, Unresolved>(
                    value@,
                ),
                Err(reason) => self@.before(site, kind, register) == Err::<
                    ConstantView,
                    Unresolved,
                >(reason),
            },
    {
        match self.before_value(site, kind, register) {
            Ok(TrackedValue::Exact(value)) => Ok(value),
            Ok(TrackedValue::Symbolic(_)) => Err(Unresolved::WriteNotValued),
            Err(reason) => Err(reason),
        }
    }
}

/// A refusal of one owner is a refusal of all.
proof fn lemma_refusal_stays(
    constants: ConstantsView,
    site: u32,
    i: int,
    list: Seq<u32>,
    n: int,
    reason: Unresolved,
)
    requires
        0 <= n <= list.len(),
        constants.agreed(site, i, list.take(n)) == Err::<Option<AbstractView>, Unresolved>(reason),
    ensures
        constants.agreed(site, i, list) == Err::<Option<AbstractView>, Unresolved>(reason),
    decreases list.len() - n,
{
    if n < list.len() {
        assert(list.take(n + 1).drop_last() =~= list.take(n));
        lemma_refusal_stays(constants, site, i, list, n + 1, reason);
    } else {
        assert(list.take(n) =~= list);
    }
}

/// A register value retained for semantic report collection.
#[derive(Debug, PartialEq, Eq)]
pub enum TrackedValue {
    Exact(ConstantValue),
    Symbolic(SymbolicValue),
}

impl View for TrackedValue {
    type V = AbstractView;

    open spec fn view(&self) -> AbstractView {
        match self {
            TrackedValue::Exact(value) => AbstractView::Exact(value@),
            TrackedValue::Symbolic(value) => AbstractView::Symbolic(value@),
        }
    }
}

/// The constant in `(kind, register)` on entry to the instruction at `site`, or
/// the reason it cannot be established.
///
/// `options` says how the analyzed hunk is addressed. Without an image origin,
/// image-relative addresses use the analysis' offset coordinate; without
/// relocations, a patched operand's stored addend is read as an address of this
/// hunk. An address a relocation proves lies in another hunk is never returned
/// as a number: it refuses with [`Unresolved::WriteNotValued`], because this
/// entry point answers only in exact values.
///
/// # Errors
///
/// Returns the conservative [`Unresolved`] reason that prevented an answer.
pub fn constant_before(
    analysis: &ControlFlowAnalysis,
    options: ValueOptions,
    site: u32,
    kind: RegisterKind,
    register: u8,
) -> (r: Result<ConstantValue, Unresolved>)
    requires
        analysis.wf(),
    ensures
        ({
            let constants = constants_of(
                ConstantFlow { analysis, image_origin: options.image_origin },
                analysis@,
            );
            match r {
                Ok(value) => constants.before(site, kind, register) == Ok::<
                    ConstantView,
                    Unresolved,
                >(value@),
                Err(reason) => constants.before(site, kind, register) == Err::<
                    ConstantView,
                    Unresolved,
                >(reason),
            }
        }),
{
    ConstantAnalysis::new(analysis, options).before(site, kind, register)
}

/// Whether a value names the instructions that established and copied it: at least one,
/// at most as many as are retained, the last of them its own site.
pub open spec fn is_evidenced(value: AbstractView) -> bool {
    match value {
        AbstractView::Unknown(_) => true,
        AbstractView::Exact(exact) => 1 <= exact.evidence.len() <= MAX_VALUE_EVIDENCE
            && exact.evidence.last() == exact.site,
        AbstractView::Symbolic(symbolic) => 1 <= symbolic.evidence.len() <= MAX_VALUE_EVIDENCE
            && symbolic.evidence.last() == symbolic.site,
    }
}

/// Whether all sixteen registers hold values with evidence.
pub open spec fn all_evidenced(state: Seq<AbstractView>) -> bool {
    &&& state.len() == 16
    &&& forall|i: int| 0 <= i < 16 ==> is_evidenced(#[trigger] state[i])
}

proof fn lemma_write_is_evidenced(
    view: AnalysisView,
    image_origin: Option<u32>,
    decoded: DecodedView,
    state: Seq<AbstractView>,
    i: int,
)
    requires
        decoded.instruction.operands.in_range(),
        all_evidenced(state),
        0 <= i < 16,
    ensures
        is_evidenced(known_after(view, image_origin, decoded, state, i)),
{
    let write = spec_register_write(
        view,
        image_origin,
        decoded,
        spec_kind_at(i as usize),
        (i % 8) as u8,
    );
    if let Some(RegisterWrite::Copy(kind, register)) = write {
        assert(register < 8);
        assert(is_evidenced(state[spec_register_index(kind, register) as int]));
    }
    assert(is_evidenced(state[i]));
}

proof fn lemma_agreed_is_evidenced(constants: ConstantsView, site: u32, i: int, list: Seq<u32>)
    requires
        0 <= i < 16,
        forall|owner: u32|
            #![trigger constants.owners[owner]]
            constants.owners.dom().contains(owner) ==> match constants.owners[owner] {
                Ok(states) => all_have(states, |state: Seq<AbstractView>| all_evidenced(state)),
                Err(_) => true,
            },
    ensures
        constants.agreed(site, i, list) matches Ok(Some(value)) ==> is_evidenced(value),
    decreases list.len(),
{
    if list.len() > 0 {
        lemma_agreed_is_evidenced(constants, site, i, list.drop_last());
        let owner = list.last();
        if constants.owners.dom().contains(owner) {
            if let Ok(states) = constants.owners[owner] {
                if states.dom().contains(site) {
                    assert(all_evidenced(states[site]));
                    assert(is_evidenced(states[site][i]));
                }
            }
        }
    }
}

/// Every value that is reported, exact or symbolic, has a bounded chain of the
/// instructions that established, copied, or transformed it, and that chain ends at the
/// site of the value.
pub proof fn evidence_is_bounded(
    analysis: &ControlFlowAnalysis,
    options: ValueOptions,
    site: u32,
    kind: RegisterKind,
    register: u8,
)
    requires
        analysis.wf(),
    ensures
        constants_of(
            ConstantFlow { analysis, image_origin: options.image_origin },
            analysis@,
        ).before_value(site, kind, register) matches Ok(value) ==> is_evidenced(value),
{
    let flow = ConstantFlow { analysis, image_origin: options.image_origin };
    let view = analysis@;
    let constants = constants_of(flow, view);
    let property = |state: Seq<AbstractView>| all_evidenced(state);
    assert forall|at: u32, state: Seq<AbstractView>|
        view.instructions.dom().contains(at) && property(state) implies property(
        #[trigger] flow.transferred(view.instructions[at], state),
    ) by {
        let k = analysis.instructions.lemma_position(at);
        analysis.lemma_listing(k);
        let decoded = view.instructions[at];
        let after = flow.transferred(decoded, state);
        assert forall|i: int| 0 <= i < 16 implies is_evidenced(#[trigger] after[i]) by {
            lemma_write_is_evidenced(view, flow.image_origin, decoded, state, i);
        }
    }
    assert forall|a: Seq<AbstractView>, b: Seq<AbstractView>|
        property(a) && property(b) implies property((#[trigger] RegisterState::joined(a, b)).0) by {
        assert forall|i: int| 0 <= i < 16 implies is_evidenced(
            #[trigger] RegisterState::joined(a, b).0[i],
        ) by {
            assert(is_evidenced(a[i]) && is_evidenced(b[i]));
        }
    }
    assert forall|owner: u32|
        #![trigger constants.owners[owner]]
        constants.owners.dom().contains(owner) implies match constants.owners[owner] {
        Ok(states) => all_have(states, property),
        Err(_) => true,
    } by {
        assert(steps_keep(flow, view, owner, property));
        reported_states_have_what_steps_keep(
            flow,
            view,
            owner,
            Schedule::Ascending,
            all_unknown(Unresolved::NoPredecessor),
            (),
            property,
        );
    }
    if register < 8 && constants.site_owners.dom().contains(site) {
        lemma_agreed_is_evidenced(
            constants,
            site,
            spec_register_index(kind, register) as int,
            in_order(constants.site_owners[site]),
        );
    }
}

} // verus!
