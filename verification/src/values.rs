//! Register values: unknown for a reason, an exact number, or a symbolic memory
//! read, each with the instructions that established it.

use crate::control_flow::copy_list;
use vstd::prelude::*;

verus! {

/// Maximum instructions retained in one tracked value's evidence chain.
pub const MAX_VALUE_EVIDENCE: usize = 24;

/// Why bounded dataflow could not establish a register's value.
///
/// Each variant is a *stop*, never a guess, so the set doubles as a diagnosis:
/// counted across a whole program it says which limitation is actually costing
/// argument values, and the answers point at different work. `Join`,
/// `WriteNotValued` and `UnresolvedFlow` are the current domain's own limits;
/// `UnknownRegister` is a table problem.
#[derive(Clone, Copy, Debug, PartialEq, Eq, Structural)]
pub enum Unresolved {
    /// The site is not an instruction this analysis decoded. Nothing can be
    /// read about code that was never read.
    NotDecoded,
    /// A function reaching the site also contains a non-call transfer the
    /// analysis could not resolve. That transfer may land between a write and
    /// this site, so no run inside the function can be walked at all. An
    /// unresolved `JSR` instead has a known fallthrough and uses [`Self::Call`]
    /// clobbering there.
    UnresolvedFlow,
    /// Control arrives with incompatible exact or symbolic values, so the value
    /// depends on which path was taken. Equal values survive the join.
    Join,
    /// No predecessor established a value before the site.
    NoPredecessor,
    /// The value reaches a nested function entry from an unknown caller state.
    FunctionEntry,
    /// A call sits between the site and any write, and a callee may clobber
    /// anything.
    Call,
    /// An instruction wrote the register with something this tracker cannot
    /// value: an unsupported memory load or computed result, or a write
    /// narrower than the whole register.
    WriteNotValued,
    /// The forward worklist or a value's evidence chain reached its bound.
    StepLimit,
    /// The table describing this argument named a register that is not a 68000
    /// register. Produced by the caller rather than by dataflow, because the
    /// analysis is never queried for a register it cannot name.
    UnknownRegister,
}

impl Unresolved {
    /// The snake_case tag shared by text renderers and serialization.
    pub open spec fn spec_label(self) -> Seq<char> {
        match self {
            Unresolved::NotDecoded => "not_decoded"@,
            Unresolved::UnresolvedFlow => "unresolved_flow"@,
            Unresolved::Join => "join"@,
            Unresolved::NoPredecessor => "no_predecessor"@,
            Unresolved::FunctionEntry => "function_entry"@,
            Unresolved::Call => "call"@,
            Unresolved::WriteNotValued => "write_not_valued"@,
            Unresolved::StepLimit => "step_limit"@,
            Unresolved::UnknownRegister => "unknown_register"@,
        }
    }

    /// The snake_case tag shared by text renderers and serialization.
    pub fn label(self) -> (r: &'static str)
        ensures
            r@ == self.spec_label(),
    {
        match self {
            Unresolved::NotDecoded => "not_decoded",
            Unresolved::UnresolvedFlow => "unresolved_flow",
            Unresolved::Join => "join",
            Unresolved::NoPredecessor => "no_predecessor",
            Unresolved::FunctionEntry => "function_entry",
            Unresolved::Call => "call",
            Unresolved::WriteNotValued => "write_not_valued",
            Unresolved::StepLimit => "step_limit",
            Unresolved::UnknownRegister => "unknown_register",
        }
    }

    /// Every variant, in declaration order, so a renderer can present a
    /// complete, stably ordered histogram without hard-coding the list.
    pub fn all() -> (r: [Unresolved; 9])
        ensures
            r@ == seq![
                Unresolved::NotDecoded,
                Unresolved::UnresolvedFlow,
                Unresolved::Join,
                Unresolved::NoPredecessor,
                Unresolved::FunctionEntry,
                Unresolved::Call,
                Unresolved::WriteNotValued,
                Unresolved::StepLimit,
                Unresolved::UnknownRegister,
            ],
    {
        let r = [
            Unresolved::NotDecoded,
            Unresolved::UnresolvedFlow,
            Unresolved::Join,
            Unresolved::NoPredecessor,
            Unresolved::FunctionEntry,
            Unresolved::Call,
            Unresolved::WriteNotValued,
            Unresolved::StepLimit,
            Unresolved::UnknownRegister,
        ];
        assert(r@ =~= seq![
            Unresolved::NotDecoded,
            Unresolved::UnresolvedFlow,
            Unresolved::Join,
            Unresolved::NoPredecessor,
            Unresolved::FunctionEntry,
            Unresolved::Call,
            Unresolved::WriteNotValued,
            Unresolved::StepLimit,
            Unresolved::UnknownRegister,
        ]);
        r
    }
}

/// How strongly a reason holds against the others when they meet.
pub open spec fn spec_reason_rank(reason: Unresolved) -> u8 {
    match reason {
        Unresolved::UnknownRegister => 0,
        Unresolved::NoPredecessor => 1,
        Unresolved::Join => 2,
        Unresolved::WriteNotValued => 3,
        Unresolved::Call => 4,
        Unresolved::FunctionEntry => 5,
        Unresolved::NotDecoded => 6,
        Unresolved::UnresolvedFlow => 7,
        Unresolved::StepLimit => 8,
    }
}

/// How strongly a reason holds against the others when they meet.
pub fn reason_rank(reason: Unresolved) -> (r: u8)
    ensures
        r == spec_reason_rank(reason),
{
    match reason {
        Unresolved::UnknownRegister => 0,
        Unresolved::NoPredecessor => 1,
        Unresolved::Join => 2,
        Unresolved::WriteNotValued => 3,
        Unresolved::Call => 4,
        Unresolved::FunctionEntry => 5,
        Unresolved::NotDecoded => 6,
        Unresolved::UnresolvedFlow => 7,
        Unresolved::StepLimit => 8,
    }
}

/// The reason that remains where two of them meet.
pub open spec fn spec_merge_reason(left: Unresolved, right: Unresolved) -> Unresolved {
    if spec_reason_rank(left) >= spec_reason_rank(right) {
        left
    } else {
        right
    }
}

/// The reason that remains where two of them meet.
pub fn merge_reason(left: Unresolved, right: Unresolved) -> (r: Unresolved)
    ensures
        r == spec_merge_reason(left, right),
{
    if reason_rank(left) >= reason_rank(right) {
        left
    } else {
        right
    }
}

/// Which registers a lookup asks about.
///
/// Data and address registers are separate spaces on this architecture, so a
/// name alone is ambiguous; this keeps the caller's `d1`/`a0` distinction.
#[derive(Clone, Copy, Debug, PartialEq, Eq, Structural)]
pub enum RegisterKind {
    Data,
    Address,
}

/// The position of a register among all sixteen.
pub open spec fn spec_register_index(kind: RegisterKind, register: u8) -> usize {
    match kind {
        RegisterKind::Data => register as usize,
        RegisterKind::Address => (8 + register as usize) as usize,
    }
}

/// The position of a register among all sixteen.
pub fn register_index(kind: RegisterKind, register: u8) -> (r: usize)
    requires
        register < 8,
    ensures
        r == spec_register_index(kind, register),
{
    match kind {
        RegisterKind::Data => register as usize,
        RegisterKind::Address => (8 + register as usize) as usize,
    }
}

/// How a location contributes to the resulting 32-bit [`SymbolicValue`].
///
/// Keeping them apart is what stops `memory32[hunk1+$1c]` and `hunk1+$1c` from
/// being reported as the same finding: one is the pointer, the other is what it
/// points at.
#[derive(Clone, Copy, Debug, PartialEq, Eq, Structural)]
pub enum SymbolicSubject {
    /// The longword stored at the location.
    Contents,
    /// A word read and sign-extended to the entire destination register.
    SignExtendedWord,
    /// A byte/word read replacing only the low bits of the named register.
    /// The remaining bits refer to its value immediately before this site.
    PreserveHigh { register: u8, read_site: u32, low_bytes: u8 },
    /// The location's own address. Produced only where no number in this hunk's
    /// address space names it, which currently means a relocation into another
    /// hunk.
    Address,
}

/// The effective address behind a symbolic value.
#[allow(inconsistent_fields)]
#[derive(Debug, PartialEq, Eq)]
pub enum SymbolicLocation {
    Absolute { address: u32 },
    ImageRelative { offset: u32, runtime_address: Option<u32> },
    /// An offset into another hunk, proved by the relocation patching the
    /// operand. Nothing here maps that hunk to an address, so the frame is
    /// retained instead of being flattened into a number.
    HunkRelative { hunk: u32, offset: u32 },
    RegisterRelative { register: u8, displacement: i32 },
    /// A longword read through `(An)+`, identified by the instruction that
    /// consumed the pre-increment address. The site keeps distinct reads from
    /// joining merely because they used the same address register.
    RegisterPostincrement { register: u8, site: u32 },
    /// A longword read through `-(An)`, identified by the instruction that
    /// consumed the decremented address. The site keeps distinct mutations
    /// of the same address register from joining.
    RegisterPredecrement { register: u8, site: u32 },
    /// A brief-extension indexed address. Only MC68000 encodings (scale 1)
    /// are accepted. Register values are snapshots at the read site.
    Indexed {
        base: Box<SymbolicLocation>,
        index_address: bool,
        index_register: u8,
        index_bytes: u8,
        displacement: i8,
        read_site: u32,
    },
    /// One ascending transfer slot in a memory-to-register MOVEM.
    MovemSlot { base: Box<SymbolicLocation>, byte_offset: u32, read_site: u32 },
}

impl SymbolicLocation {
    /// The same location again.
    pub fn duplicate(&self) -> (r: Self)
        ensures
            r == *self,
        decreases *self,
    {
        match self {
            SymbolicLocation::Absolute { address } => SymbolicLocation::Absolute {
                address: *address,
            },
            SymbolicLocation::ImageRelative { offset, runtime_address } =>
            SymbolicLocation::ImageRelative { offset: *offset, runtime_address: *runtime_address },
            SymbolicLocation::HunkRelative { hunk, offset } => SymbolicLocation::HunkRelative {
                hunk: *hunk,
                offset: *offset,
            },
            SymbolicLocation::RegisterRelative { register, displacement } =>
            SymbolicLocation::RegisterRelative {
                register: *register,
                displacement: *displacement,
            },
            SymbolicLocation::RegisterPostincrement { register, site } =>
            SymbolicLocation::RegisterPostincrement { register: *register, site: *site },
            SymbolicLocation::RegisterPredecrement { register, site } =>
            SymbolicLocation::RegisterPredecrement { register: *register, site: *site },
            SymbolicLocation::Indexed {
                base,
                index_address,
                index_register,
                index_bytes,
                displacement,
                read_site,
            } => SymbolicLocation::Indexed {
                base: Box::new((**base).duplicate()),
                index_address: *index_address,
                index_register: *index_register,
                index_bytes: *index_bytes,
                displacement: *displacement,
                read_site: *read_site,
            },
            SymbolicLocation::MovemSlot { base, byte_offset, read_site } =>
            SymbolicLocation::MovemSlot {
                base: Box::new((**base).duplicate()),
                byte_offset: *byte_offset,
                read_site: *read_site,
            },
        }
    }

    /// Whether two locations are the same.
    pub fn same(&self, other: &Self) -> (r: bool)
        ensures
            r == (*self == *other),
        decreases *self,
    {
        match (self, other) {
            (
                SymbolicLocation::Absolute { address },
                SymbolicLocation::Absolute { address: other },
            ) => *address == *other,
            (
                SymbolicLocation::ImageRelative { offset, runtime_address },
                SymbolicLocation::ImageRelative {
                    offset: other_offset,
                    runtime_address: other_address,
                },
            ) => *offset == *other_offset && *runtime_address == *other_address,
            (
                SymbolicLocation::HunkRelative { hunk, offset },
                SymbolicLocation::HunkRelative { hunk: other_hunk, offset: other_offset },
            ) => *hunk == *other_hunk && *offset == *other_offset,
            (
                SymbolicLocation::RegisterRelative { register, displacement },
                SymbolicLocation::RegisterRelative {
                    register: other_register,
                    displacement: other_displacement,
                },
            ) => *register == *other_register && *displacement == *other_displacement,
            (
                SymbolicLocation::RegisterPostincrement { register, site },
                SymbolicLocation::RegisterPostincrement {
                    register: other_register,
                    site: other_site,
                },
            ) => *register == *other_register && *site == *other_site,
            (
                SymbolicLocation::RegisterPredecrement { register, site },
                SymbolicLocation::RegisterPredecrement {
                    register: other_register,
                    site: other_site,
                },
            ) => *register == *other_register && *site == *other_site,
            (
                SymbolicLocation::Indexed {
                    base,
                    index_address,
                    index_register,
                    index_bytes,
                    displacement,
                    read_site,
                },
                SymbolicLocation::Indexed {
                    base: other_base,
                    index_address: other_address,
                    index_register: other_register,
                    index_bytes: other_bytes,
                    displacement: other_displacement,
                    read_site: other_site,
                },
            ) => (**base).same(&**other_base) && *index_address == *other_address && *index_register
                == *other_register && *index_bytes == *other_bytes && *displacement
                == *other_displacement && *read_site == *other_site,
            (
                SymbolicLocation::MovemSlot { base, byte_offset, read_site },
                SymbolicLocation::MovemSlot {
                    base: other_base,
                    byte_offset: other_offset,
                    read_site: other_site,
                },
            ) => (**base).same(&**other_base) && *byte_offset == *other_offset && *read_site
                == *other_site,
            _ => false,
        }
    }
}

/// One register's value at a site, with the instruction that put it there.
#[derive(Debug, PartialEq, Eq)]
pub struct ConstantValue {
    /// The whole register's value. Only writes that cover all 32 bits are
    /// reported, so this is never a partial answer dressed as a complete one.
    pub value: u32,
    /// Hunk offset of the instruction that wrote it: the evidence for this
    /// claim, so a reader can check it rather than trust it.
    pub site: u32,
    /// Instructions that established and copied the value, in flow order.
    ///
    /// At a join where several chains prove the same value, the shortest then
    /// lexicographically smallest chain is retained. That total rule keeps the
    /// fixpoint independent of block visitation order.
    pub evidence: Vec<u32>,
}

/// A 32-bit value named by a location rather than by a number, optionally
/// adjusted by wrapping arithmetic.
#[derive(Debug, PartialEq, Eq)]
pub struct SymbolicValue {
    pub subject: SymbolicSubject,
    pub location: SymbolicLocation,
    pub offset: u32,
    pub site: u32,
    pub evidence: Vec<u32>,
}

/// What is known of a register.
#[derive(Debug)]
pub enum AbstractValue {
    Unknown(Unresolved),
    Exact(ConstantValue),
    Symbolic(SymbolicValue),
}

/// An exact value as a mathematical value.
#[verifier::ext_equal]
pub struct ConstantView {
    pub value: u32,
    pub site: u32,
    pub evidence: Seq<u32>,
}

/// A symbolic value as a mathematical value.
#[verifier::ext_equal]
pub struct SymbolicView {
    pub subject: SymbolicSubject,
    pub location: SymbolicLocation,
    pub offset: u32,
    pub site: u32,
    pub evidence: Seq<u32>,
}

/// What is known of a register, as a mathematical value.
#[verifier::ext_equal]
pub enum AbstractView {
    Unknown(Unresolved),
    Exact(ConstantView),
    Symbolic(SymbolicView),
}

impl View for ConstantValue {
    type V = ConstantView;

    open spec fn view(&self) -> ConstantView {
        ConstantView { value: self.value, site: self.site, evidence: self.evidence@ }
    }
}

impl View for SymbolicValue {
    type V = SymbolicView;

    open spec fn view(&self) -> SymbolicView {
        SymbolicView {
            subject: self.subject,
            location: self.location,
            offset: self.offset,
            site: self.site,
            evidence: self.evidence@,
        }
    }
}

impl View for AbstractValue {
    type V = AbstractView;

    open spec fn view(&self) -> AbstractView {
        match self {
            AbstractValue::Unknown(reason) => AbstractView::Unknown(*reason),
            AbstractValue::Exact(value) => AbstractView::Exact(value@),
            AbstractValue::Symbolic(value) => AbstractView::Symbolic(value@),
        }
    }
}

impl ConstantValue {
    /// The same value again.
    pub fn duplicate(&self) -> (r: Self)
        ensures
            r@ == self@,
    {
        ConstantValue {
            value: self.value,
            site: self.site,
            evidence: copy_list(&self.evidence),
        }
    }
}

impl SymbolicValue {
    /// The same value again.
    pub fn duplicate(&self) -> (r: Self)
        ensures
            r@ == self@,
    {
        SymbolicValue {
            subject: self.subject,
            location: self.location.duplicate(),
            offset: self.offset,
            site: self.site,
            evidence: copy_list(&self.evidence),
        }
    }
}

impl AbstractValue {
    /// The same value again.
    pub fn duplicate(&self) -> (r: Self)
        ensures
            r@ == self@,
    {
        match self {
            AbstractValue::Unknown(reason) => AbstractValue::Unknown(*reason),
            AbstractValue::Exact(value) => AbstractValue::Exact(value.duplicate()),
            AbstractValue::Symbolic(value) => AbstractValue::Symbolic(value.duplicate()),
        }
    }
}

/// The first `n` entries of two lists are the same, and the next one is smaller
/// on the left.
pub open spec fn smaller_at(left: Seq<u32>, right: Seq<u32>, n: int) -> bool {
    &&& 0 <= n < left.len()
    &&& n < right.len()
    &&& left[n] < right[n]
    &&& forall|k: int| 0 <= k < n ==> left[k] == right[k]
}

/// Whether one chain of evidence is preferred to another: the shorter one, then
/// the lexicographically smaller one, then the one that ends earlier.
pub open spec fn preferred(
    left: Seq<u32>,
    left_site: u32,
    right: Seq<u32>,
    right_site: u32,
) -> bool {
    ||| left.len() < right.len()
    ||| left.len() == right.len() && exists|n: int| #[trigger] smaller_at(left, right, n)
    ||| left == right && left_site < right_site
}

/// No chain is preferred to itself.
pub proof fn lemma_preferred_is_strict(chain: Seq<u32>, site: u32)
    ensures
        !preferred(chain, site, chain, site),
{
}

/// What is preferred to a preferred chain is preferred.
pub proof fn lemma_preferred_chains(
    a: Seq<u32>,
    a_site: u32,
    b: Seq<u32>,
    b_site: u32,
    c: Seq<u32>,
    c_site: u32,
)
    requires
        preferred(a, a_site, b, b_site),
        preferred(b, b_site, c, c_site),
    ensures
        preferred(a, a_site, c, c_site),
{
    if a.len() == b.len() && b.len() == c.len() {
        if exists|n: int| #[trigger] smaller_at(a, b, n) {
            let n = choose|n: int| #[trigger] smaller_at(a, b, n);
            if exists|m: int| #[trigger] smaller_at(b, c, m) {
                let m = choose|m: int| #[trigger] smaller_at(b, c, m);
                if n <= m {
                    assert(smaller_at(a, c, n));
                } else {
                    assert(smaller_at(a, c, m));
                }
            } else {
                assert(smaller_at(a, c, n));
            }
        } else if exists|m: int| #[trigger] smaller_at(b, c, m) {
            let m = choose|m: int| #[trigger] smaller_at(b, c, m);
            assert(smaller_at(a, c, m));
        }
    }
}

proof fn lemma_first_difference(left: Seq<u32>, right: Seq<u32>, n: int)
    requires
        left.len() == right.len(),
        0 <= n <= left.len(),
        forall|k: int| 0 <= k < n ==> left[k] == right[k],
        forall|k: int| !#[trigger] smaller_at(left, right, k),
        forall|k: int| !#[trigger] smaller_at(right, left, k),
    ensures
        left == right,
    decreases left.len() - n,
{
    if n == left.len() {
        assert(left =~= right);
    } else {
        assert(!smaller_at(left, right, n) && !smaller_at(right, left, n));
        lemma_first_difference(left, right, n + 1);
    }
}

/// Of two different chains, one is preferred.
proof fn lemma_preferred_is_total(left: Seq<u32>, left_site: u32, right: Seq<u32>, right_site: u32)
    requires
        !preferred(left, left_site, right, right_site),
        !preferred(right, right_site, left, left_site),
    ensures
        left == right,
        left_site == right_site,
{
    lemma_first_difference(left, right, 0);
}

/// Of two chains, at most one is preferred to the other.
proof fn lemma_preferred_one_way(left: Seq<u32>, left_site: u32, right: Seq<u32>, right_site: u32)
    requires
        preferred(left, left_site, right, right_site),
    ensures
        !preferred(right, right_site, left, left_site),
{
    if preferred(right, right_site, left, left_site) {
        lemma_preferred_chains(left, left_site, right, right_site, left, left_site);
        lemma_preferred_is_strict(left, left_site);
    }
}

/// Whether one chain of evidence is preferred to another.
pub fn prefers(left: &Vec<u32>, left_site: u32, right: &Vec<u32>, right_site: u32) -> (r: bool)
    ensures
        r == preferred(left@, left_site, right@, right_site),
{
    if left.len() != right.len() {
        return left.len() < right.len();
    }
    let mut i: usize = 0;
    while i < left.len()
        invariant
            left@.len() == right@.len(),
            i <= left@.len(),
            forall|k: int| 0 <= k < i ==> left@[k] == right@[k],
        decreases left@.len() - i,
    {
        if left[i] != right[i] {
            let r = left[i] < right[i];
            proof {
                if r {
                    assert(smaller_at(left@, right@, i as int));
                } else {
                    assert forall|n: int| !#[trigger] smaller_at(left@, right@, n) by {
                        if smaller_at(left@, right@, n) && n > i {
                            assert(left@[i as int] == right@[i as int]);
                        }
                    }
                }
            }
            return r;
        }
        i += 1;
    }
    assert(left@ =~= right@);
    left_site < right_site
}

/// What becomes of a stored value at a join.
#[derive(Clone, Copy, Debug, PartialEq, Eq, Structural)]
pub enum Verdict {
    Keep,
    Take,
    Lose(Unresolved),
}

/// What becomes of a stored value where another one arrives: equal values are
/// kept with the preferred evidence, everything else is lost for a reason.
pub open spec fn verdict(stored: AbstractView, incoming: AbstractView) -> Verdict {
    match (stored, incoming) {
        (AbstractView::Unknown(current), AbstractView::Unknown(other)) => if spec_merge_reason(
            current,
            other,
        ) == current {
            Verdict::Keep
        } else {
            Verdict::Lose(spec_merge_reason(current, other))
        },
        (AbstractView::Unknown(_), _) => Verdict::Keep,
        (_, AbstractView::Unknown(reason)) => Verdict::Lose(reason),
        (AbstractView::Exact(current), AbstractView::Exact(other)) => if current.value
            != other.value {
            Verdict::Lose(Unresolved::Join)
        } else if preferred(other.evidence, other.site, current.evidence, current.site) {
            Verdict::Take
        } else {
            Verdict::Keep
        },
        (AbstractView::Symbolic(current), AbstractView::Symbolic(other)) => if current.subject
            != other.subject || current.location != other.location || current.offset
            != other.offset {
            Verdict::Lose(Unresolved::Join)
        } else if preferred(other.evidence, other.site, current.evidence, current.site) {
            Verdict::Take
        } else {
            Verdict::Keep
        },
        _ => Verdict::Lose(Unresolved::Join),
    }
}

/// A stored value after another one arrived, and whether that changed it.
pub open spec fn value_join(stored: AbstractView, incoming: AbstractView) -> (AbstractView, bool) {
    match verdict(stored, incoming) {
        Verdict::Keep => (stored, false),
        Verdict::Take => (incoming, true),
        Verdict::Lose(reason) => (AbstractView::Unknown(reason), true),
    }
}

impl AbstractValue {
    fn judge(&self, incoming: &Self) -> (r: Verdict)
        ensures
            r == verdict(self@, incoming@),
    {
        match (self, incoming) {
            (AbstractValue::Unknown(current), AbstractValue::Unknown(other)) => {
                let merged = merge_reason(*current, *other);
                if merged == *current {
                    Verdict::Keep
                } else {
                    Verdict::Lose(merged)
                }
            },
            (AbstractValue::Unknown(_), _) => Verdict::Keep,
            (_, AbstractValue::Unknown(reason)) => Verdict::Lose(*reason),
            (AbstractValue::Exact(current), AbstractValue::Exact(other)) => if current.value
                != other.value {
                Verdict::Lose(Unresolved::Join)
            } else if prefers(&other.evidence, other.site, &current.evidence, current.site) {
                Verdict::Take
            } else {
                Verdict::Keep
            },
            (AbstractValue::Symbolic(current), AbstractValue::Symbolic(other)) => if current.subject
                != other.subject || !current.location.same(&other.location) || current.offset
                != other.offset {
                Verdict::Lose(Unresolved::Join)
            } else if prefers(&other.evidence, other.site, &current.evidence, current.site) {
                Verdict::Take
            } else {
                Verdict::Keep
            },
            _ => Verdict::Lose(Unresolved::Join),
        }
    }

    /// Merge a value that arrives on another path. Returns whether that changed
    /// this one.
    pub fn join(&mut self, incoming: &Self) -> (r: bool)
        ensures
            (final(self)@, r) == value_join(old(self)@, incoming@),
    {
        match self.judge(incoming) {
            Verdict::Keep => false,
            Verdict::Take => {
                *self = incoming.duplicate();
                true
            },
            Verdict::Lose(reason) => {
                *self = AbstractValue::Unknown(reason);
                true
            },
        }
    }
}

/// It does not matter which of two paths arrives first: the value and its evidence are
/// the same.
pub proof fn value_join_ignores_order(a: AbstractView, b: AbstractView)
    ensures
        value_join(a, b).0 == value_join(b, a).0,
{
    match (a, b) {
        (AbstractView::Exact(x), AbstractView::Exact(y)) => {
            if preferred(x.evidence, x.site, y.evidence, y.site) {
                lemma_preferred_one_way(x.evidence, x.site, y.evidence, y.site);
            } else if !preferred(y.evidence, y.site, x.evidence, x.site) {
                lemma_preferred_is_total(x.evidence, x.site, y.evidence, y.site);
            }
        },
        (AbstractView::Symbolic(x), AbstractView::Symbolic(y)) => {
            if preferred(x.evidence, x.site, y.evidence, y.site) {
                lemma_preferred_one_way(x.evidence, x.site, y.evidence, y.site);
            } else if !preferred(y.evidence, y.site, x.evidence, x.site) {
                lemma_preferred_is_total(x.evidence, x.site, y.evidence, y.site);
            }
        },
        _ => {},
    }
}

/// A join only loses precision: joining a value to itself changes nothing; an
/// unchanged join keeps the value; what was joined once changes nothing any more,
/// also after further joins.
pub proof fn value_join_only_loses_precision(a: AbstractView, b: AbstractView, c: AbstractView)
    ensures
        !value_join(a, a).1,
        !value_join(a, b).1 ==> value_join(a, b).0 == a,
        !value_join(value_join(a, b).0, b).1,
        !value_join(a, b).1 ==> !value_join(value_join(a, c).0, b).1,
{
    match (a, b) {
        (AbstractView::Exact(x), AbstractView::Exact(y)) => {
            lemma_preferred_is_strict(x.evidence, x.site);
            lemma_preferred_is_strict(y.evidence, y.site);
            if let AbstractView::Exact(z) = c {
                if preferred(y.evidence, y.site, z.evidence, z.site) && preferred(
                    z.evidence,
                    z.site,
                    x.evidence,
                    x.site,
                ) {
                    lemma_preferred_chains(
                        y.evidence,
                        y.site,
                        z.evidence,
                        z.site,
                        x.evidence,
                        x.site,
                    );
                }
            }
        },
        (AbstractView::Symbolic(x), AbstractView::Symbolic(y)) => {
            lemma_preferred_is_strict(x.evidence, x.site);
            lemma_preferred_is_strict(y.evidence, y.site);
            if let AbstractView::Symbolic(z) = c {
                if preferred(y.evidence, y.site, z.evidence, z.site) && preferred(
                    z.evidence,
                    z.site,
                    x.evidence,
                    x.site,
                ) {
                    lemma_preferred_chains(
                        y.evidence,
                        y.site,
                        z.evidence,
                        z.site,
                        x.evidence,
                        x.site,
                    );
                }
            }
        },
        _ => {},
    }
    match a {
        AbstractView::Exact(x) => lemma_preferred_is_strict(x.evidence, x.site),
        AbstractView::Symbolic(x) => lemma_preferred_is_strict(x.evidence, x.site),
        _ => {},
    }
}

/// Arithmetic on a whole register.
#[derive(Clone, Copy, Debug, PartialEq, Eq, Structural)]
pub enum ExactOperation {
    Add(u32),
    Subtract(u32),
    And(u32),
    Or(u32),
    ExclusiveOr(u32),
    Negate,
    Not,
}

/// What an operation makes of an exact value.
pub open spec fn spec_apply(operation: ExactOperation, value: u32) -> u32 {
    match operation {
        ExactOperation::Add(amount) => value.wrapping_add(amount),
        ExactOperation::Subtract(amount) => value.wrapping_sub(amount),
        ExactOperation::And(mask) => value & mask,
        ExactOperation::Or(mask) => value | mask,
        ExactOperation::ExclusiveOr(mask) => value ^ mask,
        ExactOperation::Negate => 0u32.wrapping_sub(value),
        ExactOperation::Not => !value,
    }
}

/// What an operation makes of an exact value.
pub fn apply(operation: ExactOperation, value: u32) -> (r: u32)
    ensures
        r == spec_apply(operation, value),
{
    match operation {
        ExactOperation::Add(amount) => value.wrapping_add(amount),
        ExactOperation::Subtract(amount) => value.wrapping_sub(amount),
        ExactOperation::And(mask) => value & mask,
        ExactOperation::Or(mask) => value | mask,
        ExactOperation::ExclusiveOr(mask) => value ^ mask,
        ExactOperation::Negate => 0u32.wrapping_sub(value),
        ExactOperation::Not => !value,
    }
}

/// What an operation makes of the distance from a symbolic value: only addition
/// and subtraction keep it one.
pub open spec fn spec_apply_symbolic(operation: ExactOperation, offset: u32) -> Option<u32> {
    match operation {
        ExactOperation::Add(amount) => Some(offset.wrapping_add(amount)),
        ExactOperation::Subtract(amount) => Some(offset.wrapping_sub(amount)),
        _ => None,
    }
}

/// What an operation makes of the distance from a symbolic value: only addition
/// and subtraction keep it one.
pub fn apply_symbolic(operation: ExactOperation, offset: u32) -> (r: Option<u32>)
    ensures
        r == spec_apply_symbolic(operation, offset),
{
    match operation {
        ExactOperation::Add(amount) => Some(offset.wrapping_add(amount)),
        ExactOperation::Subtract(amount) => Some(offset.wrapping_sub(amount)),
        _ => None,
    }
}

/// What an instruction does to a register.
#[derive(Debug)]
pub enum RegisterWrite {
    Exact(u32),
    Symbolic(SymbolicSubject, SymbolicLocation),
    Copy(RegisterKind, u8),
    Transform(ExactOperation),
    Unknown,
}

/// A value that an instruction at `site` copied.
pub open spec fn copied(value: AbstractView, site: u32) -> AbstractView {
    match value {
        AbstractView::Unknown(reason) => AbstractView::Unknown(reason),
        AbstractView::Exact(exact) => if exact.evidence.len() >= MAX_VALUE_EVIDENCE {
            AbstractView::Unknown(Unresolved::StepLimit)
        } else {
            AbstractView::Exact(
                ConstantView { site, evidence: exact.evidence.push(site), ..exact },
            )
        },
        AbstractView::Symbolic(symbolic) => if symbolic.evidence.len() >= MAX_VALUE_EVIDENCE {
            AbstractView::Unknown(Unresolved::StepLimit)
        } else {
            AbstractView::Symbolic(
                SymbolicView { site, evidence: symbolic.evidence.push(site), ..symbolic },
            )
        },
    }
}

/// A value on which an instruction at `site` did arithmetic.
pub open spec fn transformed(value: AbstractView, site: u32, operation: ExactOperation) -> AbstractView {
    match value {
        AbstractView::Symbolic(symbolic) => match spec_apply_symbolic(operation, symbolic.offset) {
            None => AbstractView::Unknown(Unresolved::WriteNotValued),
            Some(offset) => copied(
                AbstractView::Symbolic(SymbolicView { offset, ..symbolic }),
                site,
            ),
        },
        AbstractView::Exact(exact) => copied(
            AbstractView::Exact(
                ConstantView { value: spec_apply(operation, exact.value), ..exact },
            ),
            site,
        ),
        AbstractView::Unknown(reason) => AbstractView::Unknown(reason),
    }
}

fn with_site(evidence: &Vec<u32>, site: u32) -> (r: Vec<u32>)
    ensures
        r@ == evidence@.push(site),
{
    let mut list = copy_list(evidence);
    list.push(site);
    list
}

impl AbstractValue {
    /// The value as an instruction at `site` copies it.
    pub fn copied(&self, site: u32) -> (r: Self)
        ensures
            r@ == copied(self@, site),
    {
        match self {
            AbstractValue::Unknown(reason) => AbstractValue::Unknown(*reason),
            AbstractValue::Exact(exact) => if exact.evidence.len() >= MAX_VALUE_EVIDENCE {
                AbstractValue::Unknown(Unresolved::StepLimit)
            } else {
                AbstractValue::Exact(
                    ConstantValue {
                        value: exact.value,
                        site,
                        evidence: with_site(&exact.evidence, site),
                    },
                )
            },
            AbstractValue::Symbolic(symbolic) => if symbolic.evidence.len() >= MAX_VALUE_EVIDENCE {
                AbstractValue::Unknown(Unresolved::StepLimit)
            } else {
                AbstractValue::Symbolic(
                    SymbolicValue {
                        subject: symbolic.subject,
                        location: symbolic.location.duplicate(),
                        offset: symbolic.offset,
                        site,
                        evidence: with_site(&symbolic.evidence, site),
                    },
                )
            },
        }
    }

    /// The value after the arithmetic of an instruction at `site`.
    pub fn transformed(&self, site: u32, operation: ExactOperation) -> (r: Self)
        ensures
            r@ == transformed(self@, site, operation),
    {
        let copy = self.copied(site);
        match copy {
            AbstractValue::Unknown(reason) => {
                if let AbstractValue::Symbolic(symbolic) = self {
                    if apply_symbolic(operation, symbolic.offset).is_none() {
                        return AbstractValue::Unknown(Unresolved::WriteNotValued);
                    }
                }
                AbstractValue::Unknown(reason)
            },
            AbstractValue::Exact(exact) => AbstractValue::Exact(
                ConstantValue {
                    value: apply(operation, exact.value),
                    site: exact.site,
                    evidence: exact.evidence,
                },
            ),
            AbstractValue::Symbolic(symbolic) => match apply_symbolic(operation, symbolic.offset) {
                None => AbstractValue::Unknown(Unresolved::WriteNotValued),
                Some(offset) => AbstractValue::Symbolic(
                    SymbolicValue {
                        subject: symbolic.subject,
                        location: symbolic.location,
                        offset,
                        site: symbolic.site,
                        evidence: symbolic.evidence,
                    },
                ),
            },
        }
    }
}

} // verus!
