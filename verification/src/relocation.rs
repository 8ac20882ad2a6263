//! HUNK relocations and load-address rebasing: what an encoded address names.

use crate::collections::AddressMap;
use vstd::prelude::*;

verus! {

/// Rebases absolute addresses to file offsets for an image copied to a fixed
/// load address and executed there: `offset = absolute - origin`, where `origin`
/// is the absolute address that file offset 0 occupies.
#[derive(Clone, Copy, Debug, PartialEq, Eq, Structural)]
pub struct Rebase {
    pub origin: u32,
}

impl Rebase {
    /// Create a rebase whose file offset 0 sits at absolute address `origin`.
    pub fn new(origin: u32) -> (r: Self)
        ensures
            r == (Rebase { origin }),
    {
        Rebase { origin }
    }

    /// The offset of `address` in the image, where it lies inside its `length`
    /// bytes.
    pub open spec fn spec_to_offset(self, address: u32, length: nat) -> Option<u32> {
        if self.origin <= address && address - self.origin < length {
            Some((address - self.origin) as u32)
        } else {
            None
        }
    }

    /// Convert an absolute `address` to a file offset, if it lies within the
    /// `length`-byte loaded image.
    pub fn to_offset(self, address: u32, length: usize) -> (r: Option<u32>)
        ensures
            r == self.spec_to_offset(address, length as nat),
    {
        if address < self.origin {
            return None;
        }
        let offset: u32 = address - self.origin;
        if (offset as u64) < length as u64 {
            Some(offset)
        } else {
            None
        }
    }
}

/// One HUNK relocation patching the analyzed hunk.
#[derive(Clone, Copy, Debug, PartialEq, Eq, Structural)]
pub struct Relocation {
    /// Hunk offset of the patched longword.
    pub patched: u32,
    /// The hunk the stored pointer names.
    pub target_hunk: u32,
    /// The offset into `target_hunk` the stored pointer names: the addend an
    /// unloaded file stores in the patched longword.
    pub target_offset: u32,
}

/// The relocations of a list by the offset they patch; of two that patch the
/// same offset, the later one.
pub open spec fn by_offset(list: Seq<Relocation>) -> Map<u32, Relocation>
    decreases list.len(),
{
    if list.len() == 0 {
        Map::empty()
    } else {
        by_offset(list.drop_last()).insert(list.last().patched, list.last())
    }
}

/// The relocations of one hunk, as a mathematical map.
#[verifier::ext_equal]
pub struct RelocationView {
    /// The hunk that is patched.
    pub hunk: u32,
    /// Its relocations, by the offset they patch.
    pub patched: Map<u32, Relocation>,
}

/// The relocations patching one hunk, indexed for the question the traversal
/// asks of them: where does this absolute-long operand really point?
///
/// An unloaded HUNK file stores the addend, not the loaded address, so a
/// `JSR $0.L` patched into another hunk reads as "offset zero of this hunk"
/// unless the relocation record is consulted.
#[derive(Debug)]
pub struct Relocations {
    pub hunk: u32,
    pub patched: AddressMap<Relocation>,
}

impl View for Relocations {
    type V = RelocationView;

    open spec fn view(&self) -> RelocationView {
        RelocationView { hunk: self.hunk, patched: self.patched@ }
    }
}

/// The inclusive range of offsets at which a patched longword may start inside
/// the instruction spanning `site..end`: after the opcode word, and far enough
/// from the end that all four bytes lie inside the instruction.
pub open spec fn spec_operand_range(site: u32, end: u32) -> Option<(u32, u32)> {
    if site + 2 <= end - 4 {
        Some(((site + 2) as u32, (end - 4) as u32))
    } else {
        None
    }
}

/// The inclusive range of offsets at which a patched longword may start inside
/// the instruction spanning `site..end`. `None` when the instruction is too
/// short to hold an absolute-long operand.
pub fn operand_range(site: u32, end: u32) -> (r: Option<(u32, u32)>)
    ensures
        r == spec_operand_range(site, end),
{
    if site > 0xffff_fffd || end < 4 {
        return None;
    }
    let first: u32 = site + 2;
    let last: u32 = end - 4;
    if first > last {
        None
    } else {
        Some((first, last))
    }
}

impl RelocationView {
    /// Whether a relocation patches offset `at`, which lies from `first` to
    /// `last`, and stores `addend`.
    pub open spec fn stores(self, first: u32, last: u32, addend: u32, at: u32) -> bool {
        &&& self.patched.dom().contains(at)
        &&& first <= at <= last
        &&& self.patched[at].target_offset == addend
    }

    /// The same, and no other one before it does.
    pub open spec fn stores_first(self, first: u32, last: u32, addend: u32, at: u32) -> bool {
        &&& self.stores(first, last, addend, at)
        &&& forall|other: u32| #[trigger] self.stores(first, last, addend, other) ==> at <= other
    }

    /// The first relocation, in offset order, that patches a longword wholly
    /// inside the instruction spanning `site..end` and after its opcode word, and
    /// that stores `addend`.
    pub open spec fn covering(self, site: u32, end: u32, addend: u32) -> Option<Relocation> {
        match spec_operand_range(site, end) {
            None => None,
            Some((first, last)) => if exists|at: u32| #[trigger]
                self.stores_first(first, last, addend, at) {
                Some(self.patched[choose|at: u32| #[trigger] self.stores_first(first, last, addend, at)])
            } else {
                None
            },
        }
    }

    /// The relocation that patches exactly offset `patched`, if it stores
    /// `addend`.
    pub open spec fn at(self, patched: u32, addend: u32) -> Option<Relocation> {
        if self.patched.dom().contains(patched) && self.patched[patched].target_offset == addend {
            Some(self.patched[patched])
        } else {
            None
        }
    }

    /// The relocation of one operand: by its exact position where that is known,
    /// by the instruction's range otherwise.
    pub open spec fn resolve_operand(
        self,
        site: u32,
        end: u32,
        operand: Option<u32>,
        addend: u32,
    ) -> Option<Relocation> {
        match operand {
            Some(patched) => self.at(patched, addend),
            None => self.covering(site, end, addend),
        }
    }
}

impl Relocations {
    /// The index is sorted, and each relocation is filed under the offset it
    /// patches.
    pub open spec fn wf(&self) -> bool {
        &&& self.patched.wf()
        &&& forall|i: int|
            0 <= i < self.patched.keys@.len() ==> (#[trigger] self.patched.values@[i]).patched
                == self.patched.keys@[i]
    }

    /// Index the relocations that patch `hunk`, which is the hunk being
    /// analyzed. Records patching any other hunk are the caller's to filter
    /// out; their offsets mean nothing in this code.
    pub fn new(hunk: u32, relocations: &[Relocation]) -> (r: Self)
        ensures
            r.wf(),
            r@.hunk == hunk,
            r@.patched == by_offset(relocations@),
    {
        let mut patched: AddressMap<Relocation> = AddressMap::new();
        let mut i: usize = 0;
        assert(relocations@.take(0) =~= Seq::<Relocation>::empty());
        while i < relocations.len()
            invariant
                i <= relocations@.len(),
                patched.wf(),
                patched@ == by_offset(relocations@.take(i as int)),
                forall|k: u32| #[trigger]
                    patched@.dom().contains(k) ==> patched@[k].patched == k,
            decreases relocations@.len() - i,
        {
            let relocation = relocations[i];
            patched.insert(relocation.patched, relocation);
            i += 1;
            assert(relocations@.take(i as int).drop_last() =~= relocations@.take(i - 1));
        }
        assert(relocations@.take(i as int) =~= relocations@);
        let r = Relocations { hunk, patched };
        assert forall|i: int| 0 <= i < r.patched.keys@.len() implies (
        #[trigger] r.patched.values@[i]).patched == r.patched.keys@[i] by {
            r.patched.lemma_entry(i);
        }
        r
    }

    /// The hunk these relocations patch.
    pub fn hunk(&self) -> (r: u32)
        ensures
            r == self@.hunk,
    {
        self.hunk
    }

    /// The relocation patching an absolute-long operand of the instruction
    /// spanning `site..end` whose stored longword is `addend`.
    ///
    /// The patched longword must lie wholly inside the instruction and after
    /// its opcode word. Matching the stored value as well as the byte range
    /// keeps an instruction whose two absolute operands store different
    /// addends attributed to the one the record actually patches; two operands
    /// storing the *same* addend are indistinguishable here, and both read as
    /// relocated.
    pub fn covering(&self, site: u32, end: u32, addend: u32) -> (r: Option<Relocation>)
        requires
            self.wf(),
        ensures
            r == self@.covering(site, end, addend),
    {
        let (first, last) = match operand_range(site, end) {
            None => {
                return None;
            },
            Some(range) => range,
        };
        let start: usize = self.patched.rank(first);
        let mut i: usize = start;
        while i < self.patched.keys.len() && self.patched.keys[i] <= last
            invariant
                self.wf(),
                start <= i <= self.patched.keys@.len(),
                forall|k: int| 0 <= k < start ==> #[trigger] self.patched.keys@[k] < first,
                forall|k: int|
                    start <= k < self.patched.keys@.len() ==> #[trigger] self.patched.keys@[k]
                        >= first,
                forall|k: int|
                    start <= k < i ==> (#[trigger] self.patched.values@[k]).target_offset != addend,
                spec_operand_range(site, end) == Some((first, last)),
            decreases self.patched.keys@.len() - i,
        {
            let relocation = self.patched.values[i];
            if relocation.target_offset == addend {
                proof {
                    let at = self.patched.keys@[i as int];
                    self.patched.lemma_entry(i as int);
                    assert(self@.stores(first, last, addend, at));
                    assert forall|other: u32| #[trigger]
                        self@.stores(first, last, addend, other) implies at <= other by {
                        let k = self.patched.lemma_position(other);
                        if k < i {
                            assert(k >= start);
                        } else if k > i {
                            assert(self.patched.keys@[i as int] < self.patched.keys@[k]);
                        }
                    }
                    lemma_covering_found(self@, site, end, addend, at);
                }
                return Some(relocation);
            }
            i += 1;
        }
        proof {
            assert forall|at: u32| !#[trigger] self@.stores_first(first, last, addend, at) by {
                if self@.stores(first, last, addend, at) {
                    let k = self.patched.lemma_position(at);
                    assert(k >= start);
                    if k >= i && k > i {
                        assert(self.patched.keys@[i as int] < self.patched.keys@[k]);
                    }
                }
            }
        }
        None
    }

    /// The relocation at one exact longword position, provided its stored
    /// addend agrees with the record.
    pub fn at(&self, patched: u32, addend: u32) -> (r: Option<Relocation>)
        requires
            self.wf(),
        ensures
            r == self@.at(patched, addend),
    {
        match self.patched.get(patched) {
            Some(relocation) => if relocation.target_offset == addend {
                Some(*relocation)
            } else {
                None
            },
            None => None,
        }
    }

    /// Resolve the relocation for one decoded operand.
    ///
    /// An exact operand position takes precedence. When the decoder exposes no
    /// position, fall back to the instruction range and stored addend.
    pub fn resolve_operand(
        &self,
        site: u32,
        end: u32,
        operand: Option<u32>,
        addend: u32,
    ) -> (r: Option<Relocation>)
        requires
            self.wf(),
        ensures
            r == self@.resolve_operand(site, end, operand, addend),
    {
        match operand {
            Some(patched) => self.at(patched, addend),
            None => self.covering(site, end, addend),
        }
    }

    /// The same index again.
    pub fn duplicate(&self) -> (r: Self)
        ensures
            r@ == self@,
            self.wf() ==> r.wf(),
    {
        let mut keys: Vec<u32> = Vec::new();
        let mut values: Vec<Relocation> = Vec::new();
        let mut i: usize = 0;
        while i < self.patched.keys.len()
            invariant
                i <= self.patched.keys@.len(),
                keys@ == self.patched.keys@.take(i as int),
            decreases self.patched.keys@.len() - i,
        {
            keys.push(self.patched.keys[i]);
            i += 1;
            assert(keys@ =~= self.patched.keys@.take(i as int));
        }
        let mut j: usize = 0;
        while j < self.patched.values.len()
            invariant
                j <= self.patched.values@.len(),
                values@ == self.patched.values@.take(j as int),
            decreases self.patched.values@.len() - j,
        {
            values.push(self.patched.values[j]);
            j += 1;
            assert(values@ =~= self.patched.values@.take(j as int));
        }
        assert(keys@ =~= self.patched.keys@);
        assert(values@ =~= self.patched.values@);
        let r = Relocations { hunk: self.hunk, patched: AddressMap { keys, values } };
        assert(r.patched@ =~= self.patched@);
        r
    }
}

proof fn lemma_covering_found(index: RelocationView, site: u32, end: u32, addend: u32, at: u32)
    requires
        spec_operand_range(site, end) matches Some((first, last)) && index.stores_first(
            first,
            last,
            addend,
            at,
        ),
    ensures
        index.covering(site, end, addend) == Some(index.patched[at]),
{
    let (first, last) = spec_operand_range(site, end)->0;
    let chosen = choose|at: u32| #[trigger] index.stores_first(first, last, addend, at);
    assert(index.stores_first(first, last, addend, chosen));
    assert(index.stores(first, last, addend, chosen));
    assert(chosen <= at && at <= chosen);
}

/// A relocation that the index finds for an instruction is filed under the
/// offset it patches, lies inside the instruction's operand range, and stores
/// the addend that was asked for.
pub proof fn covering_is_sound(index: RelocationView, site: u32, end: u32, addend: u32)
    requires
        forall|k: u32| #[trigger] index.patched.dom().contains(k) ==> index.patched[k].patched == k,
    ensures
        index.covering(site, end, addend) matches Some(relocation) ==> {
            &&& index.at(relocation.patched, addend) == Some(relocation)
            &&& site + 2 <= relocation.patched
            &&& relocation.patched + 4 <= end
        },
        index.covering(site, end, addend) is None ==> forall|patched: u32|
            site + 2 <= patched && patched + 4 <= end ==> #[trigger] index.at(patched, addend)
                is None,
{
    match spec_operand_range(site, end) {
        None => {},
        Some((first, last)) => {
            if exists|at: u32| #[trigger] index.stores_first(first, last, addend, at) {
                let at = choose|at: u32| #[trigger] index.stores_first(first, last, addend, at);
                assert(index.stores(first, last, addend, at));
            } else {
                assert forall|patched: u32|
                    site + 2 <= patched && patched + 4 <= end implies #[trigger] index.at(
                    patched,
                    addend,
                ) is None by {
                    if index.at(patched, addend) is Some {
                        assert(index.stores(first, last, addend, patched));
                        lemma_first_stored(index, first, last, addend, patched);
                    }
                }
            }
        },
    }
}

proof fn lemma_first_stored(index: RelocationView, first: u32, last: u32, addend: u32, at: u32)
    requires
        index.stores(first, last, addend, at),
    ensures
        exists|k: u32| #[trigger] index.stores_first(first, last, addend, k),
    decreases at,
{
    if forall|other: u32| #[trigger] index.stores(first, last, addend, other) ==> at <= other {
        assert(index.stores_first(first, last, addend, at));
    } else {
        let other = choose|other: u32|
            #[trigger] index.stores(first, last, addend, other) && other < at;
        lemma_first_stored(index, first, last, addend, other);
    }
}

} // verus!
