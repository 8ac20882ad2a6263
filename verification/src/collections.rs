//! Ordered sets and address-keyed maps.
//!
//! Every report of this crate is in a fixed order, so the collections behind it
//! are kept sorted: a set is its elements in ascending order, a map is its keys
//! in ascending order beside their values. A mathematical set or map is their
//! view.

use vstd::prelude::*;

verus! {

/// A strict total order, by which an [`OrderedSet`] keeps its elements.
pub trait Ranked: Sized + Copy {
    /// Whether `self` comes before `other`.
    spec fn before(self, other: Self) -> bool;

    /// Nothing comes before itself.
    proof fn never_before_itself(x: Self)
        ensures
            !x.before(x),
    ;

    /// What comes before a predecessor comes before its successor.
    proof fn chains(x: Self, y: Self, z: Self)
        requires
            x.before(y),
            y.before(z),
        ensures
            x.before(z),
    ;

    /// Two different elements are ordered one way or the other.
    proof fn compares(x: Self, y: Self)
        ensures
            x.before(y) || x == y || y.before(x),
    ;

    /// Whether `self` comes before `other`.
    fn is_before(&self, other: &Self) -> (r: bool)
        ensures
            r == self.before(*other),
    ;
}

impl Ranked for u32 {
    open spec fn before(self, other: Self) -> bool {
        self < other
    }

    proof fn never_before_itself(x: Self) {
    }

    proof fn chains(x: Self, y: Self, z: Self) {
    }

    proof fn compares(x: Self, y: Self) {
    }

    fn is_before(&self, other: &Self) -> bool {
        *self < *other
    }
}

/// Two addresses, ordered by the first and then by the second.
#[derive(Clone, Copy, Debug, PartialEq, Eq, Structural)]
pub struct AddressPair {
    pub first: u32,
    pub second: u32,
}

impl Ranked for AddressPair {
    open spec fn before(self, other: Self) -> bool {
        self.first < other.first || self.first == other.first && self.second < other.second
    }

    proof fn never_before_itself(x: Self) {
    }

    proof fn chains(x: Self, y: Self, z: Self) {
    }

    proof fn compares(x: Self, y: Self) {
    }

    fn is_before(&self, other: &Self) -> bool {
        self.first < other.first || self.first == other.first && self.second < other.second
    }
}

/// Every element comes before those after it.
pub open spec fn ascending<T: Ranked>(items: Seq<T>) -> bool {
    forall|i: int, j: int|
        #![trigger items[i], items[j]]
        0 <= i < j < items.len() ==> items[i].before(items[j])
}

/// A set kept in ascending order.
#[derive(Debug)]
pub struct OrderedSet<T: Ranked> {
    pub items: Vec<T>,
}

impl<T: Ranked> View for OrderedSet<T> {
    type V = Set<T>;

    open spec fn view(&self) -> Set<T> {
        self.items@.to_set()
    }
}

impl<T: Ranked> OrderedSet<T> {
    /// The elements are in strictly ascending order.
    pub open spec fn wf(&self) -> bool {
        ascending(self.items@)
    }

    /// An empty set.
    pub fn new() -> (r: Self)
        ensures
            r.wf(),
            r@ == Set::<T>::empty(),
            r.items@ == Seq::<T>::empty(),
    {
        let r = OrderedSet { items: Vec::new() };
        assert(r@ =~= Set::<T>::empty());
        r
    }

    /// How many elements there are.
    pub fn len(&self) -> (r: usize)
        requires
            self.wf(),
        ensures
            r == self.items@.len(),
            r == self@.len(),
    {
        proof {
            self.lemma_len();
        }
        self.items.len()
    }

    /// Whether there is no element.
    pub fn is_empty(&self) -> (r: bool)
        requires
            self.wf(),
        ensures
            r == (self.items@.len() == 0),
            r == (self@ == Set::<T>::empty()),
    {
        if self.items.len() == 0 {
            assert(self@ =~= Set::<T>::empty());
            true
        } else {
            assert(self@.contains(self.items@[0]));
            false
        }
    }

    /// The view has one element per position, and is finite.
    pub proof fn lemma_len(&self)
        requires
            self.wf(),
        ensures
            self@.finite(),
            self@.len() == self.items@.len(),
    {
        assert forall|i: int, j: int|
            0 <= i < self.items@.len() && 0 <= j < self.items@.len() && i
                != j implies self.items@[i] != self.items@[j] by {
            if i < j {
                T::never_before_itself(self.items@[i]);
            } else {
                T::never_before_itself(self.items@[j]);
            }
        }
        self.items@.unique_seq_to_set();
    }

    /// The number of elements that come before `item`.
    pub fn rank(&self, item: &T) -> (r: usize)
        requires
            self.wf(),
        ensures
            r <= self.items@.len(),
            forall|i: int| 0 <= i < r ==> (#[trigger] self.items@[i]).before(*item),
            forall|i: int| r <= i < self.items@.len() ==> !(#[trigger] self.items@[i]).before(*item),
    {
        let mut low: usize = 0;
        let mut high: usize = self.items.len();
        while low < high
            invariant
                self.wf(),
                low <= high <= self.items@.len(),
                forall|i: int| 0 <= i < low ==> (#[trigger] self.items@[i]).before(*item),
                forall|i: int|
                    high <= i < self.items@.len() ==> !(#[trigger] self.items@[i]).before(*item),
            decreases high - low,
        {
            let middle: usize = low + (high - low) / 2;
            if self.items[middle].is_before(item) {
                assert forall|i: int| 0 <= i < middle + 1 implies (
                #[trigger] self.items@[i]).before(*item) by {
                    if i < middle {
                        T::chains(self.items@[i], self.items@[middle as int], *item);
                    }
                }
                low = middle + 1;
            } else {
                assert forall|i: int| middle <= i < self.items@.len() implies !(
                #[trigger] self.items@[i]).before(*item) by {
                    if i > middle && self.items@[i].before(*item) {
                        T::chains(self.items@[middle as int], self.items@[i], *item);
                    }
                }
                high = middle;
            }
        }
        low
    }

    /// Whether `item` is an element.
    pub fn contains(&self, item: &T) -> (r: bool)
        requires
            self.wf(),
        ensures
            r == self@.contains(*item),
    {
        let at: usize = self.rank(item);
        if at < self.items.len() && !item.is_before(&self.items[at]) {
            proof {
                T::compares(*item, self.items@[at as int]);
            }
            assert(self.items@[at as int] == *item);
            true
        } else {
            assert(!self@.contains(*item)) by {
                if self@.contains(*item) {
                    let i = choose|i: int| 0 <= i < self.items@.len() && self.items@[i] == *item;
                    T::never_before_itself(*item);
                    assert(i >= at);
                    if i > at {
                        assert(self.items@[at as int].before(*item));
                    }
                }
            }
            false
        }
    }

    /// Add `item`; reports whether it was not there before.
    pub fn insert(&mut self, item: T) -> (r: bool)
        requires
            old(self).wf(),
        ensures
            final(self).wf(),
            final(self)@ == old(self)@.insert(item),
            r == !old(self)@.contains(item),
            final(self).items@.len() == old(self).items@.len() + (if r {
                1int
            } else {
                0int
            }),
    {
        if self.contains(&item) {
            assert(old(self)@ =~= old(self)@.insert(item));
            return false;
        }
        let at: usize = self.rank(&item);
        let ghost before = self.items@;
        self.items.insert(at, item);
        proof {
            let after = self.items@;
            assert(after =~= before.insert(at as int, item));
            assert forall|i: int, j: int|
                #![trigger after[i], after[j]]
                0 <= i < j < after.len() implies after[i].before(after[j]) by {
                if j == at {
                } else if i == at {
                    assert(after[j] == before[j - 1]);
                    T::compares(item, before[j - 1]);
                    assert(before.contains(before[j - 1]));
                } else if j > at {
                    assert(after[j] == before[j - 1]);
                    if i > at {
                        assert(after[i] == before[i - 1]);
                    }
                }
            }
            assert forall|x: T| after.to_set().contains(x) == before.to_set().insert(
                item,
            ).contains(x) by {
                if after.contains(x) {
                    let i = choose|i: int| 0 <= i < after.len() && after[i] == x;
                    if i < at {
                        assert(before[i] == x);
                    } else if i > at {
                        assert(before[i - 1] == x);
                    }
                }
                if before.contains(x) {
                    let i = choose|i: int| 0 <= i < before.len() && before[i] == x;
                    if i < at {
                        assert(after[i] == x);
                    } else {
                        assert(after[i + 1] == x);
                    }
                }
                assert(after[at as int] == item);
            }
            assert(after.to_set() =~= before.to_set().insert(item));
        }
        true
    }

    /// The same set again.
    pub fn duplicate(&self) -> (r: Self)
        ensures
            r.items@ == self.items@,
            r@ == self@,
            self.wf() ==> r.wf(),
    {
        let mut items: Vec<T> = Vec::new();
        let mut i: usize = 0;
        while i < self.items.len()
            invariant
                i <= self.items@.len(),
                items@ == self.items@.take(i as int),
            decreases self.items@.len() - i,
        {
            items.push(self.items[i]);
            i += 1;
            assert(items@ =~= self.items@.take(i as int));
        }
        assert(items@ =~= self.items@);
        OrderedSet { items }
    }

    /// The set of the elements of `list`.
    pub fn from_slice(list: &[T]) -> (r: Self)
        ensures
            r.wf(),
            r@ == list@.to_set(),
    {
        let mut r = OrderedSet::new();
        let mut i: usize = 0;
        assert(list@.take(0).to_set() =~= Set::<T>::empty());
        while i < list.len()
            invariant
                i <= list@.len(),
                r.wf(),
                r@ == list@.take(i as int).to_set(),
            decreases list@.len() - i,
        {
            r.insert(list[i]);
            proof {
                lemma_take_to_set(list@, i as int);
            }
            i += 1;
        }
        assert(list@.take(i as int) =~= list@);
        r
    }

    /// Whether some element of both sets is the same.
    pub fn meets(&self, other: &Self) -> (r: bool)
        requires
            self.wf(),
            other.wf(),
        ensures
            r == !self@.disjoint(other@),
    {
        let mut i: usize = 0;
        while i < self.items.len()
            invariant
                i <= self.items@.len(),
                other.wf(),
                forall|k: int| 0 <= k < i ==> !other@.contains(#[trigger] self.items@[k]),
            decreases self.items@.len() - i,
        {
            if other.contains(&self.items[i]) {
                assert(self@.contains(self.items@[i as int]));
                return true;
            }
            i += 1;
        }
        false
    }

    /// Remove and return the first element.
    pub fn pop_first(&mut self) -> (r: Option<T>)
        requires
            old(self).wf(),
        ensures
            final(self).wf(),
            match r {
                Some(item) => {
                    &&& old(self).items@.len() > 0
                    &&& item == old(self).items@[0]
                    &&& final(self).items@ == old(self).items@.skip(1)
                    &&& final(self)@ == old(self)@.remove(item)
                    &&& old(self)@.contains(item)
                },
                None => old(self).items@.len() == 0 && final(self).items@ == old(self).items@,
            },
    {
        if self.items.len() == 0 {
            return None;
        }
        let ghost before = self.items@;
        let item = self.items.remove(0);
        proof {
            let after = self.items@;
            assert(after =~= before.skip(1));
            assert(before.contains(before[0]));
            assert forall|x: T| after.to_set().contains(x) == before.to_set().remove(
                item,
            ).contains(x) by {
                if after.contains(x) {
                    let i = choose|i: int| 0 <= i < after.len() && after[i] == x;
                    assert(before[i + 1] == x);
                    T::never_before_itself(x);
                    assert(before[0].before(before[i + 1]));
                }
                if before.contains(x) && x != item {
                    let i = choose|i: int| 0 <= i < before.len() && before[i] == x;
                    assert(after[i - 1] == x);
                }
            }
            assert(after.to_set() =~= before.to_set().remove(item));
        }
        Some(item)
    }

    /// Remove and return the last element.
    pub fn pop_last(&mut self) -> (r: Option<T>)
        requires
            old(self).wf(),
        ensures
            final(self).wf(),
            match r {
                Some(item) => {
                    &&& old(self).items@.len() > 0
                    &&& item == old(self).items@.last()
                    &&& final(self).items@ == old(self).items@.drop_last()
                    &&& final(self)@ == old(self)@.remove(item)
                    &&& old(self)@.contains(item)
                },
                None => old(self).items@.len() == 0 && final(self).items@ == old(self).items@,
            },
    {
        if self.items.len() == 0 {
            return None;
        }
        let ghost before = self.items@;
        let item = self.items.pop().unwrap();
        proof {
            let after = self.items@;
            assert(after =~= before.drop_last());
            assert(before.contains(before[before.len() - 1]));
            assert forall|x: T| after.to_set().contains(x) == before.to_set().remove(
                item,
            ).contains(x) by {
                if after.contains(x) {
                    let i = choose|i: int| 0 <= i < after.len() && after[i] == x;
                    assert(before[i] == x);
                    T::never_before_itself(x);
                    assert(before[i].before(before[before.len() - 1]));
                }
                if before.contains(x) && x != item {
                    let i = choose|i: int| 0 <= i < before.len() && before[i] == x;
                    assert(after[i] == x);
                }
            }
            assert(after.to_set() =~= before.to_set().remove(item));
        }
        Some(item)
    }

    /// Whether both sets have the same elements.
    pub fn same(&self, other: &Self) -> (r: bool)
        requires
            self.wf(),
            other.wf(),
        ensures
            r == (self@ == other@),
    {
        if self.items.len() != other.items.len() {
            proof {
                self.lemma_len();
                other.lemma_len();
            }
            return false;
        }
        let mut i: usize = 0;
        while i < self.items.len()
            invariant
                i <= self.items@.len(),
                self.items@.len() == other.items@.len(),
                self.wf(),
                other.wf(),
                forall|k: int| 0 <= k < i ==> self.items@[k] == other.items@[k],
            decreases self.items@.len() - i,
        {
            let left = self.items[i];
            let right = other.items[i];
            if left.is_before(&right) || right.is_before(&left) {
                proof {
                    T::never_before_itself(left);
                    if self@ == other@ {
                        if left.before(right) {
                            assert(self@.contains(left)) by {
                                assert(self.items@[i as int] == left);
                            }
                            lemma_absent(other.items@, left, i as int);
                        } else {
                            assert(other@.contains(right)) by {
                                assert(other.items@[i as int] == right);
                            }
                            lemma_absent(self.items@, right, i as int);
                        }
                    }
                }
                return false;
            }
            proof {
                T::compares(left, right);
            }
            i += 1;
        }
        assert(self.items@ =~= other.items@);
        true
    }
}

/// In an ascending list, what lies after every element in front of a position
/// and before the element at it is not there.
proof fn lemma_absent<T: Ranked>(items: Seq<T>, item: T, at: int)
    requires
        ascending(items),
        0 <= at < items.len(),
        item.before(items[at]),
        forall|k: int| 0 <= k < at ==> (#[trigger] items[k]).before(item),
    ensures
        !items.contains(item),
{
    if items.contains(item) {
        let i = choose|i: int| 0 <= i < items.len() && items[i] == item;
        T::never_before_itself(item);
        if i > at {
            assert(items[at].before(items[i]));
            T::chains(item, items[at], item);
        }
    }
}

/// The elements of a set in ascending order.
pub open spec fn in_order<T: Ranked>(set: Set<T>) -> Seq<T> {
    choose|items: Seq<T>| ascending(items) && #[trigger] items.to_set() == set
}

/// An ascending list is the order of its own elements.
pub proof fn lemma_in_order<T: Ranked>(items: Seq<T>)
    requires
        ascending(items),
    ensures
        in_order(items.to_set()) == items,
{
    let chosen = in_order(items.to_set());
    assert(ascending(chosen) && chosen.to_set() == items.to_set());
    lemma_same_order(chosen, items);
}

proof fn lemma_listed_below(set: Set<u32>, bound: nat) -> (items: Seq<u32>)
    requires
        bound <= 0x1_0000_0000,
    ensures
        ascending(items),
        forall|x: u32| items.contains(x) <==> set.contains(x) && x < bound,
    decreases bound,
{
    if bound == 0 {
        Seq::empty()
    } else {
        let fewer = lemma_listed_below(set, (bound - 1) as nat);
        let last = (bound - 1) as u32;
        if set.contains(last) {
            let items = fewer.push(last);
            assert forall|i: int, j: int| 0 <= i < j < items.len() implies (
            #[trigger] items[i]).before(#[trigger] items[j]) by {
                if j == fewer.len() {
                    assert(fewer.contains(fewer[i]));
                }
            }
            assert forall|x: u32| items.contains(x) <==> set.contains(x) && x < bound by {
                if items.contains(x) {
                    let k = choose|k: int| 0 <= k < items.len() && items[k] == x;
                    if k < fewer.len() {
                        assert(fewer[k] == x);
                        assert(fewer.contains(x));
                    }
                }
                if set.contains(x) && x < bound {
                    if x < last {
                        assert(fewer.contains(x));
                        let k = choose|k: int| 0 <= k < fewer.len() && fewer[k] == x;
                        assert(items[k] == x);
                    } else {
                        assert(items[fewer.len() as int] == x);
                    }
                }
            }
            items
        } else {
            fewer
        }
    }
}

/// What `each` gives at the first `n` positions, in order.
pub open spec fn gathered<T>(n: int, each: spec_fn(int) -> Option<T>) -> Seq<T>
    decreases n,
{
    if n <= 0 {
        Seq::empty()
    } else {
        match each(n - 1) {
            Some(item) => gathered(n - 1, each).push(item),
            None => gathered(n - 1, each),
        }
    }
}

/// Every set of addresses has an order.
pub proof fn lemma_addresses_in_order(set: Set<u32>)
    ensures
        ascending(in_order(set)),
        in_order(set).to_set() == set,
{
    let items = lemma_listed_below(set, 0x1_0000_0000);
    assert(items.to_set() =~= set);
}

/// Two ascending lists with the same elements are the same list.
pub proof fn lemma_same_order<T: Ranked>(left: Seq<T>, right: Seq<T>)
    requires
        ascending(left),
        ascending(right),
        left.to_set() == right.to_set(),
    ensures
        left == right,
    decreases left.len(),
{
    if left.len() == 0 {
        if right.len() > 0 {
            assert(right.to_set().contains(right[0]));
        }
        assert(left =~= right);
    } else {
        assert(left.to_set().contains(left[0]));
        assert(right.len() > 0);
        assert(right.to_set().contains(right[0]));
        let i = choose|i: int| 0 <= i < right.len() && right[i] == left[0];
        let j = choose|j: int| 0 <= j < left.len() && left[j] == right[0];
        if i > 0 && j > 0 {
            assert(right[0].before(right[i]));
            assert(left[0].before(left[j]));
            T::chains(left[0], right[0], left[0]);
            T::never_before_itself(left[0]);
        }
        assert(left[0] == right[0]);
        let l = left.skip(1);
        let r = right.skip(1);
        assert forall|x: T| l.to_set().contains(x) == r.to_set().contains(x) by {
            lemma_skip_first(left, x);
            lemma_skip_first(right, x);
            assert(left.to_set().contains(x) == right.to_set().contains(x));
        }
        assert(l.to_set() =~= r.to_set());
        lemma_same_order(l, r);
        assert(left =~= seq![left[0]] + l);
        assert(right =~= seq![right[0]] + r);
    }
}

proof fn lemma_skip_first<T: Ranked>(items: Seq<T>, x: T)
    requires
        ascending(items),
        items.len() > 0,
    ensures
        items.skip(1).to_set().contains(x) == (items.to_set().contains(x) && x != items[0]),
{
    let rest = items.skip(1);
    if rest.contains(x) {
        let i = choose|i: int| 0 <= i < rest.len() && rest[i] == x;
        assert(items[i + 1] == x);
        assert(items[0].before(items[i + 1]));
        T::never_before_itself(x);
    }
    if items.contains(x) && x != items[0] {
        let i = choose|i: int| 0 <= i < items.len() && items[i] == x;
        assert(rest[i - 1] == x);
    }
}

/// One more element of a list is one more element of the set of its elements.
pub proof fn lemma_take_to_set<T>(list: Seq<T>, i: int)
    requires
        0 <= i < list.len(),
    ensures
        list.take(i + 1).to_set() == list.take(i).to_set().insert(list[i]),
{
    let more = list.take(i + 1);
    let less = list.take(i);
    assert(more =~= less.push(list[i]));
    assert forall|x: T| more.to_set().contains(x) == less.to_set().insert(list[i]).contains(x) by {
        if more.contains(x) {
            let k = choose|k: int| 0 <= k < more.len() && more[k] == x;
            if k < i {
                assert(less[k] == x);
            }
        }
        if less.contains(x) {
            let k = choose|k: int| 0 <= k < less.len() && less[k] == x;
            assert(more[k] == x);
        }
        assert(more[i] == list[i]);
    }
    assert(more.to_set() =~= less.to_set().insert(list[i]));
}

/// Distinct pairs of addresses are fewer than there are pairs.
pub proof fn lemma_pair_count(items: Seq<AddressPair>)
    requires
        ascending(items),
    ensures
        items.len() <= 0x1_0000_0000_0000_0000,
{
    if items.len() > 0 {
        lemma_pair_position(items, items.len() - 1);
    }
}

proof fn lemma_pair_position(items: Seq<AddressPair>, i: int)
    requires
        ascending(items),
        0 <= i < items.len(),
    ensures
        i <= items[i].first * 0x1_0000_0000 + items[i].second,
    decreases i,
{
    if i > 0 {
        lemma_pair_position(items, i - 1);
        assert(items[i - 1].before(items[i]));
    }
}

/// Distinct addresses are at most as many as there are addresses.
pub proof fn lemma_address_count(items: Seq<u32>)
    requires
        ascending(items),
    ensures
        items.len() <= 0x1_0000_0000,
{
    if items.len() > 0 {
        lemma_address_position(items, items.len() - 1);
    }
}

proof fn lemma_address_position(items: Seq<u32>, i: int)
    requires
        ascending(items),
        0 <= i < items.len(),
    ensures
        i <= items[i],
    decreases i,
{
    if i > 0 {
        lemma_address_position(items, i - 1);
        assert(items[i - 1].before(items[i]));
    }
}

/// A map from addresses, kept in ascending order of its keys.
#[derive(Debug)]
pub struct AddressMap<V> {
    pub keys: Vec<u32>,
    pub values: Vec<V>,
}

impl<V> View for AddressMap<V> {
    type V = Map<u32, V>;

    open spec fn view(&self) -> Map<u32, V> {
        Map::new(
            |key: u32| self.keys@.contains(key),
            |key: u32| self.values@[self.keys@.index_of(key)],
        )
    }
}

impl<V> AddressMap<V> {
    /// One value per key, the keys in strictly ascending order.
    pub open spec fn wf(&self) -> bool {
        &&& self.keys@.len() == self.values@.len()
        &&& ascending(self.keys@)
    }

    /// The entry at a position is the map's value for its key.
    pub proof fn lemma_entry(&self, i: int)
        requires
            self.wf(),
            0 <= i < self.keys@.len(),
        ensures
            self@.dom().contains(self.keys@[i]),
            self@[self.keys@[i]] == self.values@[i],
    {
        assert(self.keys@.contains(self.keys@[i]));
        let k = self.keys@.index_of(self.keys@[i]);
        assert(self.keys@[k] == self.keys@[i]);
        if k < i {
            assert(self.keys@[k].before(self.keys@[i]));
        } else if i < k {
            assert(self.keys@[i].before(self.keys@[k]));
        }
    }

    /// Every key stands at some position.
    pub proof fn lemma_position(&self, key: u32) -> (i: int)
        requires
            self.wf(),
            self@.dom().contains(key),
        ensures
            0 <= i < self.keys@.len(),
            self.keys@[i] == key,
            self.values@[i] == self@[key],
    {
        let i = self.keys@.index_of(key);
        self.lemma_entry(i);
        i
    }

    /// There are as many keys as the map has.
    pub proof fn lemma_len(self)
        requires
            self.wf(),
        ensures
            self@.dom().finite(),
            self@.dom().len() == self.keys@.len(),
            self.keys@.len() <= 0x1_0000_0000,
    {
        assert(self@.dom() =~= self.keys@.to_set());
        assert forall|i: int, j: int|
            0 <= i < self.keys@.len() && 0 <= j < self.keys@.len() && i != j implies self.keys@[i]
            != self.keys@[j] by {
            if i < j {
                assert(self.keys@[i].before(self.keys@[j]));
            } else {
                assert(self.keys@[j].before(self.keys@[i]));
            }
        }
        self.keys@.unique_seq_to_set();
        lemma_address_count(self.keys@);
    }

    /// Replacing the value at a position replaces the value of its key.
    pub proof fn lemma_replaced(self, after: Self, i: int)
        requires
            self.wf(),
            0 <= i < self.keys@.len(),
            after.keys@ == self.keys@,
            after.values@ == self.values@.update(i, after.values@[i]),
        ensures
            after.wf(),
            after@ == self@.insert(self.keys@[i], after.values@[i]),
    {
        self.lemma_entry(i);
        after.lemma_entry(i);
        assert forall|key: u32| #[trigger] after@.dom().contains(key) implies after@[key]
            == self@.insert(self.keys@[i], after.values@[i])[key] by {
            let k = after.lemma_position(key);
            self.lemma_entry(k);
        }
        assert(after@.dom() =~= self@.insert(self.keys@[i], after.values@[i]).dom());
        assert(after@ =~= self@.insert(self.keys@[i], after.values@[i]));
    }

    /// An empty map.
    pub fn new() -> (r: Self)
        ensures
            r.wf(),
            r@ == Map::<u32, V>::empty(),
            r.keys@ == Seq::<u32>::empty(),
            r.values@ == Seq::<V>::empty(),
    {
        let r = AddressMap { keys: Vec::new(), values: Vec::new() };
        assert(r@ =~= Map::<u32, V>::empty());
        r
    }

    /// How many keys there are.
    pub fn len(&self) -> (r: usize)
        ensures
            r == self.keys@.len(),
    {
        self.keys.len()
    }

    /// Whether there is no key.
    pub fn is_empty(&self) -> (r: bool)
        ensures
            r == (self.keys@.len() == 0),
            r == (self@.dom() == Set::<u32>::empty()),
    {
        if self.keys.len() == 0 {
            assert(self@.dom() =~= Set::<u32>::empty());
            true
        } else {
            assert(self@.dom().contains(self.keys@[0]));
            false
        }
    }

    /// The number of keys below `key`.
    pub fn rank(&self, key: u32) -> (r: usize)
        requires
            self.wf(),
        ensures
            r <= self.keys@.len(),
            forall|i: int| 0 <= i < r ==> #[trigger] self.keys@[i] < key,
            forall|i: int| r <= i < self.keys@.len() ==> #[trigger] self.keys@[i] >= key,
    {
        let mut low: usize = 0;
        let mut high: usize = self.keys.len();
        while low < high
            invariant
                self.wf(),
                low <= high <= self.keys@.len(),
                forall|i: int| 0 <= i < low ==> #[trigger] self.keys@[i] < key,
                forall|i: int| high <= i < self.keys@.len() ==> #[trigger] self.keys@[i] >= key,
            decreases high - low,
        {
            let middle: usize = low + (high - low) / 2;
            if self.keys[middle] < key {
                assert forall|i: int| 0 <= i < middle + 1 implies #[trigger] self.keys@[i]
                    < key by {
                    if i < middle {
                        assert(self.keys@[i].before(self.keys@[middle as int]));
                    }
                }
                low = middle + 1;
            } else {
                assert forall|i: int| middle <= i < self.keys@.len() implies #[trigger] self.keys@[i]
                    >= key by {
                    if i > middle {
                        assert(self.keys@[middle as int].before(self.keys@[i]));
                    }
                }
                high = middle;
            }
        }
        low
    }

    /// The position of `key`.
    pub fn find(&self, key: u32) -> (r: Option<usize>)
        requires
            self.wf(),
        ensures
            match r {
                Some(i) => {
                    &&& i < self.keys@.len()
                    &&& self.keys@[i as int] == key
                    &&& self@.dom().contains(key)
                    &&& self@[key] == self.values@[i as int]
                },
                None => !self@.dom().contains(key),
            },
    {
        let at: usize = self.rank(key);
        if at < self.keys.len() && self.keys[at] == key {
            proof {
                self.lemma_entry(at as int);
            }
            Some(at)
        } else {
            assert(!self@.dom().contains(key)) by {
                if self.keys@.contains(key) {
                    let i = choose|i: int| 0 <= i < self.keys@.len() && self.keys@[i] == key;
                    assert(i >= at);
                    if i > at {
                        assert(self.keys@[at as int].before(self.keys@[i]));
                    }
                }
            }
            None
        }
    }

    /// The value of `key`.
    pub fn get(&self, key: u32) -> (r: Option<&V>)
        requires
            self.wf(),
        ensures
            match r {
                Some(value) => self@.dom().contains(key) && *value == self@[key],
                None => !self@.dom().contains(key),
            },
    {
        match self.find(key) {
            Some(i) => Some(&self.values[i]),
            None => None,
        }
    }

    /// Whether `key` has a value.
    pub fn contains_key(&self, key: u32) -> (r: bool)
        requires
            self.wf(),
        ensures
            r == self@.dom().contains(key),
    {
        match self.find(key) {
            Some(_) => true,
            None => false,
        }
    }

    /// Give `key` the value `value`, in place of the one it had.
    pub fn insert(&mut self, key: u32, value: V)
        requires
            old(self).wf(),
        ensures
            final(self).wf(),
            final(self)@ == old(self)@.insert(key, value),
            old(self)@.dom().contains(key) ==> final(self).keys@ == old(self).keys@,
    {
        let at: usize = self.rank(key);
        let ghost keys = self.keys@;
        let ghost values = self.values@;
        if at < self.keys.len() && self.keys[at] == key {
            self.values.set(at, value);
            proof {
                old(self).lemma_entry(at as int);
                assert(self@.dom() =~= old(self)@.insert(key, value).dom());
                assert forall|k: u32| self@.dom().contains(k) implies self@[k] == old(self)@.insert(
                    key,
                    value,
                )[k] by {
                    let i = self.lemma_position(k);
                    old(self).lemma_entry(i);
                    if i != at {
                        if i < at {
                            assert(keys[i].before(keys[at as int]));
                        } else {
                            assert(keys[at as int].before(keys[i]));
                        }
                    }
                }
                assert(self@ =~= old(self)@.insert(key, value));
            }
        } else {
            self.keys.insert(at, key);
            self.values.insert(at, value);
            proof {
                let after = self.keys@;
                assert(after =~= keys.insert(at as int, key));
                assert(self.values@ =~= values.insert(at as int, value));
                assert forall|i: int, j: int|
                    #![trigger after[i], after[j]]
                    0 <= i < j < after.len() implies after[i].before(after[j]) by {
                    if j == at {
                        assert(after[i] == keys[i]);
                    } else if i == at {
                        assert(after[j] == keys[j - 1]);
                        if j - 1 > at {
                            assert(keys[at as int].before(keys[j - 1]));
                        }
                    } else {
                        let from = if i < at {
                            i
                        } else {
                            i - 1
                        };
                        let to = if j < at {
                            j
                        } else {
                            j - 1
                        };
                        assert(after[i] == keys[from] && after[j] == keys[to]);
                    }
                }
                assert forall|k: u32| after.contains(k) == (keys.contains(k) || k == key) by {
                    if after.contains(k) {
                        let i = choose|i: int| 0 <= i < after.len() && after[i] == k;
                        if i < at {
                            assert(keys[i] == k);
                        } else if i > at {
                            assert(keys[i - 1] == k);
                        }
                    }
                    if keys.contains(k) {
                        let i = choose|i: int| 0 <= i < keys.len() && keys[i] == k;
                        if i < at {
                            assert(after[i] == k);
                        } else {
                            assert(after[i + 1] == k);
                        }
                    }
                    assert(after[at as int] == key);
                }
                assert(!keys.contains(key)) by {
                    if keys.contains(key) {
                        let i = choose|i: int| 0 <= i < keys.len() && keys[i] == key;
                        if i > at {
                            assert(keys[at as int].before(keys[i]));
                        }
                    }
                }
                assert(self@.dom() =~= old(self)@.insert(key, value).dom());
                assert forall|k: u32| self@.dom().contains(k) implies self@[k] == old(self)@.insert(
                    key,
                    value,
                )[k] by {
                    let i = self.lemma_position(k);
                    if i < at {
                        old(self).lemma_entry(i);
                    } else if i > at {
                        old(self).lemma_entry(i - 1);
                    }
                }
                assert(self@ =~= old(self)@.insert(key, value));
            }
        }
    }

    /// Forget `key`.
    pub fn remove(&mut self, key: u32)
        requires
            old(self).wf(),
        ensures
            final(self).wf(),
            final(self)@ == old(self)@.remove(key),
    {
        match self.find(key) {
            None => {
                assert(old(self)@ =~= old(self)@.remove(key));
            },
            Some(at) => {
                let ghost keys = self.keys@;
                let ghost values = self.values@;
                self.keys.remove(at);
                self.values.remove(at);
                proof {
                    let after = self.keys@;
                    assert(after =~= keys.remove(at as int));
                    assert(self.values@ =~= values.remove(at as int));
                    assert forall|i: int, j: int|
                        #![trigger after[i], after[j]]
                        0 <= i < j < after.len() implies after[i].before(after[j]) by {
                        let from = if i < at {
                            i
                        } else {
                            i + 1
                        };
                        let to = if j < at {
                            j
                        } else {
                            j + 1
                        };
                        assert(after[i] == keys[from] && after[j] == keys[to]);
                    }
                    assert forall|k: u32| after.contains(k) == (keys.contains(k) && k != key) by {
                        if after.contains(k) {
                            let i = choose|i: int| 0 <= i < after.len() && after[i] == k;
                            if i < at {
                                assert(keys[i] == k);
                                assert(keys[i].before(keys[at as int]));
                            } else {
                                assert(keys[i + 1] == k);
                                assert(keys[at as int].before(keys[i + 1]));
                            }
                        }
                        if keys.contains(k) && k != key {
                            let i = choose|i: int| 0 <= i < keys.len() && keys[i] == k;
                            if i < at {
                                assert(after[i] == k);
                            } else {
                                assert(after[i - 1] == k);
                            }
                        }
                    }
                    assert(self@.dom() =~= old(self)@.remove(key).dom());
                    assert forall|k: u32| self@.dom().contains(k) implies self@[k] == old(self)@.remove(key)[k] by {
                        let i = self.lemma_position(k);
                        if i < at {
                            old(self).lemma_entry(i);
                        } else {
                            old(self).lemma_entry(i + 1);
                        }
                    }
                    assert(self@ =~= old(self)@.remove(key));
                }
            },
        }
    }
}

} // verus!
