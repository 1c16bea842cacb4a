//! A vector that keeps its items in ascending order of their keys and holds
//! no two items with the same key.
//!
//! It stands in for an ordered set (the key is the whole item) and for an
//! ordered map (the key is a part of the item). What it lists, and in which
//! order, depends only on the items it was given, never on the order in which
//! they came.

use vstd::prelude::*;

verus! {

/// An item that is found by a key, with a strict total order on the keys.
pub trait Keyed: Sized {
    /// What an item is found by.
    type Key;

    /// The key of this item.
    spec fn key(&self) -> Self::Key;

    /// Key `a` comes strictly before key `b`.
    spec fn key_lt(a: Self::Key, b: Self::Key) -> bool;

    /// No key comes before itself.
    proof fn lemma_key_lt_irreflexive(a: Self::Key)
        ensures
            !Self::key_lt(a, a),
    ;

    /// The order on keys is transitive.
    proof fn lemma_key_lt_transitive(a: Self::Key, b: Self::Key, c: Self::Key)
        requires
            Self::key_lt(a, b),
            Self::key_lt(b, c),
        ensures
            Self::key_lt(a, c),
    ;

    /// Two different keys are ordered one way or the other.
    proof fn lemma_key_lt_connected(a: Self::Key, b: Self::Key)
        ensures
            a == b || Self::key_lt(a, b) || Self::key_lt(b, a),
    ;

    /// Whether this item's key comes strictly before the other's.
    fn precedes(&self, other: &Self) -> (r: bool)
        ensures
            r == Self::key_lt(self.key(), other.key()),
    ;

    /// Whether both items have the same key.
    fn same_key(&self, other: &Self) -> (r: bool)
        ensures
            r == (self.key() == other.key()),
    ;
}

/// The keys of `s` ascend strictly.
pub open spec fn ascending<T: Keyed>(s: Seq<T>) -> bool {
    forall|i: int, j: int|
        0 <= i < j < s.len() ==> T::key_lt(#[trigger] s[i].key(), #[trigger] s[j].key())
}

/// Some item of `s` has the key `k`.
pub open spec fn has_key<T: Keyed>(s: Seq<T>, k: T::Key) -> bool {
    exists|i: int| 0 <= i < s.len() && #[trigger] s[i].key() == k
}

/// The item of `s` that has the key `k`.
pub open spec fn item_of<T: Keyed>(s: Seq<T>, k: T::Key) -> T {
    s[choose|i: int| 0 <= i < s.len() && #[trigger] s[i].key() == k]
}

/// What `s` holds, without its order: each key with its item.
pub open spec fn to_map<T: Keyed>(s: Seq<T>) -> Map<T::Key, T> {
    Map::new(|k: T::Key| has_key(s, k), |k: T::Key| item_of(s, k))
}

/// In an ascending sequence each item is the one found by its key.
pub proof fn lemma_item_of<T: Keyed>(s: Seq<T>, i: int)
    requires
        ascending(s),
        0 <= i < s.len(),
    ensures
        has_key(s, s[i].key()),
        item_of(s, s[i].key()) == s[i],
{
    let k = s[i].key();
    let j = choose|j: int| 0 <= j < s.len() && #[trigger] s[j].key() == k;
    T::lemma_key_lt_irreflexive(k);
    if j < i {
        assert(T::key_lt(s[j].key(), s[i].key()));
    } else if i < j {
        assert(T::key_lt(s[i].key(), s[j].key()));
    }
}

/// Putting an item in the place of one with the same key.
pub proof fn lemma_to_map_update<T: Keyed>(s: Seq<T>, i: int, item: T)
    requires
        ascending(s),
        0 <= i < s.len(),
        s[i].key() == item.key(),
    ensures
        ascending(s.update(i, item)),
        has_key(s, item.key()),
        to_map(s.update(i, item)) == to_map(s).insert(item.key(), item),
{
    let t = s.update(i, item);
    assert(ascending(t)) by {
        assert forall|a: int, b: int| 0 <= a < b < t.len() implies T::key_lt(
            #[trigger] t[a].key(),
            #[trigger] t[b].key(),
        ) by {
            assert(T::key_lt(s[a].key(), s[b].key()));
        }
    }
    assert forall|k: T::Key| has_key(t, k) == (k == item.key() || has_key(s, k)) by {
        if has_key(t, k) {
            let j = choose|j: int| 0 <= j < t.len() && #[trigger] t[j].key() == k;
            assert(s[j].key() == k);
        }
        if has_key(s, k) {
            let j = choose|j: int| 0 <= j < s.len() && #[trigger] s[j].key() == k;
            assert(t[j].key() == k);
        }
        if k == item.key() {
            assert(t[i].key() == k);
        }
    }
    assert(s[i].key() == item.key());
    assert forall|k: T::Key| has_key(t, k) implies item_of(t, k) == (if k == item.key() {
        item
    } else {
        item_of(s, k)
    }) by {
        let j = choose|j: int| 0 <= j < t.len() && #[trigger] t[j].key() == k;
        lemma_item_of(t, j);
        if j != i {
            assert(s[j].key() == k);
            lemma_item_of(s, j);
            T::lemma_key_lt_irreflexive(k);
            if j < i {
                assert(T::key_lt(s[j].key(), s[i].key()));
            } else {
                assert(T::key_lt(s[i].key(), s[j].key()));
            }
        }
    }
    assert(to_map(t) =~= to_map(s).insert(item.key(), item));
}

/// Putting an item with a new key at its place in the order.
pub proof fn lemma_to_map_insert<T: Keyed>(s: Seq<T>, i: int, item: T)
    requires
        ascending(s),
        0 <= i <= s.len(),
        forall|j: int| 0 <= j < i ==> T::key_lt(#[trigger] s[j].key(), item.key()),
        forall|j: int| i <= j < s.len() ==> T::key_lt(item.key(), #[trigger] s[j].key()),
    ensures
        ascending(s.insert(i, item)),
        !has_key(s, item.key()),
        to_map(s.insert(i, item)) == to_map(s).insert(item.key(), item),
{
    let t = s.insert(i, item);
    assert(ascending(t)) by {
        assert forall|a: int, b: int| 0 <= a < b < t.len() implies T::key_lt(
            #[trigger] t[a].key(),
            #[trigger] t[b].key(),
        ) by {
            if a < i && b > i {
                assert(T::key_lt(s[a].key(), s[b - 1].key()));
            } else if a < i && b < i {
                assert(T::key_lt(s[a].key(), s[b].key()));
            } else if a > i {
                assert(T::key_lt(s[a - 1].key(), s[b - 1].key()));
            } else if a == i {
                assert(T::key_lt(item.key(), s[b - 1].key()));
            } else {
                assert(T::key_lt(s[a].key(), item.key()));
            }
        }
    }
    T::lemma_key_lt_irreflexive(item.key());
    assert(!has_key(s, item.key())) by {
        if has_key(s, item.key()) {
            let j = choose|j: int| 0 <= j < s.len() && #[trigger] s[j].key() == item.key();
            if j < i {
                assert(T::key_lt(s[j].key(), item.key()));
            } else {
                assert(T::key_lt(item.key(), s[j].key()));
            }
        }
    }
    assert forall|k: T::Key| has_key(t, k) == (k == item.key() || has_key(s, k)) by {
        if has_key(t, k) {
            let j = choose|j: int| 0 <= j < t.len() && #[trigger] t[j].key() == k;
            if j < i {
                assert(s[j].key() == k);
            } else if j > i {
                assert(s[j - 1].key() == k);
            }
        }
        if has_key(s, k) {
            let j = choose|j: int| 0 <= j < s.len() && #[trigger] s[j].key() == k;
            if j < i {
                assert(t[j].key() == k);
            } else {
                assert(t[j + 1].key() == k);
            }
        }
        if k == item.key() {
            assert(t[i].key() == k);
        }
    }
    assert forall|k: T::Key| has_key(t, k) implies item_of(t, k) == (if k == item.key() {
        item
    } else {
        item_of(s, k)
    }) by {
        let j = choose|j: int| 0 <= j < t.len() && #[trigger] t[j].key() == k;
        lemma_item_of(t, j);
        if j < i {
            assert(s[j].key() == k);
            lemma_item_of(s, j);
        } else if j > i {
            assert(s[j - 1].key() == k);
            lemma_item_of(s, j - 1);
        }
    }
    assert(to_map(t) =~= to_map(s).insert(item.key(), item));
}

/// Taking an item out.
pub proof fn lemma_to_map_remove<T: Keyed>(s: Seq<T>, i: int)
    requires
        ascending(s),
        0 <= i < s.len(),
    ensures
        ascending(s.remove(i)),
        to_map(s.remove(i)) == to_map(s).remove(s[i].key()),
{
    let t = s.remove(i);
    let gone = s[i].key();
    assert(ascending(t)) by {
        assert forall|a: int, b: int| 0 <= a < b < t.len() implies T::key_lt(
            #[trigger] t[a].key(),
            #[trigger] t[b].key(),
        ) by {
            let a0 = if a < i { a } else { a + 1 };
            let b0 = if b < i { b } else { b + 1 };
            assert(T::key_lt(s[a0].key(), s[b0].key()));
        }
    }
    T::lemma_key_lt_irreflexive(gone);
    assert forall|k: T::Key| has_key(t, k) == (k != gone && has_key(s, k)) by {
        if has_key(t, k) {
            let j = choose|j: int| 0 <= j < t.len() && #[trigger] t[j].key() == k;
            let j0 = if j < i { j } else { j + 1 };
            assert(s[j0].key() == k);
            if j0 < i {
                assert(T::key_lt(s[j0].key(), s[i].key()));
            } else {
                assert(T::key_lt(s[i].key(), s[j0].key()));
            }
        }
        if k != gone && has_key(s, k) {
            let j = choose|j: int| 0 <= j < s.len() && #[trigger] s[j].key() == k;
            if j < i {
                assert(t[j].key() == k);
            } else {
                assert(t[j - 1].key() == k);
            }
        }
    }
    assert forall|k: T::Key| has_key(t, k) implies item_of(t, k) == item_of(s, k) by {
        let j = choose|j: int| 0 <= j < t.len() && #[trigger] t[j].key() == k;
        lemma_item_of(t, j);
        let j0 = if j < i { j } else { j + 1 };
        assert(s[j0].key() == k);
        lemma_item_of(s, j0);
    }
    assert(to_map(t) =~= to_map(s).remove(gone));
}

/// `lt` is a strict order: nothing comes before itself, and what comes
/// before something that comes before a third comes before the third.
pub open spec fn strict_order<K>(lt: spec_fn(K, K) -> bool) -> bool {
    &&& forall|a: K| !#[trigger] lt(a, a)
    &&& forall|a: K, b: K, c: K| #[trigger] lt(a, b) && #[trigger] lt(b, c) ==> lt(a, c)
}

/// The items of `s` ascend strictly by what `key` takes from them, in the
/// order `lt`.
pub open spec fn ascends<A, K>(s: Seq<A>, key: spec_fn(A) -> K, lt: spec_fn(K, K) -> bool) -> bool {
    forall|i: int, j: int|
        0 <= i < j < s.len() ==> lt(key(#[trigger] s[i]), key(#[trigger] s[j]))
}

/// Two ascending sequences of the same items are the same sequence: what is
/// listed decides the order of the listing.
pub proof fn lemma_ascending_unique<A, K>(
    s1: Seq<A>,
    s2: Seq<A>,
    key: spec_fn(A) -> K,
    lt: spec_fn(K, K) -> bool,
)
    requires
        strict_order(lt),
        ascends(s1, key, lt),
        ascends(s2, key, lt),
        forall|a: A| s1.contains(a) == s2.contains(a),
    ensures
        s1 == s2,
    decreases s1.len(),
{
    if s1.len() == 0 {
        if s2.len() > 0 {
            assert(s2.contains(s2[0]));
            assert(s1.contains(s2[0]));
        }
        assert(s1 =~= s2);
    } else {
        let n1 = s1.len() - 1;
        let top = s1[n1];
        assert(s1.contains(top));
        assert(s2.contains(top));
        let n2 = s2.len() - 1;
        let j = choose|j: int| 0 <= j < s2.len() && s2[j] == top;
        if j < n2 {
            let over = s2[n2];
            assert(lt(key(s2[j]), key(s2[n2])));
            assert(s2.contains(over));
            assert(s1.contains(over));
            let i = choose|i: int| 0 <= i < s1.len() && s1[i] == over;
            if i < n1 {
                assert(lt(key(s1[i]), key(s1[n1])));
            }
            assert(lt(key(top), key(top)));
        }
        assert(s2[n2] == top);
        let t1 = s1.drop_last();
        let t2 = s2.drop_last();
        assert forall|a: A| t1.contains(a) == t2.contains(a) by {
            if t1.contains(a) {
                let i = choose|i: int| 0 <= i < t1.len() && t1[i] == a;
                assert(s1[i] == a);
                assert(lt(key(s1[i]), key(s1[n1])));
                assert(s1.contains(a));
                assert(s2.contains(a));
                let m = choose|m: int| 0 <= m < s2.len() && s2[m] == a;
                assert(m != n2);
                assert(t2[m] == a);
            }
            if t2.contains(a) {
                let i = choose|i: int| 0 <= i < t2.len() && t2[i] == a;
                assert(s2[i] == a);
                assert(lt(key(s2[i]), key(s2[n2])));
                assert(s2.contains(a));
                assert(s1.contains(a));
                let m = choose|m: int| 0 <= m < s1.len() && s1[m] == a;
                assert(m != n1);
                assert(t1[m] == a);
            }
        }
        assert(ascends(t1, key, lt)) by {
            assert forall|x: int, y: int| 0 <= x < y < t1.len() implies lt(
                key(#[trigger] t1[x]),
                key(#[trigger] t1[y]),
            ) by {
                assert(lt(key(s1[x]), key(s1[y])));
            }
        }
        assert(ascends(t2, key, lt)) by {
            assert forall|x: int, y: int| 0 <= x < y < t2.len() implies lt(
                key(#[trigger] t2[x]),
                key(#[trigger] t2[y]),
            ) by {
                assert(lt(key(s2[x]), key(s2[y])));
            }
        }
        lemma_ascending_unique(t1, t2, key, lt);
        assert(s1 =~= t1.push(top));
        assert(s2 =~= t2.push(top));
    }
}

/// Two ascending sequences that hold the same items under the same keys are
/// the same sequence.
pub proof fn lemma_listing_determined<T: Keyed>(s1: Seq<T>, s2: Seq<T>)
    requires
        ascending(s1),
        ascending(s2),
        to_map(s1) == to_map(s2),
    ensures
        s1 == s2,
{
    let key = |item: T| item.key();
    let lt = |a: T::Key, b: T::Key| T::key_lt(a, b);
    assert(strict_order(lt)) by {
        assert forall|a: T::Key| !#[trigger] lt(a, a) by {
            T::lemma_key_lt_irreflexive(a);
        }
        assert forall|a: T::Key, b: T::Key, c: T::Key| #[trigger]
            lt(a, b) && #[trigger] lt(b, c) implies lt(a, c) by {
            T::lemma_key_lt_transitive(a, b, c);
        }
    }
    assert forall|a: T| s1.contains(a) == s2.contains(a) by {
        if s1.contains(a) {
            let i = choose|i: int| 0 <= i < s1.len() && s1[i] == a;
            lemma_item_of(s1, i);
            assert(to_map(s1)[a.key()] == a);
            assert(to_map(s2).contains_key(a.key()));
            let j = choose|j: int| 0 <= j < s2.len() && #[trigger] s2[j].key() == a.key();
            assert(s2[j] == a);
        }
        if s2.contains(a) {
            let i = choose|i: int| 0 <= i < s2.len() && s2[i] == a;
            lemma_item_of(s2, i);
            assert(to_map(s2)[a.key()] == a);
            assert(to_map(s1).contains_key(a.key()));
            let j = choose|j: int| 0 <= j < s1.len() && #[trigger] s1[j].key() == a.key();
            assert(s1[j] == a);
        }
    }
    assert(ascends(s1, key, lt));
    assert(ascends(s2, key, lt));
    lemma_ascending_unique(s1, s2, key, lt);
}

/// Items in ascending order of their keys, no key twice.
#[derive(Debug)]
pub struct SortedVec<T: Keyed> {
    items: Vec<T>,
}

impl<T: Keyed> View for SortedVec<T> {
    type V = Seq<T>;

    /// The items, in order.
    closed spec fn view(&self) -> Seq<T> {
        self.items@
    }
}

impl<T: Keyed> SortedVec<T> {
    #[verifier::type_invariant]
    spec fn in_order(&self) -> bool {
        ascending(self.items@)
    }

    /// A vector with no items.
    pub fn new() -> (r: Self)
        ensures
            r@ == Seq::<T>::empty(),
    {
        SortedVec { items: Vec::new() }
    }

    /// States that the items ascend, which holds of every such vector.
    pub fn ordered(&self)
        ensures
            ascending(self@),
    {
        proof {
            use_type_invariant(self);
        }
    }

    /// The number of items.
    pub fn len(&self) -> (n: usize)
        ensures
            n == self@.len(),
    {
        self.items.len()
    }

    /// The item at place `i` of the order, if there are more than `i` items.
    pub fn get(&self, i: usize) -> (r: Option<&T>)
        ensures
            r == if i < self@.len() {
                Some(&self@[i as int])
            } else {
                None
            },
    {
        if i < self.items.len() {
            Some(&self.items[i])
        } else {
            None
        }
    }

    /// The place of the item that has the key of `probe`, if there is one.
    pub fn position(&self, probe: &T) -> (r: Option<usize>)
        ensures
            match r {
                Some(i) => i < self@.len() && self@[i as int].key() == probe.key(),
                None => !has_key(self@, probe.key()),
            },
    {
        let n = self.items.len();
        let mut i: usize = 0;
        while i < n
            invariant
                n == self.items@.len(),
                i <= n,
                forall|j: int| 0 <= j < i ==> self.items@[j].key() != probe.key(),
            decreases n - i,
        {
            if self.items[i].same_key(probe) {
                return Some(i);
            }
            i += 1;
        }
        None
    }

    /// Puts `item` at its place in the order. An item with the same key gives
    /// way to it. Returns whether the key is new.
    pub fn insert(&mut self, item: T) -> (fresh: bool)
        ensures
            ascending(final(self)@),
            to_map(final(self)@) == to_map(old(self)@).insert(item.key(), item),
            fresh == !has_key(old(self)@, item.key()),
            final(self)@.len() == old(self)@.len() + if fresh {
                1int
            } else {
                0int
            },
    {
        proof {
            use_type_invariant(&*self);
        }
        let mut items: Vec<T> = Vec::new();
        core::mem::swap(&mut items, &mut self.items);
        let n = items.len();
        let mut i: usize = 0;
        while i < n && items[i].precedes(&item)
            invariant
                n == items@.len(),
                i <= n,
                forall|j: int| 0 <= j < i ==> T::key_lt(#[trigger] items@[j].key(), item.key()),
            decreases n - i,
        {
            i += 1;
        }
        let fresh = !(i < n && items[i].same_key(&item));
        if fresh {
            proof {
                let s = items@;
                assert forall|j: int| i <= j < s.len() implies T::key_lt(
                    item.key(),
                    #[trigger] s[j].key(),
                ) by {
                    T::lemma_key_lt_connected(item.key(), s[i as int].key());
                    if j > i {
                        assert(T::key_lt(s[i as int].key(), s[j].key()));
                        T::lemma_key_lt_transitive(item.key(), s[i as int].key(), s[j].key());
                    }
                }
                lemma_to_map_insert(s, i as int, item);
            }
            items.insert(i, item);
        } else {
            proof {
                lemma_to_map_update(items@, i as int, item);
            }
            items[i] = item;
        }
        self.items = items;
        fresh
    }

    /// Takes out the item at place `i` of the order, if there are more than
    /// `i` items.
    pub fn remove_at(&mut self, i: usize) -> (r: Option<T>)
        ensures
            ascending(final(self)@),
            match r {
                Some(item) => i < old(self)@.len() && item == old(self)@[i as int] && final(self)@
                    == old(self)@.remove(i as int),
                None => i >= old(self)@.len() && final(self)@ == old(self)@,
            },
    {
        proof {
            use_type_invariant(&*self);
        }
        if i < self.items.len() {
            let mut items: Vec<T> = Vec::new();
            core::mem::swap(&mut items, &mut self.items);
            proof {
                lemma_to_map_remove(items@, i as int);
            }
            let item = items.remove(i);
            self.items = items;
            Some(item)
        } else {
            None
        }
    }
}

} // verus!
