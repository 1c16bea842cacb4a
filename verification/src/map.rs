//! A map from names to values, listed in ascending order of the names.

use crate::sorted::{
    ascending, has_key, item_of, lemma_item_of, lemma_to_map_insert, lemma_to_map_remove,
    to_map, Keyed, SortedVec,
};
use crate::text::{
    lemma_str_lt_connected, lemma_str_lt_irreflexive, lemma_str_lt_transitive, str_less, str_lt,
    str_same,
};
use vstd::prelude::*;

verus! {

/// A name with the value that belongs to it.
#[derive(Debug)]
pub struct Slot<V> {
    pub name: String,
    pub value: V,
}

impl<V> Keyed for Slot<V> {
    type Key = Seq<char>;

    open spec fn key(&self) -> Seq<char> {
        self.name@
    }

    open spec fn key_lt(a: Seq<char>, b: Seq<char>) -> bool {
        str_lt(a, b)
    }

    proof fn lemma_key_lt_irreflexive(a: Seq<char>) {
        lemma_str_lt_irreflexive(a);
    }

    proof fn lemma_key_lt_transitive(a: Seq<char>, b: Seq<char>, c: Seq<char>) {
        lemma_str_lt_transitive(a, b, c);
    }

    proof fn lemma_key_lt_connected(a: Seq<char>, b: Seq<char>) {
        lemma_str_lt_connected(a, b);
    }

    fn precedes(&self, other: &Self) -> (r: bool) {
        str_less(self.name.as_str(), other.name.as_str())
    }

    fn same_key(&self, other: &Self) -> (r: bool) {
        self.name == other.name
    }
}

/// What a listing of slots maps each name to.
pub open spec fn slot_map<V>(s: Seq<Slot<V>>) -> Map<Seq<char>, V> {
    Map::new(|k: Seq<char>| has_key(s, k), |k: Seq<char>| item_of(s, k).value)
}

/// In an ascending listing each slot's name is mapped to that slot's value.
pub proof fn lemma_slot_map_at<V>(s: Seq<Slot<V>>, i: int)
    requires
        ascending(s),
        0 <= i < s.len(),
    ensures
        slot_map(s).contains_key(s[i].name@),
        slot_map(s)[s[i].name@] == s[i].value,
{
    lemma_item_of(s, i);
}

/// The map of a listing, from the map of its items.
pub proof fn lemma_slot_map_values<V>(s: Seq<Slot<V>>)
    ensures
        slot_map(s) == to_map(s).map_values(|slot: Slot<V>| slot.value),
{
    assert(slot_map(s) =~= to_map(s).map_values(|slot: Slot<V>| slot.value));
}

/// The map of the first `i + 1` slots of an ascending listing is the map of
/// the first `i` with one new name.
pub proof fn lemma_slot_map_take<V>(s: Seq<Slot<V>>, i: int)
    requires
        ascending(s),
        0 <= i < s.len(),
    ensures
        !slot_map(s.take(i)).contains_key(s[i].name@),
        slot_map(s.take(i + 1)) == slot_map(s.take(i)).insert(s[i].name@, s[i].value),
{
    let head = s.take(i);
    assert(ascending(head)) by {
        assert forall|a: int, b: int| 0 <= a < b < head.len() implies str_lt(
            #[trigger] head[a].key(),
            #[trigger] head[b].key(),
        ) by {
            assert(str_lt(s[a].key(), s[b].key()));
        }
    }
    assert forall|j: int| 0 <= j < i implies str_lt(#[trigger] head[j].key(), s[i].key()) by {
        assert(str_lt(s[j].key(), s[i].key()));
    }
    lemma_to_map_insert(head, i, s[i]);
    assert(head.insert(i, s[i]) =~= s.take(i + 1));
    lemma_slot_map_values(head);
    lemma_slot_map_values(s.take(i + 1));
    assert(slot_map(s.take(i + 1)) =~= slot_map(head).insert(s[i].name@, s[i].value));
}

/// Mapping the values of a map with one more entry: the mapped map with the
/// mapped entry.
pub proof fn lemma_map_values_insert<K, V, W>(m: Map<K, V>, f: spec_fn(V) -> W, k: K, v: V)
    ensures
        m.insert(k, v).map_values(f) == m.map_values(f).insert(k, f(v)),
{
    assert(m.insert(k, v).map_values(f) =~= m.map_values(f).insert(k, f(v)));
}

/// Names with their values, no name twice, listed in ascending order of the
/// names.
#[derive(Debug)]
pub struct SortedMap<V> {
    slots: SortedVec<Slot<V>>,
}

impl<V> View for SortedMap<V> {
    type V = Map<Seq<char>, V>;

    /// Each name with its value.
    open spec fn view(&self) -> Map<Seq<char>, V> {
        slot_map(self.slots())
    }
}

impl<V> SortedMap<V> {
    /// The slots in the order in which the map lists them.
    pub closed spec fn slots(&self) -> Seq<Slot<V>> {
        self.slots@
    }

    /// A map with no names.
    pub fn new() -> (r: Self)
        ensures
            r.slots() == Seq::<Slot<V>>::empty(),
            r@ == Map::<Seq<char>, V>::empty(),
    {
        let r = SortedMap { slots: SortedVec::new() };
        assert(r@ =~= Map::<Seq<char>, V>::empty());
        r
    }

    /// States that the names ascend, which holds of every such map.
    pub fn ordered(&self)
        ensures
            ascending(self.slots()),
    {
        self.slots.ordered();
    }

    /// The number of names.
    pub fn len(&self) -> (n: usize)
        ensures
            n == self.slots().len(),
    {
        self.slots.len()
    }

    /// The slot at place `i` of the listing, if there are more than `i`.
    pub fn slot(&self, i: usize) -> (r: Option<&Slot<V>>)
        ensures
            r == if i < self.slots().len() {
                Some(&self.slots()[i as int])
            } else {
                None
            },
            r is Some ==> self@.contains_key(self.slots()[i as int].name@) && self@[self.slots()[i as int].name@]
                == self.slots()[i as int].value,
    {
        self.slots.ordered();
        let r = self.slots.get(i);
        proof {
            if r is Some {
                lemma_slot_map_at(self.slots(), i as int);
            }
        }
        r
    }

    /// The place of `name` in the listing, if the map holds it.
    pub fn position(&self, name: &str) -> (r: Option<usize>)
        ensures
            match r {
                Some(i) => i < self.slots().len() && self.slots()[i as int].name@ == name@,
                None => !self@.contains_key(name@),
            },
    {
        let n = self.slots.len();
        let mut i: usize = 0;
        while i < n
            invariant
                n == self.slots().len(),
                i <= n,
                forall|j: int| 0 <= j < i ==> self.slots()[j].name@ != name@,
            decreases n - i,
        {
            match self.slots.get(i) {
                Some(slot) => {
                    if str_same(slot.name.as_str(), name) {
                        return Some(i);
                    }
                },
                None => {},
            }
            i += 1;
        }
        None
    }

    /// Whether the map holds `name`.
    pub fn contains_key(&self, name: &str) -> (r: bool)
        ensures
            r == self@.contains_key(name@),
    {
        self.slots.ordered();
        match self.position(name) {
            Some(i) => {
                proof {
                    lemma_slot_map_at(self.slots(), i as int);
                }
                true
            },
            None => false,
        }
    }

    /// The value that belongs to `name`, if the map holds it.
    pub fn get(&self, name: &str) -> (r: Option<&V>)
        ensures
            r == if self@.contains_key(name@) {
                Some(&self@[name@])
            } else {
                None
            },
    {
        self.slots.ordered();
        match self.position(name) {
            Some(i) => {
                proof {
                    lemma_slot_map_at(self.slots(), i as int);
                }
                match self.slots.get(i) {
                    Some(slot) => Some(&slot.value),
                    None => None,
                }
            },
            None => None,
        }
    }

    /// Maps `name` to `value`, in place of the value it had if it had one.
    /// Returns whether the name is new.
    pub fn insert(&mut self, name: String, value: V) -> (fresh: bool)
        ensures
            final(self)@ == old(self)@.insert(name@, value),
            fresh == !old(self)@.contains_key(name@),
            ascending(final(self).slots()),
            final(self).slots().len() == old(self).slots().len() + if fresh {
                1int
            } else {
                0int
            },
    {
        let ghost before = self.slots();
        let slot = Slot { name, value };
        let fresh = self.slots.insert(slot);
        proof {
            lemma_slot_map_values(before);
            lemma_slot_map_values(self.slots());
            assert(self@ =~= old(self)@.insert(name@, value));
        }
        fresh
    }

    /// Takes `name` out of the map and returns the value it had, if the map
    /// held it.
    pub fn remove(&mut self, name: &str) -> (r: Option<V>)
        ensures
            final(self)@ == old(self)@.remove(name@),
            r == if old(self)@.contains_key(name@) {
                Some(old(self)@[name@])
            } else {
                None
            },
            ascending(final(self).slots()),
    {
        let ghost before = self.slots();
        self.slots.ordered();
        match self.position(name) {
            Some(i) => {
                proof {
                    lemma_slot_map_at(before, i as int);
                    lemma_to_map_remove(before, i as int);
                }
                match self.slots.remove_at(i) {
                    Some(slot) => {
                        proof {
                            lemma_slot_map_values(before);
                            lemma_slot_map_values(self.slots());
                            assert(self@ =~= old(self)@.remove(name@));
                        }
                        Some(slot.value)
                    },
                    None => None,
                }
            },
            None => {
                assert(self@ =~= old(self)@.remove(name@));
                None
            },
        }
    }
}

} // verus!
