//! A small map kept as a vector of `(key, value)` slots in which no key
//! occurs twice.
//!
//! The maps of this crate are keyed by protocols and by the names of
//! protocols. `vstd` specifies `std::collections::HashMap` only for keys whose
//! hashing it knows to agree with their equality, which it does for the
//! integer types and not for a `String` or an enum of one's own. So these
//! maps are tables, about which everything is proved here; the counts of a
//! vote, which are keyed by version numbers, stay in a `HashMap`.

use vstd::prelude::*;

verus! {

/// A key of a `Table`. Two keys are the same key when their `id`s are equal.
pub trait Key: Sized {
    /// What identifies the key.
    type Id;

    /// What identifies this key.
    spec fn id(&self) -> Self::Id;

    /// Whether `other` is the same key as this one.
    fn is(&self, other: &Self) -> (r: bool)
        ensures
            r == (self.id() == other.id()),
    ;

    /// A copy of this key.
    fn duplicate(&self) -> (r: Self)
        ensures
            r.id() == self.id(),
    ;
}

/// No two slots have the same key.
pub open spec fn distinct_keys<K: Key, V>(slots: Seq<(K, V)>) -> bool {
    forall|i: int, j: int| 0 <= i < j < slots.len() ==> slots[i].0.id() != slots[j].0.id()
}

/// Some slot has the key `id`.
pub open spec fn has_key<K: Key, V>(slots: Seq<(K, V)>, id: K::Id) -> bool {
    exists|i: int| 0 <= i < slots.len() && (#[trigger] slots[i]).0.id() == id
}

/// The map that the slots stand for: each key with its value. Where a key
/// occurs twice, the later slot counts.
pub open spec fn to_map<K: Key, V>(slots: Seq<(K, V)>) -> Map<K::Id, V>
    decreases slots.len(),
{
    if slots.len() == 0 {
        Map::empty()
    } else {
        to_map(slots.drop_last()).insert(slots.last().0.id(), slots.last().1)
    }
}

/// The map of slots with distinct keys holds exactly the keys of the slots,
/// each with the value of its slot.
pub proof fn lemma_to_map<K: Key, V>(slots: Seq<(K, V)>)
    requires
        distinct_keys(slots),
    ensures
        to_map(slots).dom().finite(),
        forall|id: K::Id| #[trigger] to_map(slots).contains_key(id) <==> has_key(slots, id),
        forall|i: int|
            0 <= i < slots.len() ==> to_map(slots).contains_key((#[trigger] slots[i]).0.id())
                && to_map(slots)[slots[i].0.id()] == slots[i].1,
    decreases slots.len(),
{
    if slots.len() > 0 {
        let head = slots.drop_last();
        let n = slots.len() - 1;
        assert(distinct_keys(head)) by {
            assert forall|i: int, j: int| 0 <= i < j < head.len() implies head[i].0.id()
                != head[j].0.id() by {
                assert(slots[i] == head[i] && slots[j] == head[j]);
            }
        }
        lemma_to_map(head);
        assert forall|id: K::Id| #[trigger] to_map(slots).contains_key(id) <==> has_key(
            slots,
            id,
        ) by {
            if has_key(slots, id) {
                let i = choose|i: int| 0 <= i < slots.len() && (#[trigger] slots[i]).0.id() == id;
                if i < n {
                    assert(head[i] == slots[i]);
                    assert(has_key(head, id));
                }
            }
            if to_map(slots).contains_key(id) {
                if id == slots[n].0.id() {
                    assert(slots[n].0.id() == id);
                } else {
                    assert(has_key(head, id));
                    let i = choose|i: int| 0 <= i < head.len() && (#[trigger] head[i]).0.id()
                        == id;
                    assert(slots[i] == head[i]);
                }
            }
        }
        assert forall|i: int| 0 <= i < slots.len() implies to_map(slots).contains_key(
            (#[trigger] slots[i]).0.id(),
        ) && to_map(slots)[slots[i].0.id()] == slots[i].1 by {
            if i < n {
                assert(head[i] == slots[i]);
                assert(slots[i].0.id() != slots[n].0.id());
            }
        }
    }
}

/// A map from keys to values, kept as slots with distinct keys. The view is
/// the map; `slots` is the order in which the entries are stored.
#[derive(Debug)]
pub struct Table<K: Key, V> {
    slots: Vec<(K, V)>,
}

impl<K: Key, V> View for Table<K, V> {
    type V = Map<K::Id, V>;

    closed spec fn view(&self) -> Map<K::Id, V> {
        to_map(self.slots@)
    }
}

impl<K: Key, V> Table<K, V> {
    /// No key occurs twice.
    #[verifier::type_invariant]
    spec fn keys_are_distinct(&self) -> bool {
        distinct_keys(self.slots@)
    }

    /// The entries in the order in which they are stored.
    pub closed spec fn slots(&self) -> Seq<(K, V)> {
        self.slots@
    }

    /// The empty table.
    pub fn new() -> (r: Self)
        ensures
            r@ == Map::<K::Id, V>::empty(),
            r.slots() == Seq::<(K, V)>::empty(),
    {
        Table { slots: Vec::new() }
    }

    /// All entries, each key once.
    pub fn entries(&self) -> (r: &[(K, V)])
        ensures
            r@ == self.slots(),
            distinct_keys(r@),
            to_map(r@) == self@,
            self@.dom().finite(),
    {
        proof {
            use_type_invariant(self);
            lemma_to_map(self.slots@);
        }
        self.slots.as_slice()
    }

    /// The number of entries.
    pub fn len(&self) -> (r: usize)
        ensures
            r == self@.dom().len(),
            r == self.slots().len(),
    {
        proof {
            use_type_invariant(self);
            lemma_len(self.slots@);
        }
        self.slots.len()
    }

    /// Where the entry of `key` is stored, if there is one.
    pub fn find(&self, key: &K) -> (r: Option<usize>)
        ensures
            match r {
                Some(i) => i < self.slots().len() && self.slots()[i as int].0.id() == key.id()
                    && self@.contains_key(key.id()) && self@[key.id()] == self.slots()[i as int].1,
                None => !self@.contains_key(key.id()),
            },
    {
        proof {
            use_type_invariant(self);
            lemma_to_map(self.slots@);
        }
        let mut i: usize = 0;
        while i < self.slots.len()
            invariant
                i <= self.slots.len(),
                distinct_keys(self.slots@),
                forall|j: int| 0 <= j < i ==> (#[trigger] self.slots@[j]).0.id() != key.id(),
            decreases self.slots.len() - i,
        {
            if self.slots[i].0.is(key) {
                proof {
                    lemma_to_map(self.slots@);
                }
                return Some(i);
            }
            i += 1;
        }
        None
    }

    /// The value of `key`, if it has one.
    pub fn get(&self, key: &K) -> (r: Option<&V>)
        ensures
            match r {
                Some(v) => self@.contains_key(key.id()) && *v == self@[key.id()],
                None => !self@.contains_key(key.id()),
            },
    {
        match self.find(key) {
            Some(i) => Some(&self.slots[i].1),
            None => None,
        }
    }

    /// Gives `key` the value `value`, in place of the value it had, if any.
    /// Returns the value that it had.
    pub fn insert(&mut self, key: K, value: V) -> (r: Option<V>)
        ensures
            final(self)@ == old(self)@.insert(key.id(), value),
            match r {
                Some(v) => old(self)@.contains_key(key.id()) && v == old(self)@[key.id()],
                None => !old(self)@.contains_key(key.id()),
            },
    {
        proof {
            use_type_invariant(&*self);
        }
        let ghost before = self.slots@;
        let ghost id = key.id();
        let found = self.find(&key);
        let mut slots: Vec<(K, V)> = Vec::new();
        core::mem::swap(&mut self.slots, &mut slots);
        let had = match found {
            Some(i) => {
                let mut slot = (key, value);
                slots.set_and_swap(i, &mut slot);
                proof {
                    let after = slots@;
                    assert(distinct_keys(after)) by {
                        assert forall|a: int, b: int| 0 <= a < b < after.len() implies after[a].0.id()
                            != after[b].0.id() by {
                            assert(before[a].0.id() != before[b].0.id());
                        }
                    }
                    lemma_to_map(before);
                    lemma_to_map(after);
                    assert forall|k: K::Id| #[trigger]
                        to_map(after).contains_key(k) <==> to_map(before).insert(
                            id,
                            value,
                        ).contains_key(k) by {
                        if has_key(after, k) {
                            let j = choose|j: int| 0 <= j < after.len() && (#[trigger] after[j]).0.id()
                                == k;
                            assert(before[j].0.id() == k);
                        }
                        if has_key(before, k) {
                            let j = choose|j: int| 0 <= j < before.len() && (
                            #[trigger] before[j]).0.id() == k;
                            assert(after[j].0.id() == k);
                        }
                    }
                    assert forall|k: K::Id| #[trigger] to_map(after).contains_key(k) implies to_map(
                        after,
                    )[k] == to_map(before).insert(id, value)[k] by {
                        let j = choose|j: int| 0 <= j < after.len() && (#[trigger] after[j]).0.id()
                            == k;
                        if j != i {
                            assert(before[j] == after[j]);
                            assert(before[j].0.id() != before[i as int].0.id());
                        } else {
                            assert(after[i as int].1 == value);
                        }
                    }
                    assert(to_map(after) =~= to_map(before).insert(id, value));
                }
                Some(slot.1)
            },
            None => {
                slots.push((key, value));
                proof {
                    let after = slots@;
                    lemma_to_map(before);
                    assert(after.drop_last() == before);
                    assert(distinct_keys(after)) by {
                        assert forall|a: int, b: int| 0 <= a < b < after.len() implies after[a].0.id()
                            != after[b].0.id() by {
                            assert(before[a] == after[a]);
                            if b < before.len() {
                                assert(before[b] == after[b]);
                            } else {
                                assert(has_key(before, before[a].0.id()));
                            }
                        }
                    }
                }
                None
            },
        };
        core::mem::swap(&mut self.slots, &mut slots);
        had
    }

    /// Takes the entry of `key` out of the table and returns its value.
    pub fn remove(&mut self, key: &K) -> (r: Option<V>)
        ensures
            final(self)@ == old(self)@.remove(key.id()),
            match r {
                Some(v) => old(self)@.contains_key(key.id()) && v == old(self)@[key.id()],
                None => !old(self)@.contains_key(key.id()),
            },
    {
        proof {
            use_type_invariant(&*self);
        }
        let ghost before = self.slots@;
        let ghost id = key.id();
        let found = self.find(key);
        let mut slots: Vec<(K, V)> = Vec::new();
        core::mem::swap(&mut self.slots, &mut slots);
        match found {
            Some(i) => {
                let slot = slots.remove(i);
                proof {
                    let after = slots@;
                    assert(after == before.remove(i as int));
                    assert(distinct_keys(after)) by {
                        assert forall|a: int, b: int| 0 <= a < b < after.len() implies after[a].0.id()
                            != after[b].0.id() by {
                            let a0 = if a < i { a } else { a + 1 };
                            let b0 = if b < i { b } else { b + 1 };
                            assert(after[a] == before[a0] && after[b] == before[b0]);
                        }
                    }
                    lemma_to_map(before);
                    lemma_to_map(after);
                    assert forall|k: K::Id| #[trigger]
                        to_map(after).contains_key(k) <==> to_map(before).remove(id).contains_key(
                            k,
                        ) by {
                        if has_key(after, k) {
                            let j = choose|j: int| 0 <= j < after.len() && (#[trigger] after[j]).0.id()
                                == k;
                            let j0 = if j < i { j } else { j + 1 };
                            assert(before[j0] == after[j]);
                            assert(before[j0].0.id() == k);
                            assert(before[j0].0.id() != before[i as int].0.id());
                        }
                        if has_key(before, k) && k != id {
                            let j = choose|j: int| 0 <= j < before.len() && (
                            #[trigger] before[j]).0.id() == k;
                            let j1 = if j < i { j } else { j - 1 };
                            assert(after[j1] == before[j]);
                            assert(after[j1].0.id() == k);
                        }
                    }
                    assert forall|k: K::Id| #[trigger] to_map(after).contains_key(k) implies to_map(
                        after,
                    )[k] == to_map(before).remove(id)[k] by {
                        let j = choose|j: int| 0 <= j < after.len() && (#[trigger] after[j]).0.id()
                            == k;
                        let j0 = if j < i { j } else { j + 1 };
                        assert(before[j0] == after[j]);
                    }
                    assert(to_map(after) =~= to_map(before).remove(id));
                }
                core::mem::swap(&mut self.slots, &mut slots);
                Some(slot.1)
            },
            None => {
                proof {
                    assert(to_map(before).remove(id) =~= to_map(before));
                }
                core::mem::swap(&mut self.slots, &mut slots);
                None
            },
        }
    }

    /// Whether the table has no entry.
    pub fn is_empty(&self) -> (r: bool)
        ensures
            r == (self@.dom().len() == 0),
            r == (self@ == Map::<K::Id, V>::empty()),
    {
        proof {
            use_type_invariant(self);
            lemma_len(self.slots@);
            lemma_to_map(self.slots@);
            if self.slots@.len() == 0 {
            } else {
                assert(self@.contains_key(self.slots@[0].0.id()));
            }
        }
        self.slots.len() == 0
    }
}

/// Slots with distinct keys stand for a map with as many entries.
pub proof fn lemma_len<K: Key, V>(slots: Seq<(K, V)>)
    requires
        distinct_keys(slots),
    ensures
        to_map(slots).dom().finite(),
        to_map(slots).dom().len() == slots.len(),
    decreases slots.len(),
{
    lemma_to_map(slots);
    if slots.len() > 0 {
        let head = slots.drop_last();
        assert(distinct_keys(head)) by {
            assert forall|i: int, j: int| 0 <= i < j < head.len() implies head[i].0.id()
                != head[j].0.id() by {
                assert(slots[i] == head[i] && slots[j] == head[j]);
            }
        }
        lemma_len(head);
        lemma_to_map(head);
        let id = slots.last().0.id();
        if to_map(head).contains_key(id) {
            let i = choose|i: int| 0 <= i < head.len() && (#[trigger] head[i]).0.id() == id;
            assert(slots[i] == head[i]);
            assert(slots[i].0.id() != slots[slots.len() - 1].0.id());
        }
        assert(to_map(slots).dom() =~= to_map(head).dom().insert(id));
    }
}

} // verus!
