//! A map that remembers the order in which its keys were first inserted.

use vstd::prelude::*;

verus! {

/// A key of an [`OrderedMap`]: a small copyable value whose equality can be tested.
pub trait Key: Copy {
    /// Tells whether the two keys are the same.
    fn same(&self, other: &Self) -> (equal: bool)
        ensures
            equal == (*self == *other),
    ;
}

/// The map that a sequence of entries stands for: a later entry overrides an earlier one.
pub open spec fn entries_map<K, V>(entries: Seq<(K, V)>) -> Map<K, V>
    decreases entries.len(),
{
    if entries.len() == 0 {
        Map::empty()
    } else {
        entries_map(entries.drop_last()).insert(entries.last().0, entries.last().1)
    }
}

/// No two entries share a key.
pub open spec fn distinct_keys<K, V>(entries: Seq<(K, V)>) -> bool {
    forall|i: int, j: int|
        0 <= i < j < entries.len() ==> (#[trigger] entries[i]).0 != (#[trigger] entries[j]).0
}

/// The keys of the map are the keys of the entries, and where no key occurs twice, each entry
/// gives the value of its key.
pub proof fn lemma_entries_map<K, V>(entries: Seq<(K, V)>)
    ensures
        forall|i: int|
            0 <= i < entries.len() ==> entries_map(entries).contains_key(
                (#[trigger] entries[i]).0,
            ),
        forall|k: K| #[trigger]
            entries_map(entries).contains_key(k) ==> exists|i: int|
                0 <= i < entries.len() && (#[trigger] entries[i]).0 == k,
        distinct_keys(entries) ==> forall|i: int|
            0 <= i < entries.len() ==> entries_map(entries)[(#[trigger] entries[i]).0]
                == entries[i].1,
    decreases entries.len(),
{
    if entries.len() > 0 {
        let shorter = entries.drop_last();
        lemma_entries_map(shorter);
        assert forall|i: int| 0 <= i < entries.len() implies entries_map(entries).contains_key(
            (#[trigger] entries[i]).0,
        ) by {
            if i < shorter.len() {
                assert(shorter[i] == entries[i]);
            }
        }
        assert forall|k: K| #[trigger] entries_map(entries).contains_key(k) implies exists|i: int|
            0 <= i < entries.len() && (#[trigger] entries[i]).0 == k by {
            if k == entries.last().0 {
                assert(entries[entries.len() - 1].0 == k);
            } else {
                let i = choose|i: int| 0 <= i < shorter.len() && (#[trigger] shorter[i]).0 == k;
                assert(entries[i].0 == k);
            }
        }
        if distinct_keys(entries) {
            assert forall|i: int, j: int| 0 <= i < j < shorter.len() implies (
            #[trigger] shorter[i]).0 != (#[trigger] shorter[j]).0 by {
                assert(entries[i].0 != entries[j].0);
            }
            assert forall|i: int| 0 <= i < entries.len() implies entries_map(entries)[(
            #[trigger] entries[i]).0] == entries[i].1 by {
                if i < shorter.len() {
                    assert(shorter[i] == entries[i]);
                    assert(entries[i].0 != entries[entries.len() - 1].0);
                }
            }
        }
    }
}

/// A map from `K` to `V` that keeps its entries in the order in which their keys first came.
#[derive(Debug)]
pub struct OrderedMap<K, V> {
    entries: Vec<(K, V)>,
}

impl<K, V> View for OrderedMap<K, V> {
    type V = Seq<(K, V)>;

    closed spec fn view(&self) -> Seq<(K, V)> {
        self.entries@
    }
}

impl<K, V> OrderedMap<K, V> {
    /// No key occurs twice.
    pub open spec fn wf(&self) -> bool {
        distinct_keys(self@)
    }

    /// The map without its order.
    pub open spec fn map(&self) -> Map<K, V> {
        entries_map(self@)
    }
}

impl<K: Key, V> OrderedMap<K, V> {
    /// The empty map.
    pub fn new() -> (map: Self)
        ensures
            map.wf(),
            map@ == Seq::<(K, V)>::empty(),
    {
        OrderedMap { entries: Vec::new() }
    }

    /// The number of entries.
    pub fn len(&self) -> (len: usize)
        ensures
            len == self@.len(),
    {
        self.entries.len()
    }

    /// The entry at a position of the order.
    pub fn entry(&self, index: usize) -> (entry: &(K, V))
        requires
            index < self@.len(),
        ensures
            *entry == self@[index as int],
    {
        &self.entries[index]
    }

    /// The position of a key, if it is there.
    fn position(&self, key: K) -> (position: Option<usize>)
        ensures
            match position {
                Some(i) => i < self@.len() && self@[i as int].0 == key,
                None => forall|i: int| 0 <= i < self@.len() ==> (#[trigger] self@[i]).0 != key,
            },
    {
        let mut i: usize = 0;
        while i < self.entries.len()
            invariant
                i <= self@.len(),
                forall|j: int| 0 <= j < i ==> (#[trigger] self@[j]).0 != key,
            decreases self@.len() - i,
        {
            if self.entries[i].0.same(&key) {
                return Some(i);
            }
            i = i + 1;
        }
        None
    }

    /// The value of a key, if it is there.
    pub fn get(&self, key: K) -> (value: Option<&V>)
        requires
            self.wf(),
        ensures
            value is Some <==> self.map().contains_key(key),
            value matches Some(v) ==> *v == self.map()[key],
    {
        proof {
            lemma_entries_map(self@);
        }
        match self.position(key) {
            Some(i) => Some(&self.entries[i].1),
            None => None,
        }
    }

    /// Tells whether a key is there.
    pub fn contains_key(&self, key: K) -> (present: bool)
        ensures
            present == self.map().contains_key(key),
    {
        proof {
            lemma_entries_map(self@);
        }
        self.position(key).is_some()
    }

    /// Sets the value of a key: a key that is there keeps its place, a new one comes last.
    pub fn insert(&mut self, key: K, value: V)
        requires
            old(self).wf(),
        ensures
            final(self).wf(),
            final(self).map() == old(self).map().insert(key, value),
            !old(self).map().contains_key(key) ==> final(self)@ == old(self)@.push((key, value)),
            old(self).map().contains_key(key) ==> final(self)@.len() == old(self)@.len(),
            forall|i: int|
                0 <= i < old(self)@.len() ==> (#[trigger] final(self)@[i]) == (
                    old(self)@[i].0,
                    if old(self)@[i].0 == key { value } else { old(self)@[i].1 },
                ),
    {
        let ghost before = self@;
        proof {
            lemma_entries_map(before);
        }
        match self.position(key) {
            Some(i) => {
                self.entries[i] = (key, value);
                proof {
                    let after = self@;
                    assert(after == before.update(i as int, (key, value)));
                    assert forall|a: int, b: int| 0 <= a < b < after.len() implies (
                    #[trigger] after[a]).0 != (#[trigger] after[b]).0 by {
                        assert(before[a].0 != before[b].0);
                    }
                    lemma_entries_map(after);
                    assert(entries_map(after) =~= entries_map(before).insert(key, value)) by {
                        assert forall|k: K| #[trigger] entries_map(after).contains_key(k)
                            implies entries_map(before).contains_key(k) by {
                            let j = choose|j: int|
                                0 <= j < after.len() && (#[trigger] after[j]).0 == k;
                            assert(before[j].0 == k);
                        }
                        assert forall|k: K| #[trigger] entries_map(before).contains_key(k)
                            implies entries_map(after).contains_key(k) && (k != key
                            ==> entries_map(after)[k] == entries_map(before)[k]) by {
                            let j = choose|j: int|
                                0 <= j < before.len() && (#[trigger] before[j]).0 == k;
                            assert(after[j].0 == k);
                        }
                        assert(after[i as int].0 == key);
                    }
                    assert forall|j: int| 0 <= j < before.len() implies (#[trigger] after[j]) == (
                        before[j].0,
                        if before[j].0 == key { value } else { before[j].1 },
                    ) by {
                        if j != i as int {
                            assert(before[j].0 != before[i as int].0);
                        }
                    }
                }
            },
            None => {
                self.entries.push((key, value));
                proof {
                    assert(self@.drop_last() == before);
                    lemma_entries_map(self@);
                }
            },
        }
    }
}

} // verus!
