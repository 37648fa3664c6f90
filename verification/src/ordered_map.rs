//! A map that keeps its entries in ascending key order.
use crate::order::{KeyOrder, OrderedKey};
use vstd::prelude::*;

verus! {

/// A map from `K` to `V`, walked in ascending key order. No key occurs twice.
#[derive(Debug)]
pub struct OrderedMap<K, V> {
    entries: Vec<(K, V)>,
}

/// Entries in strictly ascending key order.
pub open spec fn ascending<K: OrderedKey, V>(entries: Seq<(K, V)>) -> bool {
    forall|i: int, j: int|
        0 <= i < j < entries.len() ==> K::before(
            #[trigger] entries[i].0.key(),
            #[trigger] entries[j].0.key(),
        )
}

/// The map that a sequence of entries stands for; a later entry replaces an earlier one
/// with the same key.
pub open spec fn entries_map<K: OrderedKey, V>(entries: Seq<(K, V)>) -> Map<K::Key, V>
    decreases entries.len(),
{
    if entries.len() == 0 {
        Map::empty()
    } else {
        entries_map(entries.drop_last()).insert(entries.last().0.key(), entries.last().1)
    }
}

/// In an ascending sequence every entry is in the map, and the map holds nothing else.
pub proof fn lemma_entries_map<K: OrderedKey, V>(entries: Seq<(K, V)>)
    requires
        ascending(entries),
    ensures
        forall|i: int|
            0 <= i < entries.len() ==> {
                &&& entries_map(entries).contains_key(#[trigger] entries[i].0.key())
                &&& entries_map(entries)[entries[i].0.key()] == entries[i].1
            },
        forall|k: K::Key| #[trigger]
            entries_map(entries).contains_key(k) ==> exists|i: int|
                0 <= i < entries.len() && #[trigger] entries[i].0.key() == k,
        entries_map(entries).dom().finite(),
        entries_map(entries).len() == entries.len(),
    decreases entries.len(),
{
    if entries.len() > 0 {
        let front = entries.drop_last();
        let last = entries.last();
        assert(ascending(front)) by {
            assert forall|i: int, j: int| 0 <= i < j < front.len() implies K::before(
                #[trigger] front[i].0.key(),
                #[trigger] front[j].0.key(),
            ) by {
                assert(front[i] == entries[i] && front[j] == entries[j]);
            }
        }
        lemma_entries_map(front);
        let k = last.0.key();
        assert(!entries_map(front).contains_key(k)) by {
            if entries_map(front).contains_key(k) {
                let i = choose|i: int| 0 <= i < front.len() && #[trigger] front[i].0.key() == k;
                assert(entries[i].0.key() == k);
                assert(entries[entries.len() - 1].0.key() == k);
                K::before_irreflexive(k);
            }
        }
        assert forall|i: int| 0 <= i < entries.len() implies {
            &&& entries_map(entries).contains_key(#[trigger] entries[i].0.key())
            &&& entries_map(entries)[entries[i].0.key()] == entries[i].1
        } by {
            if i < front.len() {
                assert(front[i] == entries[i]);
                assert(entries_map(front).contains_key(front[i].0.key()));
            }
        }
        assert forall|q: K::Key| #[trigger] entries_map(entries).contains_key(q) implies exists|
            i: int,
        |
            0 <= i < entries.len() && #[trigger] entries[i].0.key() == q by {
            if q == k {
                assert(entries[entries.len() - 1].0.key() == q);
            } else {
                let i = choose|i: int| 0 <= i < front.len() && #[trigger] front[i].0.key() == q;
                assert(entries[i].0.key() == q);
            }
        }
    }
}

/// An ascending sequence in which `key` stands at `i` holds it nowhere else.
pub proof fn lemma_key_at<K: OrderedKey, V>(entries: Seq<(K, V)>, i: int, j: int)
    requires
        ascending(entries),
        0 <= i < entries.len(),
        0 <= j < entries.len(),
        entries[i].0.key() == entries[j].0.key(),
    ensures
        i == j,
{
    K::before_irreflexive(entries[i].0.key());
}

/// Where a key belongs: everything left of `i` comes before it, everything from `i` on
/// comes after it.
pub open spec fn belongs_at<K: OrderedKey, V>(entries: Seq<(K, V)>, key: K::Key, i: int) -> bool {
    &&& 0 <= i <= entries.len()
    &&& forall|j: int| 0 <= j < i ==> K::before(#[trigger] entries[j].0.key(), key)
    &&& forall|j: int| i <= j < entries.len() ==> K::before(key, #[trigger] entries[j].0.key())
}

/// A key that has its place between two entries is not in the map.
pub proof fn lemma_belongs_absent<K: OrderedKey, V>(entries: Seq<(K, V)>, key: K::Key, i: int)
    requires
        ascending(entries),
        belongs_at(entries, key, i),
    ensures
        !entries_map(entries).contains_key(key),
{
    lemma_entries_map(entries);
    if entries_map(entries).contains_key(key) {
        let j = choose|j: int| 0 <= j < entries.len() && #[trigger] entries[j].0.key() == key;
        K::before_irreflexive(key);
    }
}

/// Inserting an absent key at its place keeps the order and adds that one key.
pub proof fn lemma_insert_absent<K: OrderedKey, V>(entries: Seq<(K, V)>, i: int, entry: (K, V))
    requires
        ascending(entries),
        belongs_at(entries, entry.0.key(), i),
    ensures
        ascending(entries.insert(i, entry)),
        entries_map(entries.insert(i, entry)) == entries_map(entries).insert(
            entry.0.key(),
            entry.1,
        ),
{
    let after = entries.insert(i, entry);
    let key = entry.0.key();
    assert(ascending(after)) by {
        assert forall|a: int, b: int| 0 <= a < b < after.len() implies K::before(
            #[trigger] after[a].0.key(),
            #[trigger] after[b].0.key(),
        ) by {
            let sa = if a < i {
                a
            } else {
                a - 1
            };
            let sb = if b < i {
                b
            } else {
                b - 1
            };
            if a != i {
                assert(after[a] == entries[sa]);
            }
            if b != i {
                assert(after[b] == entries[sb]);
            }
        }
    }
    lemma_entries_map(entries);
    lemma_entries_map(after);
    let expected = entries_map(entries).insert(key, entry.1);
    assert forall|q: K::Key|
        entries_map(after).contains_key(q) == #[trigger] expected.contains_key(q) && (
        expected.contains_key(q) ==> entries_map(after)[q] == expected[q]) by {
        assert(after[i] == entry);
        assert(entries_map(after).contains_key(after[i].0.key()));
        if q != key {
            if entries_map(after).contains_key(q) {
                let j = choose|j: int| 0 <= j < after.len() && #[trigger] after[j].0.key() == q;
                let s = if j < i {
                    j
                } else {
                    j - 1
                };
                assert(after[j] == entries[s]);
                assert(entries_map(entries).contains_key(entries[s].0.key()));
            }
            if entries_map(entries).contains_key(q) {
                let s = choose|s: int| 0 <= s < entries.len() && #[trigger] entries[s].0.key() == q;
                let j = if s < i {
                    s
                } else {
                    s + 1
                };
                assert(after[j] == entries[s]);
                assert(entries_map(after).contains_key(after[j].0.key()));
            }
        }
    }
    assert(entries_map(after) =~= expected);
}

/// Replacing the value at `i` keeps the order and rebinds that one key.
pub proof fn lemma_update_present<K: OrderedKey, V>(entries: Seq<(K, V)>, i: int, entry: (K, V))
    requires
        ascending(entries),
        0 <= i < entries.len(),
        entry.0.key() == entries[i].0.key(),
    ensures
        ascending(entries.update(i, entry)),
        entries_map(entries.update(i, entry)) == entries_map(entries).insert(
            entry.0.key(),
            entry.1,
        ),
{
    let after = entries.update(i, entry);
    let key = entry.0.key();
    assert(forall|a: int|
        0 <= a < after.len() ==> #[trigger] after[a].0.key() == entries[a].0.key());
    lemma_entries_map(entries);
    lemma_entries_map(after);
    let expected = entries_map(entries).insert(key, entry.1);
    assert forall|q: K::Key|
        entries_map(after).contains_key(q) == #[trigger] expected.contains_key(q) && (
        expected.contains_key(q) ==> entries_map(after)[q] == expected[q]) by {
        assert(after[i] == entry);
        assert(entries_map(after).contains_key(after[i].0.key()));
        if q != key {
            if entries_map(after).contains_key(q) {
                let j = choose|j: int| 0 <= j < after.len() && #[trigger] after[j].0.key() == q;
                assert(after[j] == entries[j]);
                assert(entries_map(entries).contains_key(entries[j].0.key()));
            }
            if entries_map(entries).contains_key(q) {
                let j = choose|j: int| 0 <= j < entries.len() && #[trigger] entries[j].0.key() == q;
                assert(after[j] == entries[j]);
                assert(entries_map(after).contains_key(after[j].0.key()));
            }
        }
    }
    assert(entries_map(after) =~= expected);
}

/// Removing the entry at `i` keeps the order and drops that one key.
pub proof fn lemma_remove_present<K: OrderedKey, V>(entries: Seq<(K, V)>, i: int)
    requires
        ascending(entries),
        0 <= i < entries.len(),
    ensures
        ascending(entries.remove(i)),
        entries_map(entries.remove(i)) == entries_map(entries).remove(entries[i].0.key()),
{
    let after = entries.remove(i);
    let key = entries[i].0.key();
    assert(ascending(after)) by {
        assert forall|a: int, b: int| 0 <= a < b < after.len() implies K::before(
            #[trigger] after[a].0.key(),
            #[trigger] after[b].0.key(),
        ) by {
            let sa = if a < i {
                a
            } else {
                a + 1
            };
            let sb = if b < i {
                b
            } else {
                b + 1
            };
            assert(after[a] == entries[sa]);
            assert(after[b] == entries[sb]);
        }
    }
    lemma_entries_map(entries);
    lemma_entries_map(after);
    let expected = entries_map(entries).remove(key);
    assert forall|q: K::Key|
        entries_map(after).contains_key(q) == #[trigger] expected.contains_key(q) && (
        expected.contains_key(q) ==> entries_map(after)[q] == expected[q]) by {
        if entries_map(after).contains_key(q) {
            let j = choose|j: int| 0 <= j < after.len() && #[trigger] after[j].0.key() == q;
            let s = if j < i {
                j
            } else {
                j + 1
            };
            assert(after[j] == entries[s]);
            assert(entries_map(entries).contains_key(entries[s].0.key()));
            if q == key {
                lemma_key_at(entries, i, s);
            }
        }
        if entries_map(entries).contains_key(q) && q != key {
            let s = choose|s: int| 0 <= s < entries.len() && #[trigger] entries[s].0.key() == q;
            let j = if s < i {
                s
            } else {
                s - 1
            };
            assert(after[j] == entries[s]);
            assert(entries_map(after).contains_key(after[j].0.key()));
        }
    }
    assert(entries_map(after) =~= expected);
}

impl<K: OrderedKey, V> OrderedMap<K, V> {
    /// The entries, in the order in which they are walked.
    pub closed spec fn entries(&self) -> Seq<(K, V)> {
        self.entries@
    }

    /// The map that the entries stand for.
    pub open spec fn view(&self) -> Map<K::Key, V> {
        entries_map(self.entries())
    }

    /// The entries are in strictly ascending key order.
    pub open spec fn wf(&self) -> bool {
        ascending(self.entries())
    }

    /// An empty map.
    pub fn new() -> (map: Self)
        ensures
            map.wf(),
            map.entries() == Seq::<(K, V)>::empty(),
            map@ == Map::<K::Key, V>::empty(),
    {
        OrderedMap { entries: Vec::new() }
    }

    /// The number of entries.
    pub fn len(&self) -> (len: usize)
        ensures
            len == self.entries().len(),
            self.wf() ==> len == self@.len(),
    {
        proof {
            if self.wf() {
                lemma_entries_map(self.entries());
            }
        }
        self.entries.len()
    }

    /// The key of the `i`-th entry.
    pub fn key_at(&self, i: usize) -> (key: &K)
        requires
            i < self.entries().len(),
        ensures
            *key == self.entries()[i as int].0,
    {
        &self.entries[i].0
    }

    /// The value of the `i`-th entry.
    pub fn value_at(&self, i: usize) -> (value: &V)
        requires
            i < self.entries().len(),
        ensures
            *value == self.entries()[i as int].1,
    {
        &self.entries[i].1
    }

    /// Where `key` stands (`Ok`), or where it would have to be inserted (`Err`).
    fn position(&self, key: &K) -> (place: Result<usize, usize>)
        requires
            self.wf(),
        ensures
            match place {
                Ok(i) => i < self.entries().len() && self.entries()[i as int].0.key() == key.key(),
                Err(i) => belongs_at(self.entries(), key.key(), i as int),
            },
    {
        let mut low: usize = 0;
        let mut high: usize = self.entries.len();
        while low < high
            invariant
                self.wf(),
                low <= high <= self.entries@.len(),
                self.entries() == self.entries@,
                forall|j: int|
                    0 <= j < low ==> K::before(#[trigger] self.entries@[j].0.key(), key.key()),
                forall|j: int|
                    high <= j < self.entries@.len() ==> K::before(
                        key.key(),
                        #[trigger] self.entries@[j].0.key(),
                    ),
            decreases high - low,
        {
            let middle = low + (high - low) / 2;
            match self.entries[middle].0.compare(key) {
                KeyOrder::Same => {
                    return Ok(middle);
                },
                KeyOrder::Before => {
                    proof {
                        let m = self.entries@[middle as int].0.key();
                        assert forall|j: int| 0 <= j < middle + 1 implies K::before(
                            #[trigger] self.entries@[j].0.key(),
                            key.key(),
                        ) by {
                            if j < middle {
                                K::before_transitive(self.entries@[j].0.key(), m, key.key());
                            }
                        }
                    }
                    low = middle + 1;
                },
                KeyOrder::After => {
                    proof {
                        let m = self.entries@[middle as int].0.key();
                        assert forall|j: int|
                            middle <= j < self.entries@.len() implies K::before(
                            key.key(),
                            #[trigger] self.entries@[j].0.key(),
                        ) by {
                            if middle < j {
                                K::before_transitive(key.key(), m, self.entries@[j].0.key());
                            }
                        }
                    }
                    high = middle;
                },
            }
        }
        Err(low)
    }

    /// Whether `key` is in the map.
    pub fn contains_key(&self, key: &K) -> (found: bool)
        requires
            self.wf(),
        ensures
            found == self@.contains_key(key.key()),
    {
        proof {
            lemma_entries_map(self.entries());
        }
        match self.position(key) {
            Ok(i) => {
                assert(self@.contains_key(self.entries()[i as int].0.key()));
                true
            },
            Err(i) => {
                proof {
                    lemma_belongs_absent(self.entries(), key.key(), i as int);
                }
                false
            },
        }
    }

    /// The value bound to `key`.
    pub fn get(&self, key: &K) -> (value: Option<&V>)
        requires
            self.wf(),
        ensures
            match value {
                Some(v) => self@.contains_key(key.key()) && *v == self@[key.key()],
                None => !self@.contains_key(key.key()),
            },
    {
        proof {
            lemma_entries_map(self.entries());
        }
        match self.position(key) {
            Ok(i) => {
                assert(self@.contains_key(self.entries()[i as int].0.key()));
                Some(&self.entries[i].1)
            },
            Err(i) => {
                proof {
                    lemma_belongs_absent(self.entries(), key.key(), i as int);
                }
                None
            },
        }
    }

    /// Mutable access to the value bound to `key`.
    pub fn get_mut(&mut self, key: &K) -> (value: Option<&mut V>)
        requires
            old(self).wf(),
        ensures
            final(self).wf(),
            match value {
                Some(v) => {
                    &&& old(self)@.contains_key(key.key())
                    &&& *v == old(self)@[key.key()]
                    &&& final(self)@ == old(self)@.insert(key.key(), *final(v))
                },
                None => !old(self)@.contains_key(key.key()) && *final(self) == *old(self),
            },
    {
        proof {
            lemma_entries_map(self.entries());
        }
        match self.position(key) {
            Ok(i) => {
                assert(self@.contains_key(self.entries()[i as int].0.key()));
                let ghost before = self.entries@;
                proof {
                    assert forall|v: V| #[trigger]
                        entries_map(before.update(i as int, (before[i as int].0, v)))
                            == entries_map(before).insert(key.key(), v) && ascending(
                            before.update(i as int, (before[i as int].0, v)),
                        ) by {
                        lemma_update_present(before, i as int, (before[i as int].0, v));
                    }
                }
                Some(&mut self.entries[i].1)
            },
            Err(i) => {
                proof {
                    lemma_belongs_absent(self.entries(), key.key(), i as int);
                }
                None
            },
        }
    }

    /// Binds `key` to `value`, replacing what it was bound to.
    pub fn insert(&mut self, key: K, value: V)
        requires
            old(self).wf(),
        ensures
            final(self).wf(),
            final(self)@ == old(self)@.insert(key.key(), value),
    {
        let ghost before = self.entries@;
        match self.position(&key) {
            Ok(i) => {
                proof {
                    lemma_update_present(before, i as int, (key, value));
                }
                self.entries[i] = (key, value);
            },
            Err(i) => {
                proof {
                    lemma_insert_absent(before, i as int, (key, value));
                }
                self.entries.insert(i, (key, value));
            },
        }
    }

    /// Drops `key` from the map, if it is there.
    pub fn remove(&mut self, key: &K)
        requires
            old(self).wf(),
        ensures
            final(self).wf(),
            final(self)@ == old(self)@.remove(key.key()),
    {
        let ghost before = self.entries@;
        match self.position(key) {
            Ok(i) => {
                proof {
                    lemma_remove_present(before, i as int);
                }
                let _ = self.entries.remove(i);
            },
            Err(i) => {
                proof {
                    lemma_belongs_absent(before, key.key(), i as int);
                    assert(entries_map(before).remove(key.key()) =~= entries_map(before));
                }
            },
        }
    }

    /// Takes the entry with the greatest key out of the map.
    pub fn pop_last(&mut self) -> (entry: Option<(K, V)>)
        requires
            old(self).wf(),
        ensures
            final(self).wf(),
            match entry {
                Some(entry) => old(self).entries() == final(self).entries().push(entry),
                None => old(self).entries().len() == 0 && *final(self) == *old(self),
            },
    {
        let ghost before = self.entries@;
        if self.entries.len() == 0 {
            return None;
        }
        let entry = self.entries.pop();
        proof {
            if entry is Some {
                assert(before =~= self.entries@.push(entry->Some_0));
                assert(ascending(self.entries())) by {
                    assert forall|i: int, j: int|
                        0 <= i < j < self.entries@.len() implies K::before(
                        #[trigger] self.entries@[i].0.key(),
                        #[trigger] self.entries@[j].0.key(),
                    ) by {
                        assert(self.entries@[i] == before[i]);
                        assert(self.entries@[j] == before[j]);
                    }
                }
            }
        }
        entry
    }
}

} // verus!
