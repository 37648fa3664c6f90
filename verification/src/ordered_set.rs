//! A set that keeps its items in ascending order.
use crate::order::OrderedKey;
use crate::ordered_map::{ascending, entries_map, lemma_entries_map, OrderedMap};
use crate::types::SocketAddr;
use vstd::prelude::*;

verus! {

/// A set of `K`, walked in ascending order.
#[derive(Debug)]
pub struct OrderedSet<K> {
    items: OrderedMap<K, ()>,
}

impl<K: OrderedKey> OrderedSet<K> {
    /// The items, in the order in which they are walked.
    pub closed spec fn items(&self) -> Seq<K> {
        self.items.entries().map_values(|entry: (K, ())| entry.0)
    }

    /// The set that the items stand for.
    pub closed spec fn view(&self) -> Set<K::Key> {
        self.items@.dom()
    }

    /// The items are in strictly ascending order.
    pub closed spec fn wf(&self) -> bool {
        self.items.wf()
    }

    /// The items are those of the set, each once, in ascending order.
    pub proof fn lemma_items(&self)
        requires
            self.wf(),
        ensures
            forall|i: int|
                0 <= i < self.items().len() ==> self@.contains(#[trigger] self.items()[i].key()),
            forall|k: K::Key| #[trigger]
                self@.contains(k) ==> exists|i: int|
                    0 <= i < self.items().len() && #[trigger] self.items()[i].key() == k,
            forall|i: int, j: int|
                0 <= i < j < self.items().len() ==> K::before(
                    #[trigger] self.items()[i].key(),
                    #[trigger] self.items()[j].key(),
                ),
            self@.finite(),
            self@.len() == self.items().len(),
    {
        let entries = self.items.entries();
        lemma_entries_map(entries);
        assert forall|i: int| 0 <= i < self.items().len() implies self@.contains(
            #[trigger] self.items()[i].key(),
        ) by {
            assert(self.items()[i].key() == entries[i].0.key());
        }
        assert forall|k: K::Key| #[trigger] self@.contains(k) implies exists|i: int|
            0 <= i < self.items().len() && #[trigger] self.items()[i].key() == k by {
            let i = choose|i: int| 0 <= i < entries.len() && #[trigger] entries[i].0.key() == k;
            assert(self.items()[i].key() == k);
        }
        assert forall|i: int, j: int| 0 <= i < j < self.items().len() implies K::before(
            #[trigger] self.items()[i].key(),
            #[trigger] self.items()[j].key(),
        ) by {
            assert(ascending(entries));
            assert(self.items()[i].key() == entries[i].0.key());
            assert(self.items()[j].key() == entries[j].0.key());
        }
    }

    /// An empty set.
    pub fn new() -> (set: Self)
        ensures
            set.wf(),
            set@ == Set::<K::Key>::empty(),
            set.items() == Seq::<K>::empty(),
    {
        let set = OrderedSet { items: OrderedMap::new() };
        assert(set@ =~= Set::<K::Key>::empty());
        assert(set.items() =~= Seq::<K>::empty());
        set
    }

    /// The number of items.
    pub fn len(&self) -> (len: usize)
        ensures
            len == self.items().len(),
            self.wf() ==> len == self@.len(),
    {
        proof {
            if self.wf() {
                self.lemma_items();
            }
        }
        self.items.len()
    }

    /// The `i`-th item.
    pub fn item_at(&self, i: usize) -> (item: &K)
        requires
            i < self.items().len(),
        ensures
            *item == self.items()[i as int],
    {
        self.items.key_at(i)
    }

    /// Whether `item` is in the set.
    pub fn contains(&self, item: &K) -> (found: bool)
        requires
            self.wf(),
        ensures
            found == self@.contains(item.key()),
    {
        self.items.contains_key(item)
    }

    /// Adds `item` to the set. Returns whether it was not there yet.
    pub fn insert(&mut self, item: K) -> (added: bool)
        requires
            old(self).wf(),
        ensures
            final(self).wf(),
            final(self)@ == old(self)@.insert(item.key()),
            added == !old(self)@.contains(item.key()),
    {
        let ghost before = self@;
        let added = !self.items.contains_key(&item);
        self.items.insert(item, ());
        assert(self@ =~= before.insert(item.key()));
        added
    }

    /// Drops `item` from the set, if it is there.
    pub fn remove(&mut self, item: &K)
        requires
            old(self).wf(),
        ensures
            final(self).wf(),
            final(self)@ == old(self)@.remove(item.key()),
    {
        let ghost before = self@;
        self.items.remove(item);
        assert(self@ =~= before.remove(item.key()));
    }
}

impl Clone for OrderedSet<SocketAddr> {
    fn clone(&self) -> (copy: Self)
        ensures
            copy.wf(),
            copy@ == self@,
    {
        let ghost entries = self.items.entries();
        let mut items: OrderedMap<SocketAddr, ()> = OrderedMap::new();
        let len = self.items.len();
        let mut i: usize = 0;
        assert(entries.take(0) =~= Seq::empty());
        while i < len
            invariant
                i <= len,
                len == entries.len(),
                entries == self.items.entries(),
                items.wf(),
                items@ == entries_map(entries.take(i as int)),
            decreases len - i,
        {
            items.insert(*self.items.key_at(i), ());
            assert(entries.take(i + 1).drop_last() =~= entries.take(i as int));
            i = i + 1;
        }
        assert(entries.take(len as int) =~= entries);
        OrderedSet { items }
    }
}

} // verus!
