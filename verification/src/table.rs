//! A table of values keyed by 64-bit identifiers.
//!
//! Values live in a dense vector; a hash index maps each identifier to the
//! slot of its value. The table is viewed as a `Map<u64, V>`.
//!
//! The index is the only place where the hash map is used. It holds
//! integers only, so one map type serves the tables of all value types, and
//! what is taken on trust about the map is said once, in [`crate::index`].
//! What a table does with its values is proved here.

use crate::index::{index_contents, index_get, index_insert, index_new, index_remove, SlotIndex};
use vstd::prelude::*;

verus! {

/// A table from identifiers to values.
pub struct IdTable<V> {
    index: SlotIndex,
    ids: Vec<u64>,
    values: Vec<V>,
}

impl<V> IdTable<V> {
    /// The index and the two vectors describe the same set of entries.
    pub closed spec fn wf(&self) -> bool {
        &&& self.ids@.len() == self.values@.len()
        &&& forall|id: u64| #[trigger]
            index_contents(self.index).contains_key(id) ==> {
                &&& index_contents(self.index)[id] < self.ids@.len()
                &&& self.ids@[index_contents(self.index)[id] as int] == id
            }
        &&& forall|i: int|
            0 <= i < self.ids@.len() ==> {
                &&& index_contents(self.index).contains_key(#[trigger] self.ids@[i])
                &&& index_contents(self.index)[self.ids@[i]] == i
            }
    }

    /// The entries of the table.
    pub closed spec fn view(&self) -> Map<u64, V> {
        Map::new(
            |id: u64| index_contents(self.index).contains_key(id),
            |id: u64| self.values@[index_contents(self.index)[id] as int],
        )
    }

    /// The table has finitely many entries, as many as it has slots.
    proof fn lemma_len(&self)
        requires
            self.wf(),
        ensures
            self@.dom().finite(),
            self@.len() == self.ids@.len(),
            self.ids@.len() == 0 <==> self@ == Map::<u64, V>::empty(),
    {
        assert(self.ids@.no_duplicates()) by {
            assert forall|i: int, j: int|
                0 <= i < self.ids@.len() && 0 <= j < self.ids@.len() && i != j implies self.ids@[i]
                != self.ids@[j] by {
                assert(index_contents(self.index)[self.ids@[i]] == i);
                assert(index_contents(self.index)[self.ids@[j]] == j);
            }
        }
        assert(self@.dom() =~= self.ids@.to_set()) by {
            assert forall|id: u64| self@.dom().contains(id) == self.ids@.to_set().contains(id) by {
                if self@.dom().contains(id) {
                    assert(self.ids@[index_contents(self.index)[id] as int] == id);
                }
                if self.ids@.to_set().contains(id) {
                    let i = choose|i: int| 0 <= i < self.ids@.len() && self.ids@[i] == id;
                    assert(index_contents(self.index).contains_key(self.ids@[i]));
                }
            }
        }
        self.ids@.unique_seq_to_set();
        vstd::seq_lib::seq_to_set_is_finite(self.ids@);
        if self.ids@.len() == 0 {
            assert(self@ =~= Map::<u64, V>::empty());
        } else {
            assert(self@.contains_key(self.ids@[0]));
        }
    }

    /// A table without entries.
    pub fn new() -> (table: Self)
        ensures
            table.wf(),
            table@ == Map::<u64, V>::empty(),
    {
        let table = IdTable { index: index_new(), ids: Vec::new(), values: Vec::new() };
        assert(table@ =~= Map::<u64, V>::empty());
        table
    }

    /// The number of entries.
    pub fn len(&self) -> (n: usize)
        requires
            self.wf(),
        ensures
            self@.dom().finite(),
            n == self@.len(),
    {
        proof {
            self.lemma_len();
        }
        self.ids.len()
    }

    /// Tells whether the table has no entries.
    pub fn is_empty(&self) -> (empty: bool)
        requires
            self.wf(),
        ensures
            empty <==> self@ == Map::<u64, V>::empty(),
    {
        proof {
            self.lemma_len();
        }
        self.ids.len() == 0
    }

    /// Tells whether something is stored under `id`.
    pub fn contains(&self, id: u64) -> (found: bool)
        requires
            self.wf(),
        ensures
            found == self@.contains_key(id),
    {
        index_get(&self.index, id).is_some()
    }

    /// The value stored under `id`, if there is one.
    pub fn get(&self, id: u64) -> (value: Option<&V>)
        requires
            self.wf(),
        ensures
            value == if self@.contains_key(id) {
                Some(&self@[id])
            } else {
                None
            },
    {
        match index_get(&self.index, id) {
            Some(slot) => Some(&self.values[slot]),
            None => None,
        }
    }

    /// Stores `value` under `id` and returns what was stored there before.
    pub fn insert(&mut self, id: u64, value: V) -> (previous: Option<V>)
        requires
            old(self).wf(),
        ensures
            final(self).wf(),
            final(self)@ == old(self)@.insert(id, value),
            previous == if old(self)@.contains_key(id) {
                Some(old(self)@[id])
            } else {
                None
            },
    {
        match index_get(&self.index, id) {
            Some(slot) => {
                self.values.push(value);
                let previous = self.values.swap_remove(slot);
                assert(self@ =~= old(self)@.insert(id, value));
                Some(previous)
            },
            None => {
                let slot = self.ids.len();
                self.ids.push(id);
                self.values.push(value);
                index_insert(&mut self.index, id, slot);
                assert(self@ =~= old(self)@.insert(id, value));
                None
            },
        }
    }

    /// Removes the entry of `id`, if there is one, and returns its value.
    pub fn remove(&mut self, id: u64) -> (previous: Option<V>)
        requires
            old(self).wf(),
        ensures
            final(self).wf(),
            final(self)@ == old(self)@.remove(id),
            previous == if old(self)@.contains_key(id) {
                Some(old(self)@[id])
            } else {
                None
            },
    {
        match index_get(&self.index, id) {
            Some(slot) => {
                let last = self.ids.len() - 1;
                let moved = self.ids[last];
                index_remove(&mut self.index, id);
                if slot != last {
                    index_insert(&mut self.index, moved, slot);
                }
                self.ids.swap_remove(slot);
                let previous = self.values.swap_remove(slot);
                assert(self@ =~= old(self)@.remove(id));
                Some(previous)
            },
            None => {
                assert(self@ =~= old(self)@.remove(id));
                None
            },
        }
    }
}

} // verus!
