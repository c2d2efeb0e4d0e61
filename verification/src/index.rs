//! Hash index from 64-bit identifiers to slot numbers.
//!
//! The index is a `hashbrown::HashMap<u64, usize>`. Verus does not look
//! into the map: what it holds is named by [`index_contents`], and the
//! functions below state what each map operation does to those contents.
//! None of these statements is proved here: they restate the documented
//! behaviour of the map, and everything that is proved about tables rests on
//! them.

use hashbrown::HashMap;
use vstd::prelude::*;

verus! {

/// A `hashbrown::HashMap<u64, usize>` behind a private field. The map type
/// has an allocator parameter bound by a trait that Verus cannot be told of,
/// so the map is kept in this struct, whose inside Verus does not read.
#[verifier::external_body]
pub struct SlotIndex {
    map: HashMap<u64, usize>,
}

/// The key/value pairs that the map of a [`SlotIndex`] holds.
pub uninterp spec fn index_contents(index: SlotIndex) -> Map<u64, usize>;

/// Calls `hashbrown::HashMap::new`: the new map holds nothing.
#[verifier::external_body]
pub(crate) fn index_new() -> (index: SlotIndex)
    ensures
        (index_contents(index) == Map::<u64, usize>::empty()),
{
    SlotIndex { map: HashMap::new() }
}

/// Calls `hashbrown::HashMap::get`: the value stored under `id`, or `None`
/// when `id` is not a key.
#[verifier::external_body]
pub(crate) fn index_get(index: &SlotIndex, id: u64) -> (slot: Option<usize>)
    ensures
        slot == if index_contents(*index).contains_key(id) {
            Some(index_contents(*index)[id])
        } else {
            None
        },
{
    index.map.get(&id).copied()
}

/// Calls `hashbrown::HashMap::insert`: afterwards `id` maps to `slot` and
/// every other key is as before; the value that `id` had before is returned.
#[verifier::external_body]
pub(crate) fn index_insert(index: &mut SlotIndex, id: u64, slot: usize) -> (previous: Option<usize>)
    ensures
        index_contents(*final(index)) == index_contents(*old(index)).insert(id, slot),
        previous == if index_contents(*old(index)).contains_key(id) {
            Some(index_contents(*old(index))[id])
        } else {
            None
        },
{
    index.map.insert(id, slot)
}

/// Calls `hashbrown::HashMap::remove`: afterwards `id` is not a key and
/// every other key is as before; the value that `id` had before is returned.
#[verifier::external_body]
pub(crate) fn index_remove(index: &mut SlotIndex, id: u64) -> (previous: Option<usize>)
    ensures
        index_contents(*final(index)) == index_contents(*old(index)).remove(id),
        previous == if index_contents(*old(index)).contains_key(id) {
            Some(index_contents(*old(index))[id])
        } else {
            None
        },
{
    index.map.remove(&id)
}

} // verus!
