//! A hash index from byte-string keys to slots of a list that is kept beside
//! it.
//!
//! The table stores slot numbers, each with the hash of the key that the
//! list holds at that slot, and a lookup compares the wanted key with the
//! keys of the slots it meets. The table and its hasher come from outside
//! this crate: the first part of this module states what is relied on
//! without proof, the second part is proved from that.

use crate::path::bytes_eq;
use hashbrown::{DefaultHashBuilder, HashTable};
use std::hash::BuildHasher;
use vstd::prelude::*;

verus! {

/// A list whose slots each hold a byte-string key.
pub trait Keyed {
    /// The key of each slot, in slot order.
    spec fn keys(&self) -> Seq<Seq<u8>>;

    /// The key that the list holds at `slot`.
    fn key_at(&self, slot: u32) -> (key: &[u8])
        requires
            slot < self.keys().len(),
        ensures
            key@ == self.keys()[slot as int],
    ;
}

/// The table together with the hasher that files its slots. The table's own
/// type cannot be described to the verifier, so both are kept out of its
/// sight and reached through the functions below. An entry of the table is
/// a hash and the slot that is filed under it.
#[verifier::external_body]
pub struct PathIndex {
    table: HashTable<(u64, u32)>,
    hasher: DefaultHashBuilder,
}

/// The slots that the table holds, each with the hash it is filed under.
pub uninterp spec fn index_slots(index: PathIndex) -> Map<u32, u64>;

/// The hash that the index's own hasher gives to each byte string. Another
/// index may give another.
pub uninterp spec fn index_hashes(index: PathIndex) -> Map<Seq<u8>, u64>;

/// `HashTable::new` and `DefaultHashBuilder::default`: a table without
/// slots, with a hasher of its own.
#[verifier::external_body]
pub(crate) fn index_new() -> (index: PathIndex)
    ensures
        index_slots(index).dom() == Set::<u32>::empty(),
{
    PathIndex { table: HashTable::new(), hasher: DefaultHashBuilder::default() }
}

/// `BuildHasher::hash_one` on the index's hasher: the hash of `key`, the
/// same whenever the same index is asked for the same bytes.
#[verifier::external_body]
pub(crate) fn index_hash(index: &PathIndex, key: &[u8]) -> (hash: u64)
    ensures
        hash == index_hashes(*index)[key@],
{
    index.hasher.hash_one(key)
}

/// `HashTable::find`: a slot of the table whose key is `key`. The table
/// compares every slot filed under `hash`, and possibly others, so where it
/// finds nothing, no slot filed under `hash` has that key.
#[verifier::external_body]
pub(crate) fn index_find<K: Keyed>(index: &PathIndex, hash: u64, keys: &K, key: &[u8]) -> (found:
    Option<u32>)
    requires
        forall|slot: u32| #[trigger]
            index_slots(*index).contains_key(slot) ==> slot < keys.keys().len(),
    ensures
        match found {
            Some(slot) => index_slots(*index).contains_key(slot) && keys.keys()[slot as int]
                == key@,
            None => forall|slot: u32| #[trigger]
                index_slots(*index).contains_key(slot) && index_slots(*index)[slot] == hash
                    ==> keys.keys()[slot as int] != key@,
        },
{
    index.table.find(hash, |entry: &(u64, u32)| bytes_eq(keys.key_at(entry.1), key)).map(
        |entry: &(u64, u32)| entry.1,
    )
}

/// `HashTable::insert_unique`: files `slot` under `hash`. Where the table
/// has to grow it files every entry anew, under the hash that the entry
/// holds.
#[verifier::external_body]
pub(crate) fn index_insert(index: &mut PathIndex, hash: u64, slot: u32)
    requires
        !index_slots(*old(index)).contains_key(slot),
    ensures
        index_slots(*final(index)) == index_slots(*old(index)).insert(slot, hash),
        index_hashes(*final(index)) == index_hashes(*old(index)),
{
    index.table.insert_unique(hash, (hash, slot), |entry: &(u64, u32)| entry.0);
}

/// `HashTable::find_entry` and `OccupiedEntry::remove`: takes a slot whose
/// key is `key` out of the table and gives it. The table compares every
/// slot filed under `hash`, and possibly others, so where it finds
/// nothing, no slot filed under `hash` has that key, and the table stays
/// as it is.
#[verifier::external_body]
pub(crate) fn index_remove<K: Keyed>(index: &mut PathIndex, hash: u64, keys: &K, key: &[u8]) -> (removed:
    Option<u32>)
    requires
        forall|slot: u32| #[trigger]
            index_slots(*old(index)).contains_key(slot) ==> slot < keys.keys().len(),
    ensures
        index_hashes(*final(index)) == index_hashes(*old(index)),
        match removed {
            Some(slot) => index_slots(*old(index)).contains_key(slot) && keys.keys()[slot as int]
                == key@ && index_slots(*final(index)) == index_slots(*old(index)).remove(slot),
            None => index_slots(*final(index)) == index_slots(*old(index)) && forall|slot: u32| #[trigger]
                index_slots(*old(index)).contains_key(slot) && index_slots(*old(index))[slot]
                    == hash ==> keys.keys()[slot as int] != key@,
        },
{
    match index.table.find_entry(hash, |entry: &(u64, u32)| bytes_eq(keys.key_at(entry.1), key)) {
        Ok(entry) => Some(entry.remove().0.1),
        Err(_) => None,
    }
}

/// `HashTable::clear`: takes every slot out of the table.
#[verifier::external_body]
pub(crate) fn index_clear(index: &mut PathIndex)
    ensures
        index_slots(*final(index)).dom() == Set::<u32>::empty(),
        index_hashes(*final(index)) == index_hashes(*old(index)),
{
    index.table.clear()
}

/// The index files exactly the slots in `live`, each under the hash of the
/// key that `keys` holds for it, and no two of them share a key.
pub open spec fn indexes(index: PathIndex, keys: Seq<Seq<u8>>, live: Set<u32>) -> bool {
    &&& index_slots(index).dom() == live
    &&& forall|slot: u32| #[trigger]
        live.contains(slot) ==> slot < keys.len() && index_slots(index)[slot] == index_hashes(
            index,
        )[keys[slot as int]]
    &&& forall|a: u32, b: u32|
        live.contains(a) && live.contains(b) && keys[a as int] == keys[b as int] ==> a == b
}

/// The slot that `key` is filed at, if any.
pub open spec fn slot_of(keys: Seq<Seq<u8>>, live: Set<u32>, key: Seq<u8>) -> Option<u32> {
    if exists|slot: u32| live.contains(slot) && slot < keys.len() && keys[slot as int] == key {
        Some(choose|slot: u32| live.contains(slot) && slot < keys.len() && keys[slot as int] == key)
    } else {
        None
    }
}

/// Looks `key` up among the live slots.
pub(crate) fn lookup<K: Keyed>(
    index: &PathIndex,
    keys: &K,
    key: &[u8],
    Ghost(live): Ghost<Set<u32>>,
) -> (found: Option<u32>)
    requires
        indexes(*index, keys.keys(), live),
    ensures
        found == slot_of(keys.keys(), live, key@),
        match found {
            Some(slot) => live.contains(slot) && slot < keys.keys().len() && keys.keys()[slot as int]
                == key@,
            None => forall|slot: u32| live.contains(slot) ==> keys.keys()[slot as int] != key@,
        },
{
    let hash = index_hash(index, key);
    assert forall|slot: u32| #[trigger] index_slots(*index).contains_key(slot) implies slot
        < keys.keys().len() by {
        assert(live.contains(slot));
    }
    let found = index_find(index, hash, keys, key);
    proof {
        match found {
            Some(slot) => {
                assert(live.contains(slot));
            },
            None => {
                assert forall|slot: u32| live.contains(slot) implies keys.keys()[slot as int]
                    != key@ by {
                    assert(index_slots(*index).contains_key(slot));
                }
            },
        }
    }
    found
}

/// Files `slot`, whose key the list already holds, in the index.
pub(crate) fn file<K: Keyed>(
    index: &mut PathIndex,
    keys: &K,
    slot: u32,
    Ghost(live): Ghost<Set<u32>>,
)
    requires
        indexes(*old(index), keys.keys(), live),
        !live.contains(slot),
        slot < keys.keys().len(),
        forall|other: u32| live.contains(other) ==> keys.keys()[other as int] != keys.keys()[slot as int],
    ensures
        indexes(*final(index), keys.keys(), live.insert(slot)),
        index_hashes(*final(index)) == index_hashes(*old(index)),
{
    let hash = index_hash(index, keys.key_at(slot));
    index_insert(index, hash, slot);
    assert(index_slots(*index).dom() =~= live.insert(slot));
}

/// Takes the slot that `key` is filed at, which has to be a live one, out
/// of the index.
pub(crate) fn unfile<K: Keyed>(
    index: &mut PathIndex,
    keys: &K,
    key: &[u8],
    Ghost(live): Ghost<Set<u32>>,
    Ghost(slot): Ghost<u32>,
)
    requires
        indexes(*old(index), keys.keys(), live),
        live.contains(slot),
        keys.keys()[slot as int] == key@,
    ensures
        indexes(*final(index), keys.keys(), live.remove(slot)),
        index_hashes(*final(index)) == index_hashes(*old(index)),
{
    let hash = index_hash(index, key);
    assert forall|other: u32| #[trigger] index_slots(*index).contains_key(other) implies other
        < keys.keys().len() by {
        assert(live.contains(other));
    }
    let removed = index_remove(index, hash, keys, key);
    proof {
        match removed {
            Some(other) => {
                assert(live.contains(other));
                assert(other == slot);
            },
            None => {
                assert(index_slots(*old(index)).contains_key(slot));
            },
        }
        assert(index_slots(*index).dom() =~= live.remove(slot));
    }
}

} // verus!
