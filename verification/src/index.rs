//! The index of the entity store: a `VecMap` from an entity's id to the
//! position of its slot. The map is the `vec_map` crate's; what this module
//! states of it is taken from that crate's source and is not proved here.

use vec_map::VecMap;
use vstd::prelude::*;

verus! {

#[verifier::external_type_specification]
#[verifier::external_body]
#[verifier::reject_recursive_types(V)]
pub struct ExVecMap<V>(VecMap<V>);

/// What an index holds: the position stored under each key.
pub uninterp spec fn index_entries(index: VecMap<usize>) -> Map<usize, usize>;

/// The keys that an index takes. The map keeps one slot for each key up to
/// the largest, in a vector that may grow to twice what is asked of it; with
/// this bound that vector stays below the size that a vector can have.
pub open spec fn key_fits(key: int) -> bool {
    0 <= key && (key + 1) * 32 <= isize::MAX
}

/// The position that `entries` holds under `key`, if any.
pub open spec fn lookup(entries: Map<usize, usize>, key: usize) -> Option<usize> {
    if entries.dom().contains(key) {
        Some(entries[key])
    } else {
        None
    }
}

/// `VecMap::with_capacity`: a map that holds nothing. The room is taken at
/// once, so it has to be room that a vector can have.
#[verifier::external_body]
pub(crate) fn index_with_capacity(capacity: usize) -> (index: VecMap<usize>)
    requires
        capacity * 32 <= isize::MAX,
    ensures
        index_entries(index).dom() == Set::<usize>::empty(),
{
    VecMap::with_capacity(capacity)
}

/// `VecMap::get`: the value under `key`, or `None` where the map has no
/// such key. The map hands out a reference; this copies the position.
#[verifier::external_body]
pub(crate) fn index_get(index: &VecMap<usize>, key: usize) -> (position: Option<usize>)
    ensures
        position == lookup(index_entries(*index), key),
{
    index.get(key).copied()
}

/// `VecMap::insert`: afterwards the map holds `position` under `key` and is
/// otherwise as before; the value that was under `key` is returned. The
/// map grows its vector to `key + 1` slots, so the key has to fit.
#[verifier::external_body]
pub(crate) fn index_insert(index: &mut VecMap<usize>, key: usize, position: usize) -> (previous:
    Option<usize>)
    requires
        key_fits(key as int),
    ensures
        index_entries(*final(index)) == index_entries(*old(index)).insert(key, position),
        previous == lookup(index_entries(*old(index)), key),
{
    index.insert(key, position)
}

/// `VecMap::remove`: afterwards the map has no `key` and is otherwise as
/// before; the value that was under `key` is returned.
#[verifier::external_body]
pub(crate) fn index_remove(index: &mut VecMap<usize>, key: usize) -> (previous: Option<usize>)
    ensures
        index_entries(*final(index)) == index_entries(*old(index)).remove(key),
        previous == lookup(index_entries(*old(index)), key),
{
    index.remove(key)
}

/// `VecMap::keys`: the keys of the map, each once, in ascending order.
#[verifier::external_body]
pub(crate) fn index_keys(index: &VecMap<usize>) -> (keys: Vec<usize>)
    ensures
        (forall|i: int, j: int| 0 <= i < j < keys@.len() ==> keys@[i] < keys@[j]),
        (forall|key: usize| keys@.contains(key) <==> index_entries(*index).dom().contains(key)),
{
    index.keys().collect()
}

} // verus!
