//! Walking a hash set in verified code.

use std::collections::HashSet;
use std::hash::Hash;
use vstd::prelude::*;
use vstd::std_specs::hash::obeys_key_model;

verus! {

/// The members of `set`, each exactly once, in the order in which the set
/// hands them out.
pub fn members<K: Copy + Eq + Hash>(set: &HashSet<K>) -> (out: Vec<K>)
    requires
        obeys_key_model::<K>(),
    ensures
        out@.no_duplicates(),
        out@.to_set() == set@,
        out@.len() == set@.len(),
{
    broadcast use vstd::std_specs::hash::group_hash_axioms;

    let mut out: Vec<K> = Vec::new();
    for k in iter: set.iter()
        invariant
            iter.seq().no_duplicates(),
            iter.seq().len() == set@.len(),
            iter.seq().unref().to_set() == set@,
            out@ == iter.seq().unref().take(iter.index()),
            iter.index() == iter.seq().len() ==> out@ == iter.seq().unref(),
    {
        out.push(*k);
        assert(out@ =~= iter.seq().unref().take(iter.index() + 1));
        assert(iter.index() + 1 == iter.seq().len() ==> out@ == iter.seq().unref()) by {
            if iter.index() + 1 == iter.seq().len() {
                assert(iter.seq().unref().take(iter.index() + 1) =~= iter.seq().unref());
            }
        }
    }
    out
}

} // verus!
