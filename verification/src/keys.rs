//! Key lists of hash maps.

use vstd::prelude::*;
use std::collections::HashMap;
use std::hash::Hash;

verus! {

/// The keys of a map, each once, in no particular order.
pub fn map_keys<K: Copy + Eq + Hash, V>(m: &HashMap<K, V>) -> (r: Vec<K>)
    requires
        vstd::std_specs::hash::obeys_key_model::<K>(),
    ensures
        r@.no_duplicates(),
        r@.to_set() == m@.dom(),
{
    let mut out: Vec<K> = Vec::new();
    for k in it: m.keys()
        invariant
            it.seq().unref().to_set() == m@.dom(),
            it.seq().no_duplicates(),
            out@.len() == it.index(),
            forall|i: int| 0 <= i < out@.len() ==> out@[i] == *it.seq()[i],
            it.index() == it.seq().len() ==> out@ =~= it.seq().unref(),
    {
        out.push(*k);
    }
    out
}

} // verus!
