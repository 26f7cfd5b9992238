//! Listing the keys of hash maps and the members of hash sets.
use std::collections::HashMap;
use std::collections::HashSet;
use vstd::prelude::*;
use vstd::std_specs::iter::IteratorSpec;

verus! {

broadcast use vstd::std_specs::hash::group_hash_axioms;

/// The keys of a map, each once, in the map's iteration order.
pub fn keys_of<K: Copy, V>(m: &HashMap<K, V>) -> (r: Vec<K>)
    requires
        vstd::std_specs::hash::obeys_key_model::<K>(),
    ensures
        r@.no_duplicates(),
        r@.to_set() == m@.dom(),
        r@.len() == m@.dom().len(),
{
    let ghost all = m.keys().remaining().map_values(|x: &K| *x);
    proof {
        assert(all == m.keys().remaining().unref());
    }
    let mut r: Vec<K> = Vec::new();
    for k in it: m.keys()
        invariant
            r@ == it.seq().take(it.index() as int).map_values(|x: &K| *x),
            it.seq().map_values(|x: &K| *x) == all,
    {
        r.push(*k);
    }
    proof {
        assert(r@ =~= all);
        assert(m.keys().remaining().unref().to_set() == m@.dom());
    }
    r
}

/// The members of a set, each once, in the set's iteration order.
pub fn members_of(s: &HashSet<u64>) -> (r: Vec<u64>)
    ensures
        r@.no_duplicates(),
        r@.to_set() == s@,
        r@.len() == s@.len(),
{
    let ghost all = s.iter().remaining().map_values(|x: &u64| *x);
    proof {
        assert(all == s.iter().remaining().unref());
    }
    let mut r: Vec<u64> = Vec::new();
    for k in it: s.iter()
        invariant
            r@ == it.seq().take(it.index() as int).map_values(|x: &u64| *x),
            it.seq().map_values(|x: &u64| *x) == all,
    {
        r.push(*k);
    }
    proof {
        assert(r@ =~= all);
        assert(s.iter().remaining().unref().to_set() == s@);
    }
    r
}

} // verus!
