//! Listing the ids of a waiter table.

use vstd::prelude::*;
use std::collections::HashMap;
use vstd::std_specs::iter::IteratorSpec;

verus! {

broadcast use vstd::std_specs::hash::group_hash_axioms;

/// The ids in the table, each once, in the table's own iteration order.
pub fn keys_of<V>(m: &HashMap<usize, V>) -> (ks: Vec<usize>)
    ensures
        ks@.no_duplicates(),
        ks@.to_set() == m@.dom(),
{
    let mut ks: Vec<usize> = Vec::new();
    let ghost all: Seq<usize> = m.keys().remaining().unref();
    for k in it: m.keys()
        invariant
            it.seq().unref() == all,
            ks@ == all.take(it.index() as int),
    {
        ks.push(*k);
        proof {
            assert(all.take(it.index() + 1) =~= ks@);
        }
    }
    proof {
        assert(ks@ =~= all);
    }
    ks
}

} // verus!
