//! Enumerations of the vertices and edges of a graph.

pub mod buffer;
pub mod detailed;
pub mod graph;
pub mod laws;
pub mod tree;

use std::collections::HashSet;
use vstd::prelude::*;
use vstd::std_specs::hash::spec_hash_keys_iter;
use vstd::std_specs::iter::IteratorSpec;

verus! {

broadcast use vstd::std_specs::hash::group_hash_axioms;

/// Adds every id of `source` to `target`.
pub fn extend(target: &mut HashSet<usize>, source: &HashSet<usize>)
    ensures
        final(target)@ == old(target)@.union(source@),
{
    let ghost start = target@;
    for id in it: source.iter()
        invariant
            it.seq() == spec_hash_keys_iter(source).remaining(),
            start.subset_of(target@),
            forall|i: int| 0 <= i < it.index() ==> target@.contains(*(#[trigger] it.seq()[i])),
            forall|x: usize| #[trigger]
                target@.contains(x) ==> start.contains(x) || source@.contains(x),
    {
        proof {
            let keys = it.seq().unref();
            assert(keys[it.index()] == *id);
            assert(keys.contains(*id));
            assert(keys.to_set().contains(*id));
        }
        target.insert(*id);
    }
    proof {
        let keys = spec_hash_keys_iter(source).remaining();
        assert(keys.unref().to_set() == source@);
        assert forall|x: usize| source@.contains(x) implies target@.contains(x) by {
            assert(keys.unref().to_set().contains(x));
            assert(keys.unref().contains(x));
            let i = choose|i: int| 0 <= i < keys.unref().len() && keys.unref()[i] == x;
            assert(*keys[i] == x);
        }
        assert(target@ =~= start.union(source@));
    }
}

} // verus!
