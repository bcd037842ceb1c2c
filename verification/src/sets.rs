//! Sets of parameter ordinals, kept in a `BTreeSet<u32>`, and their
//! ascending listing.

use vstd::prelude::*;
use std::collections::BTreeSet;
use crate::provenance::lists_set;
use vstd::std_specs::iter::IteratorSpec;
use vstd::std_specs::cmp::OrdSpec;

verus! {

/// Adds `x` to the set.
pub fn ordinal_set_insert(s: &mut BTreeSet<u32>, x: u32)
    ensures
        final(s)@ == old(s)@.insert(x),
{
    proof {
        broadcast use vstd::laws_cmp::group_laws_cmp;
    }
    s.insert(x);
}

/// The elements of the set in ascending order.
pub fn ordinal_set_list(s: &BTreeSet<u32>) -> (r: Vec<u32>)
    ensures
        lists_set(r@, s@),
{
    proof {
        broadcast use vstd::laws_cmp::group_laws_cmp;
        broadcast use vstd::std_specs::btree::group_btree_axioms;
    }
    let mut r: Vec<u32> = Vec::new();
    for x in it: s.iter()
        invariant
            r@.len() == it.index(),
            forall|i: int| 0 <= i < r@.len() ==> r@[i] == *it.seq()[i],
    {
        r.push(*x);
    }
    proof {
        broadcast use vstd::laws_cmp::group_laws_cmp;
        broadcast use vstd::std_specs::btree::group_btree_axioms;
        let keys = vstd::std_specs::btree::spec_btree_keys_iter(s).remaining();
        assert(r@ =~= keys.unref());
        assert(vstd::std_specs::btree::increasing_seq(keys));
        assert(vstd::laws_cmp::obeys_cmp::<u32>());
        assert(vstd::laws_cmp::obeys_cmp::<&u32>());
        vstd::std_specs::btree::axiom_increasing_seq_meaning::<&u32>(keys);
        assert forall|i: int, j: int| 0 <= i < j < r@.len() implies #[trigger] r@[i] < #[trigger] r@[j] by {
            assert(OrdSpec::cmp_spec(&keys[i], &keys[j]) is Less);
        }
        assert(keys.unref().to_set() == s@);
        assert forall|o: u32| #[trigger] r@.contains(o) <==> s@.contains(o) by {
            assert(keys.unref().to_set().contains(o) <==> keys.unref().contains(o));
        }
    }
    r
}

} // verus!
