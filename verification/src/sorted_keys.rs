//! The keys of an ordered map, lowest first.

use vstd::prelude::*;
use std::collections::BTreeMap;
use vstd::std_specs::iter::IteratorSpec;

verus! {

/// Lists the keys of `m` in increasing order.
pub fn ascending_keys<V>(m: &BTreeMap<u64, V>) -> (r: Vec<u64>)
    ensures
        r@.len() == m@.dom().len(),
        forall|i: int, j: int| 0 <= i < j < r@.len() ==> r@[i] < r@[j],
        forall|i: int| 0 <= i < r@.len() ==> #[trigger] m@.contains_key(r@[i]),
        forall|k: u64| #[trigger] m@.contains_key(k) ==> r@.contains(k),
{
    let mut r: Vec<u64> = Vec::new();
    let keys = m.keys();
    let ghost s = IteratorSpec::remaining(&keys);
    for k in it: keys
        invariant
            r@.len() == it.index(),
            it.seq() == s,
            forall|i: int| 0 <= i < r@.len() ==> r@[i] == *s[i],
    {
        r.push(*k);
    }
    proof {
        let ks = s.unref();
        assert(ks.len() == r@.len());
        assert(ks =~= r@) by {
            assert forall|i: int| 0 <= i < ks.len() implies ks[i] == r@[i] by {}
        }
        assert(vstd::std_specs::btree::increasing_seq(s));
        assert forall|i: int, j: int| 0 <= i < j < r@.len() implies r@[i] < r@[j] by {
            assert(vstd::laws_cmp::obeys_cmp::<u64>());
            assert(vstd::std_specs::cmp::OrdSpec::cmp_spec(&s[i], &s[j]) is Less);
        }
        assert forall|i: int| 0 <= i < r@.len() implies #[trigger] m@.contains_key(r@[i]) by {
            assert(ks.to_set().contains(ks[i]));
        }
        assert forall|k: u64| #[trigger] m@.contains_key(k) implies r@.contains(k) by {
            assert(ks.to_set().contains(k));
        }
    }
    r
}

} // verus!
