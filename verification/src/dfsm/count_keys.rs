//! The keys of a map keyed by message count, in increasing order.

use vstd::prelude::*;
use std::collections::BTreeMap;
use vstd::std_specs::cmp::OrdSpec;

verus! {

broadcast use {vstd::std_specs::btree::group_btree_axioms, vstd::laws_cmp::group_laws_cmp};

proof fn lemma_increasing_keys(ks: Seq<u64>)
    requires
        vstd::std_specs::btree::increasing_seq(ks),
    ensures
        forall|i: int, j: int| 0 <= i < j < ks.len() ==> ks[i] < ks[j],
{
    assert forall|i: int, j: int| 0 <= i < j < ks.len() implies ks[i] < ks[j] by {
        assert(ks[i].cmp_spec(&ks[j]) is Less);
    }
}

/// The keys of a map, in increasing order.
pub fn sorted_keys<V>(m: &BTreeMap<u64, V>) -> (r: Vec<u64>)
    ensures
        r@.len() == m@.dom().len(),
        forall|i: int, j: int| 0 <= i < j < r@.len() ==> r@[i] < r@[j],
        forall|k: u64| m@.contains_key(k) <==> r@.contains(k),
{
    let mut out: Vec<u64> = Vec::new();
    let i0 = m.iter();
    let ghost s = vstd::std_specs::iter::IteratorSpec::remaining(&i0);
    let ghost ks = s.map_values(|kv: (&u64, &V)| *kv.0);
    assert(vstd::std_specs::btree::increasing_seq(ks));
    for kv in it: i0
        invariant
            it.seq() == s,
            ks == s.map_values(|kv: (&u64, &V)| *kv.0),
            out@ == ks.take(it.index() as int),
    {
        out.push(*kv.0);
        assert(out@ =~= ks.take(it.index() + 1));
    }
    proof {
        assert(out@ =~= ks);
        lemma_increasing_keys(ks);
        assert forall|k: u64| m@.contains_key(k) <==> out@.contains(k) by {
            if m@.contains_key(k) {
                assert(s.contains((&k, &m@[k])));
                let i = choose|i: int| 0 <= i < s.len() && s[i] == (&k, &m@[k]);
                assert(ks[i] == k);
            }
            if out@.contains(k) {
                let i = choose|i: int| 0 <= i < out@.len() && out@[i] == k;
                assert(m@.contains_key(*s[i].0));
            }
        }
    }
    out
}

} // verus!
