//! Walking hash tables.
use std::collections::HashMap;
use std::hash::Hash;
use vstd::prelude::*;
use vstd::std_specs::hash::obeys_key_model;
use vstd::std_specs::iter::IteratorSpec;

verus! {

/// The pairs of a table, in any order.
pub open spec fn pairs_of<K, V>(pairs: Seq<(K, V)>, m: Map<K, V>) -> bool {
    &&& forall|i: int|
        0 <= i < pairs.len() ==> m.contains_key((#[trigger] pairs[i]).0) && m[pairs[i].0]
            == pairs[i].1
    &&& forall|i: int, j: int|
        0 <= i < j < pairs.len() ==> (#[trigger] pairs[i]).0 != (#[trigger] pairs[j]).0
    &&& forall|k: K| #[trigger]
        m.contains_key(k) ==> exists|i: int| 0 <= i < pairs.len() && (#[trigger] pairs[i]).0 == k
}

/// Lists the pairs of a table.
pub fn table_pairs<K: Copy + Eq + Hash, V: Copy>(m: &HashMap<K, V>) -> (pairs: Vec<(K, V)>)
    requires
        obeys_key_model::<K>(),
    ensures
        pairs_of(pairs@, m@),
{
    broadcast use vstd::std_specs::hash::group_hash_axioms;

    let mut pairs: Vec<(K, V)> = Vec::new();
    for entry in it: m.iter()
        invariant
            it.seq() == m.iter().remaining(),
            it.seq().no_duplicates(),
            pairs@.len() == it.index(),
            forall|i: int|
                0 <= i < pairs@.len() ==> #[trigger] pairs@[i] == (*it.seq()[i].0, *it.seq()[i].1),
    {
        let (k, item) = entry;
        pairs.push((*k, *item));
    }
    proof {
        let v = m.iter().remaining();
        assert forall|i: int| 0 <= i < pairs@.len() implies m@.contains_key((#[trigger] pairs@[i]).0)
            && m@[pairs@[i].0] == pairs@[i].1 by {
            assert(m@.contains_key(*v[i].0));
        }
        assert forall|i: int, j: int| 0 <= i < j < pairs@.len() implies (#[trigger] pairs@[i]).0 != (
        #[trigger] pairs@[j]).0 by {
            assert(m@.contains_key(*v[i].0) && m@.contains_key(*v[j].0));
            assert(v[i] != v[j]);
        }
        assert forall|k: K| #[trigger] m@.contains_key(k) implies exists|i: int|
            0 <= i < pairs@.len() && (#[trigger] pairs@[i]).0 == k by {
            let i = choose|i: int| 0 <= i < v.len() && v[i] == (&k, &m@[k]);
            assert(pairs@[i].0 == k);
        }
    }
    pairs
}

} // verus!
