//! The order in which an ordered map hands out its entries.
use std::collections::BTreeMap;
use vstd::prelude::*;
use vstd::std_specs::cmp::OrdSpec;
use vstd::std_specs::iter::IteratorSpec;

verus! {

/// `entries` lists the entries of `map` by strictly ascending key.
pub open spec fn lists_entries<V>(entries: Seq<(usize, &V)>, map: Map<usize, V>) -> bool {
    &&& entries.len() == map.dom().len()
    &&& forall|i: int|
        0 <= i < entries.len() ==> map.contains_key((#[trigger] entries[i]).0) && map[entries[i].0]
            == *entries[i].1
    &&& forall|i: int, j: int| 0 <= i < j < entries.len() ==> entries[i].0 < entries[j].0
    &&& forall|k: usize| #[trigger]
        map.contains_key(k) ==> exists|i: int|
            0 <= i < entries.len() && (#[trigger] entries[i]).0 == k
}

/// The entries of `map` by ascending key.
pub fn sorted_entries<V>(map: &BTreeMap<usize, V>) -> (entries: Vec<(usize, &V)>)
    ensures
        lists_entries(entries@, map@),
{
    broadcast use vstd::std_specs::btree::group_btree_axioms;

    let mut entries: Vec<(usize, &V)> = Vec::new();
    let ghost full = map.iter().remaining();
    for entry in it: map.iter()
        invariant
            it.seq() == full,
            full == map.iter().remaining(),
            entries@.len() == it.index(),
            forall|i: int|
                0 <= i < entries@.len() ==> (#[trigger] entries@[i]).0 == *full[i].0
                    && entries@[i].1 == full[i].1,
    {
        entries.push((*entry.0, entry.1));
    }
    proof {
        let keys = full.map_values(|kv: (&usize, &V)| *kv.0);
        assert(vstd::std_specs::btree::increasing_seq(keys));
        assert forall|i: int, j: int| 0 <= i < j < entries@.len() implies entries@[i].0
            < entries@[j].0 by {
            assert(keys[i].cmp_spec(&keys[j]) is Less);
        }
        assert forall|i: int| 0 <= i < entries@.len() implies map@.contains_key(
            (#[trigger] entries@[i]).0,
        ) && map@[entries@[i].0] == *entries@[i].1 by {
            assert(map@.contains_key(*full[i].0));
        }
        assert forall|k: usize| #[trigger] map@.contains_key(k) implies exists|i: int|
            0 <= i < entries@.len() && (#[trigger] entries@[i]).0 == k by {
            assert(full.contains((&k, &map@[k])));
            let i = choose|i: int| 0 <= i < full.len() && full[i] == (&k, &map@[k]);
            assert(entries@[i].0 == k);
        }
    }
    entries
}

} // verus!
