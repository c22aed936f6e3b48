//! Tables of numbers.

use std::collections::BTreeMap;
use vstd::prelude::*;

verus! {

broadcast use {vstd::std_specs::btree::group_btree_axioms, vstd::laws_cmp::group_laws_cmp};

/// `rows` are the entries of `table`, from the smallest key to the largest.
pub open spec fn rows_of<V>(rows: Seq<(u128, V)>, table: Map<u128, V>) -> bool {
    &&& forall|i: int, j: int|
        #![trigger rows[i], rows[j]]
        0 <= i < j < rows.len() ==> rows[i].0 < rows[j].0
    &&& forall|i: int|
        0 <= i < rows.len() ==> table.contains_key((#[trigger] rows[i]).0) && table[rows[i].0]
            == rows[i].1
    &&& forall|key: u128| #[trigger]
        table.contains_key(key) ==> exists|i: int|
            0 <= i < rows.len() && (#[trigger] rows[i]).0 == key
}

/// Lists the entries of a table.
pub fn list_rows<V: Copy>(table: &BTreeMap<u128, V>) -> (rows: Vec<(u128, V)>)
    ensures
        rows_of(rows@, table@),
{
    let mut rows: Vec<(u128, V)> = Vec::new();
    let entries = table.iter();
    let ghost all = vstd::std_specs::iter::IteratorSpec::remaining(&entries);
    let ghost keys = all.map_values(|kv: (&u128, &V)| *kv.0);
    assert(vstd::std_specs::btree::increasing_seq(keys));
    for entry in it: entries
        invariant
            it.seq() == all,
            rows@.len() == it.index(),
            forall|i: int| 0 <= i < rows@.len() ==> #[trigger] rows@[i] == (*all[i].0, *all[i].1),
    {
        let (key, value) = entry;
        rows.push((*key, *value));
    }
    proof {
        assert forall|i: int, j: int|
            #![trigger rows@[i], rows@[j]]
            0 <= i < j < rows@.len() implies rows@[i].0 < rows@[j].0 by {
            assert(keys[i] == rows@[i].0 && keys[j] == rows@[j].0);
            assert(vstd::std_specs::cmp::OrdSpec::cmp_spec(&keys[i], &keys[j]) is Less);
        }
        assert forall|i: int| 0 <= i < rows@.len() implies table@.contains_key(
            (#[trigger] rows@[i]).0,
        ) && table@[rows@[i].0] == rows@[i].1 by {
            assert(table@.contains_key(*all[i].0));
        }
        assert forall|key: u128| #[trigger] table@.contains_key(key) implies exists|i: int|
            0 <= i < rows@.len() && (#[trigger] rows@[i]).0 == key by {
            assert(all.contains((&key, &table@[key])));
            let i = choose|i: int| 0 <= i < all.len() && all[i] == (&key, &table@[key]);
            assert(rows@[i].0 == key);
        }
    }
    rows
}

} // verus!
