//! The properties of one bag, by their keys.
use std::collections::BTreeMap;

use vstd::laws_cmp::group_laws_cmp;
use vstd::prelude::*;
use vstd::std_specs::btree::{group_btree_axioms, increasing_seq};
use vstd::std_specs::cmp::OrdSpec;
use vstd::std_specs::iter::IteratorSpec;

use crate::prop_block::PropValue;
use crate::prop_model::{ascending, Bag, ValueView};

verus! {

/// The bag that a list of properties holds.
pub open spec fn bag_of(entries: Seq<(u32, &PropValue)>) -> Bag {
    entries.map_values(|e: (u32, &PropValue)| (e.0, e.1@))
}

/// The bag lists the properties of the map, ascending by key.
pub open spec fn lists_map(bag: Bag, map: Map<u32, PropValue>) -> bool {
    &&& ascending(bag)
    &&& forall|k: u32, v: ValueView| #[trigger]
        bag.contains((k, v)) <==> map.contains_key(k) && map[k]@ == v
}

/// The bag that a map of properties holds.
pub open spec fn bag_in(map: Map<u32, PropValue>) -> Bag {
    choose|bag: Bag| lists_map(bag, map)
}

/// Puts a property under its key.
pub(crate) fn put_entry(map: &mut BTreeMap<u32, PropValue>, key: u32, value: PropValue)
    ensures
        final(map)@ == old(map)@.insert(key, value),
{
    broadcast use {group_btree_axioms, group_laws_cmp};

    map.insert(key, value);
}

/// Every property of the map, ascending by key.
pub(crate) fn list_entries(map: &BTreeMap<u32, PropValue>) -> (out: Vec<(u32, &PropValue)>)
    ensures
        lists_map(bag_of(out@), map@),
        out@.len() == map@.len(),
{
    broadcast use {group_btree_axioms, group_laws_cmp};

    let mut out: Vec<(u32, &PropValue)> = Vec::new();
    let items = map.iter();
    let ghost all = items.remaining();
    for item in it: items
        invariant
            it.seq() == all,
            out@.len() == it.index(),
            forall|j: int|
                0 <= j < out@.len() ==> #[trigger] out@[j] == (*all[j].0, all[j].1),
    {
        out.push((*item.0, item.1));
    }
    proof {
        let bag = bag_of(out@);
        assert(out@.len() == all.len());
        let keys = all.map_values(|kv: (&u32, &PropValue)| *kv.0);
        assert forall|i: int, j: int| #![trigger bag[i], bag[j]] 0 <= i < j < bag.len() implies bag[i].0
            < bag[j].0 by {
            assert(increasing_seq(keys));
            assert(keys[i] == bag[i].0 && keys[j] == bag[j].0);
            assert(keys[i].cmp_spec(&keys[j]) is Less);
        }
        assert forall|k: u32, v: ValueView| #[trigger] bag.contains((k, v)) <==> map@.contains_key(k)
            && map@[k]@ == v by {
            if bag.contains((k, v)) {
                let i = choose|i: int| 0 <= i < bag.len() && bag[i] == (k, v);
                assert(map@.contains_key(*all[i].0));
            }
            if map@.contains_key(k) && map@[k]@ == v {
                assert(all.contains((&k, &map@[k])));
                let i = choose|i: int| 0 <= i < all.len() && all[i] == (&k, &map@[k]);
                assert(bag[i] == (k, v));
            }
        }
    }
    out
}

/// The place behind the last key below `key`.
spec fn place_for(bag: Bag, key: u32) -> int
    decreases bag.len(),
{
    if bag.len() == 0 {
        0
    } else if bag.last().0 < key {
        bag.len() as int
    } else {
        place_for(bag.drop_last(), key)
    }
}

proof fn lemma_place(bag: Bag, key: u32)
    requires
        ascending(bag),
        forall|j: int| 0 <= j < bag.len() ==> #[trigger] bag[j].0 != key,
    ensures
        0 <= place_for(bag, key) <= bag.len(),
        forall|j: int| 0 <= j < place_for(bag, key) ==> #[trigger] bag[j].0 < key,
        forall|j: int| place_for(bag, key) <= j < bag.len() ==> #[trigger] bag[j].0 > key,
    decreases bag.len(),
{
    if bag.len() > 0 {
        let rest = bag.drop_last();
        let n = bag.len() - 1;
        if bag[n].0 < key {
            assert forall|j: int| 0 <= j < bag.len() implies #[trigger] bag[j].0 < key by {
                if j < n {
                    assert(bag[j].0 < bag[n].0);
                }
            }
        } else {
            assert forall|j: int| 0 <= j < rest.len() implies #[trigger] rest[j].0 != key by {
                assert(bag[j].0 != key);
            }
            assert(ascending(rest)) by {
                assert forall|i: int, j: int|
                    #![trigger rest[i], rest[j]]
                    0 <= i < j < rest.len() implies rest[i].0 < rest[j].0 by {
                    assert(bag[i].0 < bag[j].0);
                }
            }
            lemma_place(rest, key);
            assert forall|j: int| 0 <= j < place_for(bag, key) implies #[trigger] bag[j].0
                < key by {
                assert(rest[j].0 < key);
            }
            assert forall|j: int| place_for(bag, key) <= j < bag.len() implies #[trigger] bag[j].0
                > key by {
                if j < n {
                    assert(rest[j].0 > key);
                }
            }
        }
    }
}

/// Inserting a new key at its place.
proof fn lemma_bag_insert(bag: Bag, i: int, key: u32, v: ValueView)
    requires
        ascending(bag),
        0 <= i <= bag.len(),
        forall|j: int| 0 <= j < i ==> #[trigger] bag[j].0 < key,
        forall|j: int| i <= j < bag.len() ==> #[trigger] bag[j].0 > key,
    ensures
        ascending(bag.insert(i, (key, v))),
        forall|k: u32, w: ValueView|
            bag.insert(i, (key, v)).contains((k, w)) <==> if k == key {
                w == v
            } else {
                bag.contains((k, w))
            },
{
    let after = bag.insert(i, (key, v));
    assert forall|k: u32, w: ValueView|
        after.contains((k, w)) <==> if k == key {
            w == v
        } else {
            bag.contains((k, w))
        } by {
        if after.contains((k, w)) {
            let j = choose|j: int| 0 <= j < after.len() && after[j] == (k, w);
            if j < i {
                assert(bag[j] == (k, w));
            } else if j > i {
                assert(bag[j - 1] == (k, w));
            }
        }
        if k == key {
            assert(after[i] == (key, v));
        } else if bag.contains((k, w)) {
            let j = choose|j: int| 0 <= j < bag.len() && bag[j] == (k, w);
            if j < i {
                assert(after[j] == (k, w));
            } else {
                assert(after[j + 1] == (k, w));
            }
        }
    }
}

/// Every finite map of properties is listed by one bag.
pub(crate) proof fn lemma_bag_exists(map: Map<u32, PropValue>)
    requires
        map.dom().finite(),
    ensures
        lists_map(bag_in(map), map),
    decreases map.dom().len(),
{
    if map.dom().len() == 0 {
        let bag: Bag = Seq::empty();
        assert(lists_map(bag, map));
    } else {
        let key = map.dom().choose();
        let rest = map.remove(key);
        assert(rest.dom() =~= map.dom().remove(key));
        lemma_bag_exists(rest);
        let bag = bag_in(rest);
        assert forall|j: int| 0 <= j < bag.len() implies #[trigger] bag[j].0 != key by {
            assert(bag.contains((bag[j].0, bag[j].1)));
        }
        lemma_place(bag, key);
        lemma_bag_insert(bag, place_for(bag, key), key, map[key]@);
        let all = bag.insert(place_for(bag, key), (key, map[key]@));
        assert forall|k: u32, v: ValueView| #[trigger] all.contains((k, v)) <==> map.contains_key(k)
            && map[k]@ == v by {
            assert(bag.contains((k, v)) <==> rest.contains_key(k) && rest[k]@ == v);
        }
        assert(lists_map(all, map));
    }
}

/// A bag is as long as the map that it lists.
pub(crate) proof fn lemma_bag_len(bag: Bag, map: Map<u32, PropValue>)
    requires
        lists_map(bag, map),
    ensures
        bag.len() == map.len(),
{
    let keys = bag.map_values(|e: (u32, ValueView)| e.0);
    assert(keys.no_duplicates()) by {
        assert forall|i: int, j: int| 0 <= i < j < keys.len() implies keys[i] != keys[j] by {
            assert(bag[i].0 < bag[j].0);
        }
    }
    assert(keys.to_set() =~= map.dom()) by {
        assert forall|k: u32| #[trigger] keys.to_set().contains(k) <==> map.dom().contains(k) by {
            if keys.contains(k) {
                let i = choose|i: int| 0 <= i < keys.len() && keys[i] == k;
                assert(bag.contains((bag[i].0, bag[i].1)));
            }
            if map.contains_key(k) {
                assert(bag.contains((k, map[k]@)));
                let i = choose|i: int| 0 <= i < bag.len() && bag[i] == (k, map[k]@);
                assert(keys[i] == k);
            }
        }
    }
    keys.unique_seq_to_set();
}

} // verus!
