//! What the pages of the primary index hold and what the operations on them do,
//! said by the bytes of the pages.
use vstd::prelude::*;

use crate::codec::{group_codec, lemma_u64_at_same, u16_at, u64_at};
use crate::ids::PageId;
use crate::index_model::{
    dead_at, decode_key, key_bytes, key_lt, law_key_round_trip, law_value_round_trip, lemma_rank,
    lemma_rank_is, lemma_rank_le_is, rank, value_at, value_bytes, IndexError, IndexFault, PageSlot,
    PrimaryKey,
};
use crate::index_nodes::{
    entries, fresh_index_page, index_header, keys_of, leaf_attach, leaf_find, leaf_high, leaf_low,
    leaf_ok, leaf_put, leaf_set, leaf_sorted, lemma_fresh_pages, lemma_leaf_find,
    lemma_leaf_halves, lemma_leaf_key, lemma_leaf_put, lemma_leaf_set, lemma_node_halves,
    lemma_node_key, lemma_node_put, lemma_node_scan, node_attach, node_high, node_low, node_ok,
    node_rows, node_scan, node_sorted, pairs, seps_of, Found, LeafEntry,
};
use crate::index_page::{
    find_child_result, leaf_insert_result, leaf_remove_result, leaf_upsert_result,
    node_insert_result,
};
use crate::index_rows::{count_of, row_start};
use crate::page::{
    decode_header, header_bytes, law_header_round_trip, page_type_byte, PageType,
};
use crate::page_laws::law_header_layout;
use crate::primary_index::{leaf_lookup, lemma_find_child, lemma_leaf_lookup};
use crate::redo_laws::lemma_header_same;
use crate::slot_model::SlotId;
use crate::tree_laws::{
    lemma_entries_halves, lemma_entries_insert, lemma_entries_update, lemma_entry_for,
};
use crate::tree_model::{entry_for, live_value};

verus! {

broadcast use group_codec;

// ---- keys and values ------------------------------------------------------

/// Keys go by tenant, then nodes before relationships, then by number.
pub proof fn law_key_precedence(a: PrimaryKey, b: PrimaryKey)
    ensures
        a.tenant.0 < b.tenant.0 ==> key_lt(a, b) && !key_lt(b, a),
        a.tenant == b.tenant && a.kind is Node && b.kind is Rel ==> key_lt(a, b) && !key_lt(b, a),
        a.tenant == b.tenant && a.kind == b.kind ==> (key_lt(a, b) <==> a.id < b.id),
{
}

/// Where the parts of a key and of a value stand in their bytes.
pub proof fn law_key_and_value_layout(k: PrimaryKey, v: PageSlot, dead: bool)
    ensures
        ({
            let b = key_bytes(k);
            &&& b.len() == 24
            &&& u64_at(b, 0) == k.tenant.0
            &&& b[8] == (if k.kind is Node {
                0u8
            } else {
                1u8
            })
            &&& forall|j: int| 9 <= j < 16 ==> #[trigger] b[j] == 0
            &&& u64_at(b, 16) == k.id
        }),
        ({
            let b = value_bytes(v, dead);
            &&& b.len() == 16
            &&& u64_at(b, 0) == v.page.0
            &&& u16_at(b, 8) == v.slot.0
            &&& b[10] == (if dead {
                1u8
            } else {
                0u8
            })
            &&& forall|j: int| 11 <= j < 16 ==> #[trigger] b[j] == 0
        }),
{
    law_key_round_trip(k);
    law_value_round_trip(v, dead);
}

/// The key that bytes hold: only the kinds zero and one are known.
pub proof fn law_key_reading(b: Seq<u8>, at: int)
    ensures
        decode_key(b, at) is Ok <==> b[at + 8] <= 1,
        decode_key(b, at) matches Ok(k) ==> {
            &&& k.tenant.0 == u64_at(b, at)
            &&& k.kind is Node <==> b[at + 8] == 0
            &&& k.id == u64_at(b, at + 16)
        },
        b[at + 8] > 1 ==> decode_key(b, at) == Err::<PrimaryKey, IndexError>(
            IndexError::CorruptPage {
                page_id: PageId(0),
                reason: IndexFault::UnknownKind { got: b[at + 8] },
            },
        ),
{
}

// ---- pages ----------------------------------------------------------------

/// Which pages are taken for a leaf and for an inner page, and what is said of the
/// others.
pub proof fn law_attach(b: Seq<u8>)
    ensures
        leaf_attach(b) is Ok <==> decode_header(b) is Ok && b[5] == 5,
        node_attach(b) is Ok <==> decode_header(b) is Ok && b[5] == 6,
        decode_header(b) matches Err(e) ==> leaf_attach(b) == Err::<(), IndexError>(
            IndexError::Core(e),
        ) && node_attach(b) == Err::<(), IndexError>(IndexError::Core(e)),
        decode_header(b) is Ok && b[5] != 5 ==> leaf_attach(b) == Err::<(), IndexError>(
            IndexError::CorruptPage {
                page_id: PageId(u64_at(b, 8)),
                reason: IndexFault::NotLeaf { got: b[5] },
            },
        ),
        decode_header(b) is Ok && b[5] != 6 ==> node_attach(b) == Err::<(), IndexError>(
            IndexError::CorruptPage {
                page_id: PageId(u64_at(b, 8)),
                reason: IndexFault::NotInternal { got: b[5] },
            },
        ),
{
}

/// Where the entries of a leaf and the pairs of an inner page stand on the page.
pub proof fn law_row_layout(b: Seq<u8>, i: int)
    requires
        0 <= i < count_of(b),
    ensures
        count_of(b) == u16_at(b, 36),
        leaf_ok(b) ==> entries(b).len() == u16_at(b, 36) && u16_at(b, 36) <= 203 && {
            let at = 40 + 40 * i;
            let e = entries(b)[i];
            &&& e.key.tenant.0 == u64_at(b, at)
            &&& e.key.kind is Node <==> b[at + 8] == 0
            &&& e.key.id == u64_at(b, at + 16)
            &&& e.value.page.0 == u64_at(b, at + 24)
            &&& e.value.slot.0 == u16_at(b, at + 32)
            &&& e.dead <==> b[at + 34] != 0
        },
        node_ok(b) ==> pairs(b).len() == u16_at(b, 36) && u16_at(b, 36) <= 254 && {
            let at = 48 + 32 * i;
            let p = pairs(b)[i];
            &&& p.0.tenant.0 == u64_at(b, at)
            &&& p.0.kind is Node <==> b[at + 8] == 0
            &&& p.0.id == u64_at(b, at + 16)
            &&& p.1 == u64_at(b, at + 24)
        },
{
    if leaf_ok(b) {
        lemma_leaf_key(b, i);
    }
    if node_ok(b) {
        lemma_node_key(b, i);
    }
}

/// A fresh page of the index is empty and names its number and its type.
pub proof fn law_fresh_index_page(page_id: u64, page_type: PageType)
    ensures
        ({
            let b = fresh_index_page(page_id, page_type);
            &&& b.len() == 8192
            &&& decode_header(b) is Ok
            &&& b[5] == page_type_byte(page_type)
            &&& u16_at(b, 6) == 0
            &&& u64_at(b, 8) == page_id
            &&& u64_at(b, 16) == 0
            &&& u64_at(b, 24) == 0
            &&& u16_at(b, 36) == 0
            &&& page_type is IndexLeaf ==> leaf_sorted(b) && entries(b).len() == 0
            &&& forall|k: int| 40 <= k < 8192 ==> #[trigger] b[k] == 0
        }),
{
    lemma_fresh_pages(page_id, 0);
    law_header_round_trip(index_header(page_id, page_type, 0));
    lemma_new_header(fresh_index_page(page_id, page_type), page_id, page_type, 0);
}

// ---- looking up -----------------------------------------------------------

/// In a leaf in order a lookup finds the value of the entry with the key, unless it
/// was removed.
pub proof fn law_leaf_lookup(b: Seq<u8>, key: PrimaryKey, i: int)
    requires
        leaf_sorted(b),
        0 <= i < u16_at(b, 36),
        entries(b)[i].key == key,
    ensures
        leaf_lookup(b, key) == Ok::<Option<PageSlot>, IndexError>(
            if b[40 + 40 * i + 34] != 0 {
                None
            } else {
                Some(
                    PageSlot {
                        page: PageId(u64_at(b, 40 + 40 * i + 24)),
                        slot: SlotId(u16_at(b, 40 + 40 * i + 32)),
                    },
                )
            },
        ),
{
    lemma_leaf_lookup(b, key);
    lemma_entry_for(entries(b), key);
    law_row_layout(b, i);
}

/// In a leaf in order a key that no entry has is not found.
pub proof fn law_leaf_lookup_of_absent_key(b: Seq<u8>, key: PrimaryKey)
    requires
        leaf_sorted(b),
        forall|i: int| 0 <= i < u16_at(b, 36) ==> (#[trigger] entries(b)[i]).key != key,
    ensures
        leaf_lookup(b, key) == Ok::<Option<PageSlot>, IndexError>(None),
        leaf_find(b, key) matches Ok(Found::Before(_)),
{
    lemma_leaf_lookup(b, key);
    lemma_leaf_find(b, key);
    lemma_entry_for(entries(b), key);
}

/// In an inner page in order the child of a key is that of the last pair whose key
/// is not above it, or the first child where there is none.
pub proof fn law_child_of_a_key(b: Seq<u8>, key: PrimaryKey, i: int)
    requires
        node_sorted(b),
        0 <= i <= u16_at(b, 36),
        i > 0 ==> !key_lt(key, pairs(b)[i - 1].0),
        i < u16_at(b, 36) ==> key_lt(key, pairs(b)[i].0),
    ensures
        find_child_result(b, key) == Ok::<PageId, IndexError>(
            if i == 0 {
                PageId(u64_at(b, 40))
            } else {
                PageId(u64_at(b, 48 + 32 * (i - 1) + 24))
            },
        ),
{
    lemma_find_child(b, key);
    let s = seps_of(pairs(b));
    if i > 0 {
        assert(s[i - 1] == pairs(b)[i - 1].0);
        law_row_layout(b, i - 1);
    }
    if i < s.len() {
        assert(s[i] == pairs(b)[i].0);
    }
    lemma_rank_le_is(s, key, i);
}

// ---- writing to a leaf ----------------------------------------------------

/// The leaf has an entry with this key, removed or not.
pub open spec fn has_key(b: Seq<u8>, key: PrimaryKey) -> bool {
    exists|i: int| 0 <= i < u16_at(b, 36) && (#[trigger] entries(b)[i]).key == key
}

proof fn lemma_has_key(b: Seq<u8>, key: PrimaryKey)
    requires
        leaf_sorted(b),
    ensures
        has_key(b, key) <==> entry_for(entries(b), key) is Some,
{
    lemma_entry_for(entries(b), key);
    if has_key(b, key) {
        let i = choose|i: int| 0 <= i < u16_at(b, 36) && (#[trigger] entries(b)[i]).key == key;
        assert(entry_for(entries(b), key) == Some(entries(b)[i]));
    }
    if entry_for(entries(b), key) is Some {
        let e = entry_for(entries(b), key)->Some_0;
        let i = choose|i: int| 0 <= i < entries(b).len() && entries(b)[i] == e;
        assert(entries(b)[i].key == key);
    }
}

/// An insert gives a key without a live value its value and leaves every other key
/// as it is. A key with a live value is refused, and so is a new key on a full
/// leaf; the leaf stays as it is then.
pub proof fn law_leaf_insert(b: Seq<u8>, key: PrimaryKey, value: PageSlot, other: PrimaryKey)
    requires
        leaf_sorted(b),
    ensures
        ({
            let (c, r) = leaf_insert_result(b, key, value);
            let live = leaf_lookup(b, key) != Ok::<Option<PageSlot>, IndexError>(None);
            &&& leaf_sorted(c)
            &&& r is Ok <==> !live && (has_key(b, key) || u16_at(b, 36) < 203)
            &&& r is Err ==> c == b
            &&& live ==> r == Err::<(), IndexError>(IndexError::DuplicateKey { key })
            &&& r is Err && !live ==> r == Err::<(), IndexError>(
                IndexError::CorruptPage {
                    page_id: PageId(u64_at(b, 8)),
                    reason: IndexFault::Full,
                },
            )
            &&& r is Ok ==> {
                &&& leaf_lookup(c, key) == Ok::<Option<PageSlot>, IndexError>(Some(value))
                &&& other != key ==> leaf_lookup(c, other) == leaf_lookup(b, other)
                &&& u16_at(c, 36) == u16_at(b, 36) + if has_key(b, key) {
                    0int
                } else {
                    1int
                }
            }
        }),
{
    lemma_leaf_write(b, key, value, false, other);
}

/// An upsert gives a key its value, gives back the live value that it had, and
/// leaves every other key as it is. Only a new key on a full leaf is refused.
pub proof fn law_leaf_upsert(b: Seq<u8>, key: PrimaryKey, value: PageSlot, other: PrimaryKey)
    requires
        leaf_sorted(b),
    ensures
        ({
            let (c, r) = leaf_upsert_result(b, key, value);
            &&& leaf_sorted(c)
            &&& r is Ok <==> has_key(b, key) || u16_at(b, 36) < 203
            &&& r is Err ==> c == b && r == Err::<Option<PageSlot>, IndexError>(
                IndexError::CorruptPage {
                    page_id: PageId(u64_at(b, 8)),
                    reason: IndexFault::Full,
                },
            )
            &&& r is Ok ==> {
                &&& r == leaf_lookup(b, key)
                &&& leaf_lookup(c, key) == Ok::<Option<PageSlot>, IndexError>(Some(value))
                &&& other != key ==> leaf_lookup(c, other) == leaf_lookup(b, other)
                &&& u16_at(c, 36) == u16_at(b, 36) + if has_key(b, key) {
                    0int
                } else {
                    1int
                }
            }
        }),
{
    lemma_leaf_write(b, key, value, false, other);
}

/// A removal takes the live value of a key away and gives it back, and leaves every
/// other key as it is. The entry keeps its place.
pub proof fn law_leaf_remove(b: Seq<u8>, key: PrimaryKey, other: PrimaryKey)
    requires
        leaf_sorted(b),
    ensures
        ({
            let (c, r) = leaf_remove_result(b, key);
            &&& leaf_sorted(c)
            &&& r is Ok
            &&& r == leaf_lookup(b, key)
            &&& leaf_lookup(c, key) == Ok::<Option<PageSlot>, IndexError>(None)
            &&& other != key ==> leaf_lookup(c, other) == leaf_lookup(b, other)
            &&& u16_at(c, 36) == u16_at(b, 36)
            &&& r == Ok::<Option<PageSlot>, IndexError>(None) ==> c == b
            &&& has_key(c, key) <==> has_key(b, key)
        }),
{
    lemma_leaf_lookup(b, key);
    lemma_leaf_lookup(b, other);
    lemma_leaf_find(b, key);
    lemma_has_key(b, key);
    let (c, r) = leaf_remove_result(b, key);
    if entry_for(entries(b), key) is Some {
        let p = rank(keys_of(entries(b)), key);
        lemma_leaf_key(b, p);
        let value = entries(b)[p].value;
        lemma_leaf_write(b, key, value, true, other);
    }
}

proof fn lemma_leaf_write(
    b: Seq<u8>,
    key: PrimaryKey,
    value: PageSlot,
    dead: bool,
    other: PrimaryKey,
)
    requires
        leaf_sorted(b),
    ensures
        ({
            let p = rank(keys_of(entries(b)), key);
            let old = entry_for(entries(b), key);
            &&& has_key(b, key) <==> old is Some
            &&& leaf_lookup(b, key) == Ok::<Option<PageSlot>, IndexError>(live_value(old))
            &&& 0 <= p <= count_of(b)
            &&& leaf_find(b, key) == if old is Some {
                Ok::<Found, IndexError>(Found::At(p as u16))
            } else {
                Ok::<Found, IndexError>(Found::Before(p as u16))
            }
            &&& old is Some ==> {
                let c = leaf_set(b, p, value, dead);
                &&& p < count_of(b)
                &&& old == Some(entries(b)[p])
                &&& dead_at(b, row_start(40, 40, p) + 24) == entries(b)[p].dead
                &&& value_at(b, row_start(40, 40, p) + 24)
                    == entries(b)[p].value
                &&& leaf_sorted(c)
                &&& count_of(c) == count_of(b)
                &&& has_key(c, key)
                &&& leaf_lookup(c, key) == Ok::<Option<PageSlot>, IndexError>(
                    if dead {
                        None
                    } else {
                        Some(value)
                    },
                )
                &&& other != key ==> leaf_lookup(c, other) == leaf_lookup(b, other)
            }
            &&& old is None && count_of(b) < 203 ==> {
                let c = leaf_put(b, p, key, value);
                &&& leaf_sorted(c)
                &&& count_of(c) == count_of(b) + 1
                &&& leaf_lookup(c, key) == Ok::<Option<PageSlot>, IndexError>(Some(value))
                &&& other != key ==> leaf_lookup(c, other) == leaf_lookup(b, other)
            }
        }),
{
    let s = entries(b);
    let p = rank(keys_of(s), key);
    let old = entry_for(s, key);
    lemma_has_key(b, key);
    lemma_leaf_find(b, key);
    lemma_leaf_lookup(b, key);
    lemma_leaf_lookup(b, other);
    lemma_entry_for(s, key);
    if old is Some {
        let c = leaf_set(b, p, value, dead);
        lemma_leaf_key(b, p);
        lemma_leaf_set(b, p, value, dead);
        lemma_entries_update(s, p, LeafEntry { key, value, dead });
        lemma_leaf_lookup(c, key);
        lemma_leaf_lookup(c, other);
        lemma_has_key(c, key);
        assert(entry_for(entries(c), key) == Some(LeafEntry { key, value, dead }));
        assert(other != key ==> entry_for(entries(c), other) == entry_for(s, other));
    } else if count_of(b) < 203 {
        let c = leaf_put(b, p, key, value);
        lemma_leaf_put(b, p, key, value);
        lemma_entries_insert(s, LeafEntry { key, value, dead: false });
        lemma_leaf_lookup(c, key);
        lemma_leaf_lookup(c, other);
        assert(entry_for(entries(c), key) == Some(LeafEntry { key, value, dead: false }));
        assert(other != key ==> entry_for(entries(c), other) == entry_for(s, other));
    }
}

/// The halves of a leaf hold its entries as they were: the lower half stays, the
/// upper half becomes the page with the new number.
pub proof fn law_leaf_split(b: Seq<u8>, page_id: u64)
    requires
        leaf_sorted(b),
        u16_at(b, 36) >= 2,
    ensures
        ({
            let m = u16_at(b, 36) as int / 2;
            let low = leaf_low(b);
            let high = leaf_high(b, page_id);
            &&& leaf_sorted(low) && leaf_sorted(high)
            &&& u16_at(low, 36) == m
            &&& u16_at(high, 36) == u16_at(b, 36) - m
            &&& entries(low) + entries(high) == entries(b)
            &&& u64_at(high, 8) == page_id
            &&& u64_at(low, 8) == u64_at(b, 8)
        }),
{
    lemma_leaf_halves(b, page_id);
    let m = u16_at(b, 36) as int / 2;
    lemma_entries_halves(entries(b), m);
    assert(entries(leaf_low(b)) + entries(leaf_high(b, page_id)) =~= entries(b));
    lemma_u64_at_same(leaf_low(b), 8, b, 8);
    lemma_new_header(
        leaf_high(b, page_id),
        page_id,
        PageType::IndexLeaf,
        (count_of(b) - m) as u16,
    );
}

proof fn lemma_new_header(b: Seq<u8>, page_id: u64, page_type: PageType, count: u16)
    requires
        b.len() == 8192,
        forall|k: int|
            0 <= k < 40 ==> #[trigger] b[k] == header_bytes(
                index_header(page_id, page_type, count),
            )[k],
    ensures
        decode_header(b) is Ok,
        b[5] == page_type_byte(page_type),
        u16_at(b, 6) == 0,
        u64_at(b, 8) == page_id,
        u64_at(b, 16) == 0,
        u64_at(b, 24) == 0,
        u16_at(b, 36) == count,
{
    let h = index_header(page_id, page_type, count);
    law_header_layout(h);
    lemma_header_same(b, header_bytes(h));
}

// ---- writing to an inner page ---------------------------------------------

/// A new pair goes between the keys around it: the keys from its own up to the next
/// belong to its child, every other key to the child that it belonged to. A full
/// page refuses it, and so does one that has the key.
pub proof fn law_node_insert(b: Seq<u8>, key: PrimaryKey, child: u64, i: int)
    requires
        node_sorted(b),
        0 <= i <= u16_at(b, 36),
        i > 0 ==> key_lt(pairs(b)[i - 1].0, key),
        i < u16_at(b, 36) ==> key_lt(key, pairs(b)[i].0),
    ensures
        ({
            let (c, r) = node_insert_result(b, key, child);
            &&& r is Ok <==> u16_at(b, 36) < 254
            &&& r is Err ==> c == b && r == Err::<(), IndexError>(
                IndexError::CorruptPage {
                    page_id: PageId(u64_at(b, 8)),
                    reason: IndexFault::Full,
                },
            )
            &&& r is Ok ==> {
                &&& node_ok(c)
                &&& u16_at(c, 36) == u16_at(b, 36) + 1
                &&& u64_at(c, 40) == u64_at(b, 40)
                &&& pairs(c).len() == pairs(b).len() + 1
                &&& pairs(c)[i] == (key, child)
                &&& forall|j: int| 0 <= j < i ==> #[trigger] pairs(c)[j] == pairs(b)[j]
                &&& forall|j: int|
                    i < j < pairs(c).len() ==> #[trigger] pairs(c)[j] == pairs(b)[j - 1]
            }
        }),
{
    let s = seps_of(pairs(b));
    if i > 0 {
        assert(s[i - 1] == pairs(b)[i - 1].0);
    }
    if i < s.len() {
        assert(s[i] == pairs(b)[i].0);
    }
    lemma_rank_is(s, key, i);
    lemma_rank(s, key);
    assert forall|j: int| 0 <= j < count_of(b) implies (#[trigger] pairs(b)[j]).0 != key by {
        assert(s[j] == pairs(b)[j].0);
        if j < i {
            assert(key_lt(s[j], key));
        } else if j > i {
            assert(key_lt(s[i], s[j]));
        }
    }
    lemma_node_scan(b, key);
    if u16_at(b, 36) < 254 {
        lemma_node_put(b, i, key, child);
    }
}

/// A pair whose key the page has is refused, and the page stays as it is.
pub proof fn law_node_insert_twice(b: Seq<u8>, key: PrimaryKey, child: u64, i: int)
    requires
        node_sorted(b),
        0 <= i < u16_at(b, 36) < 254,
        pairs(b)[i].0 == key,
    ensures
        node_insert_result(b, key, child) == (
            b,
            Err::<(), IndexError>(IndexError::DuplicateKey { key }),
        ),
{
    lemma_scan_to(b, key, i, 0);
}

proof fn lemma_scan_to(b: Seq<u8>, key: PrimaryKey, i: int, from: int)
    requires
        node_sorted(b),
        0 <= from <= i < u16_at(b, 36),
        pairs(b)[i].0 == key,
    ensures
        node_scan(b, from, key) == Err::<int, IndexError>(
            IndexError::DuplicateKey { key },
        ),
    decreases i - from,
{
    let s = seps_of(pairs(b));
    lemma_node_key(b, from);
    assert(node_rows(b)[from][8] <= 1);
    assert(s[from] == pairs(b)[from].0 && s[i] == key);
    if from < i {
        assert(key_lt(s[from], s[i]));
        lemma_scan_to(b, key, i, from + 1);
    }
}

/// The halves of an inner page hold its pairs as they were, but for the middle one:
/// its key leaves, and its child is the first of the upper half.
pub proof fn law_node_split(b: Seq<u8>, page_id: u64)
    requires
        node_sorted(b),
        u16_at(b, 36) >= 2,
    ensures
        ({
            let m = u16_at(b, 36) as int / 2;
            let low = node_low(b);
            let high = node_high(b, page_id);
            &&& node_ok(low) && node_ok(high)
            &&& pairs(low).push((pairs(b)[m].0, u64_at(high, 40))) + pairs(high) == pairs(b)
            &&& u64_at(low, 40) == u64_at(b, 40)
            &&& pairs(low).len() == m
            &&& u64_at(high, 8) == page_id
            &&& u64_at(low, 8) == u64_at(b, 8)
        }),
{
    lemma_node_halves(b, page_id);
    lemma_u64_at_same(node_low(b), 8, b, 8);
    lemma_new_header(
        node_high(b, page_id),
        page_id,
        PageType::IndexInternal,
        (count_of(b) - count_of(b) as int / 2 - 1) as u16,
    );
    let m = u16_at(b, 36) as int / 2;
    assert(pairs(node_low(b)).push((pairs(b)[m].0, u64_at(node_high(b, page_id), 40))) + pairs(
        node_high(b, page_id),
    ) =~= pairs(b));
}

} // verus!
