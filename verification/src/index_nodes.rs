//! What the bytes of a leaf and of an inner page of the index mean, and what
//! each change does to them.
use vstd::prelude::*;

use crate::codec::{
    group_codec, le64, lemma_u16_at_same, lemma_u32_at_same, lemma_u64_at_same, lemma_u64_read_back,
    splice, u64_at,
};
use crate::ids::PageId;
use crate::index_model::{
    ascending_keys, dead_at, decode_key, key_at, key_bytes, key_lt, law_key_round_trip,
    law_value_round_trip, lemma_rank, lemma_rank_is, lemma_rank_le_is, rank, rank_le, value_at,
    value_bytes, IndexError, IndexFault, PageSlot, PrimaryKey, INTERNAL_CAPACITY,
    INTERNAL_ENTRY_OFFSET, INTERNAL_ENTRY_SIZE, LEAF_CAPACITY, LEAF_ENTRY_OFFSET, LEAF_ENTRY_SIZE,
};
use crate::index_rows::{
    built_page, count_of, lemma_built_page, lemma_row_inserted, lemma_row_inside, lemma_row_set,
    lemma_rows_cut, row, row_inserted, row_start, rows, rows_cut,
};
use crate::page::{
    decode_header, header_bytes, header_of, law_header_round_trip, page_type_byte, PageHeader,
    PageType, PAGE_HEADER_SIZE, PAGE_MAGIC, PAGE_SIZE, PAGE_VERSION,
};

verus! {

/// An entry of a leaf.
#[derive(Clone, Copy, Debug, PartialEq, Eq, Structural)]
pub struct LeafEntry {
    /// The key.
    pub key: PrimaryKey,
    /// Where the record lies.
    pub value: PageSlot,
    /// Whether the entry was removed.
    pub dead: bool,
}

/// The header of a fresh page of the index.
pub open spec fn index_header(page_id: u64, page_type: PageType, count: u16) -> PageHeader {
    PageHeader {
        magic: PAGE_MAGIC,
        version: PAGE_VERSION,
        page_type: page_type_byte(page_type),
        flags: 0,
        page_id,
        lsn: 0,
        tenant_id: 0,
        checksum: 0,
        slot_count: count,
        free_space: 0,
    }
}

/// What attaching to a page of the type `t` yields.
pub open spec fn attach_result(b: Seq<u8>, t: PageType, fault: IndexFault) -> Result<(), IndexError> {
    match decode_header(b) {
        Err(e) => Err(IndexError::Core(e)),
        Ok(h) => if h.page_type != page_type_byte(t) {
            Err(IndexError::CorruptPage { page_id: PageId(h.page_id), reason: fault })
        } else {
            Ok(())
        },
    }
}

/// What attaching to a leaf yields.
pub open spec fn leaf_attach(b: Seq<u8>) -> Result<(), IndexError> {
    attach_result(b, PageType::IndexLeaf, IndexFault::NotLeaf { got: b[5] })
}

/// What attaching to an inner page yields.
pub open spec fn node_attach(b: Seq<u8>) -> Result<(), IndexError> {
    attach_result(b, PageType::IndexInternal, IndexFault::NotInternal { got: b[5] })
}

/// A leaf whose entries lie inside it.
pub open spec fn leaf_ok(b: Seq<u8>) -> bool {
    &&& b.len() == PAGE_SIZE
    &&& leaf_attach(b) is Ok
    &&& count_of(b) <= LEAF_CAPACITY
}

/// An inner page whose entries lie inside it.
pub open spec fn node_ok(b: Seq<u8>) -> bool {
    &&& b.len() == PAGE_SIZE
    &&& node_attach(b) is Ok
    &&& count_of(b) <= INTERNAL_CAPACITY
}

/// Rows of a leaf.
pub open spec fn leaf_rows(b: Seq<u8>) -> Seq<Seq<u8>> {
    rows(b, LEAF_ENTRY_OFFSET as int, LEAF_ENTRY_SIZE as int)
}

/// Rows of an inner page.
pub open spec fn node_rows(b: Seq<u8>) -> Seq<Seq<u8>> {
    rows(b, INTERNAL_ENTRY_OFFSET as int, INTERNAL_ENTRY_SIZE as int)
}

/// The entry in a row of a leaf.
pub open spec fn entry_of(r: Seq<u8>) -> LeafEntry {
    LeafEntry { key: key_at(r, 0), value: value_at(r, 24), dead: dead_at(r, 24) }
}

/// The key and the child in a row of an inner page.
pub open spec fn pair_of(r: Seq<u8>) -> (PrimaryKey, u64) {
    (key_at(r, 0), u64_at(r, 24))
}

/// The entries in the rows of a leaf.
pub open spec fn entries_in(s: Seq<Seq<u8>>) -> Seq<LeafEntry> {
    Seq::new(s.len(), |i: int| entry_of(s[i]))
}

/// The pairs in the rows of an inner page.
pub open spec fn pairs_in(s: Seq<Seq<u8>>) -> Seq<(PrimaryKey, u64)> {
    Seq::new(s.len(), |i: int| pair_of(s[i]))
}

/// The entries of a leaf.
pub open spec fn entries(b: Seq<u8>) -> Seq<LeafEntry> {
    entries_in(leaf_rows(b))
}

/// The pairs of an inner page.
pub open spec fn pairs(b: Seq<u8>) -> Seq<(PrimaryKey, u64)> {
    pairs_in(node_rows(b))
}

/// The keys of a list of entries.
pub open spec fn keys_of(s: Seq<LeafEntry>) -> Seq<PrimaryKey> {
    Seq::new(s.len(), |i: int| s[i].key)
}

/// The keys of a list of pairs.
pub open spec fn seps_of(s: Seq<(PrimaryKey, u64)>) -> Seq<PrimaryKey> {
    Seq::new(s.len(), |i: int| s[i].0)
}

/// The first child of an inner page.
pub open spec fn first_child(b: Seq<u8>) -> u64 {
    u64_at(b, 40)
}

/// Every row starts with a key of a known kind.
pub open spec fn kinds_known(s: Seq<Seq<u8>>) -> bool {
    forall|i: int| 0 <= i < s.len() ==> (#[trigger] s[i])[8] <= 1
}

/// A leaf whose entries are in order.
pub open spec fn leaf_sorted(b: Seq<u8>) -> bool {
    &&& leaf_ok(b)
    &&& kinds_known(leaf_rows(b))
    &&& ascending_keys(keys_of(entries(b)))
}

/// An inner page whose keys are in order.
pub open spec fn node_sorted(b: Seq<u8>) -> bool {
    &&& node_ok(b)
    &&& kinds_known(node_rows(b))
    &&& ascending_keys(seps_of(pairs(b)))
}

/// The child that a pair list and a first child give for position `j`.
pub open spec fn child_of(first: u64, s: Seq<(PrimaryKey, u64)>, j: int) -> u64 {
    if j == 0 {
        first
    } else {
        s[j - 1].1
    }
}

/// Where a key was found in a page, or where it would stand.
#[derive(Clone, Copy, Debug, PartialEq, Eq, Structural)]
pub enum Found {
    /// In the entry with this index.
    At(u16),
    /// Nowhere; it would stand before the entry with this index.
    Before(u16),
}

/// Halving the entries of a leaf between `lo` and `hi` to find a key.
pub open spec fn probe(b: Seq<u8>, lo: int, hi: int, key: PrimaryKey) -> Result<Found, IndexError>
    decreases hi - lo,
{
    if lo >= hi {
        Ok(Found::Before(lo as u16))
    } else {
        let mid = (lo + hi) / 2;
        match decode_key(b, row_start(40, 40, mid)) {
            Err(e) => Err(e),
            Ok(k) => if key_lt(k, key) {
                probe(b, mid + 1, hi, key)
            } else if key_lt(key, k) {
                probe(b, lo, mid, key)
            } else {
                Ok(Found::At(mid as u16))
            },
        }
    }
}

/// Where a leaf holds a key.
pub open spec fn leaf_find(b: Seq<u8>, key: PrimaryKey) -> Result<Found, IndexError> {
    probe(b, 0, count_of(b) as int, key)
}

/// Halving the pairs of an inner page between `lo` and `hi`: how many keys
/// are not above the one that is looked for.
pub open spec fn node_probe(b: Seq<u8>, lo: int, hi: int, key: PrimaryKey) -> Result<
    int,
    IndexError,
>
    decreases hi - lo,
{
    if lo >= hi {
        Ok(lo)
    } else {
        let mid = (lo + hi) / 2;
        match decode_key(b, row_start(48, 32, mid)) {
            Err(e) => Err(e),
            Ok(k) => if !key_lt(key, k) {
                node_probe(b, mid + 1, hi, key)
            } else {
                node_probe(b, lo, mid, key)
            },
        }
    }
}

/// Going through the pairs of an inner page from `i` on: before which one a
/// new key would stand.
pub open spec fn node_scan(b: Seq<u8>, i: int, key: PrimaryKey) -> Result<int, IndexError>
    decreases count_of(b) - i,
{
    if i >= count_of(b) {
        Ok(count_of(b) as int)
    } else {
        match decode_key(b, row_start(48, 32, i)) {
            Err(e) => Err(e),
            Ok(k) => if key_lt(k, key) {
                node_scan(b, i + 1, key)
            } else if key_lt(key, k) {
                Ok(i)
            } else {
                Err(IndexError::DuplicateKey { key })
            },
        }
    }
}

// ---- changes --------------------------------------------------------------

/// A leaf after an entry was inserted before entry `p`.
pub open spec fn leaf_put(b: Seq<u8>, p: int, key: PrimaryKey, value: PageSlot) -> Seq<u8> {
    row_inserted(b, 40, 40, p, key_bytes(key) + value_bytes(value, false))
}

/// A leaf after the value of entry `i` was written.
pub open spec fn leaf_set(b: Seq<u8>, i: int, value: PageSlot, dead: bool) -> Seq<u8> {
    splice(b, row_start(40, 40, i) + 24, value_bytes(value, dead))
}

/// The lower half of a leaf.
pub open spec fn leaf_low(b: Seq<u8>) -> Seq<u8> {
    rows_cut(b, 40, 40, count_of(b) as int / 2)
}

/// The upper half of a leaf, as a page of its own.
pub open spec fn leaf_high(b: Seq<u8>, page_id: u64) -> Seq<u8> {
    let n = count_of(b) as int;
    built_page(
        index_header(page_id, PageType::IndexLeaf, (n - n / 2) as u16),
        Seq::empty(),
        b.subrange(row_start(40, 40, n / 2), row_start(40, 40, n)),
    )
}

/// An inner page after a pair was inserted before pair `p`.
pub open spec fn node_put(b: Seq<u8>, p: int, key: PrimaryKey, child: u64) -> Seq<u8> {
    row_inserted(b, 48, 32, p, key_bytes(key) + le64(child))
}

/// The lower half of an inner page.
pub open spec fn node_low(b: Seq<u8>) -> Seq<u8> {
    rows_cut(b, 48, 32, count_of(b) as int / 2)
}

/// The upper half of an inner page, as a page of its own: the pair in the
/// middle gives it its first child and leaves with its key.
pub open spec fn node_high(b: Seq<u8>, page_id: u64) -> Seq<u8> {
    let n = count_of(b) as int;
    let mid = n / 2;
    built_page(
        index_header(page_id, PageType::IndexInternal, (n - mid - 1) as u16),
        le64(u64_at(b, row_start(48, 32, mid) + 24)),
        b.subrange(row_start(48, 32, mid + 1), row_start(48, 32, n)),
    )
}

/// A fresh page of the index.
pub open spec fn fresh_index_page(page_id: u64, page_type: PageType) -> Seq<u8> {
    built_page(index_header(page_id, page_type, 0), Seq::empty(), Seq::empty())
}

/// A new inner page with a first child and no pair.
pub open spec fn fresh_node(page_id: u64, first: u64) -> Seq<u8> {
    splice(fresh_index_page(page_id, PageType::IndexInternal), 40, le64(first))
}

// ---- what the changes do to the entries -----------------------------------

proof fn lemma_kept_header(b: Seq<u8>, c: Seq<u8>)
    requires
        b.len() == PAGE_SIZE,
        c.len() == PAGE_SIZE,
        forall|i: int| 0 <= i < 36 ==> #[trigger] c[i] == b[i],
    ensures
        decode_header(b) is Ok <==> decode_header(c) is Ok,
        c[5] == b[5],
        leaf_attach(b) is Ok <==> leaf_attach(c) is Ok,
        node_attach(b) is Ok <==> node_attach(c) is Ok,
{
    lemma_u32_at_same(c, 0, b, 0);
}

proof fn lemma_built_header(h: PageHeader, c: Seq<u8>)
    requires
        c.len() == PAGE_SIZE,
        forall|i: int| 0 <= i < PAGE_HEADER_SIZE ==> #[trigger] c[i] == header_bytes(h)[i],
    ensures
        header_of(c) == h,
{
    law_header_round_trip(h);
    let b = header_bytes(h);
    lemma_u32_at_same(c, 0, b, 0);
    lemma_u16_at_same(c, 6, b, 6);
    lemma_u64_at_same(c, 8, b, 8);
    lemma_u64_at_same(c, 16, b, 16);
    lemma_u64_at_same(c, 24, b, 24);
    lemma_u32_at_same(c, 32, b, 32);
    lemma_u16_at_same(c, 36, b, 36);
    lemma_u16_at_same(c, 38, b, 38);
}

proof fn lemma_entry_row(key: PrimaryKey, value: PageSlot, dead: bool)
    ensures
        ({
            let r = key_bytes(key) + value_bytes(value, dead);
            &&& r.len() == 40
            &&& entry_of(r) == LeafEntry { key, value, dead }
            &&& r[8] <= 1
        }),
{
    law_key_round_trip(key);
    law_value_round_trip(value, dead);
    let k = key_bytes(key);
    let v = value_bytes(value, dead);
    let r = k + v;
    lemma_u64_at_same(r, 0, k, 0);
    lemma_u64_at_same(r, 16, k, 16);
    lemma_u64_at_same(r, 24, v, 0);
    lemma_u16_at_same(r, 32, v, 8);
    assert(r[8] == k[8]);
    assert(r[34] == v[10]);
}

proof fn lemma_pair_row(key: PrimaryKey, child: u64)
    ensures
        ({
            let r = key_bytes(key) + le64(child);
            &&& r.len() == 32
            &&& pair_of(r) == (key, child)
            &&& r[8] <= 1
        }),
{
    broadcast use group_codec;

    law_key_round_trip(key);
    let k = key_bytes(key);
    let r = k + le64(child);
    lemma_u64_at_same(r, 0, k, 0);
    lemma_u64_at_same(r, 16, k, 16);
    assert forall|j: int| 0 <= j < 8 implies #[trigger] r[24 + j] == le64(child)[j] by {}
    lemma_u64_read_back(r, 24, child);
    assert(r[8] == k[8]);
}

proof fn lemma_set_row(r: Seq<u8>, value: PageSlot, dead: bool)
    requires
        r.len() == 40,
    ensures
        ({
            let c = splice(r, 24, value_bytes(value, dead));
            &&& entry_of(c) == LeafEntry { key: entry_of(r).key, value, dead }
            &&& c[8] == r[8]
        }),
{
    law_value_round_trip(value, dead);
    let v = value_bytes(value, dead);
    let c = splice(r, 24, v);
    lemma_u64_at_same(c, 0, r, 0);
    lemma_u64_at_same(c, 16, r, 16);
    lemma_u64_at_same(c, 24, v, 0);
    lemma_u16_at_same(c, 32, v, 8);
    assert(c[34] == v[10]);
}

/// The entries of a leaf after an insertion.
pub proof fn lemma_leaf_put(b: Seq<u8>, p: int, key: PrimaryKey, value: PageSlot)
    requires
        leaf_ok(b),
        count_of(b) < LEAF_CAPACITY,
        0 <= p <= count_of(b),
    ensures
        leaf_ok(leaf_put(b, p, key, value)),
        count_of(leaf_put(b, p, key, value)) == count_of(b) + 1,
        entries(leaf_put(b, p, key, value)) == entries(b).insert(
            p,
            LeafEntry { key, value, dead: false },
        ),
        kinds_known(leaf_rows(b)) ==> kinds_known(leaf_rows(leaf_put(b, p, key, value))),
{
    let r = key_bytes(key) + value_bytes(value, false);
    let c = leaf_put(b, p, key, value);
    lemma_entry_row(key, value, false);
    lemma_row_inserted(b, 40, 40, p, r);
    lemma_kept_header(b, c);
    assert(leaf_rows(c) == leaf_rows(b).insert(p, r));
    assert(entries(c) =~= entries(b).insert(p, LeafEntry { key, value, dead: false }));
}

/// The entries of a leaf after a value was written.
pub proof fn lemma_leaf_set(b: Seq<u8>, i: int, value: PageSlot, dead: bool)
    requires
        leaf_ok(b),
        0 <= i < count_of(b),
    ensures
        leaf_ok(leaf_set(b, i, value, dead)),
        count_of(leaf_set(b, i, value, dead)) == count_of(b),
        entries(leaf_set(b, i, value, dead)) == entries(b).update(
            i,
            LeafEntry { key: entries(b)[i].key, value, dead },
        ),
        kinds_known(leaf_rows(b)) ==> kinds_known(leaf_rows(leaf_set(b, i, value, dead))),
{
    law_value_round_trip(value, dead);
    let c = leaf_set(b, i, value, dead);
    lemma_row_set(b, 40, 40, i, 24, value_bytes(value, dead));
    lemma_row_inside(b, 40, 40, i);
    lemma_set_row(row(b, 40, 40, i), value, dead);
    lemma_kept_header(b, c);
    assert(entries(c) =~= entries(b).update(i, LeafEntry { key: entries(b)[i].key, value, dead }));
}

/// The entries of the two halves of a leaf.
pub proof fn lemma_leaf_halves(b: Seq<u8>, page_id: u64)
    requires
        leaf_ok(b),
    ensures
        ({
            let m = count_of(b) as int / 2;
            &&& leaf_ok(leaf_low(b))
            &&& leaf_ok(leaf_high(b, page_id))
            &&& count_of(leaf_low(b)) == m
            &&& count_of(leaf_high(b, page_id)) == count_of(b) - m
            &&& entries(leaf_low(b)) == entries(b).take(m)
            &&& entries(leaf_high(b, page_id)) == entries(b).skip(m)
            &&& kinds_known(leaf_rows(b)) ==> kinds_known(leaf_rows(leaf_low(b)))
            &&& kinds_known(leaf_rows(b)) ==> kinds_known(leaf_rows(leaf_high(b, page_id)))
        }),
{
    let n = count_of(b) as int;
    let m = n / 2;
    let lo = leaf_low(b);
    lemma_rows_cut(b, 40, 40, m);
    lemma_kept_header(b, lo);
    assert(entries(lo) =~= entries(b).take(m));
    let hi = leaf_high(b, page_id);
    let h = index_header(page_id, PageType::IndexLeaf, (n - m) as u16);
    lemma_built_page(b, 40, 40, m, h, Seq::empty());
    lemma_built_header(h, hi);
    assert(entries(hi) =~= entries(b).skip(m));
    if kinds_known(leaf_rows(b)) {
        assert forall|i: int| 0 <= i < leaf_rows(lo).len() implies (#[trigger] leaf_rows(lo)[i])[8]
            <= 1 by {
            assert(leaf_rows(lo)[i] == leaf_rows(b)[i]);
        }
        assert forall|i: int| 0 <= i < leaf_rows(hi).len() implies (#[trigger] leaf_rows(hi)[i])[8]
            <= 1 by {
            assert(leaf_rows(hi)[i] == leaf_rows(b)[i + m]);
        }
    }
}

/// The pairs of an inner page after an insertion.
pub proof fn lemma_node_put(b: Seq<u8>, p: int, key: PrimaryKey, child: u64)
    requires
        node_ok(b),
        count_of(b) < INTERNAL_CAPACITY,
        0 <= p <= count_of(b),
    ensures
        node_ok(node_put(b, p, key, child)),
        count_of(node_put(b, p, key, child)) == count_of(b) + 1,
        pairs(node_put(b, p, key, child)) == pairs(b).insert(p, (key, child)),
        first_child(node_put(b, p, key, child)) == first_child(b),
        kinds_known(node_rows(b)) ==> kinds_known(node_rows(node_put(b, p, key, child))),
{
    let r = key_bytes(key) + le64(child);
    let c = node_put(b, p, key, child);
    lemma_pair_row(key, child);
    lemma_row_inserted(b, 48, 32, p, r);
    lemma_kept_header(b, c);
    lemma_u64_at_same(c, 40, b, 40);
    assert(node_rows(c) == node_rows(b).insert(p, r));
    assert(pairs(c) =~= pairs(b).insert(p, (key, child)));
}

/// The pairs of the two halves of an inner page.
pub proof fn lemma_node_halves(b: Seq<u8>, page_id: u64)
    requires
        node_ok(b),
        count_of(b) >= 2,
    ensures
        ({
            let m = count_of(b) as int / 2;
            &&& node_ok(node_low(b))
            &&& node_ok(node_high(b, page_id))
            &&& count_of(node_low(b)) == m
            &&& count_of(node_high(b, page_id)) == count_of(b) - m - 1
            &&& pairs(node_low(b)) == pairs(b).take(m)
            &&& pairs(node_high(b, page_id)) == pairs(b).skip(m + 1)
            &&& first_child(node_low(b)) == first_child(b)
            &&& first_child(node_high(b, page_id)) == pairs(b)[m].1
            &&& kinds_known(node_rows(b)) ==> kinds_known(node_rows(node_low(b)))
            &&& kinds_known(node_rows(b)) ==> kinds_known(node_rows(node_high(b, page_id)))
        }),
{
    broadcast use group_codec;

    let n = count_of(b) as int;
    let m = n / 2;
    let lo = node_low(b);
    lemma_rows_cut(b, 48, 32, m);
    lemma_kept_header(b, lo);
    lemma_u64_at_same(lo, 40, b, 40);
    assert(pairs(lo) =~= pairs(b).take(m));
    let hi = node_high(b, page_id);
    let h = index_header(page_id, PageType::IndexInternal, (n - m - 1) as u16);
    let child = u64_at(b, row_start(48, 32, m) + 24);
    lemma_row_inside(b, 48, 32, m);
    lemma_u64_at_same(row(b, 48, 32, m), 24, b, row_start(48, 32, m) + 24);
    assert(pairs(b)[m].1 == child);
    lemma_built_page(b, 48, 32, m + 1, h, le64(child));
    lemma_built_header(h, hi);
    assert forall|j: int| 0 <= j < 8 implies #[trigger] hi[40 + j] == le64(child)[j] by {
        assert(hi.subrange(40, 48)[j] == hi[40 + j]);
    }
    lemma_u64_read_back(hi, 40, child);
    assert(pairs(hi) =~= pairs(b).skip(m + 1));
    if kinds_known(node_rows(b)) {
        assert forall|i: int| 0 <= i < node_rows(lo).len() implies (#[trigger] node_rows(lo)[i])[8]
            <= 1 by {
            assert(node_rows(lo)[i] == node_rows(b)[i]);
        }
        assert forall|i: int| 0 <= i < node_rows(hi).len() implies (#[trigger] node_rows(hi)[i])[8]
            <= 1 by {
            assert(node_rows(hi)[i] == node_rows(b)[i + m + 1]);
        }
    }
}

/// A fresh page of the index is empty.
pub proof fn lemma_fresh_pages(page_id: u64, first: u64)
    ensures
        leaf_sorted(fresh_index_page(page_id, PageType::IndexLeaf)),
        entries(fresh_index_page(page_id, PageType::IndexLeaf)).len() == 0,
        node_sorted(fresh_node(page_id, first)),
        pairs(fresh_node(page_id, first)).len() == 0,
        count_of(fresh_node(page_id, first)) == 0,
        first_child(fresh_node(page_id, first)) == first,
{
    broadcast use group_codec;

    let h = index_header(page_id, PageType::IndexLeaf, 0);
    let g = index_header(page_id, PageType::IndexInternal, 0);
    law_header_round_trip(h);
    law_header_round_trip(g);
    let a = fresh_index_page(page_id, PageType::IndexLeaf);
    let b = fresh_index_page(page_id, PageType::IndexInternal);
    let c = fresh_node(page_id, first);
    assert(a.len() == PAGE_SIZE && b.len() == PAGE_SIZE);
    assert forall|i: int| 0 <= i < PAGE_HEADER_SIZE implies #[trigger] a[i] == header_bytes(
        h,
    )[i] by {}
    assert forall|i: int| 0 <= i < PAGE_HEADER_SIZE implies #[trigger] c[i] == header_bytes(
        g,
    )[i] by {}
    lemma_built_header(h, a);
    lemma_built_header(g, c);
}

// ---- searches -------------------------------------------------------------

/// The key that a search reads in a leaf is that of the entry.
pub proof fn lemma_leaf_key(b: Seq<u8>, i: int)
    requires
        leaf_ok(b),
        0 <= i < count_of(b),
    ensures
        key_at(b, row_start(40, 40, i)) == entries(b)[i].key,
        b[row_start(40, 40, i) + 8] == leaf_rows(b)[i][8],
        value_at(b, row_start(40, 40, i) + 24) == entries(b)[i].value,
        dead_at(b, row_start(40, 40, i) + 24) == entries(b)[i].dead,
        40 <= row_start(40, 40, i) <= PAGE_SIZE - 40,
{
    let at = row_start(40, 40, i);
    let r = row(b, 40, 40, i);
    lemma_row_inside(b, 40, 40, i);
    lemma_u64_at_same(r, 0, b, at);
    lemma_u64_at_same(r, 16, b, at + 16);
    lemma_u64_at_same(r, 24, b, at + 24);
    lemma_u16_at_same(r, 32, b, at + 32);
    assert(r[8] == b[at + 8]);
    assert(r[34] == b[at + 34]);
}

/// The key that a search reads in an inner page is that of the pair.
pub proof fn lemma_node_key(b: Seq<u8>, i: int)
    requires
        node_ok(b),
        0 <= i < count_of(b),
    ensures
        key_at(b, row_start(48, 32, i)) == pairs(b)[i].0,
        b[row_start(48, 32, i) + 8] == node_rows(b)[i][8],
        u64_at(b, row_start(48, 32, i) + 24) == pairs(b)[i].1,
        48 <= row_start(48, 32, i) <= PAGE_SIZE - 32,
{
    let at = row_start(48, 32, i);
    let r = row(b, 48, 32, i);
    lemma_row_inside(b, 48, 32, i);
    lemma_u64_at_same(r, 0, b, at);
    lemma_u64_at_same(r, 16, b, at + 16);
    lemma_u64_at_same(r, 24, b, at + 24);
    assert(r[8] == b[at + 8]);
}

/// On a leaf in order, the search finds a key exactly where it is, and else
/// the place where it would stand.
pub proof fn lemma_leaf_find(b: Seq<u8>, key: PrimaryKey)
    requires
        leaf_sorted(b),
    ensures
        ({
            let p = rank(keys_of(entries(b)), key);
            &&& 0 <= p <= count_of(b)
            &&& leaf_find(b, key) == if p < count_of(b) && entries(b)[p].key == key {
                Ok::<Found, IndexError>(Found::At(p as u16))
            } else {
                Ok::<Found, IndexError>(Found::Before(p as u16))
            }
        }),
{
    lemma_rank(keys_of(entries(b)), key);
    lemma_probe(b, 0, count_of(b) as int, key);
}

proof fn lemma_probe(b: Seq<u8>, lo: int, hi: int, key: PrimaryKey)
    requires
        leaf_sorted(b),
        0 <= lo <= hi <= count_of(b),
        lo > 0 ==> key_lt(entries(b)[lo - 1].key, key),
        hi < count_of(b) ==> key_lt(key, entries(b)[hi].key),
    ensures
        ({
            let p = rank(keys_of(entries(b)), key);
            probe(b, lo, hi, key) == if p < count_of(b) && entries(b)[p].key == key {
                Ok::<Found, IndexError>(Found::At(p as u16))
            } else {
                Ok::<Found, IndexError>(Found::Before(p as u16))
            }
        }),
    decreases hi - lo,
{
    let s = keys_of(entries(b));
    if lo >= hi {
        if lo > 0 {
            assert(s[lo - 1] == entries(b)[lo - 1].key);
        }
        if lo < count_of(b) {
            assert(s[lo] == entries(b)[lo].key);
        }
        lemma_rank_is(s, key, lo);
    } else {
        let mid = (lo + hi) / 2;
        lemma_leaf_key(b, mid);
        assert(leaf_rows(b)[mid][8] <= 1);
        let k = entries(b)[mid].key;
        assert(s[mid] == k);
        if key_lt(k, key) {
            lemma_probe(b, mid + 1, hi, key);
        } else if key_lt(key, k) {
            lemma_probe(b, lo, mid, key);
        } else {
            if mid > 0 {
                assert(key_lt(s[mid - 1], s[mid]));
            }
            lemma_rank_is(s, key, mid);
        }
    }
}

/// On an inner page in order, halving counts the keys that are not above.
pub proof fn lemma_node_find(b: Seq<u8>, key: PrimaryKey)
    requires
        node_sorted(b),
    ensures
        0 <= rank_le(seps_of(pairs(b)), key) <= count_of(b),
        node_probe(b, 0, count_of(b) as int, key) == Ok::<int, IndexError>(
            rank_le(seps_of(pairs(b)), key),
        ),
{
    lemma_rank(seps_of(pairs(b)), key);
    lemma_node_probe(b, 0, count_of(b) as int, key);
}

proof fn lemma_node_probe(b: Seq<u8>, lo: int, hi: int, key: PrimaryKey)
    requires
        node_sorted(b),
        0 <= lo <= hi <= count_of(b),
        lo > 0 ==> !key_lt(key, pairs(b)[lo - 1].0),
        hi < count_of(b) ==> key_lt(key, pairs(b)[hi].0),
    ensures
        node_probe(b, lo, hi, key) == Ok::<int, IndexError>(rank_le(seps_of(pairs(b)), key)),
    decreases hi - lo,
{
    let s = seps_of(pairs(b));
    if lo >= hi {
        if lo > 0 {
            assert(s[lo - 1] == pairs(b)[lo - 1].0);
        }
        if lo < count_of(b) {
            assert(s[lo] == pairs(b)[lo].0);
        }
        lemma_rank_le_is(s, key, lo);
    } else {
        let mid = (lo + hi) / 2;
        lemma_node_key(b, mid);
        assert(node_rows(b)[mid][8] <= 1);
        if !key_lt(key, pairs(b)[mid].0) {
            lemma_node_probe(b, mid + 1, hi, key);
        } else {
            lemma_node_probe(b, lo, mid, key);
        }
    }
}

/// On an inner page in order, going through it finds the place of a new key.
pub proof fn lemma_node_scan(b: Seq<u8>, key: PrimaryKey)
    requires
        node_sorted(b),
        forall|i: int| 0 <= i < count_of(b) ==> (#[trigger] pairs(b)[i]).0 != key,
    ensures
        0 <= rank(seps_of(pairs(b)), key) <= count_of(b),
        node_scan(b, 0, key) == Ok::<int, IndexError>(rank(seps_of(pairs(b)), key)),
{
    lemma_rank(seps_of(pairs(b)), key);
    lemma_node_scan_from(b, 0, key);
}

proof fn lemma_node_scan_from(b: Seq<u8>, i: int, key: PrimaryKey)
    requires
        node_sorted(b),
        0 <= i <= count_of(b),
        i > 0 ==> key_lt(pairs(b)[i - 1].0, key),
        forall|j: int| 0 <= j < count_of(b) ==> (#[trigger] pairs(b)[j]).0 != key,
    ensures
        node_scan(b, i, key) == Ok::<int, IndexError>(rank(seps_of(pairs(b)), key)),
    decreases count_of(b) - i,
{
    let s = seps_of(pairs(b));
    if i > 0 {
        assert(s[i - 1] == pairs(b)[i - 1].0);
    }
    if i >= count_of(b) {
        lemma_rank_is(s, key, i);
    } else {
        lemma_node_key(b, i);
        assert(node_rows(b)[i][8] <= 1);
        assert(s[i] == pairs(b)[i].0);
        if key_lt(pairs(b)[i].0, key) {
            lemma_node_scan_from(b, i + 1, key);
        } else {
            assert(pairs(b)[i].0 != key);
            lemma_rank_is(s, key, i);
        }
    }
}

} // verus!
