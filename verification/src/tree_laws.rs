//! The primary index is a map: every write changes the value of its key and
//! of no other, whatever pages are split on the way.
use vstd::prelude::*;
use vstd::arithmetic::power2::{
    lemma2_to64, lemma2_to64_rest, lemma_pow2_strictly_increases, lemma_pow2_unfold, pow2,
};

use crate::index_model::{
    ascending_keys, key_lt, law_key_order, lemma_rank, lemma_rank_is, lemma_rank_le_is, rank,
    rank_le, IndexError, PageSlot, PrimaryKey, INTERNAL_CAPACITY, LEAF_CAPACITY,
};
use crate::index_nodes::{
    child_of, entries, first_child, fresh_node, keys_of, kinds_known, leaf_high, leaf_low, leaf_set,
    leaf_sorted, lemma_fresh_pages, lemma_leaf_halves, lemma_leaf_put, lemma_leaf_set,
    lemma_node_halves, lemma_node_put, node_high, node_low, node_ok, node_rows, node_sorted, pairs,
    seps_of, LeafEntry,
};
use crate::index_rows::count_of;
use crate::tree_model::{
    bounded, entry_after, entry_for, find, in_range, index_step, kid, kid_hi, kid_lo, leaf_step,
    leaf_with, levels_up, live_value, live_values, node_step, node_with, noted, page_keys,
    root_page, root_step, split_leaf, tree, write_step, SplitInfo, TreeState, WriteOp, Written,
};

verus! {

// ---- lists of entries -----------------------------------------------------

/// In a list in order, the entry of a key is the one that carries it.
pub proof fn lemma_entry_for(s: Seq<LeafEntry>, k: PrimaryKey)
    requires
        ascending_keys(keys_of(s)),
    ensures
        forall|i: int| 0 <= i < s.len() && (#[trigger] s[i]).key == k ==> entry_for(s, k) == Some(
            s[i],
        ) && rank(keys_of(s), k) == i,
        (forall|i: int| 0 <= i < s.len() ==> (#[trigger] s[i]).key != k) ==> entry_for(s, k)
            is None,
        entry_for(s, k) matches Some(e) ==> e.key == k && s.contains(e),
        0 <= rank(keys_of(s), k) <= s.len(),
{
    let keys = keys_of(s);
    lemma_rank(keys, k);
    assert forall|i: int| 0 <= i < s.len() && (#[trigger] s[i]).key == k implies entry_for(s, k)
        == Some(s[i]) && rank(keys, k) == i by {
        assert(keys[i] == k);
        if i > 0 {
            assert(key_lt(keys[i - 1], keys[i]));
        }
        lemma_rank_is(keys, k, i);
    }
}

pub proof fn lemma_entries_insert(s: Seq<LeafEntry>, e: LeafEntry)
    requires
        ascending_keys(keys_of(s)),
        entry_for(s, e.key) is None,
    ensures
        ({
            let t = s.insert(rank(keys_of(s), e.key), e);
            &&& ascending_keys(keys_of(t))
            &&& forall|k: PrimaryKey| #[trigger]
                entry_for(t, k) == if k == e.key {
                    Some(e)
                } else {
                    entry_for(s, k)
                }
        }),
{
    let keys = keys_of(s);
    let p = rank(keys, e.key);
    lemma_rank(keys, e.key);
    let t = s.insert(p, e);
    assert forall|i: int| 0 <= i < s.len() implies (#[trigger] s[i]).key != e.key by {
        lemma_entry_for(s, e.key);
    }
    assert forall|i: int, j: int| 0 <= i < j < keys_of(t).len() implies key_lt(
        #[trigger] keys_of(t)[i],
        #[trigger] keys_of(t)[j],
    ) by {
        let a = if i < p {
            i
        } else {
            i - 1
        };
        let b = if j < p {
            j
        } else {
            j - 1
        };
        if i != p {
            assert(t[i] == s[a] && keys[a] == s[a].key);
        }
        if j != p {
            assert(t[j] == s[b] && keys[b] == s[b].key);
        }
        if i == p {
            assert(!key_lt(keys[b], e.key) && s[b].key != e.key);
        } else if j == p {
            assert(key_lt(keys[a], e.key));
        } else {
            assert(key_lt(keys[a], keys[b]));
        }
    }
    assert forall|k: PrimaryKey| #[trigger] entry_for(t, k) == if k == e.key {
        Some(e)
    } else {
        entry_for(s, k)
    } by {
        lemma_entry_for(s, k);
        lemma_entry_for(t, k);
        if k == e.key {
            assert(t[p].key == k);
        } else if entry_for(s, k) is Some {
            let i = choose|i: int| 0 <= i < s.len() && s[i] == entry_for(s, k)->Some_0;
            let j = if i < p {
                i
            } else {
                i + 1
            };
            assert(t[j] == s[i]);
            assert(t[j].key == k);
        } else if entry_for(t, k) is Some {
            let j = choose|j: int| 0 <= j < t.len() && t[j] == entry_for(t, k)->Some_0;
            let i = if j < p {
                j
            } else {
                j - 1
            };
            assert(t[j] == s[i]);
            assert(s[i].key == k);
        }
    }
}

pub proof fn lemma_entries_update(s: Seq<LeafEntry>, i: int, e: LeafEntry)
    requires
        ascending_keys(keys_of(s)),
        0 <= i < s.len(),
        e.key == s[i].key,
    ensures
        ({
            let t = s.update(i, e);
            &&& ascending_keys(keys_of(t))
            &&& forall|k: PrimaryKey| #[trigger]
                entry_for(t, k) == if k == e.key {
                    Some(e)
                } else {
                    entry_for(s, k)
                }
        }),
{
    let t = s.update(i, e);
    assert(keys_of(t) =~= keys_of(s));
    assert forall|k: PrimaryKey| #[trigger] entry_for(t, k) == if k == e.key {
        Some(e)
    } else {
        entry_for(s, k)
    } by {
        lemma_entry_for(s, k);
        lemma_entry_for(t, k);
        if k == e.key {
            assert(t[i].key == k);
        }
    }
}

/// The entries of the two halves of a list in order.
pub proof fn lemma_entries_halves(s: Seq<LeafEntry>, m: int)
    requires
        ascending_keys(keys_of(s)),
        0 < m < s.len(),
    ensures
        ascending_keys(keys_of(s.take(m))),
        ascending_keys(keys_of(s.skip(m))),
        forall|i: int| 0 <= i < m ==> key_lt((#[trigger] s[i]).key, s[m].key),
        forall|i: int| m <= i < s.len() ==> !key_lt((#[trigger] s[i]).key, s[m].key),
        forall|k: PrimaryKey|
            key_lt(k, s[m].key) ==> #[trigger] entry_for(s, k) == entry_for(s.take(m), k),
        forall|k: PrimaryKey|
            !key_lt(k, s[m].key) ==> #[trigger] entry_for(s, k) == entry_for(s.skip(m), k),
{
    let keys = keys_of(s);
    let a = s.take(m);
    let b = s.skip(m);
    assert forall|i: int, j: int| 0 <= i < j < keys_of(a).len() implies key_lt(
        #[trigger] keys_of(a)[i],
        #[trigger] keys_of(a)[j],
    ) by {
        assert(key_lt(keys[i], keys[j]));
    }
    assert forall|i: int, j: int| 0 <= i < j < keys_of(b).len() implies key_lt(
        #[trigger] keys_of(b)[i],
        #[trigger] keys_of(b)[j],
    ) by {
        assert(key_lt(keys[i + m], keys[j + m]));
    }
    assert forall|i: int| 0 <= i < m implies key_lt((#[trigger] s[i]).key, s[m].key) by {
        assert(key_lt(keys[i], keys[m]));
    }
    assert forall|i: int| m <= i < s.len() implies !key_lt((#[trigger] s[i]).key, s[m].key) by {
        if m < i {
            assert(key_lt(keys[m], keys[i]));
        }
    }
    assert forall|k: PrimaryKey| key_lt(k, s[m].key) implies #[trigger] entry_for(s, k)
        == entry_for(a, k) by {
        lemma_entry_for(s, k);
        lemma_entry_for(a, k);
        if entry_for(s, k) is Some {
            let i = choose|i: int| 0 <= i < s.len() && s[i] == entry_for(s, k)->Some_0;
            assert(s[i].key == k);
            assert(i < m);
            assert(a[i].key == k);
        } else if entry_for(a, k) is Some {
            let i = choose|i: int| 0 <= i < a.len() && a[i] == entry_for(a, k)->Some_0;
            assert(s[i].key == k);
        }
    }
    assert forall|k: PrimaryKey| !key_lt(k, s[m].key) implies #[trigger] entry_for(s, k)
        == entry_for(b, k) by {
        lemma_entry_for(s, k);
        lemma_entry_for(b, k);
        if entry_for(s, k) is Some {
            let i = choose|i: int| 0 <= i < s.len() && s[i] == entry_for(s, k)->Some_0;
            assert(s[i].key == k);
            assert(i >= m);
            assert(b[i - m].key == k);
        } else if entry_for(b, k) is Some {
            let i = choose|i: int| 0 <= i < b.len() && b[i] == entry_for(b, k)->Some_0;
            assert(s[i + m].key == k);
        }
    }
}

// ---- lists of pairs -------------------------------------------------------

/// The entry of a key below a list of pairs.
pub open spec fn find_below(
    pages: Map<u64, Seq<u8>>,
    first: u64,
    s: Seq<(PrimaryKey, u64)>,
    h: nat,
    k: PrimaryKey,
) -> Option<LeafEntry> {
    find(pages, child_of(first, s, rank_le(seps_of(s), k)), h, k)
}

/// Child `j` of a list of pairs is a tree.
pub open spec fn kid_tree(
    pages: Map<u64, Seq<u8>>,
    levels: Map<u64, nat>,
    first: u64,
    s: Seq<(PrimaryKey, u64)>,
    h: nat,
    lo: Option<PrimaryKey>,
    hi: Option<PrimaryKey>,
    j: int,
) -> bool {
    tree(pages, levels, child_of(first, s, j), h, kid_lo(s, j, lo), kid_hi(s, j, hi))
}

/// The children of a list of pairs are trees of height `h`, and the keys of
/// the pairs lie between `lo` and `hi`.
pub open spec fn kids(
    pages: Map<u64, Seq<u8>>,
    levels: Map<u64, nat>,
    first: u64,
    s: Seq<(PrimaryKey, u64)>,
    h: nat,
    lo: Option<PrimaryKey>,
    hi: Option<PrimaryKey>,
) -> bool {
    &&& ascending_keys(seps_of(s))
    &&& forall|i: int| 0 <= i < s.len() ==> in_range((#[trigger] s[i]).0, lo, hi)
    &&& forall|j: int|
        0 <= j <= s.len() ==> #[trigger] kid_tree(pages, levels, first, s, h, lo, hi, j)
}

proof fn lemma_kids_tree(
    pages: Map<u64, Seq<u8>>,
    levels: Map<u64, nat>,
    id: u64,
    h: nat,
    lo: Option<PrimaryKey>,
    hi: Option<PrimaryKey>,
)
    requires
        h > 0,
        pages.contains_key(id),
        levels.contains_key(id),
        levels[id] == h,
        node_ok(pages[id]),
        kinds_known(node_rows(pages[id])),
        pairs(pages[id]).len() > 0,
        kids(
            pages,
            levels,
            first_child(pages[id]),
            pairs(pages[id]),
            (h - 1) as nat,
            lo,
            hi,
        ),
    ensures
        tree(pages, levels, id, h, lo, hi),
{
    let b = pages[id];
    assert forall|j: int| 0 <= j <= pairs(b).len() implies tree(
        pages,
        levels,
        #[trigger] kid(b, j),
        (h - 1) as nat,
        kid_lo(pairs(b), j, lo),
        kid_hi(pairs(b), j, hi),
    ) by {
        assert(kid_tree(
            pages,
            levels,
            first_child(b),
            pairs(b),
            (h - 1) as nat,
            lo,
            hi,
            j,
        ));
    }
}

/// The child that a key belongs to: its bounds hold the key.
proof fn lemma_kid_range(
    s: Seq<(PrimaryKey, u64)>,
    k: PrimaryKey,
    lo: Option<PrimaryKey>,
    hi: Option<PrimaryKey>,
)
    requires
        ascending_keys(seps_of(s)),
        in_range(k, lo, hi),
    ensures
        ({
            let j = rank_le(seps_of(s), k);
            &&& 0 <= j <= s.len()
            &&& in_range(k, kid_lo(s, j, lo), kid_hi(s, j, hi))
        }),
{
    let keys = seps_of(s);
    lemma_rank(keys, k);
    let j = rank_le(keys, k);
    if j > 0 {
        assert(keys[j - 1] == s[j - 1].0);
    }
    if j < s.len() {
        assert(keys[j] == s[j].0);
    }
}

/// A key in the bounds of child `j` belongs to that child.
proof fn lemma_kid_of(
    s: Seq<(PrimaryKey, u64)>,
    k: PrimaryKey,
    j: int,
    lo: Option<PrimaryKey>,
    hi: Option<PrimaryKey>,
)
    requires
        ascending_keys(seps_of(s)),
        0 <= j <= s.len(),
        in_range(k, kid_lo(s, j, lo), kid_hi(s, j, hi)),
    ensures
        rank_le(seps_of(s), k) == j,
{
    let keys = seps_of(s);
    if j > 0 {
        assert(keys[j - 1] == s[j - 1].0);
    }
    if j < s.len() {
        assert(keys[j] == s[j].0);
    }
    lemma_rank_le_is(keys, k, j);
}

/// The bounds of a child lie within those of its parent.
proof fn lemma_kid_within(
    s: Seq<(PrimaryKey, u64)>,
    j: int,
    lo: Option<PrimaryKey>,
    hi: Option<PrimaryKey>,
    k: PrimaryKey,
)
    requires
        forall|i: int| 0 <= i < s.len() ==> in_range((#[trigger] s[i]).0, lo, hi),
        0 <= j <= s.len(),
        in_range(k, kid_lo(s, j, lo), kid_hi(s, j, hi)),
    ensures
        in_range(k, lo, hi),
{
    if j > 0 {
        assert(in_range(s[j - 1].0, lo, hi));
    }
    if j < s.len() {
        assert(in_range(s[j].0, lo, hi));
    }
}

// ---- pages that a change leaves alone -------------------------------------

/// Some key of the page lies outside the bounds.
pub open spec fn leaves_bounds(
    b: Seq<u8>,
    lo: Option<PrimaryKey>,
    hi: Option<PrimaryKey>,
) -> bool {
    exists|i: int| 0 <= i < page_keys(b).len() && !in_range(#[trigger] page_keys(b)[i], lo, hi)
}

/// Some key of the page lies within the bounds.
pub open spec fn touches_bounds(
    b: Seq<u8>,
    lo: Option<PrimaryKey>,
    hi: Option<PrimaryKey>,
) -> bool {
    exists|i: int| 0 <= i < page_keys(b).len() && in_range(#[trigger] page_keys(b)[i], lo, hi)
}

/// Every page of `a` that is another one in `b` lies above the height `h` or
/// has a key outside the bounds.
pub open spec fn spares(
    a: Map<u64, Seq<u8>>,
    levels: Map<u64, nat>,
    b: Map<u64, Seq<u8>>,
    h: nat,
    lo: Option<PrimaryKey>,
    hi: Option<PrimaryKey>,
) -> bool {
    forall|m: u64| #[trigger]
        a.contains_key(m) ==> b.contains_key(m) && (b[m] == a[m] || (levels.contains_key(m)
            && levels[m] > h) || leaves_bounds(a[m], lo, hi))
}

/// The heights of the pages of `a` are kept.
pub open spec fn keeps_levels(
    a: Map<u64, Seq<u8>>,
    levels: Map<u64, nat>,
    after: Map<u64, nat>,
) -> bool {
    forall|m: u64| #[trigger]
        a.contains_key(m) && levels.contains_key(m) ==> after.contains_key(m) && after[m]
            == levels[m]
}

proof fn lemma_page_in_bounds(
    pages: Map<u64, Seq<u8>>,
    levels: Map<u64, nat>,
    id: u64,
    h: nat,
    lo: Option<PrimaryKey>,
    hi: Option<PrimaryKey>,
)
    requires
        tree(pages, levels, id, h, lo, hi),
    ensures
        !leaves_bounds(pages[id], lo, hi),
        bounded(lo, hi) || h > 0 ==> touches_bounds(pages[id], lo, hi),
{
    let b = pages[id];
    if h == 0 {
        assert(page_keys(b) == keys_of(entries(b)));
        assert forall|i: int| 0 <= i < page_keys(b).len() implies in_range(
            #[trigger] page_keys(b)[i],
            lo,
            hi,
        ) by {
            assert(in_range(entries(b)[i].key, lo, hi));
        }
        if bounded(lo, hi) {
            assert(in_range(page_keys(b)[0], lo, hi));
        }
    } else {
        assert(page_keys(b) == seps_of(pairs(b)));
        assert forall|i: int| 0 <= i < page_keys(b).len() implies in_range(
            #[trigger] page_keys(b)[i],
            lo,
            hi,
        ) by {
            assert(in_range(pairs(b)[i].0, lo, hi));
        }
        assert(in_range(page_keys(b)[0], lo, hi));
    }
}

/// A tree that a change spares is the same tree after it.
proof fn lemma_frame(
    a: Map<u64, Seq<u8>>,
    levels: Map<u64, nat>,
    b: Map<u64, Seq<u8>>,
    after: Map<u64, nat>,
    id: u64,
    h: nat,
    lo: Option<PrimaryKey>,
    hi: Option<PrimaryKey>,
)
    requires
        tree(a, levels, id, h, lo, hi),
        spares(a, levels, b, h, lo, hi),
        keeps_levels(a, levels, after),
    ensures
        tree(b, after, id, h, lo, hi),
        b[id] == a[id],
        forall|k: PrimaryKey| #[trigger] find(b, id, h, k) == find(a, id, h, k),
    decreases h,
{
    lemma_page_in_bounds(a, levels, id, h, lo, hi);
    assert(a.contains_key(id));
    assert(b[id] == a[id]);
    if h > 0 {
        let p = a[id];
        let s = pairs(p);
        let g = (h - 1) as nat;
        assert forall|j: int| 0 <= j <= s.len() implies tree(
            b,
            after,
            #[trigger] kid(p, j),
            g,
            kid_lo(s, j, lo),
            kid_hi(s, j, hi),
        ) && (forall|k: PrimaryKey| #[trigger]
            find(b, kid(p, j), g, k) == find(a, kid(p, j), g, k)) by {
            let clo = kid_lo(s, j, lo);
            let chi = kid_hi(s, j, hi);
            assert forall|m: u64| #[trigger] a.contains_key(m) implies b.contains_key(m) && (b[m]
                == a[m] || (levels.contains_key(m) && levels[m] > g) || leaves_bounds(
                a[m],
                clo,
                chi,
            )) by {
                if b[m] != a[m] && !(levels.contains_key(m) && levels[m] > g) {
                    let i = choose|i: int|
                        0 <= i < page_keys(a[m]).len() && !in_range(
                            #[trigger] page_keys(a[m])[i],
                            lo,
                            hi,
                        );
                    let k = page_keys(a[m])[i];
                    if in_range(k, clo, chi) {
                        lemma_kid_within(s, j, lo, hi, k);
                    }
                    assert(!in_range(page_keys(a[m])[i], clo, chi));
                }
            }
            lemma_frame(a, levels, b, after, kid(p, j), g, clo, chi);
        }
        assert forall|k: PrimaryKey| #[trigger] find(b, id, h, k) == find(a, id, h, k) by {
            let keys = seps_of(s);
            lemma_rank(keys, k);
            let j = rank_le(keys, k);
            assert(find(b, kid(p, j), g, k) == find(a, kid(p, j), g, k));
        }
    } else {
        assert forall|k: PrimaryKey| #[trigger] find(b, id, h, k) == find(a, id, h, k) by {}
    }
}

// ---- heights of new pages -------------------------------------------------

/// Every page has a number below `next`.
pub open spec fn numbered_below(pages: Map<u64, Seq<u8>>, next: u64) -> bool {
    forall|m: u64| #[trigger] pages.contains_key(m) ==> m < next
}

proof fn lemma_levels_up(levels: Map<u64, nat>, next: u64, n: nat)
    requires
        next + n <= u64::MAX + 1,
    ensures
        forall|m: u64|
            m < next && #[trigger] levels.contains_key(m) ==> levels_up(
                levels,
                next,
                n,
            ).contains_pair(m, levels[m]),
        forall|i: int|
            0 <= i < n ==> levels_up(levels, next, n).contains_pair(
                #[trigger] ((next + i) as u64),
                i as nat,
            ),
    decreases n,
{
    if n > 0 {
        let before = levels_up(levels, next, (n - 1) as nat);
        lemma_levels_up(levels, next, (n - 1) as nat);
        assert forall|m: u64| m < next && #[trigger] levels.contains_key(m) implies levels_up(
            levels,
            next,
            n,
        ).contains_pair(m, levels[m]) by {
            assert(before.contains_pair(m, levels[m]));
            assert(m != (next + n - 1) as u64);
        }
        assert forall|i: int| 0 <= i < n implies levels_up(levels, next, n).contains_pair(
            #[trigger] ((next + i) as u64),
            i as nat,
        ) by {
            if i < n - 1 {
                assert(before.contains_pair((next + i) as u64, i as nat));
            }
        }
    }
}

// ---- a write, step by step ------------------------------------------------

/// Every page that a write changed lies at the height `h` or below, and has a
/// key within the bounds of the write.
pub open spec fn confined(
    a: Map<u64, Seq<u8>>,
    levels: Map<u64, nat>,
    b: Map<u64, Seq<u8>>,
    h: nat,
    lo: Option<PrimaryKey>,
    hi: Option<PrimaryKey>,
) -> bool {
    forall|m: u64| #[trigger]
        a.contains_key(m) ==> b.contains_key(m) && (b[m] == a[m] || (levels.contains_key(m)
            && levels[m] <= h && (bounded(lo, hi) ==> touches_bounds(a[m], lo, hi))))
}

/// The pages that a write added have the numbers from `from` on.
pub open spec fn adds_only(
    a: Map<u64, Seq<u8>>,
    b: Map<u64, Seq<u8>>,
    from: u64,
    to: u64,
) -> bool {
    forall|m: u64| #[trigger] b.contains_key(m) ==> a.contains_key(m) || from <= m < to
}

/// The entry that a key has after the write.
pub open spec fn expected(
    pages: Map<u64, Seq<u8>>,
    id: u64,
    h: nat,
    key: PrimaryKey,
    op: WriteOp,
    k: PrimaryKey,
) -> Option<LeafEntry> {
    if k == key {
        entry_after(find(pages, id, h, key), key, op)
    } else {
        find(pages, id, h, k)
    }
}

/// The entry of a key in the two trees that a split left.
pub open spec fn find_split(
    pages: Map<u64, Seq<u8>>,
    id: u64,
    h: nat,
    split: SplitInfo,
    k: PrimaryKey,
) -> Option<LeafEntry> {
    if key_lt(k, split.promoted_key) {
        find(pages, id, h, k)
    } else {
        find(pages, split.new_right_page.0, h, k)
    }
}

/// A write below `id` did what it should: the state `t` and the result `r`
/// follow from the state `s`.
pub open spec fn wrote(
    s: TreeState,
    levels: Map<u64, nat>,
    id: u64,
    h: nat,
    lo: Option<PrimaryKey>,
    hi: Option<PrimaryKey>,
    key: PrimaryKey,
    op: WriteOp,
    t: TreeState,
    r: Written,
) -> bool {
    let n = (t.next - s.next) as nat;
    let after = levels_up(levels, s.next, n);
    let old = find(s.pages, id, h, key);
    &&& s.next <= t.next <= s.next + h + 1
    &&& confined(s.pages, levels, t.pages, h, lo, hi)
    &&& adds_only(s.pages, t.pages, s.next, t.next)
    &&& match r {
        Err(e) => {
            &&& op is Insert && live_value(old) is Some
            &&& e == IndexError::DuplicateKey { key }
            &&& t.pages == s.pages
            &&& t.next == s.next
        },
        Ok((previous, split)) => {
            &&& !(op is Insert && live_value(old) is Some)
            &&& previous == live_value(old)
            &&& match split {
                None => {
                    &&& t.next == s.next || h > 0
                    &&& tree(t.pages, after, id, h, lo, hi)
                    &&& forall|k: PrimaryKey|
                        in_range(k, lo, hi) ==> #[trigger] find(t.pages, id, h, k) == expected(
                            s.pages,
                            id,
                            h,
                            key,
                            op,
                            k,
                        )
                },
                Some(sp) => {
                    &&& t.next == s.next + h + 1
                    &&& in_range(sp.promoted_key, lo, hi)
                    &&& lo matches Some(l) ==> key_lt(l, sp.promoted_key)
                    &&& tree(t.pages, after, id, h, lo, Some(sp.promoted_key))
                    &&& tree(
                        t.pages,
                        after,
                        sp.new_right_page.0,
                        h,
                        Some(sp.promoted_key),
                        hi,
                    )
                    &&& forall|k: PrimaryKey|
                        in_range(k, lo, hi) ==> #[trigger] find_split(t.pages, id, h, sp, k)
                            == expected(s.pages, id, h, key, op, k)
                },
            }
        },
    }
}

pub proof fn lemma_leaf_with(b: Seq<u8>, key: PrimaryKey, value: PageSlot)
    requires
        leaf_sorted(b),
        count_of(b) < LEAF_CAPACITY,
        entry_for(entries(b), key) is None,
    ensures
        ({
            let c = leaf_with(b, key, value);
            &&& leaf_sorted(c)
            &&& entries(c).len() == entries(b).len() + 1
            &&& forall|k: PrimaryKey| #[trigger]
                entry_for(entries(c), k) == if k == key {
                    Some(LeafEntry { key, value, dead: false })
                } else {
                    entry_for(entries(b), k)
                }
            &&& forall|i: int|
                0 <= i < entries(c).len() ==> (#[trigger] entries(c)[i]).key == key || exists|
                    j: int,
                |
                    0 <= j < entries(b).len() && entries(b)[j] == entries(c)[i]
        }),
{
    let s = entries(b);
    let e = LeafEntry { key, value, dead: false };
    lemma_entries_insert(s, e);
    lemma_rank(keys_of(s), key);
    let p = rank(keys_of(s), key);
    lemma_leaf_put(b, p, key, value);
    let c = leaf_with(b, key, value);
    assert forall|i: int| 0 <= i < entries(c).len() implies (#[trigger] entries(c)[i]).key == key
        || exists|j: int| 0 <= j < s.len() && s[j] == entries(c)[i] by {
        if i < p {
            assert(s[i] == entries(c)[i]);
        } else if i > p {
            assert(s[i - 1] == entries(c)[i]);
        }
    }
}

/// A leaf that was changed in place.
proof fn lemma_leaf_changed(
    s: TreeState,
    levels: Map<u64, nat>,
    id: u64,
    lo: Option<PrimaryKey>,
    hi: Option<PrimaryKey>,
    key: PrimaryKey,
    op: WriteOp,
    t: TreeState,
    r: Written,
    c: Seq<u8>,
)
    requires
        tree(s.pages, levels, id, 0, lo, hi),
        t.pages == s.pages.insert(id, c),
        t.next == s.next,
        leaf_sorted(c),
        in_range(key, lo, hi),
        entries(s.pages[id]).len() > 0 ==> entries(c).len() > 0,
        forall|i: int|
            0 <= i < entries(c).len() ==> in_range((#[trigger] entries(c)[i]).key, lo, hi),
        r == Ok::<(Option<PageSlot>, Option<SplitInfo>), IndexError>(
            (live_value(find(s.pages, id, 0, key)), None),
        ),
        !(op is Insert && live_value(find(s.pages, id, 0, key)) is Some),
        forall|k: PrimaryKey| #[trigger]
            entry_for(entries(c), k) == expected(s.pages, id, 0, key, op, k),
    ensures
        wrote(s, levels, id, 0, lo, hi, key, op, t, r),
{
    lemma_page_in_bounds(s.pages, levels, id, 0, lo, hi);
    assert(levels_up(levels, s.next, 0) == levels);
    assert forall|k: PrimaryKey| in_range(k, lo, hi) implies #[trigger] find(t.pages, id, 0, k)
        == expected(s.pages, id, 0, key, op, k) by {
        assert(find(t.pages, id, 0, k) == entry_for(entries(c), k));
    }
}

/// A full leaf that was split.
proof fn lemma_leaf_split(
    s: TreeState,
    levels: Map<u64, nat>,
    id: u64,
    lo: Option<PrimaryKey>,
    hi: Option<PrimaryKey>,
    key: PrimaryKey,
    value: PageSlot,
    op: WriteOp,
    t: TreeState,
)
    requires
        tree(s.pages, levels, id, 0, lo, hi),
        numbered_below(s.pages, s.next),
        s.next < u64::MAX,
        in_range(key, lo, hi),
        entry_for(entries(s.pages[id]), key) is None,
        count_of(s.pages[id]) >= LEAF_CAPACITY,
        op == WriteOp::Insert(value) || op == WriteOp::Upsert(value),
        t.pages == split_leaf(s, id, key, value).0.pages,
        t.next == split_leaf(s, id, key, value).0.next,
    ensures
        wrote(
            s,
            levels,
            id,
            0,
            lo,
            hi,
            key,
            op,
            t,
            Ok((None, Some(split_leaf(s, id, key, value).1))),
        ),
{
    let b = s.pages[id];
    let e = entries(b);
    let new = s.next;
    let low = leaf_low(b);
    let high = leaf_high(b, new);
    let m = count_of(b) as int / 2;
    lemma_leaf_halves(b, new);
    lemma_entries_halves(e, m);
    let first = entries(high)[0].key;
    assert(entries(high)[0] == e[m]);
    assert(leaf_sorted(low) && leaf_sorted(high));
    lemma_page_in_bounds(s.pages, levels, id, 0, lo, hi);
    assert(s.pages.contains_key(id));
    assert(id < new);
    assert forall|i: int| 0 <= i < entries(low).len() implies in_range(
        (#[trigger] entries(low)[i]).key,
        lo,
        Some(first),
    ) by {
        assert(entries(low)[i] == e[i]);
        assert(in_range(e[i].key, lo, hi));
    }
    assert forall|i: int| 0 <= i < entries(high).len() implies in_range(
        (#[trigger] entries(high)[i]).key,
        Some(first),
        hi,
    ) by {
        assert(entries(high)[i] == e[i + m]);
        assert(in_range(e[i + m].key, lo, hi));
    }
    assert(in_range(e[m].key, lo, hi));
    assert(in_range(e[0].key, lo, hi));
    let (low2, high2) = if key_lt(key, first) {
        (leaf_with(low, key, value), high)
    } else {
        (low, leaf_with(high, key, value))
    };
    assert(entry_for(e, key) is None);
    if key_lt(key, first) {
        lemma_leaf_with(low, key, value);
    } else {
        lemma_leaf_with(high, key, value);
    }
    assert forall|i: int| 0 <= i < entries(low2).len() implies in_range(
        (#[trigger] entries(low2)[i]).key,
        lo,
        Some(first),
    ) by {
        if entries(low2)[i].key != key {
            if key_lt(key, first) {
                let j = choose|j: int|
                    0 <= j < entries(low).len() && entries(low)[j] == entries(low2)[i];
                assert(in_range(entries(low)[j].key, lo, Some(first)));
            } else {
                assert(in_range(entries(low)[i].key, lo, Some(first)));
            }
        } else if !key_lt(key, first) {
            assert(in_range(entries(low)[i].key, lo, Some(first)));
        }
    }
    assert forall|i: int| 0 <= i < entries(high2).len() implies in_range(
        (#[trigger] entries(high2)[i]).key,
        Some(first),
        hi,
    ) by {
        if entries(high2)[i].key != key {
            if !key_lt(key, first) {
                let j = choose|j: int|
                    0 <= j < entries(high).len() && entries(high)[j] == entries(high2)[i];
                assert(in_range(entries(high)[j].key, Some(first), hi));
            } else {
                assert(in_range(entries(high)[i].key, Some(first), hi));
            }
        } else if key_lt(key, first) {
            assert(in_range(entries(high)[i].key, Some(first), hi));
        }
    }
    let sp = split_leaf(s, id, key, value).1;
    assert(t.pages[id] == low2 && t.pages[new] == high2);
    assert(levels_up(levels, new, 1) =~= levels.insert(new, 0)) by {
        assert(levels_up(levels, new, 0) == levels);
    }
    let after = levels_up(levels, new, 1);
    assert(tree(t.pages, after, id, 0, lo, Some(first)));
    assert(tree(t.pages, after, new, 0, Some(first), hi));
    assert forall|k: PrimaryKey| in_range(k, lo, hi) implies #[trigger] find_split(
        t.pages,
        id,
        0,
        sp,
        k,
    ) == expected(s.pages, id, 0, key, op, k) by {
        assert(entry_for(e, k) == if key_lt(k, e[m].key) {
            entry_for(entries(low), k)
        } else {
            entry_for(entries(high), k)
        });
        assert(find(t.pages, id, 0, k) == entry_for(entries(low2), k));
        assert(find(t.pages, new, 0, k) == entry_for(entries(high2), k));
    }
}

/// A write at a leaf.
proof fn lemma_leaf_step(
    s: TreeState,
    levels: Map<u64, nat>,
    id: u64,
    lo: Option<PrimaryKey>,
    hi: Option<PrimaryKey>,
    key: PrimaryKey,
    op: WriteOp,
)
    requires
        tree(s.pages, levels, id, 0, lo, hi),
        numbered_below(s.pages, s.next),
        s.next < u64::MAX,
        in_range(key, lo, hi),
    ensures
        wrote(
            s,
            levels,
            id,
            0,
            lo,
            hi,
            key,
            op,
            leaf_step(s, id, key, op).0,
            leaf_step(s, id, key, op).1,
        ),
{
    let b = s.pages[id];
    let e = entries(b);
    let (t, r) = leaf_step(s, id, key, op);
    lemma_entry_for(e, key);
    let p = rank(keys_of(e), key);
    let old = entry_for(e, key);
    let n = noted(s, id);
    match op {
        WriteOp::Remove => {
            if live_value(old) is Some {
                let c = leaf_set(b, p, live_value(old)->Some_0, true);
                lemma_leaf_set(b, p, live_value(old)->Some_0, true);
                lemma_entries_update(
                    e,
                    p,
                    LeafEntry { key: e[p].key, value: live_value(old)->Some_0, dead: true },
                );
                lemma_leaf_changed(s, levels, id, lo, hi, key, op, t, r, c);
            } else {
                assert forall|k: PrimaryKey| #[trigger] entry_for(entries(b), k) == expected(
                    s.pages,
                    id,
                    0,
                    key,
                    op,
                    k,
                ) by {
                    if k == key && old is Some {
                        assert(old->Some_0.dead);
                    }
                }
                lemma_leaf_changed(s, levels, id, lo, hi, key, op, t, r, b);
            }
        },
        WriteOp::Insert(v) => {
            lemma_leaf_value(s, levels, id, lo, hi, key, v, op);
        },
        WriteOp::Upsert(v) => {
            lemma_leaf_value(s, levels, id, lo, hi, key, v, op);
        },
    }
}

proof fn lemma_leaf_value(
    s: TreeState,
    levels: Map<u64, nat>,
    id: u64,
    lo: Option<PrimaryKey>,
    hi: Option<PrimaryKey>,
    key: PrimaryKey,
    v: PageSlot,
    op: WriteOp,
)
    requires
        tree(s.pages, levels, id, 0, lo, hi),
        numbered_below(s.pages, s.next),
        s.next < u64::MAX,
        in_range(key, lo, hi),
        op == WriteOp::Insert(v) || op == WriteOp::Upsert(v),
    ensures
        wrote(
            s,
            levels,
            id,
            0,
            lo,
            hi,
            key,
            op,
            leaf_step(s, id, key, op).0,
            leaf_step(s, id, key, op).1,
        ),
{
    let b = s.pages[id];
    let e = entries(b);
    let (t, r) = leaf_step(s, id, key, op);
    lemma_entry_for(e, key);
    let p = rank(keys_of(e), key);
    let old = entry_for(e, key);
    let n = noted(s, id);
    if old is Some {
        if op is Insert && !old->Some_0.dead {
            assert(confined(s.pages, levels, t.pages, 0, lo, hi));
        } else {
            let c = leaf_set(b, p, v, false);
            lemma_leaf_set(b, p, v, false);
            lemma_entries_update(e, p, LeafEntry { key: e[p].key, value: v, dead: false });
            lemma_leaf_changed(s, levels, id, lo, hi, key, op, t, r, c);
        }
    } else if count_of(b) < LEAF_CAPACITY {
        let c = leaf_with(b, key, v);
        lemma_leaf_with(b, key, v);
        assert forall|i: int| 0 <= i < entries(c).len() implies in_range(
            (#[trigger] entries(c)[i]).key,
            lo,
            hi,
        ) by {
            if entries(c)[i].key != key {
                let j = choose|j: int| 0 <= j < e.len() && e[j] == entries(c)[i];
                assert(in_range(e[j].key, lo, hi));
            }
        }
        lemma_leaf_changed(s, levels, id, lo, hi, key, op, t, r, c);
    } else {
        lemma_leaf_split(s, levels, id, lo, hi, key, v, op, t);
        assert(split_leaf(n, id, key, v).1 == split_leaf(s, id, key, v).1);
    }
}

// ---- inner pages ----------------------------------------------------------

/// A child that became two: a pair with the key between them goes into the
/// list.
proof fn lemma_kids_insert(
    pages: Map<u64, Seq<u8>>,
    levels: Map<u64, nat>,
    first: u64,
    s: Seq<(PrimaryKey, u64)>,
    g: nat,
    lo: Option<PrimaryKey>,
    hi: Option<PrimaryKey>,
    j: int,
    sp: SplitInfo,
)
    requires
        ascending_keys(seps_of(s)),
        forall|i: int| 0 <= i < s.len() ==> in_range((#[trigger] s[i]).0, lo, hi),
        0 <= j <= s.len(),
        forall|i: int|
            0 <= i <= s.len() && i != j ==> #[trigger] kid_tree(
                pages,
                levels,
                first,
                s,
                g,
                lo,
                hi,
                i,
            ),
        in_range(sp.promoted_key, kid_lo(s, j, lo), kid_hi(s, j, hi)),
        kid_lo(s, j, lo) matches Some(l) ==> key_lt(l, sp.promoted_key),
        tree(
            pages,
            levels,
            child_of(first, s, j),
            g,
            kid_lo(s, j, lo),
            Some(sp.promoted_key),
        ),
        tree(
            pages,
            levels,
            sp.new_right_page.0,
            g,
            Some(sp.promoted_key),
            kid_hi(s, j, hi),
        ),
    ensures
        ({
            let t = s.insert(j, (sp.promoted_key, sp.new_right_page.0));
            &&& kids(pages, levels, first, t, g, lo, hi)
            &&& rank(seps_of(s), sp.promoted_key) == j
            &&& forall|i: int| 0 <= i < s.len() ==> (#[trigger] s[i]).0 != sp.promoted_key
            &&& forall|k: PrimaryKey|
                in_range(k, lo, hi) ==> #[trigger] find_below(pages, first, t, g, k) == {
                    if rank_le(seps_of(s), k) == j {
                        find_split(pages, child_of(first, s, j), g, sp, k)
                    } else {
                        find_below(pages, first, s, g, k)
                    }
                }
        }),
{
    let pk = sp.promoted_key;
    let right = sp.new_right_page.0;
    let keys = seps_of(s);
    let t = s.insert(j, (pk, right));
    let tkeys = seps_of(t);
    lemma_kid_within(s, j, lo, hi, pk);
    if j > 0 {
        assert(keys[j - 1] == s[j - 1].0);
    }
    if j < s.len() {
        assert(keys[j] == s[j].0);
    }
    lemma_rank_is(keys, pk, j);
    lemma_rank(keys, pk);
    assert forall|i: int| 0 <= i < s.len() implies (#[trigger] s[i]).0 != pk by {
        assert(keys[i] == s[i].0);
        if i < j {
            assert(key_lt(keys[i], pk));
        } else {
            if j < i {
                assert(key_lt(keys[j], keys[i]));
            }
        }
    }
    assert forall|a: int, b: int| 0 <= a < b < tkeys.len() implies key_lt(
        #[trigger] tkeys[a],
        #[trigger] tkeys[b],
    ) by {
        let x = if a < j {
            a
        } else {
            a - 1
        };
        let y = if b < j {
            b
        } else {
            b - 1
        };
        if a != j {
            assert(t[a] == s[x] && keys[x] == s[x].0);
        }
        if b != j {
            assert(t[b] == s[y] && keys[y] == s[y].0);
        }
        if a != j && b != j {
            assert(key_lt(keys[x], keys[y]));
        } else if a == j {
            assert(!key_lt(keys[y], pk) && s[y].0 != pk);
        } else {
            assert(key_lt(keys[x], pk));
        }
    }
    assert forall|i: int| 0 <= i < t.len() implies in_range((#[trigger] t[i]).0, lo, hi) by {
        if i < j {
            assert(t[i] == s[i]);
        } else if i > j {
            assert(t[i] == s[i - 1]);
        }
    }
    assert forall|i: int| 0 <= i <= t.len() implies #[trigger] kid_tree(
        pages,
        levels,
        first,
        t,
        g,
        lo,
        hi,
        i,
    ) by {
        if i < j {
            assert(kid_tree(pages, levels, first, s, g, lo, hi, i));
            if i > 0 {
                assert(t[i - 1] == s[i - 1]);
            }
            assert(t[i].0 == s[i].0);
            assert(child_of(first, t, i) == child_of(first, s, i));
        } else if i == j {
            if i > 0 {
                assert(t[i - 1] == s[i - 1]);
            }
            assert(child_of(first, t, i) == child_of(first, s, i));
            assert(t[j] == (pk, right));
        } else if i == j + 1 {
            assert(t[j] == (pk, right));
            if j < s.len() {
                assert(t[j + 1] == s[j]);
            }
        } else {
            assert(kid_tree(pages, levels, first, s, g, lo, hi, i - 1));
            assert(t[i - 1] == s[i - 2]);
            if i < t.len() {
                assert(t[i] == s[i - 1]);
            }
        }
    }
    assert forall|k: PrimaryKey| in_range(k, lo, hi) implies #[trigger] find_below(
        pages,
        first,
        t,
        g,
        k,
    ) == {
        if rank_le(keys, k) == j {
            find_split(pages, child_of(first, s, j), g, sp, k)
        } else {
            find_below(pages, first, s, g, k)
        }
    } by {
        let i = rank_le(keys, k);
        lemma_kid_range(s, k, lo, hi);
        if i < j {
            if i > 0 {
                assert(t[i - 1] == s[i - 1]);
            }
            assert(t[i].0 == s[i].0);
            lemma_kid_of(t, k, i, lo, hi);
            assert(child_of(first, t, i) == child_of(first, s, i));
        } else if i == j {
            if i > 0 {
                assert(t[i - 1] == s[i - 1]);
            }
            assert(t[j] == (pk, right));
            if key_lt(k, pk) {
                lemma_kid_of(t, k, j, lo, hi);
                assert(child_of(first, t, j) == child_of(first, s, j));
            } else {
                if j < s.len() {
                    assert(t[j + 1] == s[j]);
                }
                lemma_kid_of(t, k, j + 1, lo, hi);
            }
        } else {
            assert(t[i] == s[i - 1]);
            if i + 1 < t.len() {
                assert(t[i + 1] == s[i]);
            }
            lemma_kid_of(t, k, i + 1, lo, hi);
        }
    }
}

/// A list of pairs that is cut at pair `m`.
proof fn lemma_kids_split(
    pages: Map<u64, Seq<u8>>,
    levels: Map<u64, nat>,
    first: u64,
    s: Seq<(PrimaryKey, u64)>,
    g: nat,
    lo: Option<PrimaryKey>,
    hi: Option<PrimaryKey>,
    m: int,
)
    requires
        kids(pages, levels, first, s, g, lo, hi),
        0 <= m < s.len(),
    ensures
        kids(pages, levels, first, s.take(m), g, lo, Some(s[m].0)),
        kids(pages, levels, s[m].1, s.skip(m + 1), g, Some(s[m].0), hi),
        forall|k: PrimaryKey|
            in_range(k, lo, hi) ==> #[trigger] find_below(pages, first, s, g, k) == if key_lt(
                k,
                s[m].0,
            ) {
                find_below(pages, first, s.take(m), g, k)
            } else {
                find_below(pages, s[m].1, s.skip(m + 1), g, k)
            },
{
    let a = s.take(m);
    let b = s.skip(m + 1);
    let keys = seps_of(s);
    let mid = s[m].0;
    assert(keys[m] == mid);
    assert forall|i: int, j: int| 0 <= i < j < seps_of(a).len() implies key_lt(
        #[trigger] seps_of(a)[i],
        #[trigger] seps_of(a)[j],
    ) by {
        assert(key_lt(keys[i], keys[j]));
    }
    assert forall|i: int, j: int| 0 <= i < j < seps_of(b).len() implies key_lt(
        #[trigger] seps_of(b)[i],
        #[trigger] seps_of(b)[j],
    ) by {
        assert(key_lt(keys[i + m + 1], keys[j + m + 1]));
    }
    assert forall|i: int| 0 <= i < a.len() implies in_range(
        (#[trigger] a[i]).0,
        lo,
        Some(mid),
    ) by {
        assert(in_range(s[i].0, lo, hi));
        assert(key_lt(keys[i], keys[m]));
    }
    assert forall|i: int| 0 <= i < b.len() implies in_range(
        (#[trigger] b[i]).0,
        Some(mid),
        hi,
    ) by {
        assert(b[i] == s[i + m + 1]);
        assert(in_range(s[i + m + 1].0, lo, hi));
        assert(key_lt(keys[m], keys[i + m + 1]));
    }
    assert forall|i: int| 0 <= i <= a.len() implies #[trigger] kid_tree(
        pages,
        levels,
        first,
        a,
        g,
        lo,
        Some(mid),
        i,
    ) by {
        assert(kid_tree(pages, levels, first, s, g, lo, hi, i));
        if i > 0 {
            assert(a[i - 1] == s[i - 1]);
        }
        if i < m {
            assert(a[i] == s[i]);
        }
    }
    assert forall|i: int| 0 <= i <= b.len() implies #[trigger] kid_tree(
        pages,
        levels,
        s[m].1,
        b,
        g,
        Some(mid),
        hi,
        i,
    ) by {
        assert(kid_tree(pages, levels, first, s, g, lo, hi, i + m + 1));
        if i > 0 {
            assert(b[i - 1] == s[i + m]);
        }
        if i < b.len() {
            assert(b[i] == s[i + m + 1]);
        }
    }
    assert forall|k: PrimaryKey| in_range(k, lo, hi) implies #[trigger] find_below(
        pages,
        first,
        s,
        g,
        k,
    ) == if key_lt(k, mid) {
        find_below(pages, first, a, g, k)
    } else {
        find_below(pages, s[m].1, b, g, k)
    } by {
        let i = rank_le(keys, k);
        lemma_kid_range(s, k, lo, hi);
        lemma_rank(keys, k);
        if key_lt(k, mid) {
            assert(i <= m);
            if i > 0 {
                assert(a[i - 1] == s[i - 1]);
            }
            if i < m {
                assert(a[i] == s[i]);
            }
            lemma_kid_of(a, k, i, lo, Some(mid));
        } else {
            assert(i >= m + 1);
            let x = i - m - 1;
            if x > 0 {
                assert(b[x - 1] == s[i - 1]);
            }
            if x < b.len() {
                assert(b[x] == s[i]);
            }
            lemma_kid_of(b, k, x, Some(mid), hi);
        }
    }
}

/// What a child's write leaves of its parent: the parent's page, and the other
/// children.
proof fn lemma_siblings(
    s: TreeState,
    levels: Map<u64, nat>,
    id: u64,
    h: nat,
    lo: Option<PrimaryKey>,
    hi: Option<PrimaryKey>,
    j: int,
    t: TreeState,
    after: Map<u64, nat>,
)
    requires
        h > 0,
        tree(s.pages, levels, id, h, lo, hi),
        0 <= j <= pairs(s.pages[id]).len(),
        confined(
            s.pages,
            levels,
            t.pages,
            (h - 1) as nat,
            kid_lo(pairs(s.pages[id]), j, lo),
            kid_hi(pairs(s.pages[id]), j, hi),
        ),
        keeps_levels(s.pages, levels, after),
    ensures
        t.pages.contains_key(id),
        t.pages[id] == s.pages[id],
        after.contains_key(id) && after[id] == h,
        forall|i: int|
            0 <= i <= pairs(s.pages[id]).len() && i != j ==> #[trigger] kid_tree(
                t.pages,
                after,
                first_child(s.pages[id]),
                pairs(s.pages[id]),
                (h - 1) as nat,
                lo,
                hi,
                i,
            ),
        forall|i: int, k: PrimaryKey|
            #![trigger find(t.pages, kid(s.pages[id], i), (h - 1) as nat, k)]
            0 <= i <= pairs(s.pages[id]).len() && i != j ==> find(
                t.pages,
                kid(s.pages[id], i),
                (h - 1) as nat,
                k,
            ) == find(s.pages, kid(s.pages[id], i), (h - 1) as nat, k),
{
    let b = s.pages[id];
    let ps = pairs(b);
    let g = (h - 1) as nat;
    let clo = kid_lo(ps, j, lo);
    let chi = kid_hi(ps, j, hi);
    assert(s.pages.contains_key(id));
    assert(bounded(clo, chi));
    assert forall|i: int| 0 <= i <= ps.len() && i != j implies #[trigger] kid_tree(
        t.pages,
        after,
        first_child(b),
        ps,
        g,
        lo,
        hi,
        i,
    ) && (forall|k: PrimaryKey| #[trigger]
        find(t.pages, kid(b, i), g, k) == find(s.pages, kid(b, i), g, k)) by {
        let ilo = kid_lo(ps, i, lo);
        let ihi = kid_hi(ps, i, hi);
        assert(tree(s.pages, levels, kid(b, i), g, ilo, ihi));
        assert forall|m: u64| #[trigger] s.pages.contains_key(m) implies t.pages.contains_key(m) && (
        t.pages[m] == s.pages[m] || (levels.contains_key(m) && levels[m] > g) || leaves_bounds(
            s.pages[m],
            ilo,
            ihi,
        )) by {
            if t.pages[m] != s.pages[m] {
                let x = choose|x: int|
                    0 <= x < page_keys(s.pages[m]).len() && in_range(
                        #[trigger] page_keys(s.pages[m])[x],
                        clo,
                        chi,
                    );
                let k = page_keys(s.pages[m])[x];
                if in_range(k, ilo, ihi) {
                    lemma_kid_of(ps, k, i, lo, hi);
                    lemma_kid_of(ps, k, j, lo, hi);
                }
                assert(!in_range(page_keys(s.pages[m])[x], ilo, ihi));
            }
        }
        lemma_frame(s.pages, levels, t.pages, after, kid(b, i), g, ilo, ihi);
        assert(kid_tree(t.pages, after, first_child(b), ps, g, lo, hi, i));
    }
    assert forall|i: int, k: PrimaryKey|
        #![trigger find(t.pages, kid(b, i), g, k)]
        0 <= i <= ps.len() && i != j implies find(t.pages, kid(b, i), g, k) == find(
        s.pages,
        kid(b, i),
        g,
        k,
    ) by {
        assert(kid_tree(t.pages, after, first_child(b), ps, g, lo, hi, i));
    }
}

/// The pages of an inner page that took in a split, and what is below it.
proof fn lemma_above(
    pages: Map<u64, Seq<u8>>,
    levels: Map<u64, nat>,
    after: Map<u64, nat>,
    next: u64,
    b: Map<u64, Seq<u8>>,
    id: u64,
    g: nat,
    first: u64,
    ps: Seq<(PrimaryKey, u64)>,
    lo: Option<PrimaryKey>,
    hi: Option<PrimaryKey>,
)
    requires
        kids(pages, levels, first, ps, g, lo, hi),
        numbered_below(pages, next),
        levels.contains_key(id),
        levels[id] == g + 1,
        keeps_levels(pages, levels, after),
        forall|m: u64| #[trigger]
            pages.contains_key(m) ==> b.contains_key(m) && (m == id || b[m] == pages[m]),
    ensures
        kids(b, after, first, ps, g, lo, hi),
        forall|k: PrimaryKey| #[trigger]
            find_below(b, first, ps, g, k) == find_below(pages, first, ps, g, k),
{
    assert forall|j: int| 0 <= j <= ps.len() implies #[trigger] kid_tree(
        b,
        after,
        first,
        ps,
        g,
        lo,
        hi,
        j,
    ) && (forall|k: PrimaryKey| #[trigger]
        find(b, child_of(first, ps, j), g, k) == find(pages, child_of(first, ps, j), g, k)) by {
        assert(kid_tree(pages, levels, first, ps, g, lo, hi, j));
        lemma_frame(
            pages,
            levels,
            b,
            after,
            child_of(first, ps, j),
            g,
            kid_lo(ps, j, lo),
            kid_hi(ps, j, hi),
        );
    }
    assert forall|k: PrimaryKey| #[trigger] find_below(b, first, ps, g, k) == find_below(
        pages,
        first,
        ps,
        g,
        k,
    ) by {
        lemma_rank(seps_of(ps), k);
        let j = rank_le(seps_of(ps), k);
        assert(kid_tree(b, after, first, ps, g, lo, hi, j));
    }
}

pub proof fn lemma_node_with(b: Seq<u8>, sp: SplitInfo)
    requires
        node_sorted(b),
        count_of(b) < INTERNAL_CAPACITY,
    ensures
        ({
            let c = node_with(b, sp);
            let p = rank(seps_of(pairs(b)), sp.promoted_key);
            &&& 0 <= p <= pairs(b).len()
            &&& node_ok(c)
            &&& kinds_known(node_rows(c))
            &&& pairs(c) == pairs(b).insert(p, (sp.promoted_key, sp.new_right_page.0))
            &&& first_child(c) == first_child(b)
        }),
{
    lemma_rank(seps_of(pairs(b)), sp.promoted_key);
    lemma_node_put(
        b,
        rank(seps_of(pairs(b)), sp.promoted_key),
        sp.promoted_key,
        sp.new_right_page.0,
    );
}

/// The rank of a key in the front part of a list.
proof fn lemma_rank_front(s: Seq<(PrimaryKey, u64)>, m: int, k: PrimaryKey)
    requires
        ascending_keys(seps_of(s)),
        0 <= m < s.len(),
        key_lt(k, s[m].0),
    ensures
        rank(seps_of(s.take(m)), k) == rank(seps_of(s), k),
        rank(seps_of(s), k) <= m,
        ascending_keys(seps_of(s.take(m))),
{
    let keys = seps_of(s);
    let a = s.take(m);
    lemma_rank(keys, k);
    let r = rank(keys, k);
    assert(keys[m] == s[m].0);
    assert(r <= m);
    assert forall|i: int, j: int| 0 <= i < j < seps_of(a).len() implies key_lt(
        #[trigger] seps_of(a)[i],
        #[trigger] seps_of(a)[j],
    ) by {
        assert(key_lt(keys[i], keys[j]));
    }
    if r > 0 {
        assert(seps_of(a)[r - 1] == keys[r - 1]);
    }
    if r < m {
        assert(seps_of(a)[r] == keys[r]);
    }
    lemma_rank_is(seps_of(a), k, r);
}

/// The rank of a key in the back part of a list.
proof fn lemma_rank_back(s: Seq<(PrimaryKey, u64)>, m: int, k: PrimaryKey)
    requires
        ascending_keys(seps_of(s)),
        0 <= m < s.len(),
        key_lt(s[m].0, k),
    ensures
        rank(seps_of(s.skip(m + 1)), k) == rank(seps_of(s), k) - m - 1,
        rank(seps_of(s), k) >= m + 1,
        ascending_keys(seps_of(s.skip(m + 1))),
{
    let keys = seps_of(s);
    let b = s.skip(m + 1);
    lemma_rank(keys, k);
    let r = rank(keys, k);
    assert(keys[m] == s[m].0);
    assert(r >= m + 1);
    let x = r - m - 1;
    assert forall|i: int, j: int| 0 <= i < j < seps_of(b).len() implies key_lt(
        #[trigger] seps_of(b)[i],
        #[trigger] seps_of(b)[j],
    ) by {
        assert(key_lt(keys[i + m + 1], keys[j + m + 1]));
    }
    if x > 0 {
        assert(seps_of(b)[x - 1] == keys[r - 1]);
    }
    if x < b.len() {
        assert(seps_of(b)[x] == keys[r]);
    }
    lemma_rank_is(seps_of(b), k, x);
}

/// An inner page takes in a split of child `j`.
proof fn lemma_node_step(
    t: TreeState,
    levels: Map<u64, nat>,
    id: u64,
    h: nat,
    lo: Option<PrimaryKey>,
    hi: Option<PrimaryKey>,
    j: int,
    sp: SplitInfo,
)
    requires
        h > 0,
        numbered_below(t.pages, t.next),
        t.next < u64::MAX,
        t.pages.contains_key(id),
        levels.contains_key(id),
        levels[id] == h,
        node_sorted(t.pages[id]),
        pairs(t.pages[id]).len() > 0,
        kids(
            t.pages,
            levels,
            first_child(t.pages[id]),
            pairs(t.pages[id]).insert(j, (sp.promoted_key, sp.new_right_page.0)),
            (h - 1) as nat,
            lo,
            hi,
        ),
        0 <= j <= pairs(t.pages[id]).len(),
        rank(seps_of(pairs(t.pages[id])), sp.promoted_key) == j,
        forall|i: int|
            0 <= i < pairs(t.pages[id]).len() ==> (#[trigger] pairs(t.pages[id])[i]).0
                != sp.promoted_key,
        forall|i: int|
            0 <= i < pairs(t.pages[id]).len() ==> in_range(
                (#[trigger] pairs(t.pages[id])[i]).0,
                lo,
                hi,
            ),
    ensures
        ({
            let all = pairs(t.pages[id]).insert(j, (sp.promoted_key, sp.new_right_page.0));
            let first = first_child(t.pages[id]);
            let (u, up) = node_step(t, id, sp);
            match up {
                None => {
                    &&& u.next == t.next
                    &&& u.pages.dom() == t.pages.dom()
                    &&& tree(u.pages, levels, id, h, lo, hi)
                    &&& forall|k: PrimaryKey|
                        in_range(k, lo, hi) ==> #[trigger] find(u.pages, id, h, k) == find_below(
                            t.pages,
                            first,
                            all,
                            (h - 1) as nat,
                            k,
                        )
                },
                Some(x) => {
                    let after = levels.insert(t.next, h);
                    &&& u.next == t.next + 1
                    &&& u.pages.dom() == t.pages.dom().insert(t.next)
                    &&& in_range(x.promoted_key, lo, hi)
                    &&& lo matches Some(l) ==> key_lt(l, x.promoted_key)
                    &&& tree(u.pages, after, id, h, lo, Some(x.promoted_key))
                    &&& tree(u.pages, after, x.new_right_page.0, h, Some(x.promoted_key), hi)
                    &&& forall|k: PrimaryKey|
                        in_range(k, lo, hi) ==> #[trigger] find_split(u.pages, id, h, x, k)
                            == find_below(t.pages, first, all, (h - 1) as nat, k)
                },
            }
        }),
        forall|m: u64| #[trigger]
            t.pages.contains_key(m) ==> node_step(t, id, sp).0.pages.contains_key(m) && (m == id
                || node_step(t, id, sp).0.pages[m] == t.pages[m]),
{
    let b = t.pages[id];
    let ps = pairs(b);
    let g = (h - 1) as nat;
    let first = first_child(b);
    let pair = (sp.promoted_key, sp.new_right_page.0);
    let all = ps.insert(j, pair);
    let (u, up) = node_step(t, id, sp);
    if count_of(b) < INTERNAL_CAPACITY {
        lemma_node_with(b, sp);
        lemma_above(t.pages, levels, levels, t.next, u.pages, id, g, first, all, lo, hi);
        lemma_kids_tree(u.pages, levels, id, h, lo, hi);
        assert forall|k: PrimaryKey| in_range(k, lo, hi) implies #[trigger] find(u.pages, id, h, k)
            == find_below(t.pages, first, all, g, k) by {
            assert(find(u.pages, id, h, k) == find_below(u.pages, first, all, g, k));
        }
        assert(u.pages.dom() =~= t.pages.dom());
    } else {
        let new = t.next;
        let m = count_of(b) as int / 2;
        let low = node_low(b);
        let high = node_high(b, new);
        lemma_node_halves(b, new);
        let mid = ps[m].0;
        let x = up->Some_0;
        let after = levels.insert(new, h);
        let keys = seps_of(ps);
        assert(keys[m] == mid);
        assert(ps[m].0 != sp.promoted_key);
        law_key_order(sp.promoted_key, mid, mid);
        let at = if key_lt(sp.promoted_key, mid) {
            m + 1
        } else {
            m
        };
        if key_lt(sp.promoted_key, mid) {
            lemma_rank_front(ps, m, sp.promoted_key);
            lemma_rank_back_sorted(ps, m);
            lemma_node_with(low, sp);
            assert(ps.take(m).insert(j, pair) =~= all.take(m + 1));
            assert(ps.skip(m + 1) =~= all.skip(m + 2));
            assert(all[m + 1] == ps[m]);
        } else {
            lemma_rank_back(ps, m, sp.promoted_key);
            lemma_rank_front_sorted(ps, m);
            lemma_node_with(high, sp);
            assert(ps.skip(m + 1).insert(j - m - 1, pair) =~= all.skip(m + 1));
            assert(ps.take(m) =~= all.take(m));
            assert(all[m] == ps[m]);
        }
        assert(pairs(u.pages[id]) == all.take(at));
        assert(pairs(u.pages[new]) == all.skip(at + 1));
        assert(all[at] == ps[m]);
        lemma_above(t.pages, levels, after, t.next, u.pages, id, g, first, all, lo, hi);
        lemma_kids_split(u.pages, after, first, all, g, lo, hi, at);
        lemma_kids_tree(u.pages, after, id, h, lo, Some(mid));
        lemma_kids_tree(u.pages, after, new, h, Some(mid), hi);
        assert(in_range(ps[m].0, lo, hi));
        if lo is Some {
            assert(in_range(ps[0].0, lo, hi));
            assert(keys[0] == ps[0].0);
            assert(key_lt(keys[0], keys[m]));
        }
        assert forall|k: PrimaryKey| in_range(k, lo, hi) implies #[trigger] find_split(
            u.pages,
            id,
            h,
            x,
            k,
        ) == find_below(t.pages, first, all, g, k) by {
            assert(find_below(u.pages, first, all, g, k) == find_below(t.pages, first, all, g, k));
            if key_lt(k, mid) {
                assert(find(u.pages, id, h, k) == find_below(u.pages, first, all.take(at), g, k));
            } else {
                assert(find(u.pages, new, h, k) == find_below(
                    u.pages,
                    all[at].1,
                    all.skip(at + 1),
                    g,
                    k,
                ));
            }
        }
        assert(u.pages.dom() =~= t.pages.dom().insert(new));
    }
}

/// The parts of a list in order are in order.
pub proof fn lemma_parts_sorted(s: Seq<(PrimaryKey, u64)>, m: int)
    requires
        ascending_keys(seps_of(s)),
        0 <= m < s.len(),
    ensures
        ascending_keys(seps_of(s.take(m))),
        ascending_keys(seps_of(s.skip(m + 1))),
{
    lemma_rank_front_sorted(s, m);
    lemma_rank_back_sorted(s, m);
}

proof fn lemma_rank_back_sorted(s: Seq<(PrimaryKey, u64)>, m: int)
    requires
        ascending_keys(seps_of(s)),
        0 <= m < s.len(),
    ensures
        ascending_keys(seps_of(s.skip(m + 1))),
{
    let b = s.skip(m + 1);
    assert forall|i: int, j: int| 0 <= i < j < seps_of(b).len() implies key_lt(
        #[trigger] seps_of(b)[i],
        #[trigger] seps_of(b)[j],
    ) by {
        assert(key_lt(seps_of(s)[i + m + 1], seps_of(s)[j + m + 1]));
    }
}

proof fn lemma_rank_front_sorted(s: Seq<(PrimaryKey, u64)>, m: int)
    requires
        ascending_keys(seps_of(s)),
        0 <= m < s.len(),
    ensures
        ascending_keys(seps_of(s.take(m))),
{
    let a = s.take(m);
    assert forall|i: int, j: int| 0 <= i < j < seps_of(a).len() implies key_lt(
        #[trigger] seps_of(a)[i],
        #[trigger] seps_of(a)[j],
    ) by {
        assert(key_lt(seps_of(s)[i], seps_of(s)[j]));
    }
}

// ---- the whole tree -------------------------------------------------------

/// A write below a page does what it should.
pub proof fn lemma_write(
    s: TreeState,
    levels: Map<u64, nat>,
    id: u64,
    h: nat,
    lo: Option<PrimaryKey>,
    hi: Option<PrimaryKey>,
    key: PrimaryKey,
    op: WriteOp,
)
    requires
        tree(s.pages, levels, id, h, lo, hi),
        numbered_below(s.pages, s.next),
        s.next + h < u64::MAX,
        in_range(key, lo, hi),
    ensures
        wrote(
            s,
            levels,
            id,
            h,
            lo,
            hi,
            key,
            op,
            write_step(s, id, h, key, op).0,
            write_step(s, id, h, key, op).1,
        ),
        write_step(s, id, h, key, op).1 matches Ok((_, Some(_))) ==> h > 0
            ==> write_step(s, id, h, key, op).0.pages.contains_key(id),
    decreases h,
{
    if h == 0 {
        lemma_leaf_step(s, levels, id, lo, hi, key, op);
    } else {
        let b = s.pages[id];
        let ps = pairs(b);
        let g = (h - 1) as nat;
        let j = rank_le(seps_of(ps), key);
        let c = kid(b, j);
        let clo = kid_lo(ps, j, lo);
        let chi = kid_hi(ps, j, hi);
        let first = first_child(b);
        lemma_kid_range(ps, key, lo, hi);
        assert(tree(s.pages, levels, c, g, clo, chi));
        lemma_write(s, levels, c, g, clo, chi, key, op);
        let (t, r) = write_step(s, c, g, key, op);
        let n = (t.next - s.next) as nat;
        let mid = levels_up(levels, s.next, n);
        lemma_levels_up(levels, s.next, n);
        assert(keeps_levels(s.pages, levels, mid));
        lemma_siblings(s, levels, id, h, lo, hi, j, t, mid);
        lemma_page_in_bounds(s.pages, levels, id, h, lo, hi);
        assert(find(s.pages, id, h, key) == find(s.pages, c, g, key));
        let (u, q) = write_step(s, id, h, key, op);
        assert(confined(s.pages, levels, t.pages, h, lo, hi)) by {
            assert forall|m: u64| #[trigger] s.pages.contains_key(m) implies t.pages.contains_key(m)
                && (t.pages[m] == s.pages[m] || (levels.contains_key(m) && levels[m] <= h && (
            bounded(lo, hi) ==> touches_bounds(s.pages[m], lo, hi)))) by {
                if t.pages[m] != s.pages[m] {
                    let x = choose|x: int|
                        0 <= x < page_keys(s.pages[m]).len() && in_range(
                            #[trigger] page_keys(s.pages[m])[x],
                            clo,
                            chi,
                        );
                    lemma_kid_within(ps, j, lo, hi, page_keys(s.pages[m])[x]);
                    assert(in_range(page_keys(s.pages[m])[x], lo, hi));
                }
            }
        }
        match r {
            Err(e) => {},
            Ok((previous, None)) => {
                assert forall|i: int| 0 <= i <= ps.len() implies #[trigger] kid_tree(
                    t.pages,
                    mid,
                    first,
                    ps,
                    g,
                    lo,
                    hi,
                    i,
                ) by {
                    if i == j {
                        assert(tree(t.pages, mid, c, g, clo, chi));
                    }
                }
                lemma_kids_tree(t.pages, mid, id, h, lo, hi);
                assert forall|k: PrimaryKey| in_range(k, lo, hi) implies #[trigger] find(
                    t.pages,
                    id,
                    h,
                    k,
                ) == expected(s.pages, id, h, key, op, k) by {
                    lemma_kid_range(ps, k, lo, hi);
                    let i = rank_le(seps_of(ps), k);
                    assert(find(t.pages, id, h, k) == find(t.pages, kid(b, i), g, k));
                    assert(find(s.pages, id, h, k) == find(s.pages, kid(b, i), g, k));
                }
            },
            Ok((previous, Some(sp))) => {
                lemma_split_taken_in(s, levels, id, h, lo, hi, key, op, t, sp, previous);
            },
        }
    }
}

proof fn lemma_split_taken_in(
    s: TreeState,
    levels: Map<u64, nat>,
    id: u64,
    h: nat,
    lo: Option<PrimaryKey>,
    hi: Option<PrimaryKey>,
    key: PrimaryKey,
    op: WriteOp,
    t: TreeState,
    sp: SplitInfo,
    previous: Option<PageSlot>,
)
    requires
        h > 0,
        tree(s.pages, levels, id, h, lo, hi),
        numbered_below(s.pages, s.next),
        s.next + h < u64::MAX,
        in_range(key, lo, hi),
        ({
            let ps = pairs(s.pages[id]);
            let j = rank_le(seps_of(ps), key);
            let g = (h - 1) as nat;
            let c = kid(s.pages[id], j);
            let mid = levels_up(levels, s.next, (t.next - s.next) as nat);
            &&& 0 <= j <= ps.len()
            &&& find(s.pages, id, h, key) == find(s.pages, c, g, key)
            &&& wrote(
                s,
                levels,
                c,
                g,
                kid_lo(ps, j, lo),
                kid_hi(ps, j, hi),
                key,
                op,
                t,
                Ok((previous, Some(sp))),
            )
            &&& t.pages.contains_key(id)
            &&& t.pages[id] == s.pages[id]
            &&& mid.contains_key(id) && mid[id] == h
            &&& forall|i: int|
                0 <= i <= ps.len() && i != j ==> #[trigger] kid_tree(
                    t.pages,
                    mid,
                    first_child(s.pages[id]),
                    ps,
                    g,
                    lo,
                    hi,
                    i,
                )
            &&& forall|i: int, k: PrimaryKey|
                #![trigger find(t.pages, kid(s.pages[id], i), g, k)]
                0 <= i <= ps.len() && i != j ==> find(t.pages, kid(s.pages[id], i), g, k) == find(
                    s.pages,
                    kid(s.pages[id], i),
                    g,
                    k,
                )
        }),
        confined(s.pages, levels, t.pages, h, lo, hi),
    ensures
        ({
            let (u, up) = node_step(t, id, sp);
            &&& wrote(s, levels, id, h, lo, hi, key, op, u, Ok((previous, up)))
            &&& u.pages.contains_key(id)
        }),
{
    let b = s.pages[id];
    let ps = pairs(b);
    let j = rank_le(seps_of(ps), key);
    let g = (h - 1) as nat;
    let c = kid(b, j);
    let first = first_child(b);
    let mid = levels_up(levels, s.next, (t.next - s.next) as nat);
    let all = ps.insert(j, (sp.promoted_key, sp.new_right_page.0));
    let (u, up) = node_step(t, id, sp);
    lemma_kids_insert(t.pages, mid, first, ps, g, lo, hi, j, sp);
    assert(numbered_below(t.pages, t.next));
    lemma_node_step(t, mid, id, h, lo, hi, j, sp);
    lemma_page_in_bounds(s.pages, levels, id, h, lo, hi);
    assert(t.next - s.next == h);
    assert forall|k: PrimaryKey| in_range(k, lo, hi) implies #[trigger] find_below(
        t.pages,
        first,
        all,
        g,
        k,
    ) == expected(s.pages, id, h, key, op, k) by {
        lemma_kid_range(ps, k, lo, hi);
        let i = rank_le(seps_of(ps), k);
        assert(find(s.pages, id, h, k) == find(s.pages, kid(b, i), g, k));
        if i == j {
            assert(find_split(t.pages, c, g, sp, k) == expected(s.pages, c, g, key, op, k));
        } else {
            assert(find(t.pages, kid(b, i), g, k) == find(s.pages, kid(b, i), g, k));
            assert(find_below(t.pages, first, ps, g, k) == find(t.pages, kid(b, i), g, k));
        }
    }
    assert(confined(s.pages, levels, u.pages, h, lo, hi)) by {
        assert forall|m: u64| #[trigger] s.pages.contains_key(m) implies u.pages.contains_key(m) && (
        u.pages[m] == s.pages[m] || (levels.contains_key(m) && levels[m] <= h && (bounded(lo, hi)
            ==> touches_bounds(s.pages[m], lo, hi)))) by {
            assert(t.pages.contains_key(m));
        }
    }
    assert(adds_only(s.pages, u.pages, s.next, u.next)) by {
        assert forall|m: u64| #[trigger] u.pages.contains_key(m) implies s.pages.contains_key(m)
            || s.next <= m < u.next by {
            assert(u.pages.dom().contains(m));
            assert(m == t.next || t.pages.dom().contains(m));
            assert(m == t.next || t.pages.contains_key(m));
        }
    }
    if up is Some {
        assert(levels_up(levels, s.next, (h + 1) as nat) == levels_up(
            levels,
            s.next,
            h,
        ).insert((s.next + h) as u64, h));
        assert(t.next == (s.next + h) as u64);
    }
}

/// What a page above finds after a write below it: itself as it was, and room
/// for the key that moves up.
pub proof fn lemma_parent(
    s: TreeState,
    levels: Map<u64, nat>,
    id: u64,
    h: nat,
    lo: Option<PrimaryKey>,
    hi: Option<PrimaryKey>,
    key: PrimaryKey,
    op: WriteOp,
)
    requires
        h > 0,
        tree(s.pages, levels, id, h, lo, hi),
        numbered_below(s.pages, s.next),
        s.next + h < u64::MAX,
        in_range(key, lo, hi),
    ensures
        ({
            let b = s.pages[id];
            let j = rank_le(seps_of(pairs(b)), key);
            let (t, r) = write_step(s, kid(b, j), (h - 1) as nat, key, op);
            &&& 0 <= j <= pairs(b).len()
            &&& tree(
                s.pages,
                levels,
                kid(b, j),
                (h - 1) as nat,
                kid_lo(pairs(b), j, lo),
                kid_hi(pairs(b), j, hi),
            )
            &&& in_range(key, kid_lo(pairs(b), j, lo), kid_hi(pairs(b), j, hi))
            &&& t.pages.contains_key(id)
            &&& t.pages[id] == b
            &&& numbered_below(t.pages, t.next)
            &&& t.next <= s.next + h
            &&& r matches Ok((_, Some(sp))) ==> forall|i: int|
                0 <= i < pairs(b).len() ==> (#[trigger] pairs(b)[i]).0 != sp.promoted_key
        }),
{
    let b = s.pages[id];
    let ps = pairs(b);
    let g = (h - 1) as nat;
    let j = rank_le(seps_of(ps), key);
    let c = kid(b, j);
    let clo = kid_lo(ps, j, lo);
    let chi = kid_hi(ps, j, hi);
    lemma_kid_range(ps, key, lo, hi);
    assert(tree(s.pages, levels, c, g, clo, chi));
    lemma_write(s, levels, c, g, clo, chi, key, op);
    let (t, r) = write_step(s, c, g, key, op);
    assert(s.pages.contains_key(id));
    assert(numbered_below(t.pages, t.next)) by {
        assert forall|m: u64| #[trigger] t.pages.contains_key(m) implies m < t.next by {
            if s.pages.contains_key(m) {
                assert(m < s.next);
            }
        }
    }
    match r {
        Ok((_, Some(sp))) => {
            assert forall|i: int| 0 <= i < ps.len() implies (#[trigger] ps[i]).0
                != sp.promoted_key by {
                let keys = seps_of(ps);
                assert(keys[i] == ps[i].0);
                if i < j {
                    assert(keys[j - 1] == ps[j - 1].0);
                    if i < j - 1 {
                        assert(key_lt(keys[i], keys[j - 1]));
                    }
                } else {
                    assert(keys[j] == ps[j].0);
                    if j < i {
                        assert(key_lt(keys[j], keys[i]));
                    }
                }
            }
        },
        _ => {},
    }
}

/// A tree and the number of its next page are sound.
pub open spec fn sound(
    pages: Map<u64, Seq<u8>>,
    levels: Map<u64, nat>,
    root: u64,
    h: nat,
    next: u64,
) -> bool {
    &&& tree(pages, levels, root, h, None, None)
    &&& numbered_below(pages, next)
}

/// The pages alone decide the height of a tree: all of its leaves lie equally
/// deep.
pub proof fn law_pages_decide_the_height(
    pages: Map<u64, Seq<u8>>,
    a: Map<u64, nat>,
    b: Map<u64, nat>,
    id: u64,
    g: nat,
    h: nat,
    a_range: (Option<PrimaryKey>, Option<PrimaryKey>),
    b_range: (Option<PrimaryKey>, Option<PrimaryKey>),
)
    requires
        tree(pages, a, id, g, a_range.0, a_range.1),
        tree(pages, b, id, h, b_range.0, b_range.1),
    ensures
        g == h,
    decreases g,
{
    if g > 0 && h > 0 {
        let page = pages[id];
        let c = kid(page, 0);
        law_pages_decide_the_height(
            pages,
            a,
            b,
            c,
            (g - 1) as nat,
            (h - 1) as nat,
            (kid_lo(pairs(page), 0, a_range.0), kid_hi(pairs(page), 0, a_range.1)),
            (kid_lo(pairs(page), 0, b_range.0), kid_hi(pairs(page), 0, b_range.1)),
        );
    }
}

/// Leaves below a page: every inner page has two children, so each level doubles
/// them at least. Where the page is not a lone root, each of them holds a key
/// between `lo` and `hi`.
proof fn lemma_many_leaves(
    pages: Map<u64, Seq<u8>>,
    levels: Map<u64, nat>,
    id: u64,
    h: nat,
    lo: Option<PrimaryKey>,
    hi: Option<PrimaryKey>,
) -> (leaves: Set<u64>)
    requires
        tree(pages, levels, id, h, lo, hi),
    ensures
        leaves.finite(),
        leaves.len() >= pow2(h),
        forall|m: u64| #[trigger] leaves.contains(m) ==> pages.contains_key(m),
        h > 0 || bounded(lo, hi) ==> forall|m: u64| #[trigger]
            leaves.contains(m) ==> entries(pages[m]).len() > 0 && in_range(
                entries(pages[m])[0].key,
                lo,
                hi,
            ),
    decreases h,
{
    if h == 0 {
        lemma2_to64();
        let leaves = Set::<u64>::empty().insert(id);
        leaves
    } else {
        let b = pages[id];
        let s = pairs(b);
        let g = (h - 1) as nat;
        let sep = s[0].0;
        assert(in_range(sep, lo, hi));
        assert(tree(pages, levels, kid(b, 0), g, kid_lo(s, 0, lo), kid_hi(s, 0, hi)));
        assert(tree(pages, levels, kid(b, 1), g, kid_lo(s, 1, lo), kid_hi(s, 1, hi)));
        let left = lemma_many_leaves(
            pages,
            levels,
            kid(b, 0),
            g,
            kid_lo(s, 0, lo),
            kid_hi(s, 0, hi),
        );
        let right = lemma_many_leaves(
            pages,
            levels,
            kid(b, 1),
            g,
            kid_lo(s, 1, lo),
            kid_hi(s, 1, hi),
        );
        assert(s.len() > 1 ==> key_lt(sep, s[1].0) && in_range(s[1].0, lo, hi)) by {
            if s.len() > 1 {
                assert(seps_of(s)[0] == sep && seps_of(s)[1] == s[1].0);
            }
        }
        assert(left.disjoint(right)) by {
            assert forall|m: u64| !(#[trigger] left.contains(m) && right.contains(m)) by {
                if left.contains(m) && right.contains(m) {
                    let k = entries(pages[m])[0].key;
                    assert(in_range(k, lo, Some(sep)));
                    assert(in_range(k, Some(sep), kid_hi(s, 1, hi)));
                }
            }
        }
        vstd::set_lib::lemma_set_disjoint_lens(left, right);
        lemma_pow2_unfold(h);
        let leaves = left.union(right);
        assert forall|m: u64| #[trigger] leaves.contains(m) implies entries(pages[m]).len() > 0
            && in_range(entries(pages[m])[0].key, lo, hi) by {
            if left.contains(m) {
                assert(in_range(entries(pages[m])[0].key, lo, Some(sep)));
            } else {
                assert(right.contains(m));
                assert(in_range(entries(pages[m])[0].key, Some(sep), kid_hi(s, 1, hi)));
            }
        }
        leaves
    }
}

/// The most levels that a tree can have above its leaves: each of them doubles
/// the leaves at least, and their numbers have 64 bits.
pub const MAX_HEIGHT: u64 = 63;

/// A tree of height `h` has at least two to the power of `h` leaves, so its
/// height stays far below the number of its pages.
pub proof fn law_height_is_bounded(
    pages: Map<u64, Seq<u8>>,
    levels: Map<u64, nat>,
    root: u64,
    h: nat,
    next: u64,
)
    requires
        sound(pages, levels, root, h, next),
    ensures
        pow2(h) <= next,
        h <= MAX_HEIGHT,
{
    let leaves = lemma_many_leaves(pages, levels, root, h, None, None);
    let numbers = leaves.map(|m: u64| m as int);
    assert(leaves.len() <= next) by {
        vstd::set_lib::lemma_int_range(0, next as int);
        let all = vstd::set_lib::set_int_range(0, next as int);
        vstd::set_lib::lemma_map_size(leaves, numbers, |m: u64| m as int);
        assert forall|m: int| #[trigger] numbers.contains(m) implies all.contains(m) by {}
        vstd::set_lib::lemma_len_subset(numbers, all);
    }
    if h > 63 {
        lemma2_to64_rest();
        if h > 64 {
            lemma_pow2_strictly_increases(64, h);
        }
    }
}

/// The height after a write: it grows by one where the root was split.
pub open spec fn height_after(s: TreeState, root: u64, h: nat, key: PrimaryKey, op: WriteOp) -> nat {
    if index_step(s, root, h, key, op).1 == root {
        h
    } else {
        h + 1
    }
}

/// The heights of the pages after a write.
pub open spec fn levels_after(
    s: TreeState,
    levels: Map<u64, nat>,
    root: u64,
    h: nat,
    key: PrimaryKey,
    op: WriteOp,
) -> Map<u64, nat> {
    levels_up(levels, s.next, (index_step(s, root, h, key, op).0.next - s.next) as nat)
}

/// The index is a map from keys to live values. A write leaves a sound tree;
/// it fails exactly where a key with a live value is inserted again, and then
/// changes no page; else the key has the value of the write, or none after a
/// removal, every other key has the value it had, and the live value that the
/// key had is given back.
pub proof fn law_write_is_a_map_update(
    s: TreeState,
    levels: Map<u64, nat>,
    root: u64,
    h: nat,
    key: PrimaryKey,
    op: WriteOp,
)
    requires
        sound(s.pages, levels, root, h, s.next),
        s.next + h + 1 < u64::MAX,
    ensures
        ({
            let (t, r, out) = index_step(s, root, h, key, op);
            let g = height_after(s, root, h, key, op);
            let old = live_values(s.pages, root, h);
            let new = live_values(t.pages, r, g);
            &&& sound(t.pages, levels_after(s, levels, root, h, key, op), r, g, t.next)
            &&& s.next <= t.next <= s.next + h + 2
            &&& out is Err <==> (op is Insert && old.contains_key(key))
            &&& out matches Err(e) ==> e == IndexError::DuplicateKey { key } && t.pages == s.pages
                && r == root
            &&& out matches Ok(previous) ==> {
                &&& previous == if old.contains_key(key) {
                    Some(old[key])
                } else {
                    None
                }
                &&& new == match op {
                    WriteOp::Insert(v) => old.insert(key, v),
                    WriteOp::Upsert(v) => old.insert(key, v),
                    WriteOp::Remove => old.remove(key),
                }
            }
        }),
{
    lemma_write(s, levels, root, h, None, None, key, op);
    let (w, wr) = write_step(s, root, h, key, op);
    let (t, r, out) = index_step(s, root, h, key, op);
    let g = height_after(s, root, h, key, op);
    let old = live_values(s.pages, root, h);
    let new = live_values(t.pages, r, g);
    let old_key = find(s.pages, root, h, key);
    assert(numbered_below(w.pages, w.next)) by {
        assert forall|m: u64| #[trigger] w.pages.contains_key(m) implies m < w.next by {
            if s.pages.contains_key(m) {
                assert(m < s.next);
            }
        }
    }
    assert(s.pages.contains_key(root));
    match wr {
        Err(e) => {
            assert(levels_up(levels, s.next, 0) == levels);
        },
        Ok((previous, None)) => {
            lemma_values(s.pages, root, h, t.pages, r, g, key, op);
        },
        Ok((previous, Some(sp))) => {
            let mid = levels_up(levels, s.next, (w.next - s.next) as nat);
            lemma_root_step(w, mid, root, h, sp);
            assert(levels_up(levels, s.next, (h + 2) as nat) == mid.insert(w.next, h + 1));
            assert forall|k: PrimaryKey| #[trigger] find(t.pages, r, g, k) == expected(
                s.pages,
                root,
                h,
                key,
                op,
                k,
            ) by {
                assert(find_split(w.pages, root, h, sp, k) == expected(
                    s.pages,
                    root,
                    h,
                    key,
                    op,
                    k,
                ));
            }
            lemma_values(s.pages, root, h, t.pages, r, g, key, op);
        },
    }
}

proof fn lemma_root_step(
    s: TreeState,
    levels: Map<u64, nat>,
    root: u64,
    h: nat,
    sp: SplitInfo,
)
    requires
        tree(s.pages, levels, root, h, None, Some(sp.promoted_key)),
        tree(s.pages, levels, sp.new_right_page.0, h, Some(sp.promoted_key), None),
        numbered_below(s.pages, s.next),
        s.next < u64::MAX,
    ensures
        ({
            let t = root_step(s, root, sp);
            let g = (h + 1) as nat;
            &&& tree(t.pages, levels.insert(s.next, g), s.next, g, None, None)
            &&& numbered_below(t.pages, t.next)
            &&& forall|k: PrimaryKey| #[trigger]
                find(t.pages, s.next, g, k) == find_split(s.pages, root, h, sp, k)
        }),
{
    let t = root_step(s, root, sp);
    let new = s.next;
    let g = (h + 1) as nat;
    let after = levels.insert(new, g);
    let base = fresh_node(new, root);
    lemma_fresh_pages(new, root);
    lemma_node_put(base, 0, sp.promoted_key, sp.new_right_page.0);
    let b = root_page(new, root, sp);
    let ps = pairs(b);
    assert(ps =~= seq![(sp.promoted_key, sp.new_right_page.0)]);
    assert(!s.pages.contains_key(new));
    lemma_frame(
        s.pages,
        levels,
        t.pages,
        after,
        root,
        h,
        None,
        Some(sp.promoted_key),
    );
    lemma_frame(
        s.pages,
        levels,
        t.pages,
        after,
        sp.new_right_page.0,
        h,
        Some(sp.promoted_key),
        None,
    );
    assert forall|j: int| 0 <= j <= ps.len() implies #[trigger] kid_tree(
        t.pages,
        after,
        root,
        ps,
        h,
        None,
        None,
        j,
    ) by {}
    assert(ascending_keys(seps_of(ps)));
    lemma_kids_tree(t.pages, after, new, g, None, None);
    assert forall|k: PrimaryKey| #[trigger] find(t.pages, new, g, k) == find_split(
        s.pages,
        root,
        h,
        sp,
        k,
    ) by {
        assert(t.pages[new] == b);
        assert((g - 1) as nat == h);
        if key_lt(k, sp.promoted_key) {
            lemma_kid_of(ps, k, 0, None, None);
            assert(kid(b, 0) == root);
            assert(find(t.pages, root, h, k) == find(s.pages, root, h, k));
        } else {
            lemma_kid_of(ps, k, 1, None, None);
            assert(kid(b, 1) == sp.new_right_page.0);
            assert(find(t.pages, kid(b, 1), h, k) == find(s.pages, kid(b, 1), h, k));
        }
    }
}

proof fn lemma_values(
    a: Map<u64, Seq<u8>>,
    ra: u64,
    ha: nat,
    b: Map<u64, Seq<u8>>,
    rb: u64,
    hb: nat,
    key: PrimaryKey,
    op: WriteOp,
)
    requires
        forall|k: PrimaryKey|
            in_range(k, None, None) ==> #[trigger] find(b, rb, hb, k) == expected(
                a,
                ra,
                ha,
                key,
                op,
                k,
            ),
    ensures
        live_values(b, rb, hb) == match op {
            WriteOp::Insert(v) => live_values(a, ra, ha).insert(key, v),
            WriteOp::Upsert(v) => live_values(a, ra, ha).insert(key, v),
            WriteOp::Remove => live_values(a, ra, ha).remove(key),
        },
{
    let old = live_values(a, ra, ha);
    let new = live_values(b, rb, hb);
    let want = match op {
        WriteOp::Insert(v) => old.insert(key, v),
        WriteOp::Upsert(v) => old.insert(key, v),
        WriteOp::Remove => old.remove(key),
    };
    assert forall|k: PrimaryKey| #[trigger] new.contains_key(k) == want.contains_key(k) by {
        assert(find(b, rb, hb, k) == expected(a, ra, ha, key, op, k));
    }
    assert forall|k: PrimaryKey| new.contains_key(k) implies #[trigger] new[k] == want[k] by {
        assert(find(b, rb, hb, k) == expected(a, ra, ha, key, op, k));
    }
    assert(new =~= want);
}

} // verus!
