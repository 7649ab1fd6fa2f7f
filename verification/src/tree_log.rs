//! What a write hands to the log suffices to redo it.
use vstd::prelude::*;

use crate::index_model::{key_lt, lemma_rank, rank_le, PrimaryKey, INTERNAL_CAPACITY, LEAF_CAPACITY};
use crate::index_nodes::{entries, leaf_high, leaf_low, node_high, node_low, pairs, seps_of};
use crate::index_rows::count_of;
use crate::tree_laws::{numbered_below, sound};
use crate::tree_model::{
    changed, divided, in_range, index_step, kid, kid_hi, kid_lo, leaf_step, leaf_with, node_step,
    node_with, noted, put_in_leaf, root_page, root_step, tree, write_step, SplitInfo, TreeState,
    WriteOp,
};

verus! {

/// The pages once logged pages were put in their places, one after the other.
pub open spec fn redone(pages: Map<u64, Seq<u8>>, logged: Seq<(u64, Seq<u8>)>) -> Map<u64, Seq<u8>>
    decreases logged.len(),
{
    if logged.len() == 0 {
        pages
    } else {
        redone(pages, logged.drop_last()).insert(logged.last().0, logged.last().1)
    }
}

/// The pages of `s` are those of `start` with the pages that were staged behind
/// the first `n` put in their places.
pub open spec fn logged_since(start: Map<u64, Seq<u8>>, n: int, s: TreeState) -> bool {
    &&& 0 <= n <= s.staged.len()
    &&& redone(start, s.staged.skip(n)) == s.pages
}

proof fn lemma_push(
    start: Map<u64, Seq<u8>>,
    n: int,
    staged: Seq<(u64, Seq<u8>)>,
    id: u64,
    b: Seq<u8>,
)
    requires
        0 <= n <= staged.len(),
    ensures
        redone(start, staged.push((id, b)).skip(n)) == redone(start, staged.skip(n)).insert(id, b),
{
    let all = staged.push((id, b)).skip(n);
    assert(all.drop_last() =~= staged.skip(n));
    assert(all.last() == (id, b));
}

proof fn lemma_changed(start: Map<u64, Seq<u8>>, n: int, s: TreeState, id: u64, b: Seq<u8>)
    requires
        logged_since(start, n, s),
        numbered_below(s.pages, s.next),
        s.pages.contains_key(id),
    ensures
        logged_since(start, n, changed(s, id, b)),
        numbered_below(changed(s, id, b).pages, s.next),
{
    lemma_push(start, n, s.staged, id, b);
    assert(s.pages.contains_key(id));
}

proof fn lemma_divided(
    start: Map<u64, Seq<u8>>,
    n: int,
    s: TreeState,
    id: u64,
    low: Seq<u8>,
    high: Seq<u8>,
)
    requires
        logged_since(start, n, s),
        numbered_below(s.pages, s.next),
        s.pages.contains_key(id),
        s.next < u64::MAX,
    ensures
        logged_since(start, n, divided(s, id, low, high)),
        numbered_below(divided(s, id, low, high).pages, (s.next + 1) as u64),
{
    let mid = s.staged.push((s.next, high));
    lemma_push(start, n, s.staged, s.next, high);
    lemma_push(start, n, mid, id, low);
    assert(s.pages.contains_key(id));
    assert(s.pages.insert(s.next, high).insert(id, low) =~= s.pages.insert(id, low).insert(
        s.next,
        high,
    ));
}

proof fn lemma_leaf(
    start: Map<u64, Seq<u8>>,
    n: int,
    s: TreeState,
    id: u64,
    key: PrimaryKey,
    op: WriteOp,
)
    requires
        logged_since(start, n, s),
        numbered_below(s.pages, s.next),
        s.pages.contains_key(id),
        s.next < u64::MAX,
    ensures
        ({
            let t = leaf_step(s, id, key, op).0;
            &&& logged_since(start, n, t)
            &&& numbered_below(t.pages, t.next)
            &&& s.next <= t.next <= s.next + 1
            &&& forall|m: u64| #[trigger] s.pages.contains_key(m) ==> t.pages.contains_key(m)
        }),
{
    let t = noted(s, id);
    let u = leaf_step(s, id, key, op).0;
    let b = t.pages[id];
    assert(logged_since(start, n, t));
    lemma_changed(start, n, t, id, u.pages[id]);
    let v = match op {
        WriteOp::Insert(v) => v,
        WriteOp::Upsert(v) => v,
        WriteOp::Remove => arbitrary(),
    };
    let w = put_in_leaf(t, id, key, v).0;
    assert(logged_since(start, n, w) && numbered_below(w.pages, w.next)) by {
        if count_of(b) < LEAF_CAPACITY {
            lemma_changed(start, n, t, id, leaf_with(b, key, v));
        } else {
            let low = leaf_low(b);
            let high = leaf_high(b, t.next);
            if key_lt(key, entries(high)[0].key) {
                lemma_divided(start, n, t, id, leaf_with(low, key, v), high);
            } else {
                lemma_divided(start, n, t, id, low, leaf_with(high, key, v));
            }
        }
    }
    if u != w && u != t {
        assert(u == changed(t, id, u.pages[id]));
    }
}

proof fn lemma_node(start: Map<u64, Seq<u8>>, n: int, s: TreeState, id: u64, split: SplitInfo)
    requires
        logged_since(start, n, s),
        numbered_below(s.pages, s.next),
        s.pages.contains_key(id),
        s.next < u64::MAX,
    ensures
        ({
            let t = node_step(s, id, split).0;
            &&& logged_since(start, n, t)
            &&& numbered_below(t.pages, t.next)
            &&& s.next <= t.next <= s.next + 1
            &&& forall|m: u64| #[trigger] s.pages.contains_key(m) ==> t.pages.contains_key(m)
        }),
{
    let t = noted(s, id);
    let b = s.pages[id];
    assert(logged_since(start, n, t));
    if count_of(b) < INTERNAL_CAPACITY {
        lemma_changed(start, n, t, id, node_with(b, split));
    } else {
        let low = node_low(b);
        let high = node_high(b, s.next);
        if key_lt(split.promoted_key, pairs(b)[count_of(b) as int / 2].0) {
            lemma_divided(start, n, t, id, node_with(low, split), high);
        } else {
            lemma_divided(start, n, t, id, low, node_with(high, split));
        }
    }
}

proof fn lemma_write_logged(
    start: Map<u64, Seq<u8>>,
    n: int,
    s: TreeState,
    levels: Map<u64, nat>,
    id: u64,
    h: nat,
    lo: Option<PrimaryKey>,
    hi: Option<PrimaryKey>,
    key: PrimaryKey,
    op: WriteOp,
)
    requires
        logged_since(start, n, s),
        tree(s.pages, levels, id, h, lo, hi),
        in_range(key, lo, hi),
        numbered_below(s.pages, s.next),
        s.next + h < u64::MAX,
    ensures
        ({
            let t = write_step(s, id, h, key, op).0;
            &&& logged_since(start, n, t)
            &&& numbered_below(t.pages, t.next)
            &&& s.next <= t.next <= s.next + h + 1
            &&& forall|m: u64| #[trigger] s.pages.contains_key(m) ==> t.pages.contains_key(m)
        }),
    decreases h,
{
    if h == 0 {
        lemma_leaf(start, n, s, id, key, op);
    } else {
        let b = s.pages[id];
        let ps = pairs(b);
        let g = (h - 1) as nat;
        let j = rank_le(seps_of(ps), key);
        lemma_rank(seps_of(ps), key);
        let c = kid(b, j);
        let (below, above) = (kid_lo(ps, j, lo), kid_hi(ps, j, hi));
        assert(tree(s.pages, levels, c, g, below, above));
        assert(in_range(key, below, above)) by {
            if j > 0 {
                assert(seps_of(ps)[j - 1] == ps[j - 1].0);
            }
            if j < ps.len() {
                assert(seps_of(ps)[j] == ps[j].0);
            }
        }
        lemma_write_logged(start, n, s, levels, c, g, below, above, key, op);
        let (t, r) = write_step(s, c, g, key, op);
        match r {
            Ok((_, Some(split))) => {
                lemma_node(start, n, t, id, split);
            },
            _ => {},
        }
    }
}

/// Every page that a write changes or adds is logged as it is after the write:
/// putting the pages that the write staged in their places, in order, turns the
/// pages before it into the pages after it.
pub proof fn law_logged_pages_redo_a_write(
    s: TreeState,
    levels: Map<u64, nat>,
    root: u64,
    h: nat,
    key: PrimaryKey,
    op: WriteOp,
)
    requires
        sound(s.pages, levels, root, h, s.next),
        s.next + h + 1 < u64::MAX,
        s.staged.len() == 0,
    ensures
        redone(s.pages, index_step(s, root, h, key, op).0.staged) == index_step(
            s,
            root,
            h,
            key,
            op,
        ).0.pages,
{
    assert(s.staged.skip(0) =~= Seq::<(u64, Seq<u8>)>::empty());
    assert(logged_since(s.pages, 0, s));
    lemma_write_logged(s.pages, 0, s, levels, root, h, None, None, key, op);
    let (w, r) = write_step(s, root, h, key, op);
    let t = index_step(s, root, h, key, op).0;
    match r {
        Ok((_, Some(split))) => {
            let b = root_page(w.next, root, split);
            lemma_push(s.pages, 0, w.staged, w.next, b);
            assert(t == root_step(w, root, split));
        },
        _ => {},
    }
    assert(t.staged.skip(0) =~= t.staged);
}

} // verus!
