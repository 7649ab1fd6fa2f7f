//! What a transaction notes suffices to undo its writes to the index.
use vstd::prelude::*;

use crate::index_model::{key_lt, lemma_rank, rank_le, PrimaryKey, INTERNAL_CAPACITY};
use crate::index_nodes::{entries, leaf_high, leaf_low, node_high, node_low, pairs, seps_of};
use crate::index_rows::count_of;
use crate::mutation_log::{
    captured, law_rollback, log_fresh, log_root, rolled_back, undoes, IndexHandle, LogModel,
    PageStoreKind,
};
use crate::tree_laws::sound;
use crate::tree_model::{
    divided, in_range, index_step, kid, kid_hi, kid_lo, leaf_step, leaf_with, live_values,
    node_step, node_with, noted, root_step, split_leaf, tree, write_step, SplitInfo, TreeState,
    WriteOp,
};

verus! {

proof fn lemma_noted(start: Map<u64, Seq<u8>>, s: TreeState, id: u64)
    requires
        undoes(PageStoreKind::Primary, start, s.pages, s.log),
    ensures
        undoes(PageStoreKind::Primary, start, noted(s, id).pages, noted(s, id).log),
        captured(noted(s, id).log, PageStoreKind::Primary, id),
{
    let t = noted(s, id);
    let kind = PageStoreKind::Primary;
    if !captured(s.log, kind, id) {
        let n = s.log.captures.len() as int;
        assert(t.log.captures[n].kind == kind && t.log.captures[n].page == id);
        assert forall|m: u64| captured(s.log, kind, m) implies captured(t.log, kind, m) by {
            let i = choose|i: int|
                0 <= i < s.log.captures.len() && (#[trigger] s.log.captures[i]).kind == kind
                    && s.log.captures[i].page == m;
            assert(t.log.captures[i] == s.log.captures[i]);
        }
        assert forall|i: int|
            0 <= i < t.log.captures.len() && (#[trigger] t.log.captures[i]).kind == kind
                && start.contains_key(t.log.captures[i].page) implies t.log.captures[i].bytes
            == start[t.log.captures[i].page] by {
            if i < n {
                assert(t.log.captures[i] == s.log.captures[i]);
            } else {
                assert(start.contains_key(id));
            }
        }
    }
}

proof fn lemma_fresh_noted(log: LogModel, page: u64)
    ensures
        ({
            let t = log_fresh(log, PageStoreKind::Primary, page);
            &&& t.captures == log.captures
            &&& t.fresh.contains((PageStoreKind::Primary, page))
            &&& forall|m: u64| #[trigger]
                t.fresh.contains((PageStoreKind::Primary, m)) <==> m == page
                    || log.fresh.contains((PageStoreKind::Primary, m))
            &&& forall|m: u64| #[trigger]
                captured(log, PageStoreKind::Primary, m) ==> captured(t, PageStoreKind::Primary, m)
        }),
{
    let t = log_fresh(log, PageStoreKind::Primary, page);
    let x = (PageStoreKind::Primary, page);
    assert(t.fresh[log.fresh.len() as int] == x);
    assert forall|m: u64| #[trigger] t.fresh.contains((PageStoreKind::Primary, m)) <==> m == page
        || log.fresh.contains((PageStoreKind::Primary, m)) by {
        if log.fresh.contains((PageStoreKind::Primary, m)) {
            let i = choose|i: int|
                0 <= i < log.fresh.len() && log.fresh[i] == (PageStoreKind::Primary, m);
            assert(t.fresh[i] == (PageStoreKind::Primary, m));
        }
        if t.fresh.contains((PageStoreKind::Primary, m)) {
            let i = choose|i: int|
                0 <= i < t.fresh.len() && t.fresh[i] == (PageStoreKind::Primary, m);
            if i < log.fresh.len() {
                assert(log.fresh[i] == (PageStoreKind::Primary, m));
            }
        }
    }
    assert forall|m: u64| #[trigger] captured(log, PageStoreKind::Primary, m) implies captured(
        t,
        PageStoreKind::Primary,
        m,
    ) by {
        let i = choose|i: int|
            0 <= i < log.captures.len() && (#[trigger] log.captures[i]).kind
                == PageStoreKind::Primary && log.captures[i].page == m;
        assert(t.captures[i].kind == PageStoreKind::Primary);
    }
}

proof fn lemma_divided(start: Map<u64, Seq<u8>>, s: TreeState, id: u64, low: Seq<u8>, high: Seq<u8>)
    requires
        undoes(PageStoreKind::Primary, start, s.pages, s.log),
        captured(s.log, PageStoreKind::Primary, id),
        s.pages.contains_key(id),
        !start.contains_key(s.next),
    ensures
        undoes(
            PageStoreKind::Primary,
            start,
            divided(s, id, low, high).pages,
            divided(s, id, low, high).log,
        ),
{
    lemma_fresh_noted(s.log, s.next);
}

proof fn lemma_leaf(start: Map<u64, Seq<u8>>, s: TreeState, id: u64, key: PrimaryKey, op: WriteOp)
    requires
        undoes(PageStoreKind::Primary, start, s.pages, s.log),
        s.pages.contains_key(id),
        !start.contains_key(s.next),
        s.next < u64::MAX,
    ensures
        ({
            let t = leaf_step(s, id, key, op).0;
            &&& undoes(PageStoreKind::Primary, start, t.pages, t.log)
            &&& s.next <= t.next <= s.next + 1
            &&& forall|m: u64| #[trigger] s.pages.contains_key(m) ==> t.pages.contains_key(m)
        }),
{
    lemma_noted(start, s, id);
    let t = noted(s, id);
    let u = leaf_step(s, id, key, op).0;
    if u.next != s.next {
        let (low, high) = (u.pages[id], u.pages[s.next]);
        let v = match op {
            WriteOp::Insert(v) => v,
            WriteOp::Upsert(v) => v,
            WriteOp::Remove => arbitrary(),
        };
        let w = split_leaf(t, id, key, v).0;
        assert(u == w);
        let b = t.pages[id];
        let lo = leaf_low(b);
        let hi = leaf_high(b, t.next);
        let first = entries(hi)[0].key;
        if key_lt(key, first) {
            lemma_divided(start, t, id, leaf_with(lo, key, v), hi);
        } else {
            lemma_divided(start, t, id, lo, leaf_with(hi, key, v));
        }
    }
}

proof fn lemma_node(start: Map<u64, Seq<u8>>, s: TreeState, id: u64, sp: SplitInfo)
    requires
        undoes(PageStoreKind::Primary, start, s.pages, s.log),
        s.pages.contains_key(id),
        !start.contains_key(s.next),
        s.next < u64::MAX,
    ensures
        ({
            let t = node_step(s, id, sp).0;
            &&& undoes(PageStoreKind::Primary, start, t.pages, t.log)
            &&& s.next <= t.next <= s.next + 1
            &&& forall|m: u64| #[trigger] s.pages.contains_key(m) ==> t.pages.contains_key(m)
        }),
{
    lemma_noted(start, s, id);
    let t = noted(s, id);
    let b = s.pages[id];
    if count_of(b) >= INTERNAL_CAPACITY {
        let lo = node_low(b);
        let hi = node_high(b, s.next);
        let middle = pairs(b)[crate::index_rows::count_of(b) as int / 2].0;
        if key_lt(sp.promoted_key, middle) {
            lemma_divided(start, t, id, node_with(lo, sp), hi);
        } else {
            lemma_divided(start, t, id, lo, node_with(hi, sp));
        }
    }
}

proof fn lemma_write_undone(
    start: Map<u64, Seq<u8>>,
    s: TreeState,
    levels: Map<u64, nat>,
    id: u64,
    h: nat,
    lo: Option<PrimaryKey>,
    hi: Option<PrimaryKey>,
    key: PrimaryKey,
    op: WriteOp,
)
    requires
        undoes(PageStoreKind::Primary, start, s.pages, s.log),
        tree(s.pages, levels, id, h, lo, hi),
        in_range(key, lo, hi),
        forall|m: u64| #[trigger] start.contains_key(m) ==> m < s.next,
        s.next + h < u64::MAX,
    ensures
        ({
            let t = write_step(s, id, h, key, op).0;
            &&& undoes(PageStoreKind::Primary, start, t.pages, t.log)
            &&& s.next <= t.next <= s.next + h + 1
            &&& forall|m: u64| #[trigger] s.pages.contains_key(m) ==> t.pages.contains_key(m)
        }),
    decreases h,
{
    if h == 0 {
        lemma_leaf(start, s, id, key, op);
    } else {
        let b = s.pages[id];
        let ps = pairs(b);
        let g = (h - 1) as nat;
        let j = rank_le(seps_of(ps), key);
        lemma_rank(seps_of(ps), key);
        let c = kid(b, j);
        assert(tree(
            s.pages,
            levels,
            c,
            g,
            kid_lo(ps, j, lo),
            kid_hi(ps, j, hi),
        ));
        assert(in_range(
            key,
            kid_lo(ps, j, lo),
            kid_hi(ps, j, hi),
        )) by {
            if j > 0 {
                assert(seps_of(ps)[j - 1] == ps[j - 1].0);
            }
            if j < ps.len() {
                assert(seps_of(ps)[j] == ps[j].0);
            }
        }
        lemma_write_undone(
            start,
            s,
            levels,
            c,
            g,
            kid_lo(ps, j, lo),
            kid_hi(ps, j, hi),
            key,
            op,
        );
        let (t, r) = write_step(s, c, g, key, op);
        match r {
            Ok((_, Some(sp))) => {
                lemma_node(start, t, id, sp);
            },
            _ => {},
        }
    }
}

/// A transaction whose commit fails can be undone: if its notes say how to get
/// back to the pages it started from, they still do after another write, and
/// the root it started from is noted whenever the root changes.
pub proof fn law_notes_undo_a_write(
    start: Map<u64, Seq<u8>>,
    s: TreeState,
    levels: Map<u64, nat>,
    root: u64,
    h: nat,
    key: PrimaryKey,
    op: WriteOp,
)
    requires
        sound(s.pages, levels, root, h, s.next),
        s.next + h + 1 < u64::MAX,
        undoes(PageStoreKind::Primary, start, s.pages, s.log),
    ensures
        ({
            let (t, r, _) = index_step(s, root, h, key, op);
            &&& undoes(PageStoreKind::Primary, start, t.pages, t.log)
            &&& t.log.roots == if r == root {
                s.log.roots
            } else {
                s.log.roots.push((IndexHandle(0), root))
            }
        }),
{
    assert forall|m: u64| #[trigger] start.contains_key(m) implies m < s.next by {
        assert(s.pages.contains_key(m));
    }
    lemma_write_undone(start, s, levels, root, h, None, None, key, op);
    lemma_roots_kept(s, root, h, key, op);
    let (w, wr) = write_step(s, root, h, key, op);
    assert(s.pages.contains_key(root));
    match wr {
        Ok((_, Some(sp))) => {
            lemma_fresh_noted(log_root(w.log, IndexHandle(0), root), w.next);
            let t = root_step(w, root, sp);
            assert forall|m: u64| #[trigger] captured(w.log, PageStoreKind::Primary, m)
                implies captured(t.log, PageStoreKind::Primary, m) by {
                let i = choose|i: int|
                    0 <= i < w.log.captures.len() && (#[trigger] w.log.captures[i]).kind
                        == PageStoreKind::Primary && w.log.captures[i].page == m;
                assert(t.log.captures[i].kind == PageStoreKind::Primary);
            }
        },
        _ => {},
    }
}

/// An index that is undone is the index it was: its tree is sound and says what
/// it said, though page numbers that were given out stay given out.
pub proof fn law_undone_index_is_as_it_was(
    start: Map<u64, Seq<u8>>,
    levels: Map<u64, nat>,
    root: u64,
    h: nat,
    next: u64,
    now: Map<u64, Seq<u8>>,
    log: LogModel,
    next_now: u64,
)
    requires
        sound(start, levels, root, h, next),
        next <= next_now,
        undoes(PageStoreKind::Primary, start, now, log),
    ensures
        ({
            let back = rolled_back(now, PageStoreKind::Primary, log);
            &&& sound(back, levels, root, h, next_now)
            &&& live_values(back, root, h) == live_values(
                start,
                root,
                h,
            )
        }),
{
    law_rollback(PageStoreKind::Primary, start, now, log);
}

proof fn lemma_roots_kept(s: TreeState, id: u64, h: nat, key: PrimaryKey, op: WriteOp)
    ensures
        write_step(s, id, h, key, op).0.log.roots == s.log.roots,
    decreases h,
{
    if h > 0 {
        let b = s.pages[id];
        lemma_roots_kept(s, kid(b, rank_le(seps_of(pairs(b)), key)), (h - 1) as nat, key, op);
    }
}

} // verus!
