//! The leaves of the primary index hold its keys in order.
use vstd::prelude::*;

use crate::index_model::{ascending_keys, key_lt, PrimaryKey};
use crate::index_nodes::{entries, keys_of, pairs, seps_of};
use crate::tree_laws::sound;
use crate::tree_model::{in_range, kid, kid_hi, kid_lo, tree, walk, walk_kids};

verus! {

spec fn all_in(s: Seq<PrimaryKey>, lo: Option<PrimaryKey>, hi: Option<PrimaryKey>) -> bool {
    forall|i: int| 0 <= i < s.len() ==> in_range(#[trigger] s[i], lo, hi)
}

proof fn lemma_join(
    a: Seq<PrimaryKey>,
    b: Seq<PrimaryKey>,
    lo: Option<PrimaryKey>,
    mid: PrimaryKey,
    hi: Option<PrimaryKey>,
)
    requires
        ascending_keys(a),
        ascending_keys(b),
        all_in(a, lo, Some(mid)),
        all_in(b, Some(mid), hi),
        in_range(mid, lo, hi),
    ensures
        ascending_keys(a + b),
        all_in(a + b, lo, hi),
{
    let c = a + b;
    assert forall|i: int, j: int| 0 <= i < j < c.len() implies key_lt(
        #[trigger] c[i],
        #[trigger] c[j],
    ) by {
        if j < a.len() {
            assert(c[i] == a[i] && c[j] == a[j]);
        } else if i >= a.len() {
            assert(c[i] == b[i - a.len()] && c[j] == b[j - a.len()]);
        } else {
            assert(c[i] == a[i] && c[j] == b[j - a.len()]);
            assert(in_range(a[i], lo, Some(mid)));
            assert(in_range(b[j - a.len()], Some(mid), hi));
        }
    }
    assert forall|i: int| 0 <= i < c.len() implies in_range(#[trigger] c[i], lo, hi) by {
        if i < a.len() {
            assert(in_range(a[i], lo, Some(mid)));
        } else {
            assert(in_range(b[i - a.len()], Some(mid), hi));
        }
    }
}

proof fn lemma_walk(
    pages: Map<u64, Seq<u8>>,
    levels: Map<u64, nat>,
    id: u64,
    h: nat,
    lo: Option<PrimaryKey>,
    hi: Option<PrimaryKey>,
)
    requires
        tree(pages, levels, id, h, lo, hi),
    ensures
        ascending_keys(walk(pages, id, h)),
        all_in(walk(pages, id, h), lo, hi),
    decreases h, 1int, 0int,
{
    if h == 0 {
        let b = pages[id];
        assert forall|i: int| 0 <= i < keys_of(entries(b)).len() implies in_range(
            #[trigger] keys_of(entries(b))[i],
            lo,
            hi,
        ) by {
            assert(in_range(entries(b)[i].key, lo, hi));
        }
    } else {
        lemma_walk_kids(pages, levels, id, h, lo, hi, pairs(pages[id]).len() as int + 1);
    }
}

proof fn lemma_walk_kids(
    pages: Map<u64, Seq<u8>>,
    levels: Map<u64, nat>,
    id: u64,
    h: nat,
    lo: Option<PrimaryKey>,
    hi: Option<PrimaryKey>,
    n: int,
)
    requires
        h > 0,
        tree(pages, levels, id, h, lo, hi),
        0 <= n <= pairs(pages[id]).len() + 1,
    ensures
        ascending_keys(walk_kids(pages, id, h, n)),
        all_in(
            walk_kids(pages, id, h, n),
            lo,
            if n == 0 {
                hi
            } else {
                kid_hi(pairs(pages[id]), n - 1, hi)
            },
        ),
    decreases h, 0int, n,
{
    if n > 0 {
        let b = pages[id];
        let s = pairs(b);
        let g = (h - 1) as nat;
        lemma_walk_kids(pages, levels, id, h, lo, hi, n - 1);
        assert(tree(pages, levels, kid(b, n - 1), g, kid_lo(s, n - 1, lo), kid_hi(s, n - 1, hi)));
        lemma_walk(pages, levels, kid(b, n - 1), g, kid_lo(s, n - 1, lo), kid_hi(s, n - 1, hi));
        let front = walk_kids(pages, id, h, n - 1);
        let back = walk(pages, kid(b, n - 1), g);
        if n == 1 {
            assert(front + back =~= back);
        } else {
            assert(in_range(s[n - 2].0, lo, hi));
            if n - 1 < s.len() {
                assert(seps_of(s)[n - 2] == s[n - 2].0 && seps_of(s)[n - 1] == s[n - 1].0);
                assert(key_lt(seps_of(s)[n - 2], seps_of(s)[n - 1]));
            }
            lemma_join(front, back, lo, s[n - 2].0, kid_hi(s, n - 1, hi));
        }
    }
}

/// The leaves from left to right hold keys in ascending order: no key twice,
/// and removed ones stay in their place.
pub proof fn law_leaf_walk_is_ascending(
    pages: Map<u64, Seq<u8>>,
    levels: Map<u64, nat>,
    root: u64,
    h: nat,
    next: u64,
)
    requires
        sound(pages, levels, root, h, next),
    ensures
        ascending_keys(walk(pages, root, h)),
{
    lemma_walk(pages, levels, root, h, None, None);
}

} // verus!
