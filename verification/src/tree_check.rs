//! Whether the pages of a store form a tree, as those of a recovered index
//! should.
use vstd::prelude::*;

use crate::ids::PageId;
use crate::index_model::{key_lt, PrimaryKey, INTERNAL_CAPACITY, LEAF_CAPACITY};
use crate::index_nodes::{
    entries, keys_of, leaf_ok, leaf_rows, leaf_sorted, lemma_leaf_key, lemma_node_key, node_ok,
    node_rows, node_sorted, pairs, seps_of,
};
use crate::index_page::{InternalPageRef, LeafPageRef};
use crate::index_rows::count_of;
use crate::index_store::PrimaryPageStore;
use crate::page::{page_type_byte, PageType, PAGE_SIZE};
use crate::tree_model::{bounded, in_range, kid, kid_hi, kid_lo, tree};

verus! {

/// The pages below `id` form a tree of height `h` whose keys lie between `lo`
/// and `hi`; a page other than a lone root is never empty.
pub open spec fn tree_at(
    pages: Map<u64, Seq<u8>>,
    id: u64,
    h: nat,
    lo: Option<PrimaryKey>,
    hi: Option<PrimaryKey>,
) -> bool
    decreases h,
{
    let b = pages[id];
    &&& pages.contains_key(id)
    &&& if h == 0 {
        leaf_holds(b, lo, hi)
    } else {
        &&& node_holds(b, lo, hi)
        &&& forall|j: int|
            0 <= j <= pairs(b).len() ==> tree_at(
                pages,
                #[trigger] kid(b, j),
                (h - 1) as nat,
                kid_lo(pairs(b), j, lo),
                kid_hi(pairs(b), j, hi),
            )
    }
}

/// A leaf in order, with keys between `lo` and `hi`.
pub open spec fn leaf_holds(
    b: Seq<u8>,
    lo: Option<PrimaryKey>,
    hi: Option<PrimaryKey>,
) -> bool {
    &&& leaf_sorted(b)
    &&& forall|i: int| 0 <= i < entries(b).len() ==> in_range((#[trigger] entries(b)[i]).key, lo, hi)
    &&& bounded(lo, hi) ==> entries(b).len() > 0
}

/// An inner page in order, with keys between `lo` and `hi`.
pub open spec fn node_holds(
    b: Seq<u8>,
    lo: Option<PrimaryKey>,
    hi: Option<PrimaryKey>,
) -> bool {
    &&& node_sorted(b)
    &&& pairs(b).len() > 0
    &&& forall|i: int| 0 <= i < pairs(b).len() ==> in_range((#[trigger] pairs(b)[i]).0, lo, hi)
}

/// The way along the first children ends at a leaf after `h` levels.
spec fn shape(pages: Map<u64, Seq<u8>>, id: u64, h: nat) -> bool
    decreases h,
{
    let b = pages[id];
    &&& pages.contains_key(id)
    &&& if h == 0 {
        b[5] == page_type_byte(PageType::IndexLeaf)
    } else {
        &&& b[5] == page_type_byte(PageType::IndexInternal)
        &&& shape(pages, kid(b, 0), (h - 1) as nat)
    }
}

/// The height of every page from which such a way ends.
spec fn depths(pages: Map<u64, Seq<u8>>) -> Map<u64, nat> {
    Map::new(
        |id: u64| exists|h: nat| shape(pages, id, h),
        |id: u64| choose|h: nat| shape(pages, id, h),
    )
}

proof fn lemma_one_shape(pages: Map<u64, Seq<u8>>, id: u64, g: nat, h: nat)
    requires
        shape(pages, id, g),
        shape(pages, id, h),
    ensures
        g == h,
    decreases g,
{
    if g > 0 && h > 0 {
        lemma_one_shape(pages, kid(pages[id], 0), (g - 1) as nat, (h - 1) as nat);
    }
}

proof fn lemma_tree_shape(
    pages: Map<u64, Seq<u8>>,
    id: u64,
    h: nat,
    lo: Option<PrimaryKey>,
    hi: Option<PrimaryKey>,
)
    requires
        tree_at(pages, id, h, lo, hi),
    ensures
        shape(pages, id, h),
    decreases h,
{
    let b = pages[id];
    if h > 0 {
        assert(tree_at(
            pages,
            kid(b, 0),
            (h - 1) as nat,
            kid_lo(pairs(b), 0, lo),
            kid_hi(pairs(b), 0, hi),
        ));
        lemma_tree_shape(
            pages,
            kid(b, 0),
            (h - 1) as nat,
            kid_lo(pairs(b), 0, lo),
            kid_hi(pairs(b), 0, hi),
        );
    }
}

proof fn lemma_with_levels(
    pages: Map<u64, Seq<u8>>,
    id: u64,
    h: nat,
    lo: Option<PrimaryKey>,
    hi: Option<PrimaryKey>,
)
    requires
        tree_at(pages, id, h, lo, hi),
    ensures
        tree(pages, depths(pages), id, h, lo, hi),
    decreases h,
{
    let b = pages[id];
    lemma_tree_shape(pages, id, h, lo, hi);
    let d = choose|d: nat| shape(pages, id, d);
    lemma_one_shape(pages, id, d, h);
    if h > 0 {
        assert forall|j: int| 0 <= j <= pairs(b).len() implies tree(
            pages,
            depths(pages),
            #[trigger] kid(b, j),
            (h - 1) as nat,
            kid_lo(pairs(b), j, lo),
            kid_hi(pairs(b), j, hi),
        ) by {
            lemma_with_levels(
                pages,
                kid(b, j),
                (h - 1) as nat,
                kid_lo(pairs(b), j, lo),
                kid_hi(pairs(b), j, hi),
            );
        }
    }
}

proof fn lemma_without_levels(
    pages: Map<u64, Seq<u8>>,
    levels: Map<u64, nat>,
    id: u64,
    h: nat,
    lo: Option<PrimaryKey>,
    hi: Option<PrimaryKey>,
)
    requires
        tree(pages, levels, id, h, lo, hi),
    ensures
        tree_at(pages, id, h, lo, hi),
    decreases h,
{
    let b = pages[id];
    if h > 0 {
        assert forall|j: int| 0 <= j <= pairs(b).len() implies tree_at(
            pages,
            #[trigger] kid(b, j),
            (h - 1) as nat,
            kid_lo(pairs(b), j, lo),
            kid_hi(pairs(b), j, hi),
        ) by {
            lemma_without_levels(
                pages,
                levels,
                kid(b, j),
                (h - 1) as nat,
                kid_lo(pairs(b), j, lo),
                kid_hi(pairs(b), j, hi),
            );
        }
    }
}

/// The pages alone decide whether they form a tree: heights of the pages can be
/// given exactly where they do.
pub proof fn law_pages_decide_the_tree(pages: Map<u64, Seq<u8>>, root: u64, h: nat)
    ensures
        tree_at(pages, root, h, None, None) <==> exists|levels: Map<u64, nat>| #[trigger]
            tree(pages, levels, root, h, None, None),
{
    if tree_at(pages, root, h, None, None) {
        lemma_with_levels(pages, root, h, None, None);
    }
    if exists|levels: Map<u64, nat>| #[trigger] tree(pages, levels, root, h, None, None) {
        let levels = choose|levels: Map<u64, nat>| #[trigger]
            tree(pages, levels, root, h, None, None);
        lemma_without_levels(pages, levels, root, h, None, None);
    }
}

/// The pages on the way along the first children are as many as the tree has
/// levels.
proof fn lemma_way(pages: Map<u64, Seq<u8>>, id: u64, h: nat) -> (way: Set<u64>)
    requires
        shape(pages, id, h),
    ensures
        way.finite(),
        way.len() == h + 1,
        forall|m: u64| #[trigger]
            way.contains(m) ==> pages.contains_key(m) && exists|g: nat|
                g <= h && #[trigger] shape(pages, m, g),
    decreases h,
{
    if h == 0 {
        let way = Set::<u64>::empty().insert(id);
        way
    } else {
        let below = lemma_way(pages, kid(pages[id], 0), (h - 1) as nat);
        assert(!below.contains(id)) by {
            if below.contains(id) {
                let g = choose|g: nat| g <= h - 1 && #[trigger] shape(pages, id, g);
                lemma_one_shape(pages, id, g, h);
            }
        }
        let way = below.insert(id);
        assert forall|m: u64| #[trigger] way.contains(m) implies pages.contains_key(m) && exists|
            g: nat,
        |
            g <= h && #[trigger] shape(pages, m, g) by {
            if m != id {
                assert(below.contains(m));
                let g = choose|g: nat| g <= h - 1 && #[trigger] shape(pages, m, g);
                assert(g <= h && shape(pages, m, g));
            }
        }
        way
    }
}

proof fn lemma_height_below_count(
    pages: Map<u64, Seq<u8>>,
    id: u64,
    h: nat,
    lo: Option<PrimaryKey>,
    hi: Option<PrimaryKey>,
)
    requires
        tree_at(pages, id, h, lo, hi),
        pages.dom().finite(),
    ensures
        h < pages.len(),
{
    lemma_tree_shape(pages, id, h, lo, hi);
    let way = lemma_way(pages, id, h);
    assert(way.subset_of(pages.dom()));
    vstd::set_lib::lemma_len_subset(way, pages.dom());
}

// ---- the check ------------------------------------------------------------

fn key_in_range(key: PrimaryKey, lo: Option<PrimaryKey>, hi: Option<PrimaryKey>) -> (r: bool)
    ensures
        r == in_range(key, lo, hi),
{
    let above = match lo {
        Some(l) => !key.precedes(l),
        None => true,
    };
    let below = match hi {
        Some(h) => key.precedes(h),
        None => true,
    };
    above && below
}

fn check_leaf(bytes: &[u8], lo: Option<PrimaryKey>, hi: Option<PrimaryKey>) -> (r: bool)
    requires
        bytes@.len() == PAGE_SIZE,
    ensures
        r == leaf_holds(bytes@, lo, hi),
{
    let leaf = match LeafPageRef::open(bytes) {
        Err(_) => {
            return false;
        },
        Ok(leaf) => leaf,
    };
    let count: u16 = leaf.entry_count();
    if count > LEAF_CAPACITY {
        return false;
    }
    let ghost b = bytes@;
    let ghost keys = keys_of(entries(b));
    let mut previous: Option<PrimaryKey> = None;
    let mut i: u16 = 0;
    while i < count
        invariant
            leaf.bytes@ == b,
            b == bytes@,
            leaf_ok(b),
            count == count_of(b),
            i <= count,
            keys == keys_of(entries(b)),
            keys.len() == count,
            previous == if i == 0 {
                None
            } else {
                Some(keys[i - 1])
            },
            forall|j: int| 0 <= j < i ==> (#[trigger] leaf_rows(b)[j])[8] <= 1,
            forall|p: int, q: int| 0 <= p < q < i ==> key_lt(#[trigger] keys[p], #[trigger] keys[q]),
            forall|j: int| 0 <= j < i ==> in_range((#[trigger] entries(b)[j]).key, lo, hi),
        decreases count - i,
    {
        proof {
            lemma_leaf_key(b, i as int);
            assert(keys[i as int] == entries(b)[i as int].key);
        }
        let key = match leaf.entry(i) {
            Err(_) => {
                assert(leaf_rows(b)[i as int][8] > 1);
                return false;
            },
            Ok((key, _, _)) => key,
        };
        match previous {
            Some(before) => {
                if !before.precedes(key) {
                    assert(!key_lt(keys[i - 1], keys[i as int]));
                    return false;
                }
            },
            None => {},
        }
        if !key_in_range(key, lo, hi) {
            assert(!in_range(entries(b)[i as int].key, lo, hi));
            return false;
        }
        previous = Some(key);
        i += 1;
    }
    match (lo, hi) {
        (None, None) => true,
        _ => count > 0,
    }
}

fn check_node(
    node: &InternalPageRef<'_>,
    count: u16,
    lo: Option<PrimaryKey>,
    hi: Option<PrimaryKey>,
) -> (r: bool)
    requires
        node_ok(node.bytes@),
        count == count_of(node.bytes@),
    ensures
        r == node_holds(node.bytes@, lo, hi),
{
    let ghost b = node.bytes@;
    let ghost keys = seps_of(pairs(b));
    let mut previous: Option<PrimaryKey> = None;
    let mut i: u16 = 0;
    while i < count
        invariant
            node.bytes@ == b,
            node_ok(b),
            count == count_of(b),
            i <= count,
            keys == seps_of(pairs(b)),
            keys.len() == count,
            previous == if i == 0 {
                None
            } else {
                Some(keys[i - 1])
            },
            forall|j: int| 0 <= j < i ==> (#[trigger] node_rows(b)[j])[8] <= 1,
            forall|p: int, q: int| 0 <= p < q < i ==> key_lt(#[trigger] keys[p], #[trigger] keys[q]),
            forall|j: int| 0 <= j < i ==> in_range((#[trigger] pairs(b)[j]).0, lo, hi),
        decreases count - i,
    {
        proof {
            lemma_node_key(b, i as int);
            assert(keys[i as int] == pairs(b)[i as int].0);
        }
        let key = match node.entry(i) {
            Err(_) => {
                assert(node_rows(b)[i as int][8] > 1);
                return false;
            },
            Ok((key, _)) => key,
        };
        match previous {
            Some(before) => {
                if !before.precedes(key) {
                    assert(!key_lt(keys[i - 1], keys[i as int]));
                    return false;
                }
            },
            None => {},
        }
        if !key_in_range(key, lo, hi) {
            assert(!in_range(pairs(b)[i as int].0, lo, hi));
            return false;
        }
        previous = Some(key);
        i += 1;
    }
    count > 0
}

/// Whether the pages below `id` form a tree of height `h` with keys between
/// `lo` and `hi`.
fn check_below(
    store: &PrimaryPageStore,
    id: u64,
    h: usize,
    lo: Option<PrimaryKey>,
    hi: Option<PrimaryKey>,
) -> (r: bool)
    ensures
        r == tree_at(store.pages(), id, h as nat, lo, hi),
    decreases h,
{
    let bytes = match store.latch(PageId(id)) {
        Err(_) => {
            return false;
        },
        Ok(b) => b,
    };
    if h == 0 {
        return check_leaf(bytes.as_slice(), lo, hi);
    }
    let node = match InternalPageRef::open(bytes.as_slice()) {
        Err(_) => {
            return false;
        },
        Ok(node) => node,
    };
    let count: u16 = node.entry_count();
    if count > INTERNAL_CAPACITY || !check_node(&node, count, lo, hi) {
        return false;
    }
    let ghost b = bytes@;
    let ghost s = pairs(b);
    let mut child: u64 = node.first_child().0;
    let mut low = lo;
    let mut j: u16 = 0;
    while j < count
        invariant
            node.bytes@ == b,
            node_holds(b, lo, hi),
            s == pairs(b),
            s.len() == count,
            count == count_of(b),
            j <= count,
            h > 0,
            store.pages().contains_pair(id, b),
            child == kid(b, j as int),
            low == kid_lo(s, j as int, lo),
            forall|k: int|
                0 <= k < j ==> tree_at(
                    store.pages(),
                    #[trigger] kid(b, k),
                    (h - 1) as nat,
                    kid_lo(s, k, lo),
                    kid_hi(s, k, hi),
                ),
        decreases count - j,
    {
        proof {
            lemma_node_key(b, j as int);
            assert(node_rows(b)[j as int][8] <= 1);
        }
        let (key, next) = match node.entry(j) {
            Err(_) => {
                assert(false);
                return false;
            },
            Ok((key, next)) => (key, next),
        };
        if !check_below(store, child, h - 1, low, Some(key)) {
            assert(!tree_at(
                store.pages(),
                kid(b, j as int),
                (h - 1) as nat,
                kid_lo(s, j as int, lo),
                kid_hi(s, j as int, hi),
            ));
            return false;
        }
        child = next.0;
        low = Some(key);
        j += 1;
    }
    let last = check_below(store, child, h - 1, low, hi);
    assert(last == tree_at(
        store.pages(),
        kid(b, count as int),
        (h - 1) as nat,
        kid_lo(s, count as int, lo),
        kid_hi(s, count as int, hi),
    ));
    last
}

/// The number of levels on the way along the first children, at most `limit`.
fn first_depth(store: &PrimaryPageStore, id: u64, limit: usize) -> (r: Option<usize>)
    ensures
        match r {
            Some(h) => shape(store.pages(), id, h as nat),
            None => forall|h: nat| h <= limit ==> !#[trigger] shape(store.pages(), id, h),
        },
{
    let ghost pages = store.pages();
    let mut at: u64 = id;
    let mut depth: usize = 0;
    loop
        invariant
            pages == store.pages(),
            depth <= limit,
            forall|h: nat| #[trigger]
                shape(pages, id, h) <==> h >= depth && shape(pages, at, (h - depth) as nat),
        decreases limit - depth,
    {
        let bytes = match store.latch(PageId(at)) {
            Err(_) => {
                return None;
            },
            Ok(b) => b,
        };
        let page_type: u8 = bytes[5];
        if page_type == PageType::IndexLeaf.as_byte() {
            assert(shape(pages, at, 0));
            assert(shape(pages, id, depth as nat));
            return Some(depth);
        }
        if page_type != PageType::IndexInternal.as_byte() || depth == limit {
            return None;
        }
        let node = InternalPageRef { bytes: bytes.as_slice() };
        at = node.first_child().0;
        depth += 1;
    }
}

/// The height of the tree that the pages below `root` form; `None` where they
/// form none.
pub fn tree_height(store: &PrimaryPageStore, root: u64) -> (r: Option<usize>)
    ensures
        match r {
            Some(h) => tree_at(store.pages(), root, h as nat, None, None),
            None => forall|h: nat| !#[trigger] tree_at(store.pages(), root, h, None, None),
        },
{
    let limit: usize = store.page_numbers().len();
    let height = match first_depth(store, root, limit) {
        None => {
            proof {
                assert forall|h: nat| !#[trigger] tree_at(
                    store.pages(),
                    root,
                    h,
                    None,
                    None,
                ) by {
                    if tree_at(store.pages(), root, h, None, None) {
                        lemma_height_below_count(store.pages(), root, h, None, None);
                        lemma_tree_shape(store.pages(), root, h, None, None);
                    }
                }
            }
            return None;
        },
        Some(h) => h,
    };
    if check_below(store, root, height, None, None) {
        return Some(height);
    }
    proof {
        assert forall|h: nat| !#[trigger] tree_at(store.pages(), root, h, None, None) by {
            if tree_at(store.pages(), root, h, None, None) {
                lemma_tree_shape(store.pages(), root, h, None, None);
                lemma_one_shape(store.pages(), root, h, height as nat);
            }
        }
    }
    None
}

} // verus!
