//! The primary index as a tree of pages: what it holds, and what a write does
//! to it.
use vstd::prelude::*;

use crate::ids::PageId;
use crate::index_model::{
    key_lt, rank, rank_le, IndexError, PageSlot, PrimaryKey, INTERNAL_CAPACITY, LEAF_CAPACITY,
};
use crate::index_nodes::{
    child_of, entries, first_child, fresh_node, keys_of, leaf_high, leaf_low, leaf_put, leaf_set,
    leaf_sorted, node_high, node_low, node_put, node_sorted, pairs, seps_of, LeafEntry,
};
use crate::index_rows::count_of;
use crate::mutation_log::{
    log_capture, log_fresh, log_root, IndexHandle, LogModel, PageStoreKind,
};
use crate::page::{page_type_byte, PageType};

verus! {

/// A write to one key.
#[derive(Clone, Copy, Debug, PartialEq, Eq, Structural)]
pub enum WriteOp {
    /// Gives a key that has no live value a value.
    Insert(PageSlot),
    /// Gives a key a value.
    Upsert(PageSlot),
    /// Takes a key's value away.
    Remove,
}

/// A page that was split: the new page on the right, and its first key.
#[derive(Clone, Copy, Debug, PartialEq, Eq, Structural)]
pub struct SplitInfo {
    /// The key that moves up.
    pub promoted_key: PrimaryKey,
    /// The new page.
    pub new_right_page: PageId,
}

// ---- contents -------------------------------------------------------------

/// The key lies at `lo` or above, and below `hi`.
pub open spec fn in_range(k: PrimaryKey, lo: Option<PrimaryKey>, hi: Option<PrimaryKey>) -> bool {
    &&& lo matches Some(l) ==> !key_lt(k, l)
    &&& hi matches Some(h) ==> key_lt(k, h)
}

/// There is a bound on one side at least.
pub open spec fn bounded(lo: Option<PrimaryKey>, hi: Option<PrimaryKey>) -> bool {
    lo is Some || hi is Some
}

/// The entry of a key in a list that is in order.
pub open spec fn entry_for(s: Seq<LeafEntry>, k: PrimaryKey) -> Option<LeafEntry> {
    let p = rank(keys_of(s), k);
    if 0 <= p < s.len() && s[p].key == k {
        Some(s[p])
    } else {
        None
    }
}

/// The lower bound of the keys below child `j`.
pub open spec fn kid_lo(
    s: Seq<(PrimaryKey, u64)>,
    j: int,
    lo: Option<PrimaryKey>,
) -> Option<PrimaryKey> {
    if j == 0 {
        lo
    } else {
        Some(s[j - 1].0)
    }
}

/// The upper bound of the keys below child `j`.
pub open spec fn kid_hi(
    s: Seq<(PrimaryKey, u64)>,
    j: int,
    hi: Option<PrimaryKey>,
) -> Option<PrimaryKey> {
    if j == s.len() {
        hi
    } else {
        Some(s[j].0)
    }
}

/// Child `j` of an inner page.
pub open spec fn kid(b: Seq<u8>, j: int) -> u64 {
    child_of(first_child(b), pairs(b), j)
}

/// The keys that a page holds.
pub open spec fn page_keys(b: Seq<u8>) -> Seq<PrimaryKey> {
    if b[5] == page_type_byte(PageType::IndexLeaf) {
        keys_of(entries(b))
    } else {
        seps_of(pairs(b))
    }
}

/// The pages below `id` form a tree of height `h` whose keys lie between `lo`
/// and `hi`. `levels` gives each page its height; a page other than a lone
/// root is never empty.
pub open spec fn tree(
    pages: Map<u64, Seq<u8>>,
    levels: Map<u64, nat>,
    id: u64,
    h: nat,
    lo: Option<PrimaryKey>,
    hi: Option<PrimaryKey>,
) -> bool
    decreases h,
{
    let b = pages[id];
    &&& pages.contains_key(id)
    &&& levels.contains_key(id)
    &&& levels[id] == h
    &&& if h == 0 {
        &&& leaf_sorted(b)
        &&& forall|i: int|
            0 <= i < entries(b).len() ==> in_range((#[trigger] entries(b)[i]).key, lo, hi)
        &&& bounded(lo, hi) ==> entries(b).len() > 0
    } else {
        &&& node_sorted(b)
        &&& pairs(b).len() > 0
        &&& forall|i: int| 0 <= i < pairs(b).len() ==> in_range((#[trigger] pairs(b)[i]).0, lo, hi)
        &&& forall|j: int|
            0 <= j <= pairs(b).len() ==> tree(
                pages,
                levels,
                #[trigger] kid(b, j),
                (h - 1) as nat,
                kid_lo(pairs(b), j, lo),
                kid_hi(pairs(b), j, hi),
            )
    }
}

/// The entry of a key below `id`.
pub open spec fn find(pages: Map<u64, Seq<u8>>, id: u64, h: nat, k: PrimaryKey) -> Option<LeafEntry>
    decreases h,
{
    let b = pages[id];
    if h == 0 {
        entry_for(entries(b), k)
    } else {
        find(pages, kid(b, rank_le(seps_of(pairs(b)), k)), (h - 1) as nat, k)
    }
}

/// The keys of the leaves below `id`, from left to right.
pub open spec fn walk(pages: Map<u64, Seq<u8>>, id: u64, h: nat) -> Seq<PrimaryKey>
    decreases h, 1int, 0int,
{
    if h == 0 {
        keys_of(entries(pages[id]))
    } else {
        walk_kids(pages, id, h, pairs(pages[id]).len() as int + 1)
    }
}

/// The keys of the leaves below the first `n` children of `id`.
pub open spec fn walk_kids(pages: Map<u64, Seq<u8>>, id: u64, h: nat, n: int) -> Seq<PrimaryKey>
    decreases h, 0int, n,
{
    if n <= 0 || h == 0 {
        Seq::empty()
    } else {
        walk_kids(pages, id, h, n - 1) + walk(pages, kid(pages[id], n - 1), (h - 1) as nat)
    }
}

/// The live values below `id`.
pub open spec fn live_values(pages: Map<u64, Seq<u8>>, id: u64, h: nat) -> Map<PrimaryKey, PageSlot> {
    Map::new(
        |k: PrimaryKey| find(pages, id, h, k) matches Some(e) && !e.dead,
        |k: PrimaryKey| find(pages, id, h, k)->Some_0.value,
    )
}

// ---- writes ---------------------------------------------------------------

/// What a write works on: the pages, the number that the next new page gets,
/// the pages to be logged, and the notes for undoing.
#[verifier::ext_equal]
pub struct TreeState {
    /// The pages.
    pub pages: Map<u64, Seq<u8>>,
    /// The number of the next new page.
    pub next: u64,
    /// The pages to be logged, in order.
    pub staged: Seq<(u64, Seq<u8>)>,
    /// The notes for undoing.
    pub log: LogModel,
}

/// What a write yields: the live value that was there, and the split that the
/// page above has to take in.
pub type Written = Result<(Option<PageSlot>, Option<SplitInfo>), IndexError>;

/// The page `id` is noted as it is.
pub open spec fn noted(s: TreeState, id: u64) -> TreeState {
    TreeState { log: log_capture(s.log, PageStoreKind::Primary, id, s.pages[id]), ..s }
}

/// The page `id` is changed to `b`, to be logged.
pub open spec fn changed(s: TreeState, id: u64, b: Seq<u8>) -> TreeState {
    TreeState { pages: s.pages.insert(id, b), staged: s.staged.push((id, b)), ..s }
}

/// The page `id` is split into `low` and the new page `high`, which takes the
/// next number. Both are to be logged, the new one first.
pub open spec fn divided(s: TreeState, id: u64, low: Seq<u8>, high: Seq<u8>) -> TreeState {
    TreeState {
        pages: s.pages.insert(id, low).insert(s.next, high),
        next: (s.next + 1) as u64,
        staged: s.staged.push((s.next, high)).push((id, low)),
        log: log_fresh(s.log, PageStoreKind::Primary, s.next),
    }
}

/// The live value of an entry.
pub open spec fn live_value(e: Option<LeafEntry>) -> Option<PageSlot> {
    match e {
        Some(e) => if e.dead {
            None
        } else {
            Some(e.value)
        },
        None => None,
    }
}

/// A leaf after a new entry was put in its place.
pub open spec fn leaf_with(b: Seq<u8>, key: PrimaryKey, value: PageSlot) -> Seq<u8> {
    leaf_put(b, rank(keys_of(entries(b)), key), key, value)
}

/// A full leaf is split and the new entry goes to the half it belongs to.
pub open spec fn split_leaf(s: TreeState, id: u64, key: PrimaryKey, value: PageSlot) -> (
    TreeState,
    SplitInfo,
) {
    let b = s.pages[id];
    let low = leaf_low(b);
    let high = leaf_high(b, s.next);
    let first = entries(high)[0].key;
    let split = SplitInfo { promoted_key: first, new_right_page: PageId(s.next) };
    if key_lt(key, first) {
        (divided(s, id, leaf_with(low, key, value), high), split)
    } else {
        (divided(s, id, low, leaf_with(high, key, value)), split)
    }
}

/// Puts a new entry into a leaf, which is split where it is full.
pub open spec fn put_in_leaf(s: TreeState, id: u64, key: PrimaryKey, value: PageSlot) -> (
    TreeState,
    Option<SplitInfo>,
) {
    let b = s.pages[id];
    if count_of(b) < LEAF_CAPACITY {
        (changed(s, id, leaf_with(b, key, value)), None)
    } else {
        let (t, split) = split_leaf(s, id, key, value);
        (t, Some(split))
    }
}

/// A write at the leaf `id`. The leaf is noted first. A key that the leaf
/// holds is written in place; only a new key can split the leaf.
pub open spec fn leaf_step(s: TreeState, id: u64, key: PrimaryKey, op: WriteOp) -> (
    TreeState,
    Written,
) {
    let b = s.pages[id];
    let t = noted(s, id);
    let p = rank(keys_of(entries(b)), key);
    let old = entry_for(entries(b), key);
    match op {
        WriteOp::Insert(v) => match old {
            Some(e) => if e.dead {
                (changed(t, id, leaf_set(b, p, v, false)), Ok((None, None)))
            } else {
                (t, Err(IndexError::DuplicateKey { key }))
            },
            None => {
                let (u, split) = put_in_leaf(t, id, key, v);
                (u, Ok((None, split)))
            },
        },
        WriteOp::Upsert(v) => match old {
            Some(e) => (changed(t, id, leaf_set(b, p, v, false)), Ok((live_value(old), None))),
            None => {
                let (u, split) = put_in_leaf(t, id, key, v);
                (u, Ok((None, split)))
            },
        },
        WriteOp::Remove => if live_value(old) is Some {
            (
                changed(t, id, leaf_set(b, p, live_value(old)->Some_0, true)),
                Ok((live_value(old), None)),
            )
        } else {
            (changed(t, id, b), Ok((None, None)))
        },
    }
}

/// An inner page after a pair was put in its place.
pub open spec fn node_with(b: Seq<u8>, split: SplitInfo) -> Seq<u8> {
    node_put(
        b,
        rank(seps_of(pairs(b)), split.promoted_key),
        split.promoted_key,
        split.new_right_page.0,
    )
}

/// The inner page `id` takes in the split of a child. It is noted first, and
/// split itself where it is full.
pub open spec fn node_step(s: TreeState, id: u64, split: SplitInfo) -> (
    TreeState,
    Option<SplitInfo>,
) {
    let b = s.pages[id];
    let t = noted(s, id);
    if count_of(b) < INTERNAL_CAPACITY {
        (changed(t, id, node_with(b, split)), None)
    } else {
        let low = node_low(b);
        let high = node_high(b, s.next);
        let middle = pairs(b)[count_of(b) as int / 2].0;
        let up = SplitInfo { promoted_key: middle, new_right_page: PageId(s.next) };
        if key_lt(split.promoted_key, middle) {
            (divided(t, id, node_with(low, split), high), Some(up))
        } else {
            (divided(t, id, low, node_with(high, split)), Some(up))
        }
    }
}

/// A write below `id`.
pub open spec fn write_step(s: TreeState, id: u64, h: nat, key: PrimaryKey, op: WriteOp) -> (
    TreeState,
    Written,
)
    decreases h,
{
    if h == 0 {
        leaf_step(s, id, key, op)
    } else {
        let b = s.pages[id];
        let (t, r) = write_step(
            s,
            kid(b, rank_le(seps_of(pairs(b)), key)),
            (h - 1) as nat,
            key,
            op,
        );
        match r {
            Err(e) => (t, Err(e)),
            Ok((previous, None)) => (t, Ok((previous, None))),
            Ok((previous, Some(split))) => {
                let (u, up) = node_step(t, id, split);
                (u, Ok((previous, up)))
            },
        }
    }
}

/// The page of a new root above `root` and the page that was split off it.
pub open spec fn root_page(id: u64, root: u64, split: SplitInfo) -> Seq<u8> {
    node_put(fresh_node(id, root), 0, split.promoted_key, split.new_right_page.0)
}

/// A new root is put above the old one. The old root is noted first.
pub open spec fn root_step(s: TreeState, root: u64, split: SplitInfo) -> TreeState {
    let b = root_page(s.next, root, split);
    TreeState {
        pages: s.pages.insert(s.next, b),
        next: (s.next + 1) as u64,
        staged: s.staged.push((s.next, b)),
        log: log_fresh(log_root(s.log, IndexHandle(0), root), PageStoreKind::Primary, s.next),
    }
}

/// A write to the whole tree: the state after it, the root after it, and the
/// live value that was there.
pub open spec fn index_step(s: TreeState, root: u64, h: nat, key: PrimaryKey, op: WriteOp) -> (
    TreeState,
    u64,
    Result<Option<PageSlot>, IndexError>,
) {
    let (t, r) = write_step(s, root, h, key, op);
    match r {
        Err(e) => (t, root, Err(e)),
        Ok((previous, None)) => (t, root, Ok(previous)),
        Ok((previous, Some(split))) => (root_step(t, root, split), t.next, Ok(previous)),
    }
}

/// What a write makes of the entry of its key.
pub open spec fn entry_after(old: Option<LeafEntry>, key: PrimaryKey, op: WriteOp) -> Option<
    LeafEntry,
> {
    match op {
        WriteOp::Insert(v) => Some(LeafEntry { key, value: v, dead: false }),
        WriteOp::Upsert(v) => Some(LeafEntry { key, value: v, dead: false }),
        WriteOp::Remove => match old {
            Some(e) => Some(LeafEntry { dead: true, ..e }),
            None => None,
        },
    }
}

/// The heights of the pages after `n` new ones were numbered from `next` on:
/// splits go from the leaves up, one level at a time.
pub open spec fn levels_up(levels: Map<u64, nat>, next: u64, n: nat) -> Map<u64, nat>
    decreases n,
{
    if n == 0 {
        levels
    } else {
        levels_up(levels, next, (n - 1) as nat).insert((next + n - 1) as u64, (n - 1) as nat)
    }
}

} // verus!
