//! The primary index: a tree of pages that says where each record lies.
use vstd::prelude::*;

use crate::codec::{
    get_u64, group_codec, le64, lemma_u64_read_back, push_bytes, push_u64, splice, u64_at,
};
use crate::dash::no_pages;
use crate::ids::{PageId, TenantId};
use crate::index_model::{
    dead_at, key_lt, rank, rank_le, value_at, INTERNAL_CAPACITY, LEAF_CAPACITY,
};
use crate::index_nodes::{
    entries, fresh_index_page, fresh_node, index_header, keys_of, leaf_find, leaf_high, leaf_low,
    leaf_rows, leaf_sorted, lemma_fresh_pages, lemma_leaf_find, lemma_leaf_halves, lemma_leaf_key,
    lemma_node_find, lemma_node_halves, lemma_node_key, lemma_node_scan, node_high, node_low,
    node_rows, node_sorted, pairs, seps_of, Found,
};
use crate::index_page::{find_child_result, fresh_page_buf, read_header};
use crate::index_rows::{copy_range, count_of, row_start};
use crate::mutation_log::{empty_log, log_fresh, LogModel, PageStoreKind};
use crate::page::{
    decode_header, header_bytes, law_header_round_trip, page_type_byte, PageType, PAGE_SIZE,
};
use crate::primary_laws::law_load;
use crate::tree_check::{law_pages_decide_the_tree, tree_at, tree_height};
use crate::tree_laws::{
    height_after, law_height_is_bounded, law_pages_decide_the_height, law_write_is_a_map_update,
    lemma_entries_halves, lemma_entry_for, lemma_parent, lemma_parts_sorted, lemma_write,
    levels_after, numbered_below, sound,
};
use crate::tree_model::{
    entry_for, find, in_range, index_step, kid, kid_hi, kid_lo, leaf_step, live_value, live_values,
    node_step, noted, root_page, root_step, split_leaf, tree, write_step, TreeState, Written,
};

pub use crate::index_model::{
    IndexError, IndexFault, PageSlot, PrimaryKey, RecordKind,
};
pub use crate::index_page::{
    InternalPageMut, InternalPageRef, LeafPageMut, LeafPageRef,
};
pub use crate::index_store::PrimaryPageStore;
pub use crate::mutation_log::{IndexHandle, TxnMutationLog};
pub use crate::tree_model::{SplitInfo, WriteOp};

verus! {

/// The key under which the number of the root page is kept.
pub const PRIMARY_INDEX_ROOT_KEY: u64 = 1;

/// The most pages that one write can add: one on each level, and a new root.
pub const PAGES_PER_WRITE: u64 = 65;

/// Hands out page numbers, each one once.
#[derive(Debug)]
pub struct PageAllocator {
    /// The number of the next page.
    pub next: u64,
}

impl PageAllocator {
    /// An allocator that starts at one.
    pub fn new() -> (a: PageAllocator)
        ensures
            a.next == 1,
    {
        PageAllocator { next: 1 }
    }

    /// The next page number.
    pub fn take_next(&mut self) -> (id: PageId)
        requires
            old(self).next < u64::MAX,
        ensures
            id.0 == old(self).next,
            final(self).next == old(self).next + 1,
    {
        let id: u64 = self.next;
        self.next = id + 1;
        PageId(id)
    }
}

/// What a write found.
#[derive(Clone, Copy, Debug, PartialEq, Eq, Structural)]
pub struct WriteResult {
    /// The live value that the key had.
    pub previous: Option<PageSlot>,
    /// Whether it had one.
    pub existed: bool,
}

/// Why a write to a logged index failed.
#[derive(Clone, Copy, Debug, PartialEq, Eq)]
pub enum LoggedWriteError<E> {
    /// The write itself.
    Index(IndexError),
    /// The commit of its pages.
    Commit(E),
}

/// What an initial load did.
#[derive(Clone, Copy, Debug, PartialEq, Eq, Structural)]
pub struct BootstrapStats {
    /// Keys that were new to the index.
    pub indexed: usize,
    /// Keys that the index had already.
    pub skipped: usize,
}

/// A page of the index as it is to be logged.
#[derive(Debug)]
pub struct StagedEmit {
    /// The page.
    pub page_id: PageId,
    /// Its bytes.
    pub bytes: Vec<u8>,
}

/// A write to a system record that goes with a commit.
#[derive(Debug)]
pub struct SideChannelWrite {
    /// The tenant of the record.
    pub tenant_id: TenantId,
    /// The record's key.
    pub key: u64,
    /// The value; `None` removes the record.
    pub value: Option<Vec<u8>>,
}

/// The pages of a list, as they are to be logged.
pub open spec fn emits(s: Seq<StagedEmit>) -> Seq<(u64, Seq<u8>)> {
    Seq::new(s.len(), |i: int| (s[i].page_id.0, s[i].bytes@))
}

/// What a list of system writes says.
pub open spec fn writes(s: Seq<SideChannelWrite>) -> Seq<(u64, u64, Option<Seq<u8>>)> {
    Seq::new(
        s.len(),
        |i: int|
            (
                s[i].tenant_id.0,
                s[i].key,
                match s[i].value {
                    Some(v) => Some(v@),
                    None => None,
                },
            ),
    )
}

/// The system write that keeps the number of the root page.
pub open spec fn root_write(root: u64) -> (u64, u64, Option<Seq<u8>>) {
    (0, PRIMARY_INDEX_ROOT_KEY, Some(le64(root)))
}

/// The root page that a kept value names: eight bytes, not all zero.
pub open spec fn kept_root(value: Option<Seq<u8>>) -> Option<PageId> {
    match value {
        Some(b) => if b.len() == 8 && u64_at(b, 0) != 0 {
            Some(PageId(u64_at(b, 0)))
        } else {
            None
        },
        None => None,
    }
}

/// Going down from the page `id` to the leaf of a key, at most `fuel` levels:
/// what the key has there, or what went wrong; `None` where the way does not
/// end or a page claims more entries than fit on it.
pub open spec fn descent(pages: Map<u64, Seq<u8>>, id: u64, key: PrimaryKey, fuel: nat) -> Option<
    Result<Option<PageSlot>, IndexError>,
>
    decreases fuel,
{
    let b = pages[id];
    if !pages.contains_key(id) {
        Some(Err(IndexError::MissingPage(PageId(id))))
    } else if b.len() != PAGE_SIZE {
        None
    } else {
        match decode_header(b) {
            Err(e) => Some(Err(IndexError::Core(e))),
            Ok(h) => if h.page_type == page_type_byte(PageType::IndexLeaf) {
                if h.slot_count > LEAF_CAPACITY {
                    None
                } else {
                    Some(leaf_lookup(b, key))
                }
            } else if h.page_type == page_type_byte(PageType::IndexInternal) {
                if h.slot_count > INTERNAL_CAPACITY {
                    None
                } else {
                    match find_child_result(b, key) {
                        Err(e) => Some(Err(e)),
                        Ok(child) => if fuel == 0 {
                            None
                        } else {
                            descent(pages, child.0, key, (fuel - 1) as nat)
                        },
                    }
                }
            } else {
                Some(
                    Err(
                        IndexError::CorruptPage {
                            page_id: PageId(h.page_id),
                            reason: IndexFault::NotIndexPage { got: h.page_type },
                        },
                    ),
                )
            },
        }
    }
}

/// The live value of a key in a leaf, or what went wrong.
pub open spec fn leaf_lookup(b: Seq<u8>, key: PrimaryKey) -> Result<Option<PageSlot>, IndexError> {
    match leaf_find(b, key) {
        Err(e) => Err(e),
        Ok(Found::Before(_)) => Ok(None),
        Ok(Found::At(i)) => {
            let at = row_start(40, 40, i as int) + 24;
            if dead_at(b, at) {
                Ok(None)
            } else {
                Ok(Some(value_at(b, at)))
            }
        },
    }
}

/// In a leaf in order, the live value of a key is that of its entry.
pub proof fn lemma_leaf_lookup(b: Seq<u8>, key: PrimaryKey)
    requires
        leaf_sorted(b),
    ensures
        leaf_lookup(b, key) == Ok::<Option<PageSlot>, IndexError>(
            live_value(entry_for(entries(b), key)),
        ),
{
    lemma_leaf_find(b, key);
    let p = rank(keys_of(entries(b)), key);
    if p < count_of(b) {
        lemma_leaf_key(b, p);
    }
}

/// In an inner page in order, the child of a key is found.
pub proof fn lemma_find_child(b: Seq<u8>, key: PrimaryKey)
    requires
        node_sorted(b),
    ensures
        find_child_result(b, key) == Ok::<PageId, IndexError>(
            PageId(kid(b, rank_le(seps_of(pairs(b)), key))),
        ),
{
    lemma_node_find(b, key);
    let n = rank_le(seps_of(pairs(b)), key);
    if n > 0 {
        lemma_node_key(b, n - 1);
        assert(node_rows(b)[n - 1][8] <= 1);
    }
}

/// In a sound tree, going down finds the live value of a key.
proof fn lemma_descent(
    pages: Map<u64, Seq<u8>>,
    levels: Map<u64, nat>,
    id: u64,
    h: nat,
    lo: Option<PrimaryKey>,
    hi: Option<PrimaryKey>,
    key: PrimaryKey,
)
    requires
        tree(pages, levels, id, h, lo, hi),
    ensures
        descent(pages, id, key, h) == Some(
            Ok::<Option<PageSlot>, IndexError>(live_value(find(pages, id, h, key))),
        ),
    decreases h,
{
    let b = pages[id];
    if h == 0 {
        lemma_leaf_lookup(b, key);
    } else {
        lemma_find_child(b, key);
        lemma_node_find(b, key);
        let j = rank_le(seps_of(pairs(b)), key);
        lemma_descent(
            pages,
            levels,
            kid(b, j),
            (h - 1) as nat,
            kid_lo(pairs(b), j, lo),
            kid_hi(pairs(b), j, hi),
            key,
        );
    }
}

/// A descent that ends says the same with more fuel.
proof fn lemma_descent_fuel(
    pages: Map<u64, Seq<u8>>,
    id: u64,
    key: PrimaryKey,
    a: nat,
    b: nat,
)
    requires
        descent(pages, id, key, a) is Some,
        a <= b,
    ensures
        descent(pages, id, key, b) == descent(pages, id, key, a),
    decreases a,
{
    let page = pages[id];
    if pages.contains_key(id) && page.len() == PAGE_SIZE && decode_header(page) is Ok
        && decode_header(page)->Ok_0.page_type == page_type_byte(PageType::IndexInternal)
        && find_child_result(page, key) is Ok && a > 0 {
        lemma_descent_fuel(
            pages,
            find_child_result(page, key)->Ok_0.0,
            key,
            (a - 1) as nat,
            (b - 1) as nat,
        );
    }
}

/// The primary index.
pub struct PrimaryIndex {
    page_store: PrimaryPageStore,
    allocator: PageAllocator,
    root: u64,
    levels: Ghost<Map<u64, nat>>,
    height: Ghost<nat>,
}

impl PrimaryIndex {
    /// The pages of the index.
    pub closed spec fn pages(self) -> Map<u64, Seq<u8>> {
        self.page_store.pages()
    }

    /// The number of the next new page.
    pub closed spec fn next_page(self) -> u64 {
        self.allocator.next
    }

    /// The number of the root page; zero where it is not known.
    pub closed spec fn root_page(self) -> u64 {
        self.root
    }

    /// The height of every page of the tree.
    pub closed spec fn levels(self) -> Map<u64, nat> {
        self.levels@
    }

    /// The height of the tree.
    pub closed spec fn height(self) -> nat {
        self.height@
    }

    /// The pages form a tree.
    pub open spec fn wf(self) -> bool {
        &&& sound(self.pages(), self.levels(), self.root_page(), self.height(), self.next_page())
        &&& self.root_page() != 0
    }

    /// What the index says: where the record of each key lies.
    pub open spec fn values(self) -> Map<PrimaryKey, PageSlot> {
        live_values(self.pages(), self.root_page(), self.height())
    }

    /// What a write works on.
    pub open spec fn state(self, staged: Seq<(u64, Seq<u8>)>, log: LogModel) -> TreeState {
        TreeState { pages: self.pages(), next: self.next_page(), staged, log }
    }

    /// There are page numbers left for a write.
    pub open spec fn has_room(self) -> bool {
        self.next_page() + self.height() + 1 < u64::MAX
    }

    /// There are page numbers left for `n` writes.
    pub open spec fn has_room_for(self, n: int) -> bool {
        self.next_page() + PAGES_PER_WRITE * n < u64::MAX
    }
}

proof fn lemma_chosen_height(pages: Map<u64, Seq<u8>>, root: u64, next: u64)
    ensures
        ({
            let (levels, height) = choose|levels: Map<u64, nat>, h: nat| #[trigger]
                sound(pages, levels, root, h, next);
            forall|l: Map<u64, nat>, h: nat| #[trigger]
                sound(pages, l, root, h, next) ==> sound(pages, levels, root, height, next)
                    && height == h
        }),
{
    let (levels, height) = choose|levels: Map<u64, nat>, h: nat| #[trigger]
        sound(pages, levels, root, h, next);
    assert forall|l: Map<u64, nat>, h: nat| #[trigger]
        sound(pages, l, root, h, next) implies sound(pages, levels, root, height, next) && height
        == h by {
        law_pages_decide_the_height(
            pages,
            levels,
            l,
            root,
            height,
            h,
            (None, None),
            (None, None),
        );
    }
}

impl PrimaryIndex {
    /// A fresh index without pages of its own: its root is the page that
    /// `root_value` names, or a new empty leaf.
    pub fn new(allocator: PageAllocator, root_value: Option<Vec<u8>>) -> (r: Result<
        PrimaryIndex,
        IndexError,
    >)
        requires
            0 < allocator.next < u64::MAX,
        ensures
            r matches Ok(index) && match kept_root(
                match root_value {
                    Some(v) => Some(v@),
                    None => None,
                },
            ) {
                Some(id) => {
                    &&& index.root_page() == id.0
                    &&& index.pages() == no_pages()
                    &&& index.next_page() == allocator.next
                },
                None => {
                    &&& index.wf()
                    &&& index.values() == Map::<PrimaryKey, PageSlot>::empty()
                    &&& index.height() == 0
                    &&& index.root_page() == allocator.next
                    &&& index.next_page() == allocator.next + 1
                    &&& index.pages() == no_pages().insert(
                        allocator.next,
                        fresh_index_page(allocator.next, PageType::IndexLeaf),
                    )
                },
            },
    {
        PrimaryIndex::with_page_store(allocator, root_value, PrimaryPageStore::new())
    }

    /// An index over the pages of a store: its root is the page that
    /// `root_value` names, or a new empty leaf, which must not be in the store
    /// yet.
    pub fn with_page_store(
        allocator: PageAllocator,
        root_value: Option<Vec<u8>>,
        page_store: PrimaryPageStore,
    ) -> (r: Result<PrimaryIndex, IndexError>)
        requires
            0 < allocator.next < u64::MAX,
        ensures
            match kept_root(
                match root_value {
                    Some(v) => Some(v@),
                    None => None,
                },
            ) {
                Some(id) => r matches Ok(index) && {
                    &&& index.root_page() == id.0
                    &&& index.pages() == page_store.pages()
                    &&& index.next_page() == allocator.next
                    &&& forall|levels: Map<u64, nat>, h: nat| #[trigger]
                        sound(page_store.pages(), levels, id.0, h, allocator.next) ==> index.wf()
                            && index.height() == h
                },
                None => match r {
                    Ok(index) => {
                        &&& !page_store.pages().contains_key(allocator.next)
                        &&& index.root_page() == allocator.next
                        &&& index.next_page() == allocator.next + 1
                        &&& index.pages() == page_store.pages().insert(
                            allocator.next,
                            fresh_index_page(allocator.next, PageType::IndexLeaf),
                        )
                        &&& index.height() == 0
                        &&& index.values() == Map::<PrimaryKey, PageSlot>::empty()
                        &&& numbered_below(page_store.pages(), allocator.next) ==> index.wf()
                    },
                    Err(e) => page_store.pages().contains_key(allocator.next) && e
                        == (IndexError::CorruptPage {
                        page_id: PageId(allocator.next),
                        reason: IndexFault::AlreadyMapped,
                    }),
                },
            },
    {
        let mut allocator = allocator;
        let mut page_store = page_store;
        let ghost before = page_store.pages();
        match decode_root_value(&root_value) {
            Some(id) => {
                let ghost (levels, height) = choose|levels: Map<u64, nat>, h: nat| #[trigger]
                    sound(before, levels, id.0, h, allocator.next);
                proof {
                    lemma_chosen_height(before, id.0, allocator.next);
                }
                Ok(
                    PrimaryIndex {
                        page_store,
                        allocator,
                        root: id.0,
                        levels: Ghost(levels),
                        height: Ghost(height),
                    },
                )
            },
            None => {
                let fresh = allocator.take_next();
                match page_store.install(fresh, fresh_page_buf(fresh, PageType::IndexLeaf)) {
                    Err(e) => {
                        return Err(e);
                    },
                    Ok(_) => {},
                }
                let index = PrimaryIndex {
                    page_store,
                    allocator,
                    root: fresh.0,
                    levels: Ghost(Map::empty().insert(fresh.0, 0nat)),
                    height: Ghost(0),
                };
                proof {
                    lemma_fresh_pages(fresh.0, 0);
                    assert(index.values() =~= Map::<PrimaryKey, PageSlot>::empty());
                    if numbered_below(before, fresh.0) {
                        assert(numbered_below(index.pages(), index.next_page()));
                    }
                }
                Ok(index)
            },
        }
    }

    /// The root page.
    pub fn root(&self) -> (r: Result<PageId, IndexError>)
        ensures
            r == if self.root_page() != 0 {
                Ok(PageId(self.root_page()))
            } else {
                Err(
                    IndexError::CorruptPage { page_id: PageId(0), reason: IndexFault::NoRoot },
                )
            },
    {
        if self.root != 0 {
            Ok(PageId(self.root))
        } else {
            Err(IndexError::CorruptPage { page_id: PageId(0), reason: IndexFault::NoRoot })
        }
    }

    /// The root page, which is the one that `root_value` names where it is not
    /// known yet. It is known then.
    pub fn load_root(&mut self, root_value: Option<Vec<u8>>) -> (r: Result<PageId, IndexError>)
        ensures
            final(self).pages() == old(self).pages(),
            final(self).next_page() == old(self).next_page(),
            old(self).root_page() != 0 ==> r == Ok::<PageId, IndexError>(
                PageId(old(self).root_page()),
            ) && *final(self) == *old(self),
            old(self).root_page() == 0 ==> match kept_root(
                match root_value {
                    Some(v) => Some(v@),
                    None => None,
                },
            ) {
                Some(id) => {
                    &&& r == Ok::<PageId, IndexError>(id)
                    &&& final(self).root_page() == id.0
                    &&& forall|levels: Map<u64, nat>, h: nat| #[trigger]
                        sound(old(self).pages(), levels, id.0, h, old(self).next_page()) && id.0
                            != 0 ==> final(self).wf() && final(self).height() == h
                },
                None => {
                    &&& r == Err::<PageId, IndexError>(
                        IndexError::CorruptPage {
                            page_id: PageId(0),
                            reason: IndexFault::NoRoot,
                        },
                    )
                    &&& *final(self) == *old(self)
                },
            },
    {
        if self.root != 0 {
            return Ok(PageId(self.root));
        }
        match decode_root_value(&root_value) {
            Some(id) => {
                self.restore_root_cache(id);
                Ok(id)
            },
            None => Err(
                IndexError::CorruptPage { page_id: PageId(0), reason: IndexFault::NoRoot },
            ),
        }
    }

    /// The pages of the index.
    pub fn page_store(&self) -> (s: &PrimaryPageStore)
        ensures
            s.pages() == self.pages(),
    {
        &self.page_store
    }

    /// The pages of the index, to be changed from outside.
    pub fn page_store_mut(&mut self) -> (s: &mut PrimaryPageStore)
        ensures
            s.pages() == old(self).pages(),
            final(self).pages() == final(s).pages(),
            final(self).root_page() == old(self).root_page(),
            final(self).next_page() == old(self).next_page(),
    {
        &mut self.page_store
    }

    /// Goes back to an earlier root page. Where the pages are those of a tree
    /// with this root, the index is sound again.
    pub fn restore_root_cache(&mut self, old_root_id: PageId)
        ensures
            final(self).root_page() == old_root_id.0,
            final(self).pages() == old(self).pages(),
            final(self).next_page() == old(self).next_page(),
            forall|levels: Map<u64, nat>, h: nat| #[trigger]
                sound(old(self).pages(), levels, old_root_id.0, h, old(self).next_page())
                    && old_root_id.0 != 0 ==> final(self).wf() && final(self).height() == h,
    {
        self.root = old_root_id.0;
        proof {
            let (levels, height) = choose|levels: Map<u64, nat>, h: nat| #[trigger]
                sound(self.pages(), levels, old_root_id.0, h, self.next_page());
            self.levels = Ghost(levels);
            self.height = Ghost(height);
            lemma_chosen_height(self.pages(), old_root_id.0, self.next_page());
        }
    }

    /// Whether enough page numbers are left for another write, whatever the
    /// height of the tree.
    pub fn can_write(&self) -> (r: bool)
        ensures
            r == self.has_room_for(1),
            r && self.wf() ==> self.has_room(),
    {
        proof {
            if self.wf() {
                self.lemma_height();
            }
        }
        self.allocator.next < u64::MAX - PAGES_PER_WRITE
    }

    /// Whether enough page numbers are left to load `n` keys, whatever the height
    /// of the tree.
    pub fn can_load(&self, n: usize) -> (r: bool)
        ensures
            r == self.has_room_for(n as int),
    {
        (n as u128) * (PAGES_PER_WRITE as u128) + (self.allocator.next as u128) < u64::MAX as u128
    }

    proof fn lemma_height(self)
        requires
            self.wf(),
        ensures
            self.height() + 2 <= PAGES_PER_WRITE,
    {
        law_height_is_bounded(
            self.pages(),
            self.levels(),
            self.root_page(),
            self.height(),
            self.next_page(),
        );
    }

    /// The system write that keeps the number of the root page.
    pub fn root_record(&self) -> (w: SideChannelWrite)
        ensures
            writes(seq![w])[0] == root_write(self.root_page()),
    {
        root_side_write(self.root)
    }

    /// Where the record of a key lies.
    pub fn lookup(&self, key: PrimaryKey) -> (r: Result<Option<PageSlot>, IndexError>)
        requires
            self.wf() || self.root_page() == 0 || exists|fuel: nat| #[trigger]
                descent(self.pages(), self.root_page(), key, fuel) is Some,
        ensures
            self.root_page() == 0 ==> r == Err::<Option<PageSlot>, IndexError>(
                IndexError::CorruptPage { page_id: PageId(0), reason: IndexFault::NoRoot },
            ),
            self.root_page() != 0 ==> exists|fuel: nat| #[trigger]
                descent(self.pages(), self.root_page(), key, fuel) == Some(r),
            self.wf() ==> r == Ok::<Option<PageSlot>, IndexError>(
                if self.values().contains_key(key) {
                    Some(self.values()[key])
                } else {
                    None
                },
            ),
    {
        let root = match self.root() {
            Err(e) => {
                return Err(e);
            },
            Ok(root) => root,
        };
        let ghost pages = self.pages();
        proof {
            if self.wf() {
                lemma_descent(
                    pages,
                    self.levels(),
                    self.root_page(),
                    self.height(),
                    None,
                    None,
                    key,
                );
            }
        }
        let ghost total = choose|fuel: nat| #[trigger]
            descent(pages, self.root_page(), key, fuel) is Some;
        let ghost want = descent(pages, self.root_page(), key, total);
        proof {
            if self.wf() {
                if total <= self.height() {
                    lemma_descent_fuel(pages, self.root_page(), key, total, self.height());
                } else {
                    lemma_descent_fuel(pages, self.root_page(), key, self.height(), total);
                }
            }
        }
        let mut id = root;
        let ghost mut fuel = total;
        loop
            invariant
                pages == self.pages(),
                descent(pages, id.0, key, fuel) == want,
                want is Some,
                want == descent(pages, self.root_page(), key, total),
                self.root_page() != 0,
                self.wf() ==> want == Some(
                    Ok::<Option<PageSlot>, IndexError>(
                        if self.values().contains_key(key) {
                            Some(self.values()[key])
                        } else {
                            None
                        },
                    ),
                ),
            decreases fuel,
        {
            let bytes = match self.page_store.latch(id) {
                Err(e) => {
                    return Err(e);
                },
                Ok(b) => b,
            };
            let header = match read_header(bytes.as_slice()) {
                Err(e) => {
                    return Err(e);
                },
                Ok(h) => h,
            };
            if header.page_type == PageType::IndexLeaf.as_byte() {
                return match LeafPageRef::open(bytes.as_slice()) {
                    Err(e) => Err(e),
                    Ok(leaf) => leaf.lookup(key),
                };
            }
            if header.page_type != PageType::IndexInternal.as_byte() {
                return Err(
                    IndexError::CorruptPage {
                        page_id: PageId(header.page_id),
                        reason: IndexFault::NotIndexPage { got: header.page_type },
                    },
                );
            }
            let node = match InternalPageRef::open(bytes.as_slice()) {
                Err(e) => {
                    return Err(e);
                },
                Ok(node) => node,
            };
            match node.find_child(key) {
                Err(e) => {
                    return Err(e);
                },
                Ok(child) => {
                    id = child;
                    proof {
                        fuel = (fuel - 1) as nat;
                    }
                },
            }
        }
    }
}

proof fn lemma_emits_push(s: Seq<StagedEmit>, e: StagedEmit)
    ensures
        emits(s.push(e)) == emits(s).push((e.page_id.0, e.bytes@)),
{
    assert(emits(s.push(e)) =~= emits(s).push((e.page_id.0, e.bytes@)));
}

/// Stages a copy of a page for the log.
fn stage_emit(staged: &mut Vec<StagedEmit>, page_id: PageId, bytes: &[u8])
    ensures
        emits(final(staged)@) == emits(old(staged)@).push((page_id.0, bytes@)),
{
    let copy = copy_range(bytes, 0, bytes.len());
    assert(copy@ =~= bytes@);
    let emit = StagedEmit { page_id, bytes: copy };
    proof {
        lemma_emits_push(staged@, emit);
    }
    staged.push(emit);
}

impl PrimaryIndex {
    /// The page is replaced and staged for the log.
    fn change_page(&mut self, id: PageId, bytes: Vec<u8>, staged: &mut Vec<StagedEmit>)
        requires
            bytes@.len() == PAGE_SIZE,
        ensures
            final(self).pages() == old(self).pages().insert(id.0, bytes@),
            final(self).next_page() == old(self).next_page(),
            final(self).root_page() == old(self).root_page(),
            final(self).levels() == old(self).levels(),
            final(self).height() == old(self).height(),
            emits(final(staged)@) == emits(old(staged)@).push((id.0, bytes@)),
    {
        stage_emit(staged, id, bytes.as_slice());
        match self.page_store.install_or_replace(id, bytes) {
            Err(_) => {},
            Ok(_) => {},
        }
    }

    /// A page that was split is replaced by its lower half, and the upper half
    /// becomes a new page. Both are staged for the log, the new one first.
    fn divide_page(
        &mut self,
        id: PageId,
        new_id: PageId,
        low: Vec<u8>,
        high: Vec<u8>,
        staged: &mut Vec<StagedEmit>,
        log: &mut TxnMutationLog,
    ) -> (r: Result<(), IndexError>)
        requires
            !old(self).pages().contains_key(new_id.0),
            old(self).pages().contains_key(id.0),
            low@.len() == PAGE_SIZE,
            high@.len() == PAGE_SIZE,
        ensures
            r is Ok,
            final(self).pages() == old(self).pages().insert(id.0, low@).insert(new_id.0, high@),
            final(self).next_page() == old(self).next_page(),
            final(self).root_page() == old(self).root_page(),
            final(self).levels() == old(self).levels(),
            final(self).height() == old(self).height(),
            emits(final(staged)@) == emits(old(staged)@).push((new_id.0, high@)).push(
                (id.0, low@),
            ),
            final(log)@ == log_fresh(old(log)@, PageStoreKind::Primary, new_id.0),
    {
        stage_emit(staged, new_id, high.as_slice());
        stage_emit(staged, id, low.as_slice());
        match self.page_store.install_or_replace(id, low) {
            Err(e) => {
                return Err(e);
            },
            Ok(_) => {},
        }
        self.page_store.install_for_txn(log, new_id, high)
    }

    /// Splits a full leaf and puts a new entry into the half it belongs to.
    fn split_leaf_page(
        &mut self,
        id: PageId,
        bytes: Vec<u8>,
        key: PrimaryKey,
        value: PageSlot,
        staged: &mut Vec<StagedEmit>,
        log: &mut TxnMutationLog,
    ) -> (r: Result<SplitInfo, IndexError>)
        requires
            old(self).pages().contains_key(id.0),
            bytes@ == old(self).pages()[id.0],
            leaf_sorted(bytes@),
            count_of(bytes@) >= LEAF_CAPACITY,
            entry_for(entries(bytes@), key) is None,
            old(self).next_page() < u64::MAX,
            numbered_below(old(self).pages(), old(self).next_page()),
        ensures
            ({
                let s = old(self).state(emits(old(staged)@), old(log)@);
                let (t, split) = split_leaf(s, id.0, key, value);
                &&& final(self).state(emits(final(staged)@), final(log)@) == t
                &&& r == Ok::<SplitInfo, IndexError>(split)
            }),
            final(self).root_page() == old(self).root_page(),
            final(self).levels() == old(self).levels(),
            final(self).height() == old(self).height(),
    {
        let ghost b = bytes@;
        let ghost s = self.state(emits(staged@), log@);
        let mut bytes = bytes;
        let new_id = self.allocator.take_next();
        proof {
            lemma_leaf_halves(b, new_id.0);
            lemma_leaf_key(leaf_high(b, new_id.0), 0);
            let e = entries(b);
            let m = count_of(b) as int / 2;
            let low = leaf_low(b);
            let high = leaf_high(b, new_id.0);
            lemma_entries_halves(e, m);
            assert(leaf_rows(high)[0][8] <= 1);
            assert(leaf_sorted(low) && leaf_sorted(high));
            lemma_leaf_find(low, key);
            lemma_leaf_find(high, key);
            lemma_entry_for(entries(low), key);
            lemma_entry_for(entries(high), key);
            assert(entries(high)[0] == e[m]);
            assert(entry_for(e, key) is None);
            assert(key_lt(key, e[m].key) ==> entry_for(entries(low), key) is None);
            assert(!key_lt(key, e[m].key) ==> entry_for(entries(high), key) is None);
        }
        let mut leaf = match LeafPageMut::open(bytes.as_mut_slice()) {
            Err(e) => {
                return Err(e);
            },
            Ok(leaf) => leaf,
        };
        let (mut high, promoted_key) = match leaf.split_into(new_id) {
            Err(e) => {
                return Err(e);
            },
            Ok(halves) => halves,
        };
        if key.precedes(promoted_key) {
            match leaf.insert(key, value) {
                Err(e) => {
                    return Err(e);
                },
                Ok(_) => {},
            }
        } else {
            let mut right = match LeafPageMut::open(high.as_mut_slice()) {
                Err(e) => {
                    return Err(e);
                },
                Ok(right) => right,
            };
            match right.insert(key, value) {
                Err(e) => {
                    return Err(e);
                },
                Ok(_) => {},
            }
        }
        match self.divide_page(id, new_id, bytes, high, staged, log) {
            Err(e) => {
                return Err(e);
            },
            Ok(_) => {},
        }
        proof {
            assert(self.state(emits(staged@), log@) =~= split_leaf(s, id.0, key, value).0);
        }
        Ok(SplitInfo { promoted_key, new_right_page: new_id })
    }

    /// A write at a leaf. The leaf is noted first. A key that the leaf holds is
    /// written in place; only a new key can split the leaf.
    fn apply_leaf_op(
        &mut self,
        id: PageId,
        key: PrimaryKey,
        op: WriteOp,
        staged: &mut Vec<StagedEmit>,
        log: &mut TxnMutationLog,
    ) -> (r: Written)
        requires
            old(self).pages().contains_key(id.0),
            leaf_sorted(old(self).pages()[id.0]),
            old(self).next_page() < u64::MAX,
            numbered_below(old(self).pages(), old(self).next_page()),
        ensures
            ({
                let s = old(self).state(emits(old(staged)@), old(log)@);
                let (t, out) = leaf_step(s, id.0, key, op);
                &&& final(self).state(emits(final(staged)@), final(log)@) == t
                &&& r == out
            }),
            final(self).root_page() == old(self).root_page(),
            final(self).levels() == old(self).levels(),
            final(self).height() == old(self).height(),
    {
        let ghost s = self.state(emits(staged@), log@);
        let mut bytes = match self.page_store.latch(id) {
            Err(e) => {
                return Err(e);
            },
            Ok(b) => b,
        };
        let ghost b = bytes@;
        proof {
            lemma_leaf_find(b, key);
            lemma_entry_for(entries(b), key);
            let p = rank(keys_of(entries(b)), key);
            if p < count_of(b) {
                lemma_leaf_key(b, p);
            }
        }
        self.page_store.capture_from_guard(log, id, bytes.as_slice());
        let ghost noted_state = noted(s, id.0);
        assert(self.state(emits(staged@), log@) =~= noted_state);
        let mut leaf = match LeafPageMut::open(bytes.as_mut_slice()) {
            Err(e) => {
                return Err(e);
            },
            Ok(leaf) => leaf,
        };
        let previous = match op {
            WriteOp::Insert(value) => {
                let in_place = match leaf.as_ref().contains_including_tombstoned(key) {
                    Err(e) => {
                        return Err(e);
                    },
                    Ok(found) => found || !leaf.is_full(),
                };
                if !in_place {
                    return match self.split_leaf_page(id, bytes, key, value, staged, log) {
                        Err(e) => Err(e),
                        Ok(split) => Ok((None, Some(split))),
                    };
                }
                match leaf.insert(key, value) {
                    Err(e) => {
                        return Err(e);
                    },
                    Ok(_) => None,
                }
            },
            WriteOp::Upsert(value) => {
                let in_place = match leaf.as_ref().contains_including_tombstoned(key) {
                    Err(e) => {
                        return Err(e);
                    },
                    Ok(found) => found || !leaf.is_full(),
                };
                if !in_place {
                    return match self.split_leaf_page(id, bytes, key, value, staged, log) {
                        Err(e) => Err(e),
                        Ok(split) => Ok((None, Some(split))),
                    };
                }
                match leaf.upsert(key, value) {
                    Err(e) => {
                        return Err(e);
                    },
                    Ok(previous) => previous,
                }
            },
            WriteOp::Remove => match leaf.remove(key) {
                Err(e) => {
                    return Err(e);
                },
                Ok(previous) => previous,
            },
        };
        self.change_page(id, bytes, staged);
        proof {
            assert(self.state(emits(staged@), log@) =~= leaf_step(s, id.0, key, op).0);
        }
        Ok((previous, None))
    }
}

impl PrimaryIndex {
    /// An inner page takes in the split of a child. It is noted first, and
    /// split itself where it is full.
    fn apply_internal_insert(
        &mut self,
        id: PageId,
        incoming: SplitInfo,
        staged: &mut Vec<StagedEmit>,
        log: &mut TxnMutationLog,
    ) -> (r: Result<Option<SplitInfo>, IndexError>)
        requires
            old(self).pages().contains_key(id.0),
            node_sorted(old(self).pages()[id.0]),
            forall|i: int|
                0 <= i < pairs(old(self).pages()[id.0]).len() ==> (#[trigger] pairs(
                    old(self).pages()[id.0],
                )[i]).0 != incoming.promoted_key,
            old(self).next_page() < u64::MAX,
            numbered_below(old(self).pages(), old(self).next_page()),
        ensures
            ({
                let s = old(self).state(emits(old(staged)@), old(log)@);
                let (t, up) = node_step(s, id.0, incoming);
                &&& final(self).state(emits(final(staged)@), final(log)@) == t
                &&& r == Ok::<Option<SplitInfo>, IndexError>(up)
            }),
            final(self).root_page() == old(self).root_page(),
            final(self).levels() == old(self).levels(),
            final(self).height() == old(self).height(),
    {
        let ghost s = self.state(emits(staged@), log@);
        let mut bytes = match self.page_store.latch(id) {
            Err(e) => {
                return Err(e);
            },
            Ok(b) => b,
        };
        let ghost b = bytes@;
        self.page_store.capture_from_guard(log, id, bytes.as_slice());
        let mut node = match InternalPageMut::open(bytes.as_mut_slice()) {
            Err(e) => {
                return Err(e);
            },
            Ok(node) => node,
        };
        if !node.is_full() {
            proof {
                lemma_node_scan(b, incoming.promoted_key);
            }
            match node.insert(incoming.promoted_key, incoming.new_right_page) {
                Err(e) => {
                    return Err(e);
                },
                Ok(_) => {},
            }
            self.change_page(id, bytes, staged);
            proof {
                assert(self.state(emits(staged@), log@) =~= node_step(s, id.0, incoming).0);
            }
            return Ok(None);
        }
        let new_id = self.allocator.take_next();
        proof {
            let m = count_of(b) as int / 2;
            let low = node_low(b);
            let high = node_high(b, new_id.0);
            lemma_node_halves(b, new_id.0);
            lemma_node_key(b, m);
            assert(node_rows(b)[m][8] <= 1);
            lemma_parts_sorted(pairs(b), m);
            assert(node_sorted(low) && node_sorted(high));
            assert forall|i: int| 0 <= i < pairs(low).len() implies (#[trigger] pairs(low)[i]).0
                != incoming.promoted_key by {
                assert(pairs(low)[i] == pairs(b)[i]);
            }
            assert forall|i: int| 0 <= i < pairs(high).len() implies (#[trigger] pairs(high)[i]).0
                != incoming.promoted_key by {
                assert(pairs(high)[i] == pairs(b)[i + m + 1]);
            }
            lemma_node_scan(low, incoming.promoted_key);
            lemma_node_scan(high, incoming.promoted_key);
        }
        let (mut high, promoted_key) = match node.split_into(new_id) {
            Err(e) => {
                return Err(e);
            },
            Ok(halves) => halves,
        };
        if incoming.promoted_key.precedes(promoted_key) {
            match node.insert(incoming.promoted_key, incoming.new_right_page) {
                Err(e) => {
                    return Err(e);
                },
                Ok(_) => {},
            }
        } else {
            let mut right = match InternalPageMut::open(high.as_mut_slice()) {
                Err(e) => {
                    return Err(e);
                },
                Ok(right) => right,
            };
            match right.insert(incoming.promoted_key, incoming.new_right_page) {
                Err(e) => {
                    return Err(e);
                },
                Ok(_) => {},
            }
        }
        match self.divide_page(id, new_id, bytes, high, staged, log) {
            Err(e) => {
                return Err(e);
            },
            Ok(_) => {},
        }
        proof {
            assert(self.state(emits(staged@), log@) =~= node_step(s, id.0, incoming).0);
        }
        Ok(Some(SplitInfo { promoted_key, new_right_page: new_id }))
    }

    /// A write below a page: down to the leaf of the key, and back up as far as
    /// pages were split.
    fn write_below(
        &mut self,
        id: PageId,
        Ghost(blocked): Ghost<bool>,
        Ghost(h): Ghost<nat>,
        Ghost(lo): Ghost<Option<PrimaryKey>>,
        Ghost(hi): Ghost<Option<PrimaryKey>>,
        key: PrimaryKey,
        op: WriteOp,
        staged: &mut Vec<StagedEmit>,
        log: &mut TxnMutationLog,
    ) -> (r: Written)
        requires
            blocked ==> way_down(old(self).pages(), id.0, key, h) matches Some(Err(_)),
            !blocked ==> {
                &&& tree(old(self).pages(), old(self).levels(), id.0, h, lo, hi)
                &&& numbered_below(old(self).pages(), old(self).next_page())
                &&& old(self).next_page() + h < u64::MAX
                &&& in_range(key, lo, hi)
            },
        ensures
            blocked ==> {
                &&& r matches Err(e) && way_down(old(self).pages(), id.0, key, h) == Some(
                    Err::<(), IndexError>(e),
                )
                &&& *final(self) == *old(self)
                &&& final(staged)@ == old(staged)@
                &&& final(log)@ == old(log)@
            },
            !blocked ==> {
                let s = old(self).state(emits(old(staged)@), old(log)@);
                let (t, out) = write_step(s, id.0, h, key, op);
                &&& final(self).state(emits(final(staged)@), final(log)@) == t
                &&& r == out
            },
            final(self).root_page() == old(self).root_page(),
            final(self).levels() == old(self).levels(),
            final(self).height() == old(self).height(),
        decreases h,
    {
        let ghost s = self.state(emits(staged@), log@);
        let bytes = match self.page_store.latch(id) {
            Err(e) => {
                return Err(e);
            },
            Ok(b) => b,
        };
        let header = match read_header(bytes.as_slice()) {
            Err(e) => {
                return Err(e);
            },
            Ok(header) => header,
        };
        if header.page_type == PageType::IndexLeaf.as_byte() {
            return self.apply_leaf_op(id, key, op, staged, log);
        }
        if header.page_type != PageType::IndexInternal.as_byte() {
            return Err(
                IndexError::CorruptPage {
                    page_id: id,
                    reason: IndexFault::NotIndexPage { got: header.page_type },
                },
            );
        }
        proof {
            if !blocked {
                lemma_parent(s, self.levels(), id.0, h, lo, hi, key, op);
                lemma_find_child(bytes@, key);
            }
        }
        let child = match InternalPageRef::open(bytes.as_slice()) {
            Err(e) => {
                return Err(e);
            },
            Ok(node) => match node.find_child(key) {
                Err(e) => {
                    return Err(e);
                },
                Ok(child) => child,
            },
        };
        let ghost ps = pairs(bytes@);
        let ghost j = rank_le(seps_of(ps), key);
        let below = self.write_below(
            child,
            Ghost(blocked),
            Ghost((h - 1) as nat),
            Ghost(kid_lo(ps, j, lo)),
            Ghost(kid_hi(ps, j, hi)),
            key,
            op,
            staged,
            log,
        );
        match below {
            Err(e) => Err(e),
            Ok((previous, None)) => Ok((previous, None)),
            Ok((previous, Some(split))) => {
                match self.apply_internal_insert(id, split, staged, log) {
                    Err(e) => Err(e),
                    Ok(up) => Ok((previous, up)),
                }
            },
        }
    }

    /// Puts a new root above the old one and the page that was split off it.
    fn grow_root(
        &mut self,
        split: SplitInfo,
        staged: &mut Vec<StagedEmit>,
        sc_writes: &mut Vec<SideChannelWrite>,
        log: &mut TxnMutationLog,
    ) -> (r: Result<(), IndexError>)
        requires
            old(self).next_page() < u64::MAX,
            numbered_below(old(self).pages(), old(self).next_page()),
        ensures
            ({
                let s = old(self).state(emits(old(staged)@), old(log)@);
                final(self).state(emits(final(staged)@), final(log)@) == root_step(
                    s,
                    old(self).root_page(),
                    split,
                )
            }),
            r is Ok,
            final(self).root_page() == old(self).next_page(),
            final(self).levels() == old(self).levels(),
            final(self).height() == old(self).height(),
            writes(final(sc_writes)@) == writes(old(sc_writes)@).push(
                root_write(old(self).next_page()),
            ),
    {
        let ghost s = self.state(emits(staged@), log@);
        let old_root = PageId(self.root);
        let new_id = self.allocator.take_next();
        let mut bytes = fresh_page_buf(new_id, PageType::IndexInternal);
        proof {
            lemma_fresh_pages(new_id.0, old_root.0);
            lemma_init_is_fresh(new_id.0, old_root.0);
            lemma_node_scan(fresh_node(new_id.0, old_root.0), split.promoted_key);
        }
        let mut node = InternalPageMut::init(bytes.as_mut_slice(), new_id, old_root);
        match node.insert(split.promoted_key, split.new_right_page) {
            Err(e) => {
                return Err(e);
            },
            Ok(_) => {},
        }
        log.note_root(IndexHandle::primary(), old_root);
        stage_emit(staged, new_id, bytes.as_slice());
        match self.page_store.install_for_txn(log, new_id, bytes) {
            Err(e) => {
                return Err(e);
            },
            Ok(_) => {},
        }
        self.root = new_id.0;
        let write = root_side_write(new_id.0);
        proof {
            let before = sc_writes@;
            assert(writes(before.push(write)) =~= writes(before).push(writes(seq![write])[0]));
            assert(self.state(emits(staged@), log@) =~= root_step(s, old_root.0, split));
        }
        sc_writes.push(write);
        Ok(())
    }
}

/// What a write does to the index: the pages, the root, the notes, the pages
/// to be logged, the system writes, and the result, all as the model says.
pub open spec fn index_wrote(
    before: PrimaryIndex,
    log_before: LogModel,
    writes_before: Seq<(u64, u64, Option<Seq<u8>>)>,
    key: PrimaryKey,
    op: WriteOp,
    after: PrimaryIndex,
    log_after: LogModel,
    writes_after: Seq<(u64, u64, Option<Seq<u8>>)>,
    r: Result<(Option<PageSlot>, Seq<(u64, Seq<u8>)>), IndexError>,
) -> bool {
    let s = before.state(Seq::empty(), log_before);
    let (t, root, out) = index_step(s, before.root_page(), before.height(), key, op);
    &&& after.pages() == t.pages
    &&& after.next_page() == t.next
    &&& after.root_page() == root
    &&& after.height() == height_after(s, before.root_page(), before.height(), key, op)
    &&& log_after == t.log
    &&& writes_after == if root == before.root_page() {
        writes_before
    } else {
        writes_before.push(root_write(root))
    }
    &&& match r {
        Ok((previous, staged)) => out == Ok::<Option<PageSlot>, IndexError>(previous) && staged
            == t.staged,
        Err(e) => out == Err::<Option<PageSlot>, IndexError>(e),
    }
}

/// What the index says after a write.
pub open spec fn values_after(
    values: Map<PrimaryKey, PageSlot>,
    key: PrimaryKey,
    op: WriteOp,
) -> Map<PrimaryKey, PageSlot> {
    match op {
        WriteOp::Insert(v) => if values.contains_key(key) {
            values
        } else {
            values.insert(key, v)
        },
        WriteOp::Upsert(v) => values.insert(key, v),
        WriteOp::Remove => values.remove(key),
    }
}

/// The value of a key.
pub open spec fn value_of(values: Map<PrimaryKey, PageSlot>, key: PrimaryKey) -> Option<PageSlot> {
    if values.contains_key(key) {
        Some(values[key])
    } else {
        None
    }
}

/// A root that is not known, or whose page is missing.
pub open spec fn root_fault(index: PrimaryIndex) -> Option<IndexError> {
    if index.root_page() == 0 {
        Some(IndexError::CorruptPage { page_id: PageId(0), reason: IndexFault::NoRoot })
    } else if !index.pages().contains_key(index.root_page()) {
        Some(IndexError::MissingPage(PageId(index.root_page())))
    } else {
        None
    }
}

/// What a write meets on the way from the page `id` down to the leaf of a key,
/// at most `fuel` levels: nothing, or what went wrong; `None` where the way does
/// not end or a page claims more entries than fit on it.
pub open spec fn way_down(pages: Map<u64, Seq<u8>>, id: u64, key: PrimaryKey, fuel: nat) -> Option<
    Result<(), IndexError>,
>
    decreases fuel,
{
    let b = pages[id];
    if !pages.contains_key(id) {
        Some(Err(IndexError::MissingPage(PageId(id))))
    } else if b.len() != PAGE_SIZE {
        None
    } else {
        match decode_header(b) {
            Err(e) => Some(Err(IndexError::Core(e))),
            Ok(h) => if h.page_type == page_type_byte(PageType::IndexLeaf) {
                Some(Ok(()))
            } else if h.page_type == page_type_byte(PageType::IndexInternal) {
                if h.slot_count > INTERNAL_CAPACITY {
                    None
                } else {
                    match find_child_result(b, key) {
                        Err(e) => Some(Err(e)),
                        Ok(child) => if fuel == 0 {
                            None
                        } else {
                            way_down(pages, child.0, key, (fuel - 1) as nat)
                        },
                    }
                }
            } else {
                Some(
                    Err(
                        IndexError::CorruptPage {
                            page_id: PageId(id),
                            reason: IndexFault::NotIndexPage { got: h.page_type },
                        },
                    ),
                )
            },
        }
    }
}

/// Why a write cannot reach the leaf of its key: the root is not known, or a
/// page on the way is missing or damaged.
pub open spec fn write_fault(index: PrimaryIndex, key: PrimaryKey) -> Option<IndexError> {
    if index.root_page() == 0 {
        Some(IndexError::CorruptPage { page_id: PageId(0), reason: IndexFault::NoRoot })
    } else {
        let fuel = choose|fuel: nat| #[trigger]
            way_down(index.pages(), index.root_page(), key, fuel) is Some;
        match way_down(index.pages(), index.root_page(), key, fuel) {
            Some(Err(e)) => Some(e),
            _ => None,
        }
    }
}

proof fn lemma_way_down(
    pages: Map<u64, Seq<u8>>,
    levels: Map<u64, nat>,
    id: u64,
    h: nat,
    lo: Option<PrimaryKey>,
    hi: Option<PrimaryKey>,
    key: PrimaryKey,
    fuel: nat,
)
    requires
        tree(pages, levels, id, h, lo, hi),
        way_down(pages, id, key, fuel) is Some,
    ensures
        way_down(pages, id, key, fuel) == Some(Ok::<(), IndexError>(())),
    decreases h,
{
    let b = pages[id];
    if h > 0 {
        lemma_find_child(b, key);
        lemma_node_find(b, key);
        let j = rank_le(seps_of(pairs(b)), key);
        lemma_way_down(
            pages,
            levels,
            kid(b, j),
            (h - 1) as nat,
            kid_lo(pairs(b), j, lo),
            kid_hi(pairs(b), j, hi),
            key,
            (fuel - 1) as nat,
        );
    }
}

/// In a sound index every write reaches the leaf of its key.
pub proof fn law_writes_reach_their_leaf(index: PrimaryIndex, key: PrimaryKey)
    requires
        index.wf(),
    ensures
        write_fault(index, key) is None,
{
    let fuel = choose|fuel: nat| #[trigger]
        way_down(index.pages(), index.root_page(), key, fuel) is Some;
    if way_down(index.pages(), index.root_page(), key, fuel) is Some {
        lemma_way_down(
            index.pages(),
            index.levels(),
            index.root_page(),
            index.height(),
            None,
            None,
            key,
            fuel,
        );
    }
}

/// A way down that ends says the same with more fuel.
pub proof fn lemma_way_fuel(pages: Map<u64, Seq<u8>>, id: u64, key: PrimaryKey, a: nat, b: nat)
    requires
        way_down(pages, id, key, a) is Some,
        a <= b,
    ensures
        way_down(pages, id, key, b) == way_down(pages, id, key, a),
    decreases a,
{
    let page = pages[id];
    if pages.contains_key(id) && page.len() == PAGE_SIZE && decode_header(page) is Ok
        && decode_header(page)->Ok_0.page_type == page_type_byte(PageType::IndexInternal)
        && find_child_result(page, key) is Ok && a > 0 {
        lemma_way_fuel(
            pages,
            find_child_result(page, key)->Ok_0.0,
            key,
            (a - 1) as nat,
            (b - 1) as nat,
        );
    }
}

impl PrimaryIndex {
    /// Whether the pages form a tree below the root, and all of them have numbers
    /// below the next one. Pages that come from elsewhere, as those of a recovered
    /// index do, are checked before the index is read and written.
    pub fn check_pages(&mut self) -> (r: bool)
        ensures
            r == (old(self).root_page() != 0 && exists|levels: Map<u64, nat>, h: nat| #[trigger]
                sound(old(self).pages(), levels, old(self).root_page(), h, old(self).next_page())),
            r ==> final(self).wf(),
            final(self).pages() == old(self).pages(),
            final(self).root_page() == old(self).root_page(),
            final(self).next_page() == old(self).next_page(),
            old(self).wf() ==> final(self).values() == old(self).values() && final(self).height()
                == old(self).height(),
    {
        if self.root == 0 {
            return false;
        }
        let numbers = self.page_store.page_numbers();
        let mut i: usize = 0;
        while i < numbers.len()
            invariant
                i <= numbers@.len(),
                forall|j: int| 0 <= j < i ==> #[trigger] numbers@[j] < self.next_page(),
                forall|j: int|
                    0 <= j < numbers@.len() ==> self.pages().contains_key(#[trigger] numbers@[j]),
            decreases numbers@.len() - i,
        {
            if numbers[i] >= self.allocator.next {
                assert(!numbered_below(self.pages(), self.next_page())) by {
                    assert(self.pages().contains_key(numbers@[i as int]));
                }
                return false;
            }
            i += 1;
        }
        assert(numbered_below(self.pages(), self.next_page())) by {
            assert forall|m: u64| #[trigger] self.pages().contains_key(m) implies m
                < self.next_page() by {
                let j = choose|j: int| 0 <= j < numbers@.len() && numbers@[j] == m;
                assert(numbers@[j] < self.next_page());
            }
        }
        let ghost pages = self.page_store.pages();
        let ghost root = self.root;
        let ghost next = self.next_page();
        let found = tree_height(&self.page_store, self.root);
        match found {
            None => {
                proof {
                    assert forall|levels: Map<u64, nat>, h: nat| !#[trigger] sound(
                        pages,
                        levels,
                        root,
                        h,
                        next,
                    ) by {
                        law_pages_decide_the_tree(pages, root, h);
                        assert(!tree_at(pages, root, h, None, None));
                        assert(!tree(pages, levels, root, h, None, None));
                    }
                }
                false
            },
            Some(height) => {
                proof {
                    law_pages_decide_the_tree(pages, root, height as nat);
                    let levels = choose|levels: Map<u64, nat>| #[trigger]
                        tree(pages, levels, root, height as nat, None, None);
                    assert(sound(pages, levels, root, height as nat, next));
                    if self.wf() {
                        law_pages_decide_the_height(
                            pages,
                            self.levels(),
                            levels,
                            root,
                            self.height(),
                            height as nat,
                            (None, None),
                            (None, None),
                        );
                    }
                    self.levels = Ghost(levels);
                    self.height = Ghost(height as nat);
                }
                true
            },
        }
    }

    /// Where the record of a key lies, whatever the pages hold. `None` where the
    /// way down passes as many pages as there are without an end, or meets a page
    /// that claims more entries than fit on it.
    pub fn try_lookup(&self, key: PrimaryKey) -> (r: Option<Result<Option<PageSlot>, IndexError>>)
        ensures
            r == if self.root_page() == 0 {
                Some(
                    Err(
                        IndexError::CorruptPage {
                            page_id: PageId(0),
                            reason: IndexFault::NoRoot,
                        },
                    ),
                )
            } else {
                descent(self.pages(), self.root_page(), key, self.pages().len())
            },
    {
        let mut id = match self.root() {
            Err(e) => {
                return Some(Err(e));
            },
            Ok(root) => root,
        };
        let ghost pages = self.pages();
        let mut left: usize = self.page_store.len();
        loop
            invariant
                pages == self.pages(),
                descent(pages, id.0, key, left as nat) == descent(
                    pages,
                    self.root_page(),
                    key,
                    pages.len(),
                ),
                self.root_page() != 0,
            decreases left,
        {
            let bytes = match self.page_store.latch(id) {
                Err(e) => {
                    return Some(Err(e));
                },
                Ok(b) => b,
            };
            let header = match read_header(bytes.as_slice()) {
                Err(e) => {
                    return Some(Err(e));
                },
                Ok(h) => h,
            };
            if header.page_type == PageType::IndexLeaf.as_byte() {
                if header.slot_count > LEAF_CAPACITY {
                    return None;
                }
                return Some(
                    match LeafPageRef::open(bytes.as_slice()) {
                        Err(e) => Err(e),
                        Ok(leaf) => leaf.lookup(key),
                    },
                );
            }
            if header.page_type != PageType::IndexInternal.as_byte() {
                return Some(
                    Err(
                        IndexError::CorruptPage {
                            page_id: PageId(header.page_id),
                            reason: IndexFault::NotIndexPage { got: header.page_type },
                        },
                    ),
                );
            }
            if header.slot_count > INTERNAL_CAPACITY {
                return None;
            }
            let node = match InternalPageRef::open(bytes.as_slice()) {
                Err(e) => {
                    return Some(Err(e));
                },
                Ok(node) => node,
            };
            match node.find_child(key) {
                Err(e) => {
                    return Some(Err(e));
                },
                Ok(child) => {
                    if left == 0 {
                        return None;
                    }
                    id = child;
                    left -= 1;
                },
            }
        }
    }

    /// What a write to a key meets on its way down, whatever the pages hold: it
    /// reaches a leaf, or fails. `None` where the way down passes as many pages
    /// as there are without an end, or meets a page that claims more entries than
    /// fit on it.
    pub fn check_way(&self, key: PrimaryKey) -> (r: Option<Result<(), IndexError>>)
        ensures
            self.root_page() != 0 ==> r == way_down(
                self.pages(),
                self.root_page(),
                key,
                self.pages().len(),
            ),
            match r {
                Some(Err(e)) => write_fault(*self, key) == Some(e),
                Some(Ok(_)) => write_fault(*self, key) is None,
                None => self.root_page() != 0,
            },
    {
        let mut id = match self.root() {
            Err(e) => {
                return Some(Err(e));
            },
            Ok(root) => root,
        };
        let ghost pages = self.pages();
        let ghost start = self.root_page();
        proof {
            let fuel = choose|fuel: nat| #[trigger] way_down(pages, start, key, fuel) is Some;
            if way_down(pages, start, key, pages.len()) is Some {
                assert(way_down(pages, start, key, fuel) is Some);
                if fuel <= pages.len() {
                    lemma_way_fuel(pages, start, key, fuel, pages.len());
                } else {
                    lemma_way_fuel(pages, start, key, pages.len(), fuel);
                }
            }
        }
        let mut left: usize = self.page_store.len();
        loop
            invariant
                pages == self.pages(),
                start == self.root_page(),
                start != 0,
                way_down(pages, id.0, key, left as nat) == way_down(
                    pages,
                    start,
                    key,
                    pages.len(),
                ),
                match way_down(pages, start, key, pages.len()) {
                    Some(Err(e)) => write_fault(*self, key) == Some(e),
                    Some(Ok(_)) => write_fault(*self, key) is None,
                    None => true,
                },
            decreases left,
        {
            let bytes = match self.page_store.latch(id) {
                Err(e) => {
                    return Some(Err(e));
                },
                Ok(b) => b,
            };
            let header = match read_header(bytes.as_slice()) {
                Err(e) => {
                    return Some(Err(e));
                },
                Ok(h) => h,
            };
            if header.page_type == PageType::IndexLeaf.as_byte() {
                return Some(Ok(()));
            }
            if header.page_type != PageType::IndexInternal.as_byte() {
                return Some(
                    Err(
                        IndexError::CorruptPage {
                            page_id: id,
                            reason: IndexFault::NotIndexPage { got: header.page_type },
                        },
                    ),
                );
            }
            if header.slot_count > INTERNAL_CAPACITY {
                return None;
            }
            let node = match InternalPageRef::open(bytes.as_slice()) {
                Err(e) => {
                    return Some(Err(e));
                },
                Ok(node) => node,
            };
            match node.find_child(key) {
                Err(e) => {
                    return Some(Err(e));
                },
                Ok(child) => {
                    if left == 0 {
                        return None;
                    }
                    id = child;
                    left -= 1;
                },
            }
        }
    }
}

impl PrimaryIndex {
    /// A write whose pages are to be logged with a commit: it gives the pages,
    /// adds the system write for a new root, and notes how to undo it all.
    pub fn write_deferred(
        &mut self,
        key: PrimaryKey,
        op: WriteOp,
        sc_writes: &mut Vec<SideChannelWrite>,
        log: &mut TxnMutationLog,
    ) -> (r: Result<(WriteResult, Vec<StagedEmit>), IndexError>)
        requires
            write_fault(*old(self), key) is Some || (old(self).wf() && old(self).has_room()),
        ensures
            write_fault(*old(self), key) matches Some(e) ==> {
                &&& r == Err::<(WriteResult, Vec<StagedEmit>), IndexError>(e)
                &&& *final(self) == *old(self)
                &&& final(log)@ == old(log)@
                &&& writes(final(sc_writes)@) == writes(old(sc_writes)@)
            },
            old(self).wf() && old(self).has_room() ==> {
                &&& index_wrote(
                    *old(self),
                    old(log)@,
                    writes(old(sc_writes)@),
                    key,
                    op,
                    *final(self),
                    final(log)@,
                    writes(final(sc_writes)@),
                    match r {
                        Ok((w, staged)) => Ok((w.previous, emits(staged@))),
                        Err(e) => Err(e),
                    },
                )
                &&& final(self).wf()
                &&& final(self).values() == values_after(old(self).values(), key, op)
                &&& final(self).height() <= old(self).height() + 1
                &&& final(self).next_page() <= old(self).next_page() + old(self).height() + 2
                &&& r is Err <==> (op is Insert && old(self).values().contains_key(key))
                &&& r matches Err(e) ==> e == IndexError::DuplicateKey { key }
                &&& r matches Ok((w, _)) ==> w.previous == value_of(old(self).values(), key)
                    && w.existed == (w.previous is Some)
            },
    {
        let ghost before = *self;
        let ghost s = self.state(Seq::empty(), log@);
        let ghost h = self.height();
        let root = match self.root() {
            Err(e) => {
                return Err(e);
            },
            Ok(root) => root,
        };
        let ghost blocked = write_fault(*self, key) is Some;
        let ghost depth = if blocked {
            choose|fuel: nat| #[trigger]
                way_down(self.pages(), self.root_page(), key, fuel) is Some
        } else {
            h
        };
        let mut staged: Vec<StagedEmit> = Vec::new();
        proof {
            assert(emits(staged@) =~= Seq::<(u64, Seq<u8>)>::empty());
            if self.wf() {
                law_writes_reach_their_leaf(*self, key);
            }
            if !blocked {
                law_write_is_a_map_update(s, self.levels(), root.0, h, key, op);
                lemma_write(s, self.levels(), root.0, h, None, None, key, op);
            }
        }
        let below = self.write_below(
            root,
            Ghost(blocked),
            Ghost(depth),
            Ghost(None),
            Ghost(None),
            key,
            op,
            &mut staged,
            log,
        );
        let ghost mid = self.state(emits(staged@), log@);
        proof {
            if !blocked {
                assert(numbered_below(mid.pages, mid.next)) by {
                    assert forall|m: u64| #[trigger] mid.pages.contains_key(m) implies m
                        < mid.next by {
                        if s.pages.contains_key(m) {
                            assert(m < s.next);
                        }
                    }
                }
            }
        }
        match below {
            Err(e) => {
                proof {
                    if !blocked {
                        self.levels = Ghost(levels_after(s, before.levels(), root.0, h, key, op));
                        assert(self.values() =~= before.values());
                    }
                }
                Err(e)
            },
            Ok((previous, split)) => {
                match split {
                    Some(split) => {
                        match self.grow_root(split, &mut staged, sc_writes, log) {
                            Err(e) => {
                                return Err(e);
                            },
                            Ok(_) => {},
                        }
                    },
                    None => {},
                }
                proof {
                    self.levels = Ghost(levels_after(s, before.levels(), root.0, h, key, op));
                    self.height = Ghost(height_after(s, root.0, h, key, op));
                }
                let existed = match previous {
                    Some(_) => true,
                    None => false,
                };
                Ok((WriteResult { previous, existed }, staged))
            },
        }
    }
}

impl PrimaryIndex {
    /// Gives a key that has no live value a value, as part of a commit. Gives
    /// the pages to be logged.
    pub fn insert_deferred(
        &mut self,
        key: PrimaryKey,
        value: PageSlot,
        sc_writes: &mut Vec<SideChannelWrite>,
        log: &mut TxnMutationLog,
    ) -> (r: Result<Vec<StagedEmit>, IndexError>)
        requires
            write_fault(*old(self), key) is Some || (old(self).wf() && old(self).has_room()),
        ensures
            write_fault(*old(self), key) matches Some(e) ==> {
                &&& r == Err::<Vec<StagedEmit>, IndexError>(e)
                &&& *final(self) == *old(self)
                &&& final(log)@ == old(log)@
                &&& writes(final(sc_writes)@) == writes(old(sc_writes)@)
            },
            old(self).wf() && old(self).has_room() ==> {
                &&& index_wrote(
                    *old(self),
                    old(log)@,
                    writes(old(sc_writes)@),
                    key,
                    WriteOp::Insert(value),
                    *final(self),
                    final(log)@,
                    writes(final(sc_writes)@),
                    match r {
                        Ok(staged) => Ok((None, emits(staged@))),
                        Err(e) => Err(e),
                    },
                )
                &&& final(self).wf()
                &&& final(self).height() <= old(self).height() + 1
                &&& final(self).next_page() <= old(self).next_page() + old(self).height() + 2
                &&& r is Err <==> old(self).values().contains_key(key)
                &&& r matches Err(e) ==> e == IndexError::DuplicateKey { key }
                &&& final(self).values() == if r is Ok {
                    old(self).values().insert(key, value)
                } else {
                    old(self).values()
                }
            },
    {
        match self.write_deferred(key, WriteOp::Insert(value), sc_writes, log) {
            Err(e) => Err(e),
            Ok((_, staged)) => Ok(staged),
        }
    }

    /// Gives a key a value, as part of a commit. Gives the live value that the
    /// key had, and the pages to be logged.
    pub fn upsert_deferred(
        &mut self,
        key: PrimaryKey,
        value: PageSlot,
        sc_writes: &mut Vec<SideChannelWrite>,
        log: &mut TxnMutationLog,
    ) -> (r: Result<(Option<PageSlot>, Vec<StagedEmit>), IndexError>)
        requires
            write_fault(*old(self), key) is Some || (old(self).wf() && old(self).has_room()),
        ensures
            write_fault(*old(self), key) matches Some(e) ==> {
                &&& r == Err::<(Option<PageSlot>, Vec<StagedEmit>), IndexError>(e)
                &&& *final(self) == *old(self)
                &&& final(log)@ == old(log)@
                &&& writes(final(sc_writes)@) == writes(old(sc_writes)@)
            },
            old(self).wf() && old(self).has_room() ==> {
                &&& index_wrote(
                    *old(self),
                    old(log)@,
                    writes(old(sc_writes)@),
                    key,
                    WriteOp::Upsert(value),
                    *final(self),
                    final(log)@,
                    writes(final(sc_writes)@),
                    match r {
                        Ok((previous, staged)) => Ok((previous, emits(staged@))),
                        Err(e) => Err(e),
                    },
                )
                &&& final(self).wf()
                &&& final(self).height() <= old(self).height() + 1
                &&& final(self).next_page() <= old(self).next_page() + old(self).height() + 2
                &&& r matches Ok((previous, _)) && previous == value_of(old(self).values(), key)
                &&& final(self).values() == old(self).values().insert(key, value)
            },
    {
        match self.write_deferred(key, WriteOp::Upsert(value), sc_writes, log) {
            Err(e) => Err(e),
            Ok((w, staged)) => Ok((w.previous, staged)),
        }
    }

    /// Takes a key's value away, as part of a commit. Gives the live value that
    /// the key had, and the pages to be logged.
    pub fn remove_deferred(
        &mut self,
        key: PrimaryKey,
        sc_writes: &mut Vec<SideChannelWrite>,
        log: &mut TxnMutationLog,
    ) -> (r: Result<(Option<PageSlot>, Vec<StagedEmit>), IndexError>)
        requires
            write_fault(*old(self), key) is Some || (old(self).wf() && old(self).has_room()),
        ensures
            write_fault(*old(self), key) matches Some(e) ==> {
                &&& r == Err::<(Option<PageSlot>, Vec<StagedEmit>), IndexError>(e)
                &&& *final(self) == *old(self)
                &&& final(log)@ == old(log)@
                &&& writes(final(sc_writes)@) == writes(old(sc_writes)@)
            },
            old(self).wf() && old(self).has_room() ==> {
                &&& index_wrote(
                    *old(self),
                    old(log)@,
                    writes(old(sc_writes)@),
                    key,
                    WriteOp::Remove,
                    *final(self),
                    final(log)@,
                    writes(final(sc_writes)@),
                    match r {
                        Ok((previous, staged)) => Ok((previous, emits(staged@))),
                        Err(e) => Err(e),
                    },
                )
                &&& final(self).wf()
                &&& final(self).height() <= old(self).height() + 1
                &&& final(self).next_page() <= old(self).next_page() + old(self).height() + 2
                &&& r matches Ok((previous, _)) && previous == value_of(old(self).values(), key)
                &&& final(self).values() == old(self).values().remove(key)
            },
    {
        match self.write_deferred(key, WriteOp::Remove, sc_writes, log) {
            Err(e) => Err(e),
            Ok((w, staged)) => Ok((w.previous, staged)),
        }
    }

    /// A write of its own, to an index that is not logged.
    fn write(&mut self, key: PrimaryKey, op: WriteOp) -> (r: Result<WriteResult, IndexError>)
        requires
            write_fault(*old(self), key) is Some || (old(self).wf() && old(self).has_room()),
        ensures
            write_fault(*old(self), key) matches Some(e) ==> r == Err::<WriteResult, IndexError>(e)
                && *final(self) == *old(self),
            old(self).wf() && old(self).has_room() ==> {
                let s = old(self).state(Seq::empty(), empty_log());
                let (t, root, out) = index_step(
                    s,
                    old(self).root_page(),
                    old(self).height(),
                    key,
                    op,
                );
                &&& final(self).pages() == t.pages
                &&& final(self).next_page() == t.next
                &&& final(self).root_page() == root
                &&& final(self).wf()
                &&& final(self).height() == height_after(
                    s,
                    old(self).root_page(),
                    old(self).height(),
                    key,
                    op,
                )
                &&& final(self).height() <= old(self).height() + 1
                &&& final(self).next_page() <= old(self).next_page() + old(self).height() + 2
                &&& final(self).values() == values_after(old(self).values(), key, op)
                &&& r is Err <==> (op is Insert && old(self).values().contains_key(key))
                &&& r matches Err(e) ==> e == IndexError::DuplicateKey { key }
                &&& r matches Ok(w) ==> w.previous == value_of(old(self).values(), key)
            },
    {
        let mut sc_writes: Vec<SideChannelWrite> = Vec::new();
        let mut log = TxnMutationLog::new();
        match self.write_deferred(key, op, &mut sc_writes, &mut log) {
            Err(e) => Err(e),
            Ok((w, _)) => Ok(w),
        }
    }

    /// A write of its own, to an index that is logged: all of its pages, and
    /// the system write for a new root, are handed to `commit` at once. A commit
    /// that fails leaves the write in the index.
    pub fn write_logged<E, C: FnOnce(&Vec<StagedEmit>, &Vec<SideChannelWrite>) -> Result<(), E>>(
        &mut self,
        key: PrimaryKey,
        op: WriteOp,
        commit: C,
    ) -> (r: Result<WriteResult, LoggedWriteError<E>>)
        requires
            write_fault(*old(self), key) is Some || (old(self).wf() && old(self).has_room()),
            forall|pages: Vec<StagedEmit>, sides: Vec<SideChannelWrite>| #[trigger]
                call_requires(commit, (&pages, &sides)),
        ensures
            write_fault(*old(self), key) matches Some(e) ==> r == Err::<
                WriteResult,
                LoggedWriteError<E>,
            >(LoggedWriteError::Index(e)) && *final(self) == *old(self),
            old(self).wf() && old(self).has_room() ==> {
                &&& final(self).wf()
                &&& final(self).values() == values_after(old(self).values(), key, op)
                &&& final(self).height() <= old(self).height() + 1
                &&& final(self).next_page() <= old(self).next_page() + old(self).height() + 2
                &&& if op is Insert && old(self).values().contains_key(key) {
                    &&& r == Err::<WriteResult, LoggedWriteError<E>>(
                        LoggedWriteError::Index(IndexError::DuplicateKey { key }),
                    )
                } else {
                    exists|
                        pages: Vec<StagedEmit>,
                        sides: Vec<SideChannelWrite>,
                        notes: LogModel,
                        done: Result<(), E>,
                    |
                        {
                            &&& #[trigger] call_ensures(commit, (&pages, &sides), done)
                            &&& #[trigger] index_wrote(
                                *old(self),
                                empty_log(),
                                Seq::empty(),
                                key,
                                op,
                                *final(self),
                                notes,
                                writes(sides@),
                                Ok((value_of(old(self).values(), key), emits(pages@))),
                            )
                            &&& match done {
                                Ok(_) => r matches Ok(w) && w.previous == value_of(
                                    old(self).values(),
                                    key,
                                ) && w.existed == (w.previous is Some),
                                Err(e) => r == Err::<WriteResult, LoggedWriteError<E>>(
                                    LoggedWriteError::Commit(e),
                                ),
                            }
                        }
                }
            },
    {
        let mut sides: Vec<SideChannelWrite> = Vec::new();
        let mut log = TxnMutationLog::new();
        assert(writes(sides@) =~= Seq::<(u64, u64, Option<Seq<u8>>)>::empty());
        match self.write_deferred(key, op, &mut sides, &mut log) {
            Err(e) => Err(LoggedWriteError::Index(e)),
            Ok((w, pages)) => {
                let done = commit(&pages, &sides);
                assert(call_ensures(commit, (&pages, &sides), done));
                assert(index_wrote(
                    *old(self),
                    empty_log(),
                    Seq::empty(),
                    key,
                    op,
                    *self,
                    log@,
                    writes(sides@),
                    Ok((value_of(old(self).values(), key), emits(pages@))),
                ));
                match done {
                    Ok(_) => Ok(w),
                    Err(e) => Err(LoggedWriteError::Commit(e)),
                }
            },
        }
    }

    /// Gives a key that has no live value a value.
    pub fn insert(&mut self, key: PrimaryKey, value: PageSlot) -> (r: Result<(), IndexError>)
        requires
            write_fault(*old(self), key) is Some || (old(self).wf() && old(self).has_room()),
        ensures
            write_fault(*old(self), key) matches Some(e) ==> r == Err::<(), IndexError>(e)
                && *final(self) == *old(self),
            old(self).wf() && old(self).has_room() ==> {
                let s = old(self).state(Seq::empty(), empty_log());
                let (t, root, _) = index_step(
                    s,
                    old(self).root_page(),
                    old(self).height(),
                    key,
                    WriteOp::Insert(value),
                );
                &&& final(self).pages() == t.pages
                &&& final(self).next_page() == t.next
                &&& final(self).root_page() == root
                &&& final(self).wf()
                &&& final(self).height() == height_after(
                    s,
                    old(self).root_page(),
                    old(self).height(),
                    key,
                    WriteOp::Insert(value),
                )
                &&& final(self).height() <= old(self).height() + 1
                &&& final(self).next_page() <= old(self).next_page() + old(self).height() + 2
                &&& r is Err <==> old(self).values().contains_key(key)
                &&& r matches Err(e) ==> e == IndexError::DuplicateKey { key }
                &&& final(self).values() == if r is Ok {
                    old(self).values().insert(key, value)
                } else {
                    old(self).values()
                }
            },
    {
        match self.write(key, WriteOp::Insert(value)) {
            Err(e) => Err(e),
            Ok(_) => Ok(()),
        }
    }

    /// Gives a key a value. Gives the live value that the key had.
    pub fn upsert(&mut self, key: PrimaryKey, value: PageSlot) -> (r: Result<
        Option<PageSlot>,
        IndexError,
    >)
        requires
            write_fault(*old(self), key) is Some || (old(self).wf() && old(self).has_room()),
        ensures
            write_fault(*old(self), key) matches Some(e) ==> r == Err::<Option<PageSlot>, IndexError>(e)
                && *final(self) == *old(self),
            old(self).wf() && old(self).has_room() ==> {
                let s = old(self).state(Seq::empty(), empty_log());
                let (t, root, _) = index_step(
                    s,
                    old(self).root_page(),
                    old(self).height(),
                    key,
                    WriteOp::Upsert(value),
                );
                &&& final(self).pages() == t.pages
                &&& final(self).next_page() == t.next
                &&& final(self).root_page() == root
                &&& final(self).wf()
                &&& final(self).height() == height_after(
                    s,
                    old(self).root_page(),
                    old(self).height(),
                    key,
                    WriteOp::Upsert(value),
                )
                &&& final(self).height() <= old(self).height() + 1
                &&& final(self).next_page() <= old(self).next_page() + old(self).height() + 2
                &&& r == Ok::<Option<PageSlot>, IndexError>(value_of(old(self).values(), key))
                &&& final(self).values() == old(self).values().insert(key, value)
            },
    {
        match self.write(key, WriteOp::Upsert(value)) {
            Err(e) => Err(e),
            Ok(w) => Ok(w.previous),
        }
    }

    /// Takes a key's value away. Gives the live value that the key had.
    pub fn remove(&mut self, key: PrimaryKey) -> (r: Result<Option<PageSlot>, IndexError>)
        requires
            write_fault(*old(self), key) is Some || (old(self).wf() && old(self).has_room()),
        ensures
            write_fault(*old(self), key) matches Some(e) ==> r == Err::<Option<PageSlot>, IndexError>(e)
                && *final(self) == *old(self),
            old(self).wf() && old(self).has_room() ==> {
                let s = old(self).state(Seq::empty(), empty_log());
                let (t, root, _) = index_step(
                    s,
                    old(self).root_page(),
                    old(self).height(),
                    key,
                    WriteOp::Remove,
                );
                &&& final(self).pages() == t.pages
                &&& final(self).next_page() == t.next
                &&& final(self).root_page() == root
                &&& final(self).wf()
                &&& final(self).height() == height_after(
                    s,
                    old(self).root_page(),
                    old(self).height(),
                    key,
                    WriteOp::Remove,
                )
                &&& final(self).height() <= old(self).height() + 1
                &&& final(self).next_page() <= old(self).next_page() + old(self).height() + 2
                &&& r == Ok::<Option<PageSlot>, IndexError>(value_of(old(self).values(), key))
                &&& final(self).values() == old(self).values().remove(key)
            },
    {
        match self.write(key, WriteOp::Remove) {
            Err(e) => Err(e),
            Ok(w) => Ok(w.previous),
        }
    }

    /// Brings keys into the index that it lacks. A key with a live value keeps
    /// it.
    pub fn bootstrap_from_mvcc(&mut self, new_entries: Vec<(PrimaryKey, PageSlot)>) -> (r: Result<
        BootstrapStats,
        IndexError,
    >)
        requires
            root_fault(*old(self)) is None ==> old(self).wf(),
            old(self).has_room_for(new_entries@.len() as int),
        ensures
            root_fault(*old(self)) matches Some(e) ==> {
                &&& *final(self) == *old(self)
                &&& r == if new_entries@.len() == 0 {
                    Ok(BootstrapStats { indexed: 0, skipped: 0 })
                } else {
                    Err::<BootstrapStats, IndexError>(e)
                }
            },
            root_fault(*old(self)) is None ==> {
                &&& final(self).wf()
                &&& final(self).values() == loaded(old(self).values(), new_entries@)
                &&& r matches Ok(stats) && stats.indexed == loaded_count(
                    old(self).values(),
                    new_entries@,
                ) && stats.indexed + stats.skipped == new_entries@.len()
                &&& forall|key: PrimaryKey| #[trigger]
                    final(self).values().contains_key(key) <==> old(self).values().contains_key(key)
                        || exists|i: int|
                        0 <= i < new_entries@.len() && (#[trigger] new_entries@[i]).0 == key
                &&& forall|key: PrimaryKey| #[trigger]
                    old(self).values().contains_key(key) ==> final(self).values()[key] == old(
                        self,
                    ).values()[key]
            },
    {
        let ghost start = *self;
        let ghost list = new_entries@;
        let mut indexed: usize = 0;
        let mut skipped: usize = 0;
        let mut i: usize = 0;
        proof {
            assert(list.take(0) =~= Seq::<(PrimaryKey, PageSlot)>::empty());
        }
        while i < new_entries.len()
            invariant
                start == *old(self),
                list == new_entries@,
                i <= list.len(),
                indexed + skipped == i,
                root_fault(start) is None ==> self.wf(),
                root_fault(start) is Some ==> *self == start && i == 0,
                root_fault(start) is None ==> self.values() == loaded(
                    start.values(),
                    list.take(i as int),
                ),
                root_fault(start) is None ==> indexed == loaded_count(
                    start.values(),
                    list.take(i as int),
                ),
                root_fault(start) is None ==> self.next_page() <= start.next_page()
                    + PAGES_PER_WRITE * i,
                start.has_room_for(list.len() as int),
            decreases list.len() - i,
        {
            let (key, value) = new_entries[i];
            proof {
                assert(list.take(i + 1).drop_last() =~= list.take(i as int));
                assert(list.take(i + 1).last() == list[i as int]);
                if root_fault(start) is None {
                    self.lemma_height();
                }
                if root_fault(start) is Some && self.root_page() != 0 {
                    lemma_missing_root(*self, key);
                    assert(descent(self.pages(), self.root_page(), key, 0) is Some);
                }
            }
            let found = match self.lookup(key) {
                Err(e) => {
                    return Err(e);
                },
                Ok(found) => found,
            };
            match found {
                Some(_) => {
                    skipped += 1;
                },
                None => {
                    match self.upsert(key, value) {
                        Err(e) => {
                            return Err(e);
                        },
                        Ok(_) => {},
                    }
                    indexed += 1;
                },
            }
            i += 1;
        }
        assert(list.take(i as int) =~= list);
        proof {
            if root_fault(start) is None {
                assert forall|key: PrimaryKey| #[trigger]
                    self.values().contains_key(key) <==> start.values().contains_key(key) || exists|
                        i: int,
                    |
                        0 <= i < list.len() && (#[trigger] list[i]).0 == key by {
                    law_load(start.values(), list, key);
                }
                assert forall|key: PrimaryKey| #[trigger]
                    start.values().contains_key(key) implies self.values()[key]
                    == start.values()[key] by {
                    law_load(start.values(), list, key);
                }
            }
        }
        Ok(BootstrapStats { indexed, skipped })
    }

    /// Brings keys into an index that is logged. The pages of each key that it
    /// lacked, and the system write for a new root, are committed to `target` once;
    /// the load ends with the first commit that fails.
    pub fn bootstrap_logged<E, T: CommitTarget<E>>(
        &mut self,
        new_entries: Vec<(PrimaryKey, PageSlot)>,
        target: &mut T,
    ) -> (r: Result<BootstrapStats, LoggedWriteError<E>>)
        requires
            old(target).ready(),
            root_fault(*old(self)) is None ==> old(self).wf(),
            old(self).has_room_for(new_entries@.len() as int),
        ensures
            final(target).ready(),
            root_fault(*old(self)) matches Some(e) ==> {
                &&& *final(self) == *old(self)
                &&& final(target).commits() == old(target).commits()
                &&& r == if new_entries@.len() == 0 {
                    Ok(BootstrapStats { indexed: 0, skipped: 0 })
                } else {
                    Err::<BootstrapStats, LoggedWriteError<E>>(LoggedWriteError::Index(e))
                }
            },
            root_fault(*old(self)) is None ==> {
                &&& final(self).wf()
                &&& exists|log: Seq<CommitCall<E>>, states: Seq<PrimaryIndex>|
                    {
                        &&& #[trigger] load_states(*old(self), new_entries@, log, states)
                        &&& final(target).commits() == old(target).commits() + log
                        &&& *final(self) == states.last()
                        &&& match r {
                            Ok(stats) => {
                                &&& states.len() == new_entries@.len() + 1
                                &&& all_taken(log, log.len() as int)
                                &&& stats.indexed == log.len() == loaded_count(
                                    old(self).values(),
                                    new_entries@,
                                )
                                &&& stats.indexed + stats.skipped == new_entries@.len()
                            },
                            Err(LoggedWriteError::Commit(e)) => {
                                &&& log.len() > 0
                                &&& all_taken(log, log.len() - 1)
                                &&& log.last().2 == Err::<(), E>(e)
                                &&& states.len() > 1
                                &&& !states[states.len() - 2].values().contains_key(
                                    new_entries@[states.len() - 2].0,
                                )
                            },
                            Err(LoggedWriteError::Index(_)) => false,
                        }
                    }
            },
            r is Ok && root_fault(*old(self)) is None ==> final(self).values() == loaded(
                old(self).values(),
                new_entries@,
            ),
    {
        let ghost start = *self;
        let ghost list = new_entries@;
        let ghost earlier = target.commits();
        let ghost mut states: Seq<PrimaryIndex> = seq![*self];
        let ghost mut log: Seq<CommitCall<E>> = Seq::empty();
        let mut indexed: usize = 0;
        let mut skipped: usize = 0;
        let mut i: usize = 0;
        proof {
            assert(list.take(0) =~= Seq::<(PrimaryKey, PageSlot)>::empty());
            assert(earlier + log =~= earlier);
        }
        while i < new_entries.len()
            invariant
                start == *old(self),
                earlier == old(target).commits(),
                list == new_entries@,
                target.ready(),
                target.commits() == earlier + log,
                root_fault(start) is None ==> {
                    &&& states.len() == i + 1
                    &&& states.last() == *self
                    &&& load_states(start, list, log, states)
                    &&& all_taken(log, log.len() as int)
                    &&& indexed == log.len()
                },
                i <= list.len(),
                indexed + skipped == i,
                root_fault(start) is None ==> self.wf(),
                root_fault(start) is Some ==> *self == start && i == 0 && log.len() == 0,
                root_fault(start) is None ==> self.next_page() <= start.next_page()
                    + PAGES_PER_WRITE * i,
                start.has_room_for(list.len() as int),
            decreases list.len() - i,
        {
            let (key, value) = new_entries[i];
            proof {
                if root_fault(start) is None {
                    self.lemma_height();
                }
                if root_fault(start) is Some && self.root_page() != 0 {
                    lemma_missing_root(*self, key);
                    assert(descent(self.pages(), self.root_page(), key, 0) is Some);
                }
            }
            let ghost before = *self;
            let found = match self.lookup(key) {
                Err(e) => {
                    assert(earlier + log =~= earlier);
                    return Err(LoggedWriteError::Index(e));
                },
                Ok(found) => found,
            };
            match found {
                Some(_) => {
                    proof {
                        lemma_load_kept(start, list, log, states);
                        states = states.push(*self);
                    }
                    skipped += 1;
                },
                None => {
                    let mut sides: Vec<SideChannelWrite> = Vec::new();
                    assert(writes(sides@) =~= Seq::<(u64, u64, Option<Seq<u8>>)>::empty());
                    let mut notes = TxnMutationLog::new();
                    let pages = match self.upsert_deferred(key, value, &mut sides, &mut notes) {
                        Err(e) => {
                            return Err(LoggedWriteError::Index(e));
                        },
                        Ok((_, pages)) => pages,
                    };
                    let done = target.commit_index_pages_atomic(&pages, &sides);
                    proof {
                        let call = (emits(pages@), writes(sides@), done);
                        let entry = list[i as int];
                        assert(entry == (key, value));
                        assert(index_wrote(
                            before,
                            empty_log(),
                            Seq::empty(),
                            entry.0,
                            WriteOp::Upsert(entry.1),
                            *self,
                            notes@,
                            call.1,
                            Ok((None, call.0)),
                        ));
                        assert(committed(call, before, entry, *self));
                        lemma_load_committed(start, list, log, states, call, *self);
                        states = states.push(*self);
                        assert(target.commits() =~= earlier + log.push(call));
                        log = log.push(call);
                    }
                    match done {
                        Err(e) => {
                            return Err(LoggedWriteError::Commit(e));
                        },
                        Ok(nothing) => {
                            assert(nothing == ());
                        },
                    }
                    indexed += 1;
                },
            }
            i += 1;
        }
        assert(list.take(i as int) =~= list);
        Ok(BootstrapStats { indexed, skipped })
    }
}

/// Pages and system writes that were committed together, and the answer.
pub type CommitCall<E> = (
    Seq<(u64, Seq<u8>)>,
    Seq<(u64, u64, Option<Seq<u8>>)>,
    Result<(), E>,
);

/// What the pages of an index that is logged are committed to.
pub trait CommitTarget<E> {
    /// The commits that were made so far, with the answers.
    spec fn commits(&self) -> Seq<CommitCall<E>>;

    /// Commits can be made.
    spec fn ready(&self) -> bool;

    /// Commits pages, and the system writes that go with them, as one.
    fn commit_index_pages_atomic(
        &mut self,
        pages: &Vec<StagedEmit>,
        sides: &Vec<SideChannelWrite>,
    ) -> (r: Result<(), E>)
        requires
            old(self).ready(),
        ensures
            final(self).ready(),
            final(self).commits() == old(self).commits().push((emits(pages@), writes(sides@), r)),
    ;
}

/// A target that hands each commit to a closure.
#[verifier::reject_recursive_types(E)]
pub struct CommitCalls<E, F: FnMut(&Vec<StagedEmit>, &Vec<SideChannelWrite>) -> Result<(), E>> {
    commit: F,
    commits: Ghost<Seq<CommitCall<E>>>,
}

impl<E, F: FnMut(&Vec<StagedEmit>, &Vec<SideChannelWrite>) -> Result<(), E>> CommitCalls<E, F> {
    /// The closure.
    pub closed spec fn closure(self) -> F {
        self.commit
    }

    /// A target on which no commit was made yet.
    pub fn new(commit: F) -> (t: CommitCalls<E, F>)
        ensures
            t.closure() == commit,
            t.commits() == Seq::<CommitCall<E>>::empty(),
    {
        CommitCalls { commit, commits: Ghost(Seq::empty()) }
    }
}

impl<E, F: FnMut(&Vec<StagedEmit>, &Vec<SideChannelWrite>) -> Result<(), E>> CommitTarget<
    E,
> for CommitCalls<E, F> {
    closed spec fn commits(&self) -> Seq<CommitCall<E>> {
        self.commits@
    }

    open spec fn ready(&self) -> bool {
        forall|pages: Vec<StagedEmit>, sides: Vec<SideChannelWrite>| #[trigger]
            call_requires(self.closure(), (&pages, &sides))
    }

    fn commit_index_pages_atomic(
        &mut self,
        pages: &Vec<StagedEmit>,
        sides: &Vec<SideChannelWrite>,
    ) -> (r: Result<(), E>)
        ensures
            call_ensures(old(self).closure(), (pages, sides), r),
            final(self).closure() == old(self).closure(),
    {
        assert(self.closure() == self.commit);
        let r = (self.commit)(pages, sides);
        proof {
            self.commits = Ghost(self.commits@.push((emits(pages@), writes(sides@), r)));
        }
        r
    }
}

/// The first `n` commits were taken.
pub open spec fn all_taken<E>(log: Seq<CommitCall<E>>, n: int) -> bool {
    forall|i: int| 0 <= i < n ==> (#[trigger] log[i]).2 is Ok
}

/// An entry's key got its value, and the commit holds exactly the pages of that
/// write, with the system write for a new root.
pub open spec fn committed<E>(
    call: CommitCall<E>,
    before: PrimaryIndex,
    entry: (PrimaryKey, PageSlot),
    after: PrimaryIndex,
) -> bool {
    exists|notes: LogModel| #[trigger]
        index_wrote(
            before,
            empty_log(),
            Seq::empty(),
            entry.0,
            WriteOp::Upsert(entry.1),
            after,
            notes,
            call.1,
            Ok((None, call.0)),
        )
}

/// The index between the entries of a load: `states[i]` is the index before
/// entry `i`. An entry whose key has a live value changes nothing and is not
/// committed; every other one has one commit in `log`, in the order of the
/// entries.
pub open spec fn load_states<E>(
    start: PrimaryIndex,
    list: Seq<(PrimaryKey, PageSlot)>,
    log: Seq<CommitCall<E>>,
    states: Seq<PrimaryIndex>,
) -> bool {
    &&& 0 < states.len() <= list.len() + 1
    &&& states[0] == start
    &&& log.len() == loaded_count(start.values(), list.take(states.len() - 1))
    &&& forall|i: int|
        0 <= i < states.len() ==> #[trigger] states[i].values() == loaded(
            start.values(),
            list.take(i),
        )
    &&& forall|i: int|
        0 <= i < states.len() - 1 ==> #[trigger] load_entry(
            log,
            loaded_count(start.values(), list.take(i)),
            states[i],
            list[i],
            states[i + 1],
        )
}

/// What one entry of a load does, where `n` commits were made before it.
pub open spec fn load_entry<E>(
    log: Seq<CommitCall<E>>,
    n: int,
    before: PrimaryIndex,
    entry: (PrimaryKey, PageSlot),
    after: PrimaryIndex,
) -> bool {
    if before.values().contains_key(entry.0) {
        after == before
    } else {
        0 <= n < log.len() && committed(log[n], before, entry, after)
    }
}

/// One more entry of a load, whose key has a live value.
proof fn lemma_load_kept<E>(
    start: PrimaryIndex,
    list: Seq<(PrimaryKey, PageSlot)>,
    log: Seq<CommitCall<E>>,
    states: Seq<PrimaryIndex>,
)
    requires
        load_states(start, list, log, states),
        states.len() <= list.len(),
        states.last().values().contains_key(list[states.len() - 1].0),
    ensures
        load_states(start, list, log, states.push(states.last())),
{
    let n = states.len() as int;
    assert(list.take(n).drop_last() =~= list.take(n - 1));
    assert(states[n - 1].values() == loaded(start.values(), list.take(n - 1)));
    lemma_load_states(start, list, log, states, log, states.last());
}

/// One more entry of a load, whose key was brought in and committed.
proof fn lemma_load_committed<E>(
    start: PrimaryIndex,
    list: Seq<(PrimaryKey, PageSlot)>,
    log: Seq<CommitCall<E>>,
    states: Seq<PrimaryIndex>,
    call: CommitCall<E>,
    after: PrimaryIndex,
)
    requires
        load_states(start, list, log, states),
        states.len() <= list.len(),
        !states.last().values().contains_key(list[states.len() - 1].0),
        committed(call, states.last(), list[states.len() - 1], after),
        after.values() == states.last().values().insert(
            list[states.len() - 1].0,
            list[states.len() - 1].1,
        ),
    ensures
        load_states(start, list, log.push(call), states.push(after)),
{
    let n = states.len() as int;
    assert(list.take(n).drop_last() =~= list.take(n - 1));
    assert(states[n - 1].values() == loaded(start.values(), list.take(n - 1)));
    assert(log.push(call)[log.len() as int] == call);
    lemma_load_states(start, list, log, states, log.push(call), after);
}

proof fn lemma_load_states<E>(
    start: PrimaryIndex,
    list: Seq<(PrimaryKey, PageSlot)>,
    log: Seq<CommitCall<E>>,
    states: Seq<PrimaryIndex>,
    longer: Seq<CommitCall<E>>,
    after: PrimaryIndex,
)
    requires
        load_states(start, list, log, states),
        states.len() <= list.len(),
        log.len() <= longer.len(),
        forall|k: int| 0 <= k < log.len() ==> #[trigger] longer[k] == log[k],
        longer.len() == loaded_count(start.values(), list.take(states.len() as int)),
        after.values() == loaded(start.values(), list.take(states.len() as int)),
        load_entry(longer, log.len() as int, states.last(), list[states.len() - 1], after),
    ensures
        load_states(start, list, longer, states.push(after)),
{
    let next = states.push(after);
    let n = states.len() as int;
    assert forall|k: int| 0 <= k < next.len() - 1 implies #[trigger] load_entry(
        longer,
        loaded_count(start.values(), list.take(k)),
        next[k],
        list[k],
        next[k + 1],
    ) by {
        if k < n - 1 {
            let c = loaded_count(start.values(), list.take(k));
            assert(load_entry(log, c, states[k], list[k], states[k + 1]));
            assert(0 <= c < log.len() ==> longer[c] == log[c]);
        }
    }
    assert forall|k: int| 0 <= k < next.len() implies #[trigger] next[k].values() == loaded(
        start.values(),
        list.take(k),
    ) by {
        if k < n {
            assert(states[k].values() == loaded(start.values(), list.take(k)));
        }
    }
}

/// What the index says after a load: keys that it lacked have the value that
/// came first.
pub open spec fn loaded(
    values: Map<PrimaryKey, PageSlot>,
    list: Seq<(PrimaryKey, PageSlot)>,
) -> Map<PrimaryKey, PageSlot>
    decreases list.len(),
{
    if list.len() == 0 {
        values
    } else {
        let before = loaded(values, list.drop_last());
        if before.contains_key(list.last().0) {
            before
        } else {
            before.insert(list.last().0, list.last().1)
        }
    }
}

/// The number of keys that a load brought in.
pub open spec fn loaded_count(
    values: Map<PrimaryKey, PageSlot>,
    list: Seq<(PrimaryKey, PageSlot)>,
) -> int
    decreases list.len(),
{
    if list.len() == 0 {
        0
    } else if loaded(values, list.drop_last()).contains_key(list.last().0) {
        loaded_count(values, list.drop_last())
    } else {
        loaded_count(values, list.drop_last()) + 1
    }
}

/// A second load of the same list brings nothing in.
pub proof fn law_load_is_idempotent(
    values: Map<PrimaryKey, PageSlot>,
    list: Seq<(PrimaryKey, PageSlot)>,
)
    ensures
        loaded(loaded(values, list), list) == loaded(values, list),
        loaded_count(loaded(values, list), list) == 0,
{
    lemma_load_covers(values, list);
    lemma_load_again(loaded(values, list), list);
}

proof fn lemma_load_covers(
    values: Map<PrimaryKey, PageSlot>,
    list: Seq<(PrimaryKey, PageSlot)>,
)
    ensures
        forall|k: PrimaryKey| #[trigger]
            values.contains_key(k) ==> loaded(values, list).contains_key(k) && loaded(
                values,
                list,
            )[k] == values[k],
        forall|i: int|
            0 <= i < list.len() ==> loaded(values, list).contains_key((#[trigger] list[i]).0),
    decreases list.len(),
{
    if list.len() > 0 {
        let front = list.drop_last();
        lemma_load_covers(values, front);
        assert forall|i: int| 0 <= i < list.len() implies loaded(values, list).contains_key(
            (#[trigger] list[i]).0,
        ) by {
            if i < front.len() {
                assert(front[i] == list[i]);
            }
        }
    }
}

proof fn lemma_load_again(values: Map<PrimaryKey, PageSlot>, list: Seq<(PrimaryKey, PageSlot)>)
    requires
        forall|i: int| 0 <= i < list.len() ==> values.contains_key((#[trigger] list[i]).0),
    ensures
        loaded(values, list) == values,
        loaded_count(values, list) == 0,
    decreases list.len(),
{
    if list.len() > 0 {
        let front = list.drop_last();
        assert forall|i: int| 0 <= i < front.len() implies values.contains_key(
            (#[trigger] front[i]).0,
        ) by {
            assert(front[i] == list[i]);
        }
        lemma_load_again(values, front);
        assert(values.contains_key(list[list.len() - 1].0));
    }
}

proof fn lemma_missing_root(index: PrimaryIndex, key: PrimaryKey)
    requires
        root_fault(index) is Some,
        index.root_page() != 0,
    ensures
        forall|fuel: nat| #[trigger]
            descent(index.pages(), index.root_page(), key, fuel) == Some(
                Err::<Option<PageSlot>, IndexError>(root_fault(index)->Some_0),
            ),
{
}

proof fn lemma_init_is_fresh(page_id: u64, first: u64)
    ensures
        splice(
            splice(
                fresh_index_page(page_id, PageType::IndexInternal),
                0,
                header_bytes(
                    index_header(page_id, PageType::IndexInternal, 0),
                ),
            ),
            40,
            le64(first),
        ) == fresh_node(page_id, first),
{
    let h = index_header(page_id, PageType::IndexInternal, 0);
    law_header_round_trip(h);
    let f = fresh_index_page(page_id, PageType::IndexInternal);
    assert(splice(f, 0, header_bytes(h)) =~= f);
}

/// The bytes that log a page of the index: its number, its tenant, its bytes.
pub open spec fn index_payload(page_id: u64, tenant: u64, page: Seq<u8>) -> Seq<u8> {
    le64(page_id) + le64(tenant) + page
}

/// What the bytes that log a page of the index hold.
pub open spec fn payload_result(b: Seq<u8>) -> Result<(u64, u64, Seq<u8>), IndexError> {
    if b.len() != 16 + PAGE_SIZE {
        Err(
            IndexError::CorruptPage {
                page_id: PageId(0),
                reason: IndexFault::PayloadLength { len: b.len() as usize },
            },
        )
    } else {
        Ok((u64_at(b, 0), u64_at(b, 8), b.skip(16)))
    }
}

/// A logged page is read back as it was.
pub proof fn law_payload_round_trip(page_id: u64, tenant: u64, page: Seq<u8>)
    requires
        page.len() == PAGE_SIZE,
    ensures
        payload_result(index_payload(page_id, tenant, page)) == Ok::<
            (u64, u64, Seq<u8>),
            IndexError,
        >((page_id, tenant, page)),
{
    broadcast use group_codec;

    let b = index_payload(page_id, tenant, page);
    assert forall|j: int| 0 <= j < 8 implies #[trigger] b[0 + j] == le64(page_id)[j] by {}
    lemma_u64_read_back(b, 0, page_id);
    assert forall|j: int| 0 <= j < 8 implies #[trigger] b[8 + j] == le64(tenant)[j] by {}
    lemma_u64_read_back(b, 8, tenant);
    assert(b.skip(16) =~= page);
}

/// The bytes that log a page of the index.
pub fn encode_index_page_payload(page_id: PageId, tenant: TenantId, page_bytes: &[u8]) -> (out: Vec<
    u8,
>)
    requires
        page_bytes@.len() == PAGE_SIZE,
    ensures
        out@ == index_payload(page_id.0, tenant.0, page_bytes@),
{
    let mut out: Vec<u8> = Vec::new();
    push_u64(&mut out, page_id.0);
    push_u64(&mut out, tenant.0);
    push_bytes(&mut out, page_bytes);
    assert(out@ =~= index_payload(page_id.0, tenant.0, page_bytes@));
    out
}

/// Reads what logs a page of the index: its number, its tenant, its bytes.
pub fn decode_index_page_payload(payload: &[u8]) -> (r: Result<
    (PageId, TenantId, Vec<u8>),
    IndexError,
>)
    ensures
        match r {
            Ok((page_id, tenant, page)) => payload_result(payload@) == Ok::<
                (u64, u64, Seq<u8>),
                IndexError,
            >((page_id.0, tenant.0, page@)),
            Err(e) => payload_result(payload@) == Err::<(u64, u64, Seq<u8>), IndexError>(e),
        },
{
    if payload.len() != 16 + PAGE_SIZE {
        return Err(
            IndexError::CorruptPage {
                page_id: PageId(0),
                reason: IndexFault::PayloadLength { len: payload.len() },
            },
        );
    }
    let page = copy_range(payload, 16, payload.len());
    assert(page@ =~= payload@.skip(16));
    Ok((PageId(get_u64(payload, 0)), TenantId(get_u64(payload, 8)), page))
}

fn root_side_write(root: u64) -> (w: SideChannelWrite)
    ensures
        writes(seq![w])[0] == root_write(root),
{
    let mut value: Vec<u8> = Vec::new();
    push_u64(&mut value, root);
    assert(value@ =~= le64(root));
    SideChannelWrite { tenant_id: TenantId::system(), key: PRIMARY_INDEX_ROOT_KEY, value: Some(value) }
}

/// The root page that a kept value names.
pub fn decode_root_value(value: &Option<Vec<u8>>) -> (r: Option<PageId>)
    ensures
        r == kept_root(
            match *value {
                Some(v) => Some(v@),
                None => None,
            },
        ),
{
    match value {
        None => None,
        Some(v) => {
            if v.len() != 8 {
                return None;
            }
            let raw: u64 = get_u64(v.as_slice(), 0);
            if raw == 0 {
                None
            } else {
                Some(PageId(raw))
            }
        },
    }
}

// ---- sequences of writes --------------------------------------------------

/// What an index is made of.
pub struct IndexImage {
    /// The pages.
    pub pages: Map<u64, Seq<u8>>,
    /// The number of the next new page.
    pub next: u64,
    /// The root page.
    pub root: u64,
    /// The height of the tree.
    pub height: nat,
}

impl IndexImage {
    /// What a write works on.
    pub open spec fn tree_state(self) -> TreeState {
        TreeState {
            pages: self.pages,
            next: self.next,
            staged: Seq::empty(),
            log: empty_log(),
        }
    }

    /// The index after a write.
    pub open spec fn after(self, key: PrimaryKey, op: WriteOp) -> IndexImage {
        let s = self.tree_state();
        let (t, root, _) = index_step(s, self.root, self.height, key, op);
        IndexImage {
            pages: t.pages,
            next: t.next,
            root,
            height: height_after(s, self.root, self.height, key, op),
        }
    }

    /// What a write answers.
    pub open spec fn answer(self, key: PrimaryKey, op: WriteOp) -> Result<
        Option<PageSlot>,
        IndexError,
    > {
        index_step(self.tree_state(), self.root, self.height, key, op).2
    }

    /// The index after a sequence of writes.
    pub open spec fn run(self, ops: Seq<(PrimaryKey, WriteOp)>) -> IndexImage
        decreases ops.len(),
    {
        if ops.len() == 0 {
            self
        } else {
            self.run(ops.drop_last()).after(ops.last().0, ops.last().1)
        }
    }

    /// The live values.
    pub open spec fn values(self) -> Map<PrimaryKey, PageSlot> {
        live_values(self.pages, self.root, self.height)
    }

    /// The pages form a tree.
    pub open spec fn sound(self) -> bool {
        exists|levels: Map<u64, nat>| #[trigger]
            sound(self.pages, levels, self.root, self.height, self.next)
    }
}

/// A fresh index whose root page has the number `id`.
pub open spec fn fresh_index(id: u64) -> IndexImage {
    IndexImage {
        pages: no_pages().insert(id, fresh_index_page(id, PageType::IndexLeaf)),
        next: (id + 1) as u64,
        root: id,
        height: 0,
    }
}

/// A map after a sequence of writes.
pub open spec fn map_run(
    values: Map<PrimaryKey, PageSlot>,
    ops: Seq<(PrimaryKey, WriteOp)>,
) -> Map<PrimaryKey, PageSlot>
    decreases ops.len(),
{
    if ops.len() == 0 {
        values
    } else {
        values_after(map_run(values, ops.drop_last()), ops.last().0, ops.last().1)
    }
}

/// What a map answers to a write: the value that the key had, or that it has one
/// already.
pub open spec fn map_answer(values: Map<PrimaryKey, PageSlot>, key: PrimaryKey, op: WriteOp) -> Result<
    Option<PageSlot>,
    IndexError,
> {
    if op is Insert && values.contains_key(key) {
        Err(IndexError::DuplicateKey { key })
    } else {
        Ok(value_of(values, key))
    }
}

/// Over any sequence of writes the index is a map: each write answers as the map
/// would, the live values are those of the map, and every lookup finds what the
/// map holds, across any number of splits.
pub proof fn law_index_follows_a_map(index: IndexImage, ops: Seq<(PrimaryKey, WriteOp)>)
    requires
        index.sound(),
        index.next + PAGES_PER_WRITE * ops.len() < u64::MAX,
    ensures
        index.run(ops).sound(),
        index.run(ops).values() == map_run(index.values(), ops),
        index.run(ops).next <= index.next + PAGES_PER_WRITE * ops.len(),
        forall|key: PrimaryKey|
            #![trigger value_of(map_run(index.values(), ops), key)]
            descent(
                index.run(ops).pages,
                index.run(ops).root,
                key,
                index.run(ops).height,
            ) == Some(
                Ok::<Option<PageSlot>, IndexError>(
                    value_of(map_run(index.values(), ops), key),
                ),
            ),
        forall|i: int|
            #![trigger index.run(ops.take(i))]
            0 <= i < ops.len() ==> index.run(ops.take(i)).answer(ops[i].0, ops[i].1) == map_answer(
                map_run(index.values(), ops.take(i)),
                ops[i].0,
                ops[i].1,
            ),
{
    lemma_run(index, ops);
    assert forall|i: int| #![trigger index.run(ops.take(i))] 0 <= i < ops.len() implies index.run(
        ops.take(i),
    ).answer(ops[i].0, ops[i].1) == map_answer(
        map_run(index.values(), ops.take(i)),
        ops[i].0,
        ops[i].1,
    ) by {
        lemma_run(index, ops.take(i));
        lemma_one_write(index.run(ops.take(i)), ops[i].0, ops[i].1);
    }
    assert forall|key: PrimaryKey| #![trigger value_of(map_run(index.values(), ops), key)] descent(
        index.run(ops).pages,
        index.run(ops).root,
        key,
        index.run(ops).height,
    ) == Some(
        Ok::<Option<PageSlot>, IndexError>(value_of(map_run(index.values(), ops), key)),
    ) by {
        lemma_lookup(index.run(ops), key);
    }
}

/// In a sound index a lookup finds the live value of its key.
proof fn lemma_lookup(index: IndexImage, key: PrimaryKey)
    requires
        index.sound(),
    ensures
        descent(index.pages, index.root, key, index.height) == Some(
            Ok::<Option<PageSlot>, IndexError>(value_of(index.values(), key)),
        ),
{
    let levels = choose|levels: Map<u64, nat>| #[trigger]
        sound(index.pages, levels, index.root, index.height, index.next);
    lemma_descent(index.pages, levels, index.root, index.height, None, None, key);
}

proof fn lemma_run(index: IndexImage, ops: Seq<(PrimaryKey, WriteOp)>)
    requires
        index.sound(),
        index.next + PAGES_PER_WRITE * ops.len() < u64::MAX,
    ensures
        index.run(ops).sound(),
        index.run(ops).values() == map_run(index.values(), ops),
        index.run(ops).next <= index.next + PAGES_PER_WRITE * ops.len(),
    decreases ops.len(),
{
    if ops.len() > 0 {
        lemma_run(index, ops.drop_last());
        lemma_one_write(index.run(ops.drop_last()), ops.last().0, ops.last().1);
    }
}

proof fn lemma_one_write(index: IndexImage, key: PrimaryKey, op: WriteOp)
    requires
        index.sound(),
        index.next + PAGES_PER_WRITE < u64::MAX,
    ensures
        index.after(key, op).sound(),
        index.after(key, op).values() == values_after(index.values(), key, op),
        index.after(key, op).next <= index.next + PAGES_PER_WRITE,
        index.answer(key, op) == map_answer(index.values(), key, op),
{
    let levels = choose|levels: Map<u64, nat>| #[trigger]
        sound(index.pages, levels, index.root, index.height, index.next);
    law_height_is_bounded(index.pages, levels, index.root, index.height, index.next);
    let s = index.tree_state();
    law_write_is_a_map_update(s, levels, index.root, index.height, key, op);
    let end = index.after(key, op);
    assert(sound(
        end.pages,
        levels_after(s, levels, index.root, index.height, key, op),
        end.root,
        end.height,
        end.next,
    ));
}

/// A fresh index is the empty map, so over any sequence of writes it is the map
/// that those writes build.
pub proof fn law_fresh_index_is_an_empty_map(id: u64)
    requires
        id < u64::MAX,
    ensures
        fresh_index(id).sound(),
        fresh_index(id).values() == Map::<PrimaryKey, PageSlot>::empty(),
{
    lemma_fresh_pages(id, 0);
    let index = fresh_index(id);
    let levels = Map::<u64, nat>::empty().insert(id, 0nat);
    assert(tree(index.pages, levels, id, 0, None, None));
    assert(sound(index.pages, levels, id, 0, index.next));
    assert(index.values() =~= Map::<PrimaryKey, PageSlot>::empty());
}

} // verus!
