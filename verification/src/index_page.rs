//! Views of the pages of the primary index.
use vstd::prelude::*;

use crate::codec::{
    get_u16, get_u64, group_codec, le64, lemma_u16_at_same, lemma_u32_at_same, lemma_u64_at_same,
    push_bytes, push_u64, put_bytes, put_u64, splice, u64_at,
};
use crate::ids::{PageId, TenantId};
use crate::index_model::{
    dead_at, decode_key, law_key_round_trip, law_value_round_trip, value_at, IndexError, IndexFault,
    PageSlot, PrimaryKey, INTERNAL_CAPACITY, INTERNAL_ENTRY_OFFSET, INTERNAL_ENTRY_SIZE,
    INTERNAL_FIRST_CHILD_OFFSET, LEAF_CAPACITY, LEAF_ENTRY_OFFSET, LEAF_ENTRY_SIZE,
    PRIMARY_KEY_SIZE,
};
use crate::index_nodes::{
    first_child, fresh_index_page, index_header, leaf_attach, leaf_find, leaf_high, leaf_low,
    leaf_ok, leaf_put, leaf_set, lemma_leaf_halves, lemma_leaf_key, lemma_leaf_put, lemma_leaf_set,
    lemma_node_halves, lemma_node_key, lemma_node_put, node_attach, node_high, node_low, node_ok,
    node_probe, node_put, node_scan, probe, Found,
};
use crate::index_rows::{build_page, copy_range, count_of, cut_rows, insert_row, row_start};
use crate::page::{
    decode_header, header_bytes, header_of, law_header_round_trip, PageHeader, PageType,
    PAGE_HEADER_SIZE, PAGE_SIZE,
};

verus! {

/// A fresh page of the index: a header, and zeros behind it.
pub fn fresh_page_buf(page_id: PageId, page_type: PageType) -> (out: Vec<u8>)
    ensures
        out@ == fresh_index_page(page_id.0, page_type),
        out@.len() == PAGE_SIZE,
{
    let header = PageHeader::new(page_id, page_type, TenantId::system());
    let empty: Vec<u8> = Vec::new();
    proof {
        law_header_round_trip(header);
    }
    let out = build_page(&header, empty.as_slice(), empty.as_slice());
    assert(empty@ =~= Seq::<u8>::empty());
    out
}

/// Reads the header of a page.
pub fn read_header(bytes: &[u8]) -> (r: Result<PageHeader, IndexError>)
    requires
        bytes@.len() == PAGE_SIZE,
    ensures
        r == match decode_header(bytes@) {
            Ok(h) => Ok(h),
            Err(e) => Err(IndexError::Core(e)),
        },
{
    match PageHeader::from_bytes(bytes) {
        Ok(h) => Ok(h),
        Err(e) => Err(IndexError::Core(e)),
    }
}

/// A leaf, to be read.
#[derive(Clone, Copy, Debug)]
pub struct LeafPageRef<'a> {
    /// The page's bytes.
    pub bytes: &'a [u8],
}

impl<'a> LeafPageRef<'a> {
    /// Attaches to a leaf.
    pub fn open(bytes: &'a [u8]) -> (r: Result<LeafPageRef<'a>, IndexError>)
        requires
            bytes@.len() == PAGE_SIZE,
        ensures
            r is Ok <==> leaf_attach(bytes@) is Ok,
            r matches Ok(p) ==> p.bytes@ == bytes@,
            r matches Err(e) ==> leaf_attach(bytes@) == Err::<(), IndexError>(e),
    {
        match read_header(bytes) {
            Err(e) => Err(e),
            Ok(h) => {
                if h.page_type != PageType::IndexLeaf.as_byte() {
                    return Err(
                        IndexError::CorruptPage {
                            page_id: PageId(h.page_id),
                            reason: IndexFault::NotLeaf { got: h.page_type },
                        },
                    );
                }
                Ok(LeafPageRef { bytes })
            },
        }
    }

    /// The number of entries, removed ones included.
    pub fn entry_count(&self) -> (n: u16)
        requires
            self.bytes@.len() == PAGE_SIZE,
        ensures
            n == count_of(self.bytes@),
    {
        get_u16(self.bytes, 36)
    }

    /// The number of the page.
    pub fn page_id(&self) -> (id: PageId)
        requires
            self.bytes@.len() == PAGE_SIZE,
        ensures
            id.0 == u64_at(self.bytes@, 8),
    {
        PageId(get_u64(self.bytes, 8))
    }

    /// An entry: its key, its value, and whether it was removed.
    pub fn entry(&self, index: u16) -> (r: Result<(PrimaryKey, PageSlot, bool), IndexError>)
        requires
            leaf_ok(self.bytes@),
        ensures
            r == if index >= count_of(self.bytes@) {
                Err(
                    IndexError::CorruptPage {
                        page_id: PageId(u64_at(self.bytes@, 8)),
                        reason: IndexFault::EntryOutOfRange {
                            index,
                            count: count_of(self.bytes@),
                        },
                    },
                )
            } else {
                let at = row_start(40, 40, index as int);
                match decode_key(self.bytes@, at) {
                    Err(e) => Err(e),
                    Ok(key) => Ok(
                        (key, value_at(self.bytes@, at + 24), dead_at(self.bytes@, at + 24)),
                    ),
                }
            },
    {
        let count: u16 = self.entry_count();
        if index >= count {
            return Err(
                IndexError::CorruptPage {
                    page_id: self.page_id(),
                    reason: IndexFault::EntryOutOfRange { index, count },
                },
            );
        }
        proof {
            lemma_leaf_key(self.bytes@, index as int);
        }
        let at: usize = LEAF_ENTRY_OFFSET + LEAF_ENTRY_SIZE * index as usize;
        match PrimaryKey::decode_at(self.bytes, at) {
            Err(e) => Err(e),
            Ok(key) => {
                let (value, dead) = PageSlot::decode_at(self.bytes, at + PRIMARY_KEY_SIZE);
                Ok((key, value, dead))
            },
        }
    }

    /// Where the leaf holds a key.
    fn binary_search(&self, needle: PrimaryKey) -> (r: Result<Found, IndexError>)
        requires
            leaf_ok(self.bytes@),
        ensures
            r == leaf_find(self.bytes@, needle),
            r matches Ok(Found::At(i)) ==> i < count_of(self.bytes@),
            r matches Ok(Found::Before(i)) ==> i <= count_of(self.bytes@),
    {
        let mut lo: u16 = 0;
        let mut hi: u16 = self.entry_count();
        while lo < hi
            invariant
                leaf_ok(self.bytes@),
                lo <= hi <= count_of(self.bytes@),
                leaf_find(self.bytes@, needle) == probe(
                    self.bytes@,
                    lo as int,
                    hi as int,
                    needle,
                ),
            decreases hi - lo,
        {
            let mid: u16 = (lo + hi) / 2;
            match self.entry(mid) {
                Err(e) => {
                    return Err(e);
                },
                Ok((key, _, _)) => {
                    if key.precedes(needle) {
                        lo = mid + 1;
                    } else if needle.precedes(key) {
                        hi = mid;
                    } else {
                        return Ok(Found::At(mid));
                    }
                },
            }
        }
        Ok(Found::Before(lo))
    }

    /// The live value of a key.
    pub fn lookup(&self, key: PrimaryKey) -> (r: Result<Option<PageSlot>, IndexError>)
        requires
            leaf_ok(self.bytes@),
        ensures
            r == match leaf_find(self.bytes@, key) {
                Err(e) => Err(e),
                Ok(Found::Before(_)) => Ok(None),
                Ok(Found::At(i)) => {
                    let at = row_start(40, 40, i as int) + 24;
                    if dead_at(self.bytes@, at) {
                        Ok(None)
                    } else {
                        Ok(Some(value_at(self.bytes@, at)))
                    }
                },
            },
    {
        match self.binary_search(key) {
            Err(e) => Err(e),
            Ok(Found::Before(_)) => Ok(None),
            Ok(Found::At(i)) => {
                proof {
                    lemma_leaf_key(self.bytes@, i as int);
                }
                let at: usize = LEAF_ENTRY_OFFSET + LEAF_ENTRY_SIZE * i as usize;
                let (value, dead) = PageSlot::decode_at(self.bytes, at + PRIMARY_KEY_SIZE);
                if dead {
                    Ok(None)
                } else {
                    Ok(Some(value))
                }
            },
        }
    }

    /// Whether the leaf holds the key, live or removed.
    pub fn contains_including_tombstoned(&self, key: PrimaryKey) -> (r: Result<bool, IndexError>)
        requires
            leaf_ok(self.bytes@),
        ensures
            r == match leaf_find(self.bytes@, key) {
                Err(e) => Err(e),
                Ok(Found::At(_)) => Ok(true),
                Ok(Found::Before(_)) => Ok(false),
            },
    {
        match self.binary_search(key) {
            Err(e) => Err(e),
            Ok(Found::At(_)) => Ok(true),
            Ok(Found::Before(_)) => Ok(false),
        }
    }
}

/// What inserting into a leaf yields: the page after it, and the result.
pub open spec fn leaf_insert_result(b: Seq<u8>, key: PrimaryKey, value: PageSlot) -> (
    Seq<u8>,
    Result<(), IndexError>,
) {
    match leaf_find(b, key) {
        Err(e) => (b, Err(e)),
        Ok(Found::At(i)) => if dead_at(b, row_start(40, 40, i as int) + 24) {
            (leaf_set(b, i as int, value, false), Ok(()))
        } else {
            (b, Err(IndexError::DuplicateKey { key }))
        },
        Ok(Found::Before(p)) => if count_of(b) >= LEAF_CAPACITY {
            (
                b,
                Err(
                    IndexError::CorruptPage {
                        page_id: PageId(u64_at(b, 8)),
                        reason: IndexFault::Full,
                    },
                ),
            )
        } else {
            (leaf_put(b, p as int, key, value), Ok(()))
        },
    }
}

/// What an upsert into a leaf yields: the page after it, and the result.
pub open spec fn leaf_upsert_result(b: Seq<u8>, key: PrimaryKey, value: PageSlot) -> (
    Seq<u8>,
    Result<Option<PageSlot>, IndexError>,
) {
    match leaf_find(b, key) {
        Err(e) => (b, Err(e)),
        Ok(Found::At(i)) => {
            let at = row_start(40, 40, i as int) + 24;
            (
                leaf_set(b, i as int, value, false),
                Ok(
                    if dead_at(b, at) {
                        None
                    } else {
                        Some(value_at(b, at))
                    },
                ),
            )
        },
        Ok(Found::Before(p)) => if count_of(b) >= LEAF_CAPACITY {
            (
                b,
                Err(
                    IndexError::CorruptPage {
                        page_id: PageId(u64_at(b, 8)),
                        reason: IndexFault::Full,
                    },
                ),
            )
        } else {
            (leaf_put(b, p as int, key, value), Ok(None))
        },
    }
}

/// What removing from a leaf yields: the page after it, and the result.
pub open spec fn leaf_remove_result(b: Seq<u8>, key: PrimaryKey) -> (
    Seq<u8>,
    Result<Option<PageSlot>, IndexError>,
) {
    match leaf_find(b, key) {
        Err(e) => (b, Err(e)),
        Ok(Found::At(i)) => {
            let at = row_start(40, 40, i as int) + 24;
            if dead_at(b, at) {
                (b, Ok(None))
            } else {
                (leaf_set(b, i as int, value_at(b, at), true), Ok(Some(value_at(b, at))))
            }
        },
        Ok(Found::Before(_)) => (b, Ok(None)),
    }
}

/// A leaf, to be changed. The caller holds the bytes alone.
#[derive(Debug)]
pub struct LeafPageMut<'a> {
    /// The page's bytes.
    pub bytes: &'a mut [u8],
}

impl<'a> View for LeafPageMut<'a> {
    type V = Seq<u8>;

    open spec fn view(&self) -> Seq<u8> {
        self.bytes@
    }
}

impl<'a> LeafPageMut<'a> {
    /// Makes the page an empty leaf. Only the header is written.
    pub fn init(bytes: &'a mut [u8], page_id: PageId) -> (p: LeafPageMut<'a>)
        requires
            old(bytes)@.len() == PAGE_SIZE,
        ensures
            p@ == splice(
                old(bytes)@,
                0,
                header_bytes(index_header(page_id.0, PageType::IndexLeaf, 0)),
            ),
            leaf_ok(p@),
            count_of(p@) == 0,
            final(p.bytes)@ == final(bytes)@,
    {
        let header = PageHeader::new(page_id, PageType::IndexLeaf, TenantId::system());
        let head = header.to_bytes();
        proof {
            lemma_header_written(bytes@, header);
        }
        put_bytes(bytes, 0, head.as_slice());
        LeafPageMut { bytes }
    }

    /// Attaches to a leaf.
    pub fn open(bytes: &'a mut [u8]) -> (r: Result<LeafPageMut<'a>, IndexError>)
        requires
            old(bytes)@.len() == PAGE_SIZE,
        ensures
            r is Ok <==> leaf_attach(old(bytes)@) is Ok,
            r matches Ok(p) ==> p@ == old(bytes)@ && final(p.bytes)@ == final(bytes)@,
            r matches Err(e) ==> leaf_attach(old(bytes)@) == Err::<(), IndexError>(e),
            r is Err ==> final(bytes)@ == old(bytes)@,
    {
        match LeafPageRef::open(bytes) {
            Err(e) => Err(e),
            Ok(_) => Ok(LeafPageMut { bytes }),
        }
    }

    /// This leaf, to be read.
    pub fn as_ref(&self) -> (r: LeafPageRef<'_>)
        ensures
            r.bytes@ == self@,
    {
        LeafPageRef { bytes: &*self.bytes }
    }

    /// The number of entries, removed ones included.
    pub fn entry_count(&self) -> (n: u16)
        requires
            self@.len() == PAGE_SIZE,
        ensures
            n == count_of(self@),
    {
        self.as_ref().entry_count()
    }

    /// Whether no entry fits any more.
    pub fn is_full(&self) -> (r: bool)
        requires
            self@.len() == PAGE_SIZE,
        ensures
            r == (count_of(self@) >= LEAF_CAPACITY),
    {
        self.entry_count() >= LEAF_CAPACITY
    }

    fn set_value(&mut self, index: u16, value: PageSlot, dead: bool)
        requires
            leaf_ok(old(self)@),
            index < count_of(old(self)@),
        ensures
            final(self)@ == leaf_set(old(self)@, index as int, value, dead),
            leaf_ok(final(self)@),
            final(final(self).bytes)@ == final(old(self).bytes)@,
    {
        proof {
            lemma_leaf_key(self@, index as int);
            lemma_leaf_set(self@, index as int, value, dead);
            law_value_round_trip(value, dead);
        }
        let coded = value.encode(dead);
        let at: usize = LEAF_ENTRY_OFFSET + LEAF_ENTRY_SIZE * index as usize + PRIMARY_KEY_SIZE;
        put_bytes(self.bytes, at, coded.as_slice());
    }

    fn insert_at(&mut self, position: u16, key: PrimaryKey, value: PageSlot) -> (r: Result<
        (),
        IndexError,
    >)
        requires
            leaf_ok(old(self)@),
            position <= count_of(old(self)@),
        ensures
            count_of(old(self)@) >= LEAF_CAPACITY ==> final(self)@ == old(self)@ && r == Err::<
                (),
                IndexError,
            >(
                IndexError::CorruptPage {
                    page_id: PageId(u64_at(old(self)@, 8)),
                    reason: IndexFault::Full,
                },
            ),
            count_of(old(self)@) < LEAF_CAPACITY ==> final(self)@ == leaf_put(
                old(self)@,
                position as int,
                key,
                value,
            ) && r == Ok::<(), IndexError>(()),
            leaf_ok(final(self)@),
            final(final(self).bytes)@ == final(old(self).bytes)@,
    {
        if self.is_full() {
            return Err(
                IndexError::CorruptPage {
                    page_id: self.as_ref().page_id(),
                    reason: IndexFault::Full,
                },
            );
        }
        let count: u16 = self.entry_count();
        proof {
            lemma_leaf_put(self@, position as int, key, value);
            law_key_round_trip(key);
            law_value_round_trip(value, false);
        }
        let mut entry = key.encode();
        let coded = value.encode(false);
        push_bytes(&mut entry, coded.as_slice());
        insert_row(
            self.bytes,
            LEAF_ENTRY_OFFSET,
            LEAF_ENTRY_SIZE,
            count,
            position,
            entry.as_slice(),
        );
        Ok(())
    }

    /// Inserts an entry. A live entry with the key stands against it; a
    /// removed one is revived in place. A full leaf has no room for a new key.
    pub fn insert(&mut self, key: PrimaryKey, value: PageSlot) -> (r: Result<(), IndexError>)
        requires
            leaf_ok(old(self)@),
        ensures
            (final(self)@, r) == leaf_insert_result(old(self)@, key, value),
            leaf_ok(final(self)@),
            final(final(self).bytes)@ == final(old(self).bytes)@,
    {
        match self.as_ref().binary_search(key) {
            Err(e) => Err(e),
            Ok(Found::At(i)) => {
                proof {
                    lemma_leaf_key(self@, i as int);
                }
                let at: usize = LEAF_ENTRY_OFFSET + LEAF_ENTRY_SIZE * i as usize
                    + PRIMARY_KEY_SIZE;
                let (_, dead) = PageSlot::decode_at(self.bytes, at);
                if dead {
                    self.set_value(i, value, false);
                    Ok(())
                } else {
                    Err(IndexError::DuplicateKey { key })
                }
            },
            Ok(Found::Before(p)) => self.insert_at(p, key, value),
        }
    }

    /// Inserts an entry, or replaces the value of the one with the key.
    /// Gives the live value that was replaced.
    pub fn upsert(&mut self, key: PrimaryKey, value: PageSlot) -> (r: Result<
        Option<PageSlot>,
        IndexError,
    >)
        requires
            leaf_ok(old(self)@),
        ensures
            (final(self)@, r) == leaf_upsert_result(old(self)@, key, value),
            leaf_ok(final(self)@),
            final(final(self).bytes)@ == final(old(self).bytes)@,
    {
        match self.as_ref().binary_search(key) {
            Err(e) => Err(e),
            Ok(Found::At(i)) => {
                proof {
                    lemma_leaf_key(self@, i as int);
                }
                let at: usize = LEAF_ENTRY_OFFSET + LEAF_ENTRY_SIZE * i as usize
                    + PRIMARY_KEY_SIZE;
                let (old_value, dead) = PageSlot::decode_at(self.bytes, at);
                self.set_value(i, value, false);
                if dead {
                    Ok(None)
                } else {
                    Ok(Some(old_value))
                }
            },
            Ok(Found::Before(p)) => match self.insert_at(p, key, value) {
                Err(e) => Err(e),
                Ok(_) => Ok(None),
            },
        }
    }

    /// Marks the entry of a key as removed. Gives the live value it had.
    pub fn remove(&mut self, key: PrimaryKey) -> (r: Result<Option<PageSlot>, IndexError>)
        requires
            leaf_ok(old(self)@),
        ensures
            (final(self)@, r) == leaf_remove_result(old(self)@, key),
            leaf_ok(final(self)@),
            final(final(self).bytes)@ == final(old(self).bytes)@,
    {
        match self.as_ref().binary_search(key) {
            Err(e) => Err(e),
            Ok(Found::At(i)) => {
                proof {
                    lemma_leaf_key(self@, i as int);
                }
                let at: usize = LEAF_ENTRY_OFFSET + LEAF_ENTRY_SIZE * i as usize
                    + PRIMARY_KEY_SIZE;
                let (old_value, dead) = PageSlot::decode_at(self.bytes, at);
                if dead {
                    return Ok(None);
                }
                self.set_value(i, old_value, true);
                Ok(Some(old_value))
            },
            Ok(Found::Before(_)) => Ok(None),
        }
    }

    /// The page's bytes.
    pub fn page_bytes(&self) -> (b: &[u8])
        ensures
            b@ == self@,
    {
        &*self.bytes
    }

    /// Splits the leaf: it keeps the lower half of its entries, and the upper
    /// half becomes a page of its own, which is given back with its first key.
    pub fn split_into(&mut self, new_page_id: PageId) -> (r: Result<
        (Vec<u8>, PrimaryKey),
        IndexError,
    >)
        requires
            leaf_ok(old(self)@),
        ensures
            leaf_ok(final(self)@),
            count_of(old(self)@) < 2 ==> final(self)@ == old(self)@ && r == Err::<
                (Vec<u8>, PrimaryKey),
                IndexError,
            >(
                IndexError::CorruptPage {
                    page_id: PageId(u64_at(old(self)@, 8)),
                    reason: IndexFault::TooFewToSplit { have: count_of(old(self)@) },
                },
            ),
            count_of(old(self)@) >= 2 ==> {
                let key = decode_key(leaf_high(old(self)@, new_page_id.0), 40);
                &&& final(self)@ == leaf_low(old(self)@)
                &&& match r {
                    Ok((page, first)) => page@ == leaf_high(old(self)@, new_page_id.0)
                        && key == Ok::<PrimaryKey, IndexError>(first),
                    Err(e) => key == Err::<PrimaryKey, IndexError>(e),
                }
            },
            final(final(self).bytes)@ == final(old(self).bytes)@,
    {
        let count: u16 = self.entry_count();
        if count < 2 {
            return Err(
                IndexError::CorruptPage {
                    page_id: self.as_ref().page_id(),
                    reason: IndexFault::TooFewToSplit { have: count },
                },
            );
        }
        proof {
            lemma_leaf_halves(self@, new_page_id.0);
        }
        let split_at: u16 = count / 2;
        let from: usize = LEAF_ENTRY_OFFSET + LEAF_ENTRY_SIZE * split_at as usize;
        let to: usize = LEAF_ENTRY_OFFSET + LEAF_ENTRY_SIZE * count as usize;
        let body = copy_range(self.bytes, from, to);
        let mut header = PageHeader::new(new_page_id, PageType::IndexLeaf, TenantId::system());
        header.slot_count = count - split_at;
        let empty: Vec<u8> = Vec::new();
        let page = build_page(&header, empty.as_slice(), body.as_slice());
        assert(empty@ =~= Seq::<u8>::empty());
        assert(page@ == leaf_high(self@, new_page_id.0));
        cut_rows(self.bytes, LEAF_ENTRY_OFFSET, LEAF_ENTRY_SIZE, count, split_at);
        match PrimaryKey::decode_at(page.as_slice(), LEAF_ENTRY_OFFSET) {
            Err(e) => Err(e),
            Ok(first) => Ok((page, first)),
        }
    }
}

proof fn lemma_header_written(b: Seq<u8>, h: PageHeader)
    requires
        b.len() == PAGE_SIZE,
    ensures
        header_bytes(h).len() == PAGE_HEADER_SIZE,
        header_of(splice(b, 0, header_bytes(h))) == h,
{
    let s = header_bytes(h);
    let c = splice(b, 0, s);
    law_header_round_trip(h);
    lemma_u32_at_same(c, 0, s, 0);
    lemma_u16_at_same(c, 6, s, 6);
    lemma_u64_at_same(c, 8, s, 8);
    lemma_u64_at_same(c, 16, s, 16);
    lemma_u64_at_same(c, 24, s, 24);
    lemma_u32_at_same(c, 32, s, 32);
    lemma_u16_at_same(c, 36, s, 36);
    lemma_u16_at_same(c, 38, s, 38);
}

/// What looking for the child of a key yields.
pub open spec fn find_child_result(b: Seq<u8>, key: PrimaryKey) -> Result<PageId, IndexError> {
    match node_probe(b, 0, count_of(b) as int, key) {
        Err(e) => Err(e),
        Ok(n) => if n == 0 {
            Ok(PageId(first_child(b)))
        } else {
            match decode_key(b, row_start(48, 32, n - 1)) {
                Err(e) => Err(e),
                Ok(_) => Ok(PageId(u64_at(b, row_start(48, 32, n - 1) + 24))),
            }
        },
    }
}

/// What inserting into an inner page yields: the page after it, and the
/// result.
pub open spec fn node_insert_result(b: Seq<u8>, key: PrimaryKey, child: u64) -> (
    Seq<u8>,
    Result<(), IndexError>,
) {
    if count_of(b) >= INTERNAL_CAPACITY {
        (
            b,
            Err(
                IndexError::CorruptPage {
                    page_id: PageId(u64_at(b, 8)),
                    reason: IndexFault::Full,
                },
            ),
        )
    } else {
        match node_scan(b, 0, key) {
            Err(e) => (b, Err(e)),
            Ok(p) => (node_put(b, p, key, child), Ok(())),
        }
    }
}

/// An inner page, to be read.
#[derive(Clone, Copy, Debug)]
pub struct InternalPageRef<'a> {
    /// The page's bytes.
    pub bytes: &'a [u8],
}

impl<'a> InternalPageRef<'a> {
    /// Attaches to an inner page.
    pub fn open(bytes: &'a [u8]) -> (r: Result<InternalPageRef<'a>, IndexError>)
        requires
            bytes@.len() == PAGE_SIZE,
        ensures
            r is Ok <==> node_attach(bytes@) is Ok,
            r matches Ok(p) ==> p.bytes@ == bytes@,
            r matches Err(e) ==> node_attach(bytes@) == Err::<(), IndexError>(e),
    {
        match read_header(bytes) {
            Err(e) => Err(e),
            Ok(h) => {
                if h.page_type != PageType::IndexInternal.as_byte() {
                    return Err(
                        IndexError::CorruptPage {
                            page_id: PageId(h.page_id),
                            reason: IndexFault::NotInternal { got: h.page_type },
                        },
                    );
                }
                Ok(InternalPageRef { bytes })
            },
        }
    }

    /// The number of the page.
    pub fn page_id(&self) -> (id: PageId)
        requires
            self.bytes@.len() == PAGE_SIZE,
        ensures
            id.0 == u64_at(self.bytes@, 8),
    {
        PageId(get_u64(self.bytes, 8))
    }

    /// The number of pairs of a key and a child.
    pub fn entry_count(&self) -> (n: u16)
        requires
            self.bytes@.len() == PAGE_SIZE,
        ensures
            n == count_of(self.bytes@),
    {
        get_u16(self.bytes, 36)
    }

    /// The child below every key of the page.
    pub fn first_child(&self) -> (id: PageId)
        requires
            self.bytes@.len() == PAGE_SIZE,
        ensures
            id.0 == first_child(self.bytes@),
    {
        PageId(get_u64(self.bytes, INTERNAL_FIRST_CHILD_OFFSET))
    }

    /// A pair: its key, and the child that starts at the key.
    pub fn entry(&self, index: u16) -> (r: Result<(PrimaryKey, PageId), IndexError>)
        requires
            node_ok(self.bytes@),
        ensures
            r == if index >= count_of(self.bytes@) {
                Err(
                    IndexError::CorruptPage {
                        page_id: PageId(u64_at(self.bytes@, 8)),
                        reason: IndexFault::EntryOutOfRange {
                            index,
                            count: count_of(self.bytes@),
                        },
                    },
                )
            } else {
                let at = row_start(48, 32, index as int);
                match decode_key(self.bytes@, at) {
                    Err(e) => Err(e),
                    Ok(key) => Ok((key, PageId(u64_at(self.bytes@, at + 24)))),
                }
            },
    {
        let count: u16 = self.entry_count();
        if index >= count {
            return Err(
                IndexError::CorruptPage {
                    page_id: self.page_id(),
                    reason: IndexFault::EntryOutOfRange { index, count },
                },
            );
        }
        proof {
            lemma_node_key(self.bytes@, index as int);
        }
        let at: usize = INTERNAL_ENTRY_OFFSET + INTERNAL_ENTRY_SIZE * index as usize;
        match PrimaryKey::decode_at(self.bytes, at) {
            Err(e) => Err(e),
            Ok(key) => Ok((key, PageId(get_u64(self.bytes, at + PRIMARY_KEY_SIZE)))),
        }
    }

    /// The child in which a key belongs: the last one whose key is not above
    /// it, or the first child.
    pub fn find_child(&self, needle: PrimaryKey) -> (r: Result<PageId, IndexError>)
        requires
            node_ok(self.bytes@),
        ensures
            r == find_child_result(self.bytes@, needle),
    {
        let mut lo: u16 = 0;
        let mut hi: u16 = self.entry_count();
        while lo < hi
            invariant
                node_ok(self.bytes@),
                lo <= hi <= count_of(self.bytes@),
                node_probe(self.bytes@, 0, count_of(self.bytes@) as int, needle) == node_probe(
                    self.bytes@,
                    lo as int,
                    hi as int,
                    needle,
                ),
            decreases hi - lo,
        {
            let mid: u16 = (lo + hi) / 2;
            match self.entry(mid) {
                Err(e) => {
                    return Err(e);
                },
                Ok((key, _)) => {
                    if !needle.precedes(key) {
                        lo = mid + 1;
                    } else {
                        hi = mid;
                    }
                },
            }
        }
        if lo == 0 {
            Ok(self.first_child())
        } else {
            match self.entry(lo - 1) {
                Err(e) => Err(e),
                Ok((_, child)) => Ok(child),
            }
        }
    }

    /// Whether no pair fits any more.
    pub fn is_full(&self) -> (r: bool)
        requires
            self.bytes@.len() == PAGE_SIZE,
        ensures
            r == (count_of(self.bytes@) >= INTERNAL_CAPACITY),
    {
        self.entry_count() >= INTERNAL_CAPACITY
    }
}

/// An inner page, to be changed. The caller holds the bytes alone.
#[derive(Debug)]
pub struct InternalPageMut<'a> {
    /// The page's bytes.
    pub bytes: &'a mut [u8],
}

impl<'a> View for InternalPageMut<'a> {
    type V = Seq<u8>;

    open spec fn view(&self) -> Seq<u8> {
        self.bytes@
    }
}

impl<'a> InternalPageMut<'a> {
    /// Makes the page an inner page with one child and no pair. Only the
    /// header and the child are written.
    pub fn init(bytes: &'a mut [u8], page_id: PageId, first: PageId) -> (p: InternalPageMut<'a>)
        requires
            old(bytes)@.len() == PAGE_SIZE,
        ensures
            p@ == splice(
                splice(
                    old(bytes)@,
                    0,
                    header_bytes(index_header(page_id.0, PageType::IndexInternal, 0)),
                ),
                40,
                le64(first.0),
            ),
            node_ok(p@),
            count_of(p@) == 0,
            first_child(p@) == first.0,
            final(p.bytes)@ == final(bytes)@,
    {
        broadcast use group_codec;

        let header = PageHeader::new(page_id, PageType::IndexInternal, TenantId::system());
        let head = header.to_bytes();
        proof {
            lemma_header_written(bytes@, header);
        }
        put_bytes(bytes, 0, head.as_slice());
        put_u64(bytes, INTERNAL_FIRST_CHILD_OFFSET, first.0);
        InternalPageMut { bytes }
    }

    /// Attaches to an inner page.
    pub fn open(bytes: &'a mut [u8]) -> (r: Result<InternalPageMut<'a>, IndexError>)
        requires
            old(bytes)@.len() == PAGE_SIZE,
        ensures
            r is Ok <==> node_attach(old(bytes)@) is Ok,
            r matches Ok(p) ==> p@ == old(bytes)@ && final(p.bytes)@ == final(bytes)@,
            r matches Err(e) ==> node_attach(old(bytes)@) == Err::<(), IndexError>(e),
            r is Err ==> final(bytes)@ == old(bytes)@,
    {
        match InternalPageRef::open(bytes) {
            Err(e) => Err(e),
            Ok(_) => Ok(InternalPageMut { bytes }),
        }
    }

    /// This page, to be read.
    pub fn as_ref(&self) -> (r: InternalPageRef<'_>)
        ensures
            r.bytes@ == self@,
    {
        InternalPageRef { bytes: &*self.bytes }
    }

    /// The number of pairs of a key and a child.
    pub fn entry_count(&self) -> (n: u16)
        requires
            self@.len() == PAGE_SIZE,
        ensures
            n == count_of(self@),
    {
        self.as_ref().entry_count()
    }

    /// Whether no pair fits any more.
    pub fn is_full(&self) -> (r: bool)
        requires
            self@.len() == PAGE_SIZE,
        ensures
            r == (count_of(self@) >= INTERNAL_CAPACITY),
    {
        self.entry_count() >= INTERNAL_CAPACITY
    }

    /// The page's bytes.
    pub fn page_bytes(&self) -> (b: &[u8])
        ensures
            b@ == self@,
    {
        &*self.bytes
    }

    /// Inserts a pair in the order of the keys. The key must be new, and the
    /// page must have room.
    pub fn insert(&mut self, key: PrimaryKey, right_child: PageId) -> (r: Result<(), IndexError>)
        requires
            node_ok(old(self)@),
        ensures
            (final(self)@, r) == node_insert_result(old(self)@, key, right_child.0),
            node_ok(final(self)@),
            final(final(self).bytes)@ == final(old(self).bytes)@,
    {
        broadcast use group_codec;

        if self.is_full() {
            return Err(
                IndexError::CorruptPage {
                    page_id: self.as_ref().page_id(),
                    reason: IndexFault::Full,
                },
            );
        }
        let count: u16 = self.entry_count();
        let ghost b = self@;
        let mut p: u16 = 0;
        let mut placed = false;
        while p < count && !placed
            invariant
                self@ == b,
                node_ok(b),
                count == count_of(b),
                p <= count,
                !placed ==> node_scan(b, 0, key) == node_scan(b, p as int, key),
                placed ==> node_scan(b, 0, key) == Ok::<int, IndexError>(p as int),
                final(self.bytes)@ == final(old(self).bytes)@,
                b == old(self)@,
                count < INTERNAL_CAPACITY,
            decreases
                count - p,
                if placed {
                    0int
                } else {
                    1int
                },
        {
            match self.as_ref().entry(p) {
                Err(e) => {
                    return Err(e);
                },
                Ok((k, _)) => {
                    if k.precedes(key) {
                        p = p + 1;
                    } else if key.precedes(k) {
                        placed = true;
                    } else {
                        return Err(IndexError::DuplicateKey { key });
                    }
                },
            }
        }
        assert(node_scan(b, 0, key) == Ok::<int, IndexError>(p as int));
        proof {
            lemma_node_put(b, p as int, key, right_child.0);
            law_key_round_trip(key);
        }
        let mut pair = key.encode();
        push_u64(&mut pair, right_child.0);
        insert_row(
            self.bytes,
            INTERNAL_ENTRY_OFFSET,
            INTERNAL_ENTRY_SIZE,
            count,
            p,
            pair.as_slice(),
        );
        Ok(())
    }

    /// Splits the page: it keeps the pairs below the middle one, and those
    /// above it become a page of their own, which is given back with the
    /// middle key. The child of the middle pair is the new page's first one.
    pub fn split_into(&mut self, new_page_id: PageId) -> (r: Result<
        (Vec<u8>, PrimaryKey),
        IndexError,
    >)
        requires
            node_ok(old(self)@),
        ensures
            node_ok(final(self)@),
            count_of(old(self)@) < 2 ==> final(self)@ == old(self)@ && r == Err::<
                (Vec<u8>, PrimaryKey),
                IndexError,
            >(
                IndexError::CorruptPage {
                    page_id: PageId(u64_at(old(self)@, 8)),
                    reason: IndexFault::TooFewToSplit { have: count_of(old(self)@) },
                },
            ),
            count_of(old(self)@) >= 2 ==> {
                let key = decode_key(
                    old(self)@,
                    row_start(48, 32, count_of(old(self)@) as int / 2),
                );
                match r {
                    Ok((page, middle)) => final(self)@ == node_low(old(self)@) && page@
                        == node_high(old(self)@, new_page_id.0) && key == Ok::<
                        PrimaryKey,
                        IndexError,
                    >(middle),
                    Err(e) => final(self)@ == old(self)@ && key == Err::<PrimaryKey, IndexError>(e),
                }
            },
            final(final(self).bytes)@ == final(old(self).bytes)@,
    {
        broadcast use group_codec;

        let count: u16 = self.entry_count();
        if count < 2 {
            return Err(
                IndexError::CorruptPage {
                    page_id: self.as_ref().page_id(),
                    reason: IndexFault::TooFewToSplit { have: count },
                },
            );
        }
        let ghost b = self@;
        let mid: u16 = count / 2;
        proof {
            lemma_node_halves(b, new_page_id.0);
            lemma_node_key(b, mid as int);
        }
        let (middle, child) = match self.as_ref().entry(mid) {
            Err(e) => {
                return Err(e);
            },
            Ok(pair) => pair,
        };
        let from: usize = INTERNAL_ENTRY_OFFSET + INTERNAL_ENTRY_SIZE * (mid as usize + 1);
        let to: usize = INTERNAL_ENTRY_OFFSET + INTERNAL_ENTRY_SIZE * count as usize;
        let body = copy_range(self.bytes, from, to);
        let mut header = PageHeader::new(new_page_id, PageType::IndexInternal, TenantId::system());
        header.slot_count = count - mid - 1;
        let mut front: Vec<u8> = Vec::new();
        push_u64(&mut front, child.0);
        assert(front@ =~= le64(child.0));
        let page = build_page(&header, front.as_slice(), body.as_slice());
        assert(page@ == node_high(b, new_page_id.0));
        cut_rows(self.bytes, INTERNAL_ENTRY_OFFSET, INTERNAL_ENTRY_SIZE, count, mid);
        Ok((page, middle))
    }
}

} // verus!
