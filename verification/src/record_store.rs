//! The pages of node and relationship records, kept in memory.
use dashmap::DashMap;
use vstd::prelude::*;

use crate::dash::{
    no_pages, pages_contains, pages_get, pages_insert, pages_keys, pages_len, pages_new, pages_of,
    pages_remove,
};
use crate::delta::{DeltaPageStore, StoreFailure};
use crate::ids::{PageId, TenantId};
use crate::index_rows::copy_range;
use crate::index_store::{lists_pages, pages_whole};
use crate::mutation_log::{log_capture, log_fresh, PageStoreKind, TxnMutationLog};
use crate::page_visit::{stream_pages, streamed, PageVisitor};
use crate::page::{
    page_type_byte, PageHeader, PageType, PAGE_MAGIC, PAGE_SIZE, PAGE_VERSION,
};
use crate::records::SlottedPage;
use crate::slot_model::{fresh_page, PageError};

verus! {

/// Why an operation on the store failed.
#[derive(Clone, Copy, Debug, PartialEq, Eq, Structural)]
#[non_exhaustive]
#[allow(inconsistent_fields)]
pub enum RecordStoreError {
    /// There is no page under this number.
    MissingPage(PageId),
    /// There is a page under this number already.
    DuplicatePage(PageId),
    /// The store holds pages of nodes and of relationships only.
    UnsupportedPageType {
        /// The byte of the page's type.
        got: u8,
    },
    /// A page could not be made or read.
    Codec(PageError),
}

/// The pages of records by their numbers.
pub struct RecordPageStore {
    pages: DashMap<u64, Vec<u8>>,
}

impl RecordPageStore {
    /// The pages.
    pub closed spec fn pages(self) -> Map<u64, Seq<u8>> {
        pages_of(self.pages)
    }

    /// Every page has the length of a page.
    #[verifier::type_invariant]
    spec fn whole_pages(self) -> bool {
        pages_whole(pages_of(self.pages))
    }

    /// A store without a page.
    pub fn new() -> (s: RecordPageStore)
        ensures
            s.pages() == no_pages(),
    {
        RecordPageStore { pages: pages_new() }
    }

    /// Puts a page under its number. The map is taken out of the store while
    /// it changes.
    fn put(&mut self, page_id: PageId, page: Vec<u8>)
        requires
            page@.len() == PAGE_SIZE,
        ensures
            final(self).pages() == old(self).pages().insert(page_id.0, page@),
    {
        proof {
            use_type_invariant(&*self);
        }
        let mut pages = pages_new();
        std::mem::swap(&mut pages, &mut self.pages);
        pages_insert(&mut pages, page_id.0, page);
        self.pages = pages;
    }

    /// The number of pages.
    pub fn len(&self) -> (n: usize)
        ensures
            n == self.pages().len(),
    {
        pages_len(&self.pages)
    }

    /// Whether there is no page.
    pub fn is_empty(&self) -> (r: bool)
        ensures
            r == (self.pages() == no_pages()),
    {
        pages_len(&self.pages) == 0
    }

    /// Every page, in no particular order.
    pub fn iter_pages(&self) -> (out: Vec<(PageId, Vec<u8>)>)
        ensures
            lists_pages(out@, self.pages()),
            out@.len() == self.pages().len(),
            pages_whole(self.pages()),
    {
        proof {
            use_type_invariant(self);
        }
        let keys = pages_keys(&self.pages);
        let mut out: Vec<(PageId, Vec<u8>)> = Vec::new();
        let mut i: usize = 0;
        while i < keys.len()
            invariant
                i <= keys@.len(),
                out@.len() == i,
                forall|j: int|
                    0 <= j < keys@.len() ==> self.pages().contains_key(#[trigger] keys@[j]),
                forall|j: int|
                    0 <= j < i ==> (#[trigger] out@[j]).0.0 == keys@[j] && out@[j].1@
                        == self.pages()[keys@[j]],
            decreases keys@.len() - i,
        {
            match pages_get(&self.pages, keys[i]) {
                Some(bytes) => {
                    out.push((PageId(keys[i]), bytes));
                },
                None => {
                    assert(false);
                },
            }
            i += 1;
        }
        proof {
            let pages = self.pages();
            assert forall|page: u64| #[trigger] pages.contains_key(page) implies exists|i: int|
                0 <= i < out@.len() && (#[trigger] out@[i]).0.0 == page by {
                let i = choose|i: int| 0 <= i < keys@.len() && keys@[i] == page;
                assert(out@[i].0.0 == page);
            }
            assert forall|i: int, j: int| 0 <= i < j < out@.len() implies (#[trigger] out@[i]).0 != (
            #[trigger] out@[j]).0 by {
                assert(keys@[i] != keys@[j]);
            }
            assert(keys@.to_set() =~= pages.dom());
            assert(keys@.no_duplicates());
            keys@.unique_seq_to_set();
        }
        out
    }

    /// Every page that is in memory, and those that are not: in this store
    /// every page is.
    pub fn iter_pages_resident_only(&self) -> (r: (Vec<(PageId, Vec<u8>)>, Vec<PageId>))
        ensures
            lists_pages(r.0@, self.pages()),
            r.1@.len() == 0,
    {
        (self.iter_pages(), Vec::new())
    }

    /// Streams the pages in memory, each of them once, until one is not taken.
    /// Gives the pages that are not in memory: in this store there is none.
    pub fn for_each_resident_page<E, V: PageVisitor<E>>(&self, visitor: &mut V) -> (r: Result<
        Vec<PageId>,
        E,
    >)
        requires
            old(visitor).ready(),
        ensures
            final(visitor).ready(),
            r matches Ok(missing) ==> missing@.len() == 0,
            exists|list: Seq<(PageId, Vec<u8>)>|
                {
                    &&& #[trigger] lists_pages(list, self.pages())
                    &&& list.len() == self.pages().len()
                    &&& streamed(
                        list,
                        old(visitor).visits(),
                        final(visitor).visits(),
                        match r {
                            Ok(_) => Ok(()),
                            Err(e) => Err(e),
                        },
                    )
                },
    {
        let list = self.iter_pages();
        match stream_pages(&list, visitor) {
            Err(e) => Err(e),
            Ok(done) => {
                assert(done == ());
                Ok(Vec::new())
            },
        }
    }

    /// The number of pages that are in memory.
    pub fn resident_page_count(&self) -> (n: usize)
        ensures
            n == self.pages().len(),
    {
        pages_len(&self.pages)
    }

    /// A copy of a page.
    pub fn latch(&self, page_id: PageId) -> (r: Result<Vec<u8>, RecordStoreError>)
        ensures
            match r {
                Ok(b) => self.pages().contains_pair(page_id.0, b@) && b@.len() == PAGE_SIZE,
                Err(e) => !self.pages().contains_key(page_id.0) && e == RecordStoreError::MissingPage(
                    page_id,
                ),
            },
    {
        proof {
            use_type_invariant(self);
        }
        match pages_get(&self.pages, page_id.0) {
            Some(b) => Ok(b),
            None => Err(RecordStoreError::MissingPage(page_id)),
        }
    }

    /// Adds an empty page of nodes or of relationships.
    pub fn install_fresh(&mut self, page_id: PageId, page_type: PageType, tenant: TenantId) -> (r:
        Result<(), RecordStoreError>)
        ensures
            r == install_result(old(self).pages(), page_id, page_type),
            final(self).pages() == if r is Ok {
                old(self).pages().insert(page_id.0, empty_page(page_id, page_type, tenant))
            } else {
                old(self).pages()
            },
    {
        match page_type {
            PageType::Node | PageType::Rel => {},
            other => {
                return Err(RecordStoreError::UnsupportedPageType { got: other.as_byte() });
            },
        }
        let mut buf: Vec<u8> = Vec::new();
        while buf.len() < PAGE_SIZE
            invariant
                buf@.len() <= PAGE_SIZE,
            decreases PAGE_SIZE - buf@.len(),
        {
            buf.push(0);
        }
        let header = PageHeader::new(page_id, page_type, tenant);
        match SlottedPage::init(buf.as_mut_slice(), header) {
            Err(e) => {
                return Err(RecordStoreError::Codec(e));
            },
            Ok(_) => {},
        }
        if pages_contains(&self.pages, page_id.0) {
            return Err(RecordStoreError::DuplicatePage(page_id));
        }
        self.put(page_id, buf);
        Ok(())
    }

    /// Adds a page, or puts it in the place of the one that is there.
    pub fn install_or_replace(&mut self, page_id: PageId, page: Vec<u8>) -> (r: Result<
        (),
        RecordStoreError,
    >)
        requires
            page@.len() == PAGE_SIZE,
        ensures
            r is Ok,
            final(self).pages() == old(self).pages().insert(page_id.0, page@),
    {
        self.put(page_id, page);
        Ok(())
    }

    /// Notes a page in the log as it is, and gives a copy of it.
    pub fn capture_and_write(&self, log: &mut TxnMutationLog, page_id: PageId) -> (r: Result<
        Vec<u8>,
        RecordStoreError,
    >)
        ensures
            match r {
                Ok(b) => self.pages().contains_pair(page_id.0, b@) && final(log)@ == log_capture(
                    old(log)@,
                    PageStoreKind::Record,
                    page_id.0,
                    b@,
                ),
                Err(e) => !self.pages().contains_key(page_id.0) && e == RecordStoreError::MissingPage(
                    page_id,
                ) && final(log)@ == old(log)@,
            },
    {
        let bytes = match self.latch(page_id) {
            Err(e) => {
                return Err(e);
            },
            Ok(b) => b,
        };
        log.capture(PageStoreKind::Record, page_id, bytes.as_slice());
        Ok(bytes)
    }

    /// Adds an empty page and notes in the log that it is new.
    pub fn install_fresh_for_txn(
        &mut self,
        log: &mut TxnMutationLog,
        page_id: PageId,
        page_type: PageType,
        tenant: TenantId,
    ) -> (r: Result<(), RecordStoreError>)
        ensures
            r == install_result(old(self).pages(), page_id, page_type),
            r is Ok ==> final(self).pages() == old(self).pages().insert(
                page_id.0,
                empty_page(page_id, page_type, tenant),
            ),
            r is Ok ==> final(log)@ == log_fresh(old(log)@, PageStoreKind::Record, page_id.0),
            r is Err ==> final(self).pages() == old(self).pages() && final(log)@ == old(log)@,
    {
        match self.install_fresh(page_id, page_type, tenant) {
            Err(e) => Err(e),
            Ok(_) => {
                log.note_new_page(PageStoreKind::Record, page_id);
                Ok(())
            },
        }
    }

    /// Takes a page out.
    pub fn remove_page(&mut self, page_id: PageId) -> (r: Option<Vec<u8>>)
        ensures
            match r {
                Some(b) => old(self).pages().contains_pair(page_id.0, b@),
                None => !old(self).pages().contains_key(page_id.0),
            },
            final(self).pages() == old(self).pages().remove(page_id.0),
    {
        proof {
            use_type_invariant(&*self);
        }
        let mut pages = pages_new();
        std::mem::swap(&mut pages, &mut self.pages);
        let taken = pages_remove(&mut pages, page_id.0);
        self.pages = pages;
        taken
    }

    /// Gives a page the bytes it had before.
    pub fn restore_page_bytes(&mut self, page_id: PageId, pre_bytes: &[u8]) -> (r: Result<
        (),
        RecordStoreError,
    >)
        requires
            pre_bytes@.len() == PAGE_SIZE,
        ensures
            r == if old(self).pages().contains_key(page_id.0) {
                Ok::<(), RecordStoreError>(())
            } else {
                Err(RecordStoreError::MissingPage(page_id))
            },
            final(self).pages() == if r is Ok {
                old(self).pages().insert(page_id.0, pre_bytes@)
            } else {
                old(self).pages()
            },
    {
        if !pages_contains(&self.pages, page_id.0) {
            return Err(RecordStoreError::MissingPage(page_id));
        }
        let copy = copy_range(pre_bytes, 0, pre_bytes.len());
        assert(copy@ =~= pre_bytes@);
        self.put(page_id, copy);
        Ok(())
    }

    /// Whether there is a page under this number.
    pub fn contains(&self, page_id: PageId) -> (r: bool)
        ensures
            r == self.pages().contains_key(page_id.0),
    {
        pages_contains(&self.pages, page_id.0)
    }
}

/// What adding an empty page yields.
pub open spec fn install_result(
    pages: Map<u64, Seq<u8>>,
    page_id: PageId,
    page_type: PageType,
) -> Result<(), RecordStoreError> {
    if !(page_type is Node) && !(page_type is Rel) {
        Err(RecordStoreError::UnsupportedPageType { got: page_type_byte(page_type) })
    } else if pages.contains_key(page_id.0) {
        Err(RecordStoreError::DuplicatePage(page_id))
    } else {
        Ok(())
    }
}

/// An empty page of records.
pub open spec fn empty_page(page_id: PageId, page_type: PageType, tenant: TenantId) -> Seq<u8> {
    fresh_page(
        PageHeader {
            magic: PAGE_MAGIC,
            version: PAGE_VERSION,
            page_type: page_type_byte(page_type),
            flags: 0,
            page_id: page_id.0,
            lsn: 0,
            tenant_id: tenant.0,
            checksum: 0,
            slot_count: 0,
            free_space: 0,
        },
    )
}

impl DeltaPageStore for RecordPageStore {
    open spec fn page(&self, tenant: u64, page_no: u64) -> Option<Seq<u8>> {
        if self.pages().contains_key(page_no) {
            Some(self.pages()[page_no])
        } else {
            None
        }
    }

    /// Reads a page; the numbers are those of all tenants together.
    fn read_page_for_redo(&self, tenant: TenantId, page_id: PageId) -> (r: Result<
        Option<Vec<u8>>,
        StoreFailure,
    >)
        ensures
            r is Ok,
    {
        proof {
            use_type_invariant(self);
        }
        Ok(pages_get(&self.pages, page_id.0))
    }

    fn install_page_from_redo(&mut self, tenant: TenantId, page_id: PageId, page: Vec<u8>) -> (r:
        Result<(), StoreFailure>)
        ensures
            r is Ok,
    {
        self.put(page_id, page);
        Ok(())
    }
}

} // verus!
