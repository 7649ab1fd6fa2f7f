//! What the page stores, the log of a transaction and the streams of pages do,
//! said by the pages themselves.
use vstd::prelude::*;

use crate::checksum::crc32c_of;
use crate::codec::{
    lemma_u16_at_same, lemma_u32_at_same, lemma_u64_at_same, u16_at, u32_at, u64_at,
};
use crate::ids::{PageId, TenantId};
use crate::index_model::{IndexError, IndexFault};
use crate::index_store::{lists_pages, pages_whole};
use crate::mutation_log::{
    captured, empty_log, log_capture, log_fresh, log_root, noted_bytes, rolled_back, IndexHandle,
    LogModel, PageStoreKind, TxnMutationLog,
};
use crate::page::{decode_header, header_bytes, law_header_round_trip, PageHeader, PageType};
use crate::page_laws::law_header_layout;
use crate::page_visit::{streamed, streamed_to, PageVisit};
use crate::record_store::{empty_page, RecordStoreError};
use crate::redo_laws::lemma_header_same;
use crate::slot_laws::law_fresh_page;
use crate::slot_model::{fresh_page, lemma_sealed, sealed};

verus! {

// ---- stores ---------------------------------------------------------------

/// A page of the index is added exactly where there is none under its number.
pub proof fn law_index_install(pages: Map<u64, Seq<u8>>, page_id: PageId)
    ensures
        crate::index_store::install_result(pages, page_id) is Ok <==> !pages.contains_key(
            page_id.0,
        ),
        pages.contains_key(page_id.0) ==> crate::index_store::install_result(pages, page_id)
            == Err::<(), IndexError>(
            IndexError::CorruptPage { page_id, reason: IndexFault::AlreadyMapped },
        ),
{
}

/// An empty page of records is added exactly where it is one of nodes or of
/// relationships and there is none under its number. The type is looked at first.
pub proof fn law_record_install(
    pages: Map<u64, Seq<u8>>,
    page_id: PageId,
    page_type: PageType,
)
    ensures
        ({
            let r = crate::record_store::install_result(pages, page_id, page_type);
            let takes = page_type == PageType::Node || page_type == PageType::Rel;
            &&& r is Ok <==> takes && !pages.contains_key(page_id.0)
            &&& takes && pages.contains_key(page_id.0) ==> r == Err::<(), RecordStoreError>(
                RecordStoreError::DuplicatePage(page_id),
            )
            &&& !takes ==> r is Err && r->Err_0 is UnsupportedPageType
        }),
{
}

/// A new page has the header that it was made with, no slot, and nothing but zeros
/// behind the header.
pub proof fn law_new_page(h: PageHeader)
    requires
        h.magic == 0x4743_5241,
        h.version == 1,
        1 <= h.page_type <= 7,
    ensures
        ({
            let page = fresh_page(h);
            &&& page.len() == 8192
            &&& decode_header(page) is Ok
            &&& page[5] == h.page_type
            &&& u16_at(page, 6) == h.flags
            &&& u64_at(page, 8) == h.page_id
            &&& u64_at(page, 16) == h.lsn
            &&& u64_at(page, 24) == h.tenant_id
            &&& u16_at(page, 36) == 0
            &&& u16_at(page, 38) == 8152
            &&& u32_at(page, 32) == crc32c_of(page.skip(40))
            &&& forall|k: int| 40 <= k < 8192 ==> #[trigger] page[k] == 0
        }),
{
    law_header_round_trip(h);
    law_fresh_page(h);
    let g = PageHeader { slot_count: 0, free_space: 8152, ..h };
    law_header_layout(g);
    let hb = header_bytes(g);
    let f = fresh_page(h);
    let u = hb + Seq::new(8152, |i: int| 0u8);
    assert(f == sealed(u));
    assert forall|k: int| 0 <= k < 40 implies #[trigger] u[k] == hb[k] by {}
    lemma_header_same(u, hb);
    lemma_sealed(u);
    assert forall|k: int| 0 <= k < 32 implies #[trigger] f[k] == u[k] by {}
    lemma_u32_at_same(f, 0, u, 0);
    lemma_u16_at_same(f, 6, u, 6);
    lemma_u64_at_same(f, 8, u, 8);
    lemma_u64_at_same(f, 16, u, 16);
    lemma_u64_at_same(f, 24, u, 24);
    lemma_u16_at_same(f, 36, u, 36);
    lemma_u16_at_same(f, 38, u, 38);
}

/// A new page of records is empty and names its number, its type and its tenant.
pub proof fn law_empty_page(page_id: PageId, page_type: PageType, tenant: TenantId)
    requires
        page_type == PageType::Node || page_type == PageType::Rel,
    ensures
        ({
            let page = empty_page(page_id, page_type, tenant);
            &&& page.len() == 8192
            &&& decode_header(page) is Ok
            &&& page[5] == (if page_type == PageType::Node {
                1u8
            } else {
                2u8
            })
            &&& u16_at(page, 6) == 0
            &&& u64_at(page, 8) == page_id.0
            &&& u64_at(page, 16) == 0
            &&& u64_at(page, 24) == tenant.0
            &&& u16_at(page, 36) == 0
            &&& u16_at(page, 38) == 8152
            &&& u32_at(page, 32) == crc32c_of(page.skip(40))
            &&& forall|k: int| 40 <= k < 8192 ==> #[trigger] page[k] == 0
        }),
{
    let h = PageHeader {
        magic: 0x4743_5241,
        version: 1,
        page_type: if page_type == PageType::Node {
            1
        } else {
            2
        },
        flags: 0,
        page_id: page_id.0,
        lsn: 0,
        tenant_id: tenant.0,
        checksum: 0,
        slot_count: 0,
        free_space: 0,
    };
    law_new_page(h);
}

/// A list of the pages of a store holds each page once, whole, with its own bytes,
/// and nothing else.
pub proof fn law_page_list(list: Seq<(PageId, Vec<u8>)>, pages: Map<u64, Seq<u8>>, page: u64)
    requires
        lists_pages(list, pages),
    ensures
        pages.contains_key(page) <==> exists|i: int|
            0 <= i < list.len() && (#[trigger] list[i]).0.0 == page,
        forall|i: int|
            0 <= i < list.len() && (#[trigger] list[i]).0.0 == page ==> list[i].1@ == pages[page],
        forall|i: int, j: int|
            0 <= i < list.len() && 0 <= j < list.len() && (#[trigger] list[i]).0.0 == (
            #[trigger] list[j]).0.0 ==> i == j,
        pages_whole(pages) && pages.contains_key(page) ==> pages[page].len() == 8192,
{
    assert forall|i: int, j: int|
        0 <= i < list.len() && 0 <= j < list.len() && (#[trigger] list[i]).0.0 == (
        #[trigger] list[j]).0.0 implies i == j by {
        if i < j {
            assert(list[i].0 != list[j].0);
        }
        if j < i {
            assert(list[j].0 != list[i].0);
        }
    }
    if exists|i: int| 0 <= i < list.len() && (#[trigger] list[i]).0.0 == page {
        let i = choose|i: int| 0 <= i < list.len() && (#[trigger] list[i]).0.0 == page;
        assert(pages.contains_pair(list[i].0.0, list[i].1@));
    }
}

// ---- streams --------------------------------------------------------------

/// Streamed pages come one by one in the order of the list, each with its own
/// bytes. Nothing that was shown before is forgotten. Where the stream came to its
/// end, every page was shown and taken; where it was stopped, the last page shown
/// is the one that was not taken, and those before it were.
pub proof fn law_stream<E>(
    list: Seq<(PageId, Vec<u8>)>,
    before: Seq<PageVisit<E>>,
    after: Seq<PageVisit<E>>,
    last: Result<(), E>,
    i: int,
)
    requires
        streamed(list, before, after, last),
        0 <= i < after.len() - before.len(),
    ensures
        before.len() <= after.len() <= before.len() + list.len(),
        after.take(before.len() as int) == before,
        after[before.len() + i].0 == list[i].0,
        after[before.len() + i].1 == list[i].1@,
        before.len() + i + 1 < after.len() ==> after[before.len() + i].2 is Ok,
        last is Ok ==> after.len() == before.len() + list.len() && after[before.len() + i].2 is Ok,
        last is Err ==> after.last().2 == last,
{
    let n = choose|n: int| #[trigger] streamed_to(list, before, after, last, n);
    assert(after.take(before.len() as int) =~= before);
}

/// A stream that was stopped has shown a page, and one that was not has shown as
/// many as there are.
pub proof fn law_stream_length<E>(
    list: Seq<(PageId, Vec<u8>)>,
    before: Seq<PageVisit<E>>,
    after: Seq<PageVisit<E>>,
    last: Result<(), E>,
)
    requires
        streamed(list, before, after, last),
    ensures
        last is Ok ==> after.len() == before.len() + list.len(),
        last is Err ==> before.len() < after.len() <= before.len() + list.len(),
{
}

// ---- the log of a transaction ---------------------------------------------

/// A log notes a page where it does not hold it yet, behind what it holds, with the
/// bytes given; where it does, the log stays as it is.
pub proof fn law_capture(log: LogModel, kind: PageStoreKind, page: u64, bytes: Seq<u8>)
    ensures
        ({
            let t = log_capture(log, kind, page, bytes);
            let held = exists|i: int|
                0 <= i < log.captures.len() && (#[trigger] log.captures[i]).kind == kind
                    && log.captures[i].page == page;
            &&& t.fresh == log.fresh
            &&& t.roots == log.roots
            &&& captured(t, kind, page)
            &&& held ==> t.captures == log.captures
            &&& !held ==> {
                &&& t.captures.len() == log.captures.len() + 1
                &&& t.captures.drop_last() == log.captures
                &&& t.captures.last().kind == kind
                &&& t.captures.last().page == page
                &&& t.captures.last().bytes == bytes
            }
        }),
{
    let t = log_capture(log, kind, page, bytes);
    if !captured(log, kind, page) {
        assert(t.captures.drop_last() =~= log.captures);
        assert(t.captures[log.captures.len() as int].kind == kind);
    }
}

/// The first bytes that were noted of a page count, however often it is noted.
pub proof fn law_first_capture_counts(
    log: LogModel,
    kind: PageStoreKind,
    page: u64,
    first: Seq<u8>,
    second: Seq<u8>,
)
    requires
        !captured(log, kind, page),
    ensures
        noted_bytes(
            log_capture(log_capture(log, kind, page, first), kind, page, second),
            kind,
            page,
        ) == first,
{
    let t = log_capture(log, kind, page, first);
    law_capture(log, kind, page, first);
    let i = choose|i: int|
        0 <= i < t.captures.len() && (#[trigger] t.captures[i]).kind == kind && t.captures[i].page
            == page;
    if i < log.captures.len() {
        assert(t.captures[i] == log.captures[i]);
        assert(captured(log, kind, page));
    }
}

/// A new page and a root are noted behind the others, and nothing else changes.
pub proof fn law_notes(log: LogModel, kind: PageStoreKind, index: IndexHandle, page: u64)
    ensures
        ({
            let t = log_fresh(log, kind, page);
            &&& t.fresh == log.fresh.push((kind, page))
            &&& t.captures == log.captures
            &&& t.roots == log.roots
        }),
        ({
            let t = log_root(log, index, page);
            &&& t.roots == log.roots.push((index, page))
            &&& t.captures == log.captures
            &&& t.fresh == log.fresh
        }),
        empty_log().captures.len() == 0 && empty_log().fresh.len() == 0 && empty_log().roots.len()
            == 0,
{
}

/// A page that is undone is gone where it was noted as new, has the bytes that were
/// noted where it was noted, and stays as it is otherwise.
pub proof fn law_undone_page(
    now: Map<u64, Seq<u8>>,
    kind: PageStoreKind,
    log: LogModel,
    page: u64,
)
    ensures
        ({
            let back = rolled_back(now, kind, log);
            &&& back.contains_key(page) <==> now.contains_key(page) && !log.fresh.contains(
                (kind, page),
            )
            &&& back.contains_key(page) && !captured(log, kind, page) ==> back[page] == now[page]
            &&& back.contains_key(page) && captured(log, kind, page) ==> exists|i: int|
                0 <= i < log.captures.len() && (#[trigger] log.captures[i]).kind == kind
                    && log.captures[i].page == page && log.captures[i].bytes == back[page]
        }),
{
}

/// What a log says is what its lists hold.
pub proof fn law_log_model(log: TxnMutationLog, i: int, j: int, k: int)
    requires
        0 <= i < log.page_mutations@.len(),
        0 <= j < log.new_pages@.len(),
        0 <= k < log.root_changes@.len(),
    ensures
        log@.captures.len() == log.page_mutations@.len(),
        log@.captures[i].kind == log.page_mutations@[i].kind,
        log@.captures[i].page == log.page_mutations@[i].page_id.0,
        log@.captures[i].bytes == log.page_mutations@[i].bytes@,
        log@.fresh.len() == log.new_pages@.len(),
        log@.fresh[j] == (log.new_pages@[j].0, log.new_pages@[j].1.0),
        log@.roots.len() == log.root_changes@.len(),
        log@.roots[k] == (log.root_changes@[k].0, log.root_changes@[k].1.0),
{
}

} // verus!
