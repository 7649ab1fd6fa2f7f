use std::collections::BTreeSet;

use arcgraph_storage::ids::{PageId, TenantId};
use arcgraph_storage::mutation_log::{PageStoreKind, TxnMutationLog};
use arcgraph_storage::page::{PageType, PAGE_SIZE};
use arcgraph_storage::page_visit::PageVisits;
use arcgraph_storage::record_store::{RecordPageStore, RecordStoreError};
use arcgraph_storage::records::SlottedPage;

#[test]
fn install_and_latch_roundtrip() {
    let mut store = RecordPageStore::new();
    let pid = PageId::new(42);
    store
        .install_fresh(pid, PageType::Node, TenantId::default_tenant())
        .unwrap();
    let mut g = store.latch(pid).unwrap();
    let _page = SlottedPage::open(g.as_mut_slice()).unwrap();
}

#[test]
fn duplicate_install_rejected() {
    let mut store = RecordPageStore::new();
    let pid = PageId::new(1);
    store
        .install_fresh(pid, PageType::Node, TenantId::default_tenant())
        .unwrap();
    let err = store
        .install_fresh(pid, PageType::Node, TenantId::default_tenant())
        .unwrap_err();
    assert!(matches!(err, RecordStoreError::DuplicatePage(_)));
}

#[test]
fn missing_page_errors() {
    let store = RecordPageStore::new();
    let err = store.latch(PageId::new(999)).unwrap_err();
    assert!(matches!(err, RecordStoreError::MissingPage(_)));
}

#[test]
fn unsupported_page_type_rejected() {
    let mut store = RecordPageStore::new();
    let err = store
        .install_fresh(PageId::new(1), PageType::IndexLeaf, TenantId::default_tenant())
        .unwrap_err();
    assert!(matches!(err, RecordStoreError::UnsupportedPageType { .. }));
}

#[test]
fn record_store_install_fresh_for_txn_records_new_pages_entry() {
    let mut store = RecordPageStore::new();
    let mut log = TxnMutationLog::new();
    store
        .install_fresh_for_txn(&mut log, PageId::new(55), PageType::Node, TenantId::default_tenant())
        .unwrap();
    assert_eq!(log.new_pages.len(), 1);
    assert_eq!(log.new_pages[0], (PageStoreKind::Record, PageId::new(55)));
    assert!(store.contains(PageId::new(55)));
}

#[test]
fn capture_and_write_captures_pre_mutation_bytes_once() {
    let mut store = RecordPageStore::new();
    store
        .install_fresh(PageId::new(60), PageType::Node, TenantId::default_tenant())
        .unwrap();
    let mut log = TxnMutationLog::new();

    {
        let mut g = store.capture_and_write(&mut log, PageId::new(60)).unwrap();
        g[16] = 0xAA;
        store.install_or_replace(PageId::new(60), g).unwrap();
    }
    assert_eq!(log.page_mutations.len(), 1);
    assert_eq!(log.page_mutations[0].kind, PageStoreKind::Record);
    assert_eq!(log.page_mutations[0].page_id, PageId::new(60));

    {
        let mut g = store.capture_and_write(&mut log, PageId::new(60)).unwrap();
        assert_eq!(g[16], 0xAA);
        g[17] = 0xBB;
        store.install_or_replace(PageId::new(60), g).unwrap();
    }
    assert_eq!(log.page_mutations.len(), 1);

    let snap = &log.page_mutations[0].bytes;
    assert_eq!(snap[16], 0);
    assert_eq!(snap[17], 0);
}

#[test]
fn capture_and_write_missing_page_errors() {
    let store = RecordPageStore::new();
    let mut log = TxnMutationLog::new();
    let err = store
        .capture_and_write(&mut log, PageId::new(999))
        .unwrap_err();
    assert!(matches!(err, RecordStoreError::MissingPage(_)));
}

#[test]
fn remove_page_and_restore_page_bytes_roundtrip() {
    let mut store = RecordPageStore::new();
    store
        .install_fresh(PageId::new(70), PageType::Node, TenantId::default_tenant())
        .unwrap();
    let pristine = store.latch(PageId::new(70)).unwrap();
    {
        let mut g = store.latch(PageId::new(70)).unwrap();
        g[16] = 0x5A;
        store.install_or_replace(PageId::new(70), g).unwrap();
    }
    store
        .restore_page_bytes(PageId::new(70), pristine.as_slice())
        .unwrap();
    assert_eq!(store.latch(PageId::new(70)).unwrap()[16], 0);
    let removed = store.remove_page(PageId::new(70));
    assert!(removed.is_some());
    assert!(!store.contains(PageId::new(70)));
    assert_eq!(
        store.restore_page_bytes(PageId::new(70), pristine.as_slice()),
        Err(RecordStoreError::MissingPage(PageId::new(70)))
    );
}

#[test]
fn one_page_number_may_be_in_both_stores() {
    let mut log = TxnMutationLog::new();
    log.capture(PageStoreKind::Primary, PageId::new(1), &[1]);
    assert!(log.has_captured(PageStoreKind::Primary, PageId::new(1)));
    assert!(!log.has_captured(PageStoreKind::Record, PageId::new(1)));
    log.capture(PageStoreKind::Record, PageId::new(1), &[2]);
    log.capture(PageStoreKind::Record, PageId::new(1), &[3]);
    assert_eq!(log.page_mutations.len(), 2);
    assert_eq!(log.page_mutations[1].bytes, vec![2]);
}

#[test]
fn the_record_store_lists_every_page_once() {
    let mut store = RecordPageStore::new();
    assert!(store.is_empty());
    for i in 1..4 {
        store
            .install_fresh(PageId::new(i), PageType::Rel, TenantId::new(5))
            .unwrap();
    }
    assert_eq!(store.len(), 3);
    assert_eq!(store.resident_page_count(), 3);
    let (pages, missing) = store.iter_pages_resident_only();
    assert!(missing.is_empty());
    let ids: BTreeSet<u64> = pages.iter().map(|(id, _)| id.raw()).collect();
    assert_eq!(ids, (1..4).collect());
    let mut shown = 0;
    let r: Result<Vec<PageId>, ()> =
        store.for_each_resident_page(&mut PageVisits::new(|_: PageId, bytes: &Vec<u8>| {
            assert_eq!(bytes.len(), PAGE_SIZE);
            shown += 1;
            Ok(())
        }));
    assert_eq!(shown, store.resident_page_count());
    assert!(r.unwrap().is_empty());
}

#[test]
fn the_notes_of_a_transaction_undo_its_record_pages() {
    let mut store = RecordPageStore::new();
    let tenant = TenantId::default_tenant();
    store.install_fresh(PageId::new(1), PageType::Node, tenant).unwrap();
    let start = store.latch(PageId::new(1)).unwrap();
    let mut log = TxnMutationLog::new();
    for round in 1..4u8 {
        let mut page = store.capture_and_write(&mut log, PageId::new(1)).unwrap();
        page[100] = round;
        store.install_or_replace(PageId::new(1), page).unwrap();
    }
    store.install_fresh_for_txn(&mut log, PageId::new(2), PageType::Rel, tenant).unwrap();
    assert_eq!(log.page_mutations.len(), 1);
    for c in &log.page_mutations {
        store.restore_page_bytes(c.page_id, &c.bytes).unwrap();
    }
    for (_, page) in &log.new_pages {
        store.remove_page(*page);
    }
    assert_eq!(store.len(), 1);
    assert_eq!(store.latch(PageId::new(1)).unwrap(), start);
}
