use std::collections::{BTreeMap, BTreeSet};

use arcgraph_storage::ids::{PageId, TenantId};
use arcgraph_storage::index_model::{
    INTERNAL_CAPACITY, INTERNAL_ENTRY_OFFSET, INTERNAL_ENTRY_SIZE, LEAF_CAPACITY, PAGE_SLOT_SIZE,
    PRIMARY_KEY_SIZE,
};
use arcgraph_storage::index_page::{fresh_page_buf, read_header};
use arcgraph_storage::mutation_log::PageStoreKind;
use arcgraph_storage::page::{PageType, PAGE_SIZE};
use arcgraph_storage::page_visit::PageVisits;
use arcgraph_storage::primary_index::{
    decode_index_page_payload, encode_index_page_payload, BootstrapStats, CommitCalls, IndexError,
    InternalPageMut, InternalPageRef, LeafPageMut, LeafPageRef, LoggedWriteError, PageAllocator,
    PageSlot, PrimaryIndex, PrimaryKey, PrimaryPageStore, RecordKind, SideChannelWrite, StagedEmit,
    TxnMutationLog, WriteOp, PRIMARY_INDEX_ROOT_KEY,
};
use arcgraph_storage::slot_model::SlotId;

fn k(tenant: u64, kind: RecordKind, id: u64) -> PrimaryKey {
    PrimaryKey::new(TenantId::new(tenant), kind, id)
}

fn v(page: u64, slot: u16) -> PageSlot {
    PageSlot::new(PageId::new(page), SlotId(slot))
}

fn build_index() -> PrimaryIndex {
    PrimaryIndex::new(PageAllocator::new(), None).expect("fresh index")
}

#[test]
fn key_roundtrip_encodes_24_bytes() {
    let key = k(42, RecordKind::Rel, 1234);
    let buf = key.encode();
    assert_eq!(buf.len(), PRIMARY_KEY_SIZE);
    let back = PrimaryKey::decode_at(&buf, 0).unwrap();
    assert_eq!(back, key);
    assert_eq!(buf[8], 1, "RecordKind::Rel encodes to 1");
    assert_eq!(&buf[9..16], &[0u8; 7], "kind padding must be zeroed");
}

#[test]
fn key_ordering_is_tenant_major_then_kind_then_id() {
    let a = k(1, RecordKind::Node, 999);
    let b = k(2, RecordKind::Node, 0);
    let c = k(1, RecordKind::Rel, 0);
    let d = k(1, RecordKind::Node, 1000);
    assert!(a < b);
    assert!(a < c);
    assert!(d < c);
    assert!(a < d);
}

#[test]
fn value_tombstone_roundtrip() {
    let val = v(9999, 17);
    let buf = val.encode(true);
    assert_eq!(buf.len(), PAGE_SLOT_SIZE);
    let (back, tomb) = PageSlot::decode_at(&buf, 0);
    assert_eq!(back, val);
    assert!(tomb);

    let buf = val.encode(false);
    let (_, tomb2) = PageSlot::decode_at(&buf, 0);
    assert!(!tomb2);
}

#[test]
fn leaf_capacity_constants_match_invariants() {
    assert_eq!(LEAF_CAPACITY, 203);
    assert_eq!(INTERNAL_CAPACITY, 254);
    assert_eq!(
        INTERNAL_ENTRY_OFFSET + (INTERNAL_CAPACITY as usize) * INTERNAL_ENTRY_SIZE,
        48 + 254 * 32
    );
}

#[test]
fn leaf_insert_lookup_roundtrip_single_page() {
    let mut page = fresh_page_buf(PageId::new(1), PageType::IndexLeaf);
    let mut leaf = LeafPageMut::open(page.as_mut_slice()).unwrap();
    assert_eq!(leaf.entry_count(), 0);
    let key_a = k(1, RecordKind::Node, 10);
    let key_b = k(1, RecordKind::Node, 20);
    let key_c = k(1, RecordKind::Rel, 5);

    leaf.insert(key_b, v(100, 0)).unwrap();
    leaf.insert(key_a, v(101, 1)).unwrap();
    leaf.insert(key_c, v(102, 2)).unwrap();
    assert_eq!(leaf.entry_count(), 3);

    let view = leaf.as_ref();
    let (k0, _, _) = view.entry(0).unwrap();
    let (k1, _, _) = view.entry(1).unwrap();
    let (k2, _, _) = view.entry(2).unwrap();
    assert!(k0 < k1 && k1 < k2);
    assert_eq!(k0, key_a);
    assert_eq!(k1, key_b);
    assert_eq!(k2, key_c);

    assert_eq!(view.lookup(key_a).unwrap(), Some(v(101, 1)));
    assert_eq!(view.lookup(key_b).unwrap(), Some(v(100, 0)));
    assert_eq!(view.lookup(key_c).unwrap(), Some(v(102, 2)));
    assert_eq!(view.lookup(k(1, RecordKind::Node, 999)).unwrap(), None);
}

#[test]
fn leaf_duplicate_live_key_rejected() {
    let mut page = fresh_page_buf(PageId::new(2), PageType::IndexLeaf);
    let mut leaf = LeafPageMut::open(page.as_mut_slice()).unwrap();
    let key = k(1, RecordKind::Node, 7);
    leaf.insert(key, v(5, 0)).unwrap();
    let err = leaf.insert(key, v(5, 1)).unwrap_err();
    assert!(matches!(err, IndexError::DuplicateKey { .. }));
}

#[test]
fn leaf_upsert_returns_old_value() {
    let mut page = fresh_page_buf(PageId::new(3), PageType::IndexLeaf);
    let mut leaf = LeafPageMut::open(page.as_mut_slice()).unwrap();
    let key = k(1, RecordKind::Node, 7);
    assert_eq!(leaf.upsert(key, v(5, 0)).unwrap(), None);
    assert_eq!(leaf.upsert(key, v(6, 1)).unwrap(), Some(v(5, 0)));
    assert_eq!(leaf.as_ref().lookup(key).unwrap(), Some(v(6, 1)));
}

#[test]
fn leaf_tombstone_blocks_lookup_and_allows_reinsert() {
    let mut page = fresh_page_buf(PageId::new(4), PageType::IndexLeaf);
    let mut leaf = LeafPageMut::open(page.as_mut_slice()).unwrap();
    let key = k(1, RecordKind::Node, 7);
    leaf.insert(key, v(5, 0)).unwrap();
    assert_eq!(leaf.remove(key).unwrap(), Some(v(5, 0)));
    assert_eq!(leaf.as_ref().lookup(key).unwrap(), None);
    assert_eq!(leaf.entry_count(), 1);
    leaf.insert(key, v(9, 3)).unwrap();
    assert_eq!(leaf.entry_count(), 1);
    assert_eq!(leaf.as_ref().lookup(key).unwrap(), Some(v(9, 3)));
}

#[test]
fn leaf_full_page_rejects_new_key() {
    let mut page = fresh_page_buf(PageId::new(5), PageType::IndexLeaf);
    let mut leaf = LeafPageMut::open(page.as_mut_slice()).unwrap();
    for i in 0..LEAF_CAPACITY as u64 {
        leaf.insert(k(1, RecordKind::Node, i), v(i, 0)).unwrap();
    }
    assert!(leaf.is_full());
    let err = leaf
        .insert(k(1, RecordKind::Node, u64::MAX), v(1, 0))
        .unwrap_err();
    assert!(matches!(err, IndexError::CorruptPage { .. }));
    leaf.remove(k(1, RecordKind::Node, 0)).unwrap();
    leaf.insert(k(1, RecordKind::Node, 0), v(99, 7)).unwrap();
    assert_eq!(
        leaf.as_ref().lookup(k(1, RecordKind::Node, 0)).unwrap(),
        Some(v(99, 7))
    );
}

#[test]
fn page_store_basic_install_and_latch() {
    let mut store = PrimaryPageStore::new();
    let page = fresh_page_buf(PageId::new(7), PageType::IndexLeaf);
    store.install(PageId::new(7), page).unwrap();
    assert_eq!(store.len(), 1);
    {
        let g = store.latch(PageId::new(7)).unwrap();
        let leaf = LeafPageRef::open(g.as_slice()).unwrap();
        assert_eq!(leaf.entry_count(), 0);
    }
    let err = store
        .install(
            PageId::new(7),
            fresh_page_buf(PageId::new(7), PageType::IndexLeaf),
        )
        .unwrap_err();
    assert!(matches!(err, IndexError::CorruptPage { .. }));
    assert!(matches!(
        store.latch(PageId::new(999)).unwrap_err(),
        IndexError::MissingPage(_)
    ));
}

#[test]
fn page_store_write_latch_persists_mutations() {
    let mut store = PrimaryPageStore::new();
    store
        .install(
            PageId::new(11),
            fresh_page_buf(PageId::new(11), PageType::IndexLeaf),
        )
        .unwrap();
    let mut page = store.latch(PageId::new(11)).unwrap();
    {
        let mut leaf = LeafPageMut::open(page.as_mut_slice()).unwrap();
        leaf.insert(k(1, RecordKind::Node, 1), v(1, 0)).unwrap();
        leaf.insert(k(1, RecordKind::Node, 2), v(2, 0)).unwrap();
    }
    store.install_or_replace(PageId::new(11), page).unwrap();
    let g = store.latch(PageId::new(11)).unwrap();
    let leaf = LeafPageRef::open(g.as_slice()).unwrap();
    assert_eq!(leaf.entry_count(), 2);
}

#[test]
fn capture_and_latch_captures_pre_mutation_bytes_once() {
    let mut store = PrimaryPageStore::new();
    store
        .install(
            PageId::new(42),
            fresh_page_buf(PageId::new(42), PageType::IndexLeaf),
        )
        .unwrap();
    let mut log = TxnMutationLog::new();

    {
        let mut page = store.capture_and_latch(&mut log, PageId::new(42)).unwrap();
        let mut leaf = LeafPageMut::open(page.as_mut_slice()).unwrap();
        leaf.insert(k(1, RecordKind::Node, 1), v(1, 0)).unwrap();
        store.install_or_replace(PageId::new(42), page).unwrap();
    }
    assert_eq!(log.page_mutations.len(), 1);
    assert_eq!(log.page_mutations[0].kind, PageStoreKind::Primary);
    assert_eq!(log.page_mutations[0].page_id, PageId::new(42));

    {
        let mut page = store.capture_and_latch(&mut log, PageId::new(42)).unwrap();
        let mut leaf = LeafPageMut::open(page.as_mut_slice()).unwrap();
        leaf.insert(k(1, RecordKind::Node, 2), v(2, 0)).unwrap();
        store.install_or_replace(PageId::new(42), page).unwrap();
    }
    assert_eq!(
        log.page_mutations.len(),
        1,
        "second capture must be idempotent"
    );

    let snapshot = &log.page_mutations[0].bytes;
    let leaf_view = LeafPageRef::open(snapshot.as_slice()).unwrap();
    assert_eq!(leaf_view.entry_count(), 0, "capture must precede mutation");
}

#[test]
fn capture_and_latch_missing_page_errors() {
    let store = PrimaryPageStore::new();
    let mut log = TxnMutationLog::new();
    let err = store
        .capture_and_latch(&mut log, PageId::new(999))
        .unwrap_err();
    assert!(matches!(err, IndexError::MissingPage(_)));
    assert_eq!(log.page_mutations.len(), 0);
}

#[test]
fn install_for_txn_records_new_pages_entry() {
    let mut store = PrimaryPageStore::new();
    let mut log = TxnMutationLog::new();
    let page = fresh_page_buf(PageId::new(77), PageType::IndexLeaf);
    store
        .install_for_txn(&mut log, PageId::new(77), page)
        .unwrap();
    assert_eq!(log.new_pages.len(), 1);
    assert_eq!(log.new_pages[0], (PageStoreKind::Primary, PageId::new(77)));
    assert!(store.contains(PageId::new(77)));
}

#[test]
fn primary_index_install_fresh_for_txn_records_new_pages_entry() {
    let mut store = PrimaryPageStore::new();
    let mut log = TxnMutationLog::new();
    store
        .install_fresh_for_txn(&mut log, PageId::new(88), PageType::IndexInternal)
        .unwrap();
    assert_eq!(log.new_pages.len(), 1);
    assert_eq!(log.new_pages[0], (PageStoreKind::Primary, PageId::new(88)));
}

#[test]
fn remove_page_undoes_install() {
    let mut store = PrimaryPageStore::new();
    store
        .install(
            PageId::new(13),
            fresh_page_buf(PageId::new(13), PageType::IndexLeaf),
        )
        .unwrap();
    assert!(store.contains(PageId::new(13)));
    let removed = store.remove_page(PageId::new(13));
    assert!(removed.is_some());
    assert!(!store.contains(PageId::new(13)));
    assert!(store.remove_page(PageId::new(13)).is_none());
}

#[test]
fn restore_page_bytes_overwrites_current_state() {
    let mut store = PrimaryPageStore::new();
    store
        .install(
            PageId::new(21),
            fresh_page_buf(PageId::new(21), PageType::IndexLeaf),
        )
        .unwrap();
    let mut page = store.latch(PageId::new(21)).unwrap();
    {
        let mut leaf = LeafPageMut::open(page.as_mut_slice()).unwrap();
        leaf.insert(k(1, RecordKind::Node, 1), v(1, 0)).unwrap();
    }
    store.install_or_replace(PageId::new(21), page).unwrap();
    let pristine = fresh_page_buf(PageId::new(21), PageType::IndexLeaf);
    store
        .restore_page_bytes(PageId::new(21), pristine.as_slice())
        .unwrap();
    let g = store.latch(PageId::new(21)).unwrap();
    let leaf = LeafPageRef::open(g.as_slice()).unwrap();
    assert_eq!(leaf.entry_count(), 0);
}

#[test]
fn wrong_page_type_rejected_on_open() {
    let mut page = fresh_page_buf(PageId::new(1), PageType::Node);
    let err = LeafPageMut::open(page.as_mut_slice()).unwrap_err();
    assert!(matches!(err, IndexError::CorruptPage { .. }));
}

#[test]
fn internal_insert_lookup_roundtrip_single_page() {
    let mut page = [0u8; PAGE_SIZE];
    let mut node = InternalPageMut::init(&mut page, PageId::new(42), PageId::new(100));
    assert_eq!(node.entry_count(), 0);
    assert_eq!(node.as_ref().first_child(), PageId::new(100));

    node.insert(k(1, RecordKind::Node, 30), PageId::new(230))
        .unwrap();
    node.insert(k(1, RecordKind::Node, 10), PageId::new(210))
        .unwrap();
    node.insert(k(1, RecordKind::Node, 20), PageId::new(220))
        .unwrap();
    assert_eq!(node.entry_count(), 3);

    let view = node.as_ref();
    let (k0, c0) = view.entry(0).unwrap();
    let (k1, c1) = view.entry(1).unwrap();
    let (k2, c2) = view.entry(2).unwrap();
    assert_eq!(k0.id, 10);
    assert_eq!(k1.id, 20);
    assert_eq!(k2.id, 30);
    assert_eq!(c0, PageId::new(210));
    assert_eq!(c1, PageId::new(220));
    assert_eq!(c2, PageId::new(230));
    assert_eq!(view.first_child(), PageId::new(100));
}

#[test]
fn internal_ordering_preserved() {
    let mut page = [0u8; PAGE_SIZE];
    let mut node = InternalPageMut::init(&mut page, PageId::new(1), PageId::new(0));
    let keys = [
        k(1, RecordKind::Node, 5),
        k(1, RecordKind::Rel, 1),
        k(2, RecordKind::Node, 7),
        k(1, RecordKind::Node, 100),
    ];
    for (i, key) in keys.iter().copied().enumerate() {
        node.insert(key, PageId::new(1000 + i as u64)).unwrap();
    }
    let view = node.as_ref();
    let mut seen = Vec::new();
    for i in 0..view.entry_count() {
        let (key, _) = view.entry(i).unwrap();
        seen.push(key);
    }
    let mut sorted = keys.to_vec();
    sorted.sort();
    assert_eq!(seen, sorted);
}

#[test]
fn internal_find_child_is_binary_search_correct() {
    let mut page = [0u8; PAGE_SIZE];
    let mut node = InternalPageMut::init(&mut page, PageId::new(1), PageId::new(50));
    node.insert(k(1, RecordKind::Node, 10), PageId::new(60))
        .unwrap();
    node.insert(k(1, RecordKind::Node, 20), PageId::new(70))
        .unwrap();
    node.insert(k(1, RecordKind::Node, 30), PageId::new(80))
        .unwrap();
    let view = node.as_ref();
    assert_eq!(
        view.find_child(k(1, RecordKind::Node, 5)).unwrap(),
        PageId::new(50)
    );
    assert_eq!(
        view.find_child(k(1, RecordKind::Node, 10)).unwrap(),
        PageId::new(60)
    );
    assert_eq!(
        view.find_child(k(1, RecordKind::Node, 15)).unwrap(),
        PageId::new(60)
    );
    assert_eq!(
        view.find_child(k(1, RecordKind::Node, 20)).unwrap(),
        PageId::new(70)
    );
    assert_eq!(
        view.find_child(k(1, RecordKind::Node, 1_000)).unwrap(),
        PageId::new(80)
    );
    let mut page2 = [0u8; PAGE_SIZE];
    let empty = InternalPageMut::init(&mut page2, PageId::new(2), PageId::new(42));
    assert_eq!(
        empty
            .as_ref()
            .find_child(k(1, RecordKind::Node, 0))
            .unwrap(),
        PageId::new(42)
    );
}

#[test]
fn internal_full_page_rejects_new_child() {
    let mut page = [0u8; PAGE_SIZE];
    let mut node = InternalPageMut::init(&mut page, PageId::new(1), PageId::new(0));
    for i in 0..INTERNAL_CAPACITY as u64 {
        node.insert(k(1, RecordKind::Node, i), PageId::new(1000 + i))
            .unwrap();
    }
    assert!(node.is_full());
    let err = node
        .insert(k(1, RecordKind::Node, u64::MAX), PageId::new(9999))
        .unwrap_err();
    assert!(matches!(err, IndexError::CorruptPage { .. }));
}

#[test]
fn internal_duplicate_key_rejected() {
    let mut page = [0u8; PAGE_SIZE];
    let mut node = InternalPageMut::init(&mut page, PageId::new(1), PageId::new(0));
    node.insert(k(1, RecordKind::Node, 10), PageId::new(200))
        .unwrap();
    let err = node
        .insert(k(1, RecordKind::Node, 10), PageId::new(201))
        .unwrap_err();
    assert!(matches!(err, IndexError::DuplicateKey { .. }));
}

#[test]
fn internal_wrong_page_type_rejected_on_open() {
    let mut page = fresh_page_buf(PageId::new(1), PageType::IndexLeaf);
    let err = InternalPageMut::open(page.as_mut_slice()).unwrap_err();
    assert!(matches!(err, IndexError::CorruptPage { .. }));
}

#[test]
fn leaf_split_produces_two_sorted_halves() {
    let mut page = fresh_page_buf(PageId::new(1), PageType::IndexLeaf);
    let mut leaf = LeafPageMut::open(page.as_mut_slice()).unwrap();
    for i in 0..LEAF_CAPACITY as u64 {
        leaf.insert(k(1, RecordKind::Node, i), v(i, 0)).unwrap();
    }
    assert_eq!(leaf.entry_count(), LEAF_CAPACITY);

    let (new_buf, promoted) = leaf.split_into(PageId::new(99)).unwrap();
    let expected_split = LEAF_CAPACITY / 2;

    assert_eq!(leaf.entry_count(), expected_split);
    let right = LeafPageRef::open(new_buf.as_slice()).unwrap();
    assert_eq!(right.entry_count(), LEAF_CAPACITY - expected_split);

    let (first_right_key, _, _) = right.entry(0).unwrap();
    assert_eq!(promoted, first_right_key);
    assert_eq!(promoted.id, u64::from(expected_split));

    let left = leaf.as_ref();
    let (last_left_key, _, _) = left.entry(expected_split - 1).unwrap();
    assert!(last_left_key < first_right_key);

    for i in 0..LEAF_CAPACITY as u64 {
        let key = k(1, RecordKind::Node, i);
        let in_left = left.lookup(key).unwrap().is_some();
        let in_right = right.lookup(key).unwrap().is_some();
        assert!(in_left ^ in_right, "id {i} not uniquely placed");
    }

    assert_eq!(right.page_id(), PageId::new(99));
}

#[test]
fn internal_split_promotes_middle_key() {
    let mut page = [0u8; PAGE_SIZE];
    let mut node = InternalPageMut::init(&mut page, PageId::new(1), PageId::new(500));
    for i in 0..INTERNAL_CAPACITY as u64 {
        node.insert(k(1, RecordKind::Node, 10 + i * 10), PageId::new(501 + i))
            .unwrap();
    }
    assert!(node.is_full());
    let mid = INTERNAL_CAPACITY / 2;
    let expected_promoted_id = 10 + u64::from(mid) * 10;

    let (new_buf, promoted) = node.split_into(PageId::new(999)).unwrap();
    assert_eq!(promoted.id, expected_promoted_id);

    assert_eq!(node.entry_count(), mid);
    let left = node.as_ref();
    assert_eq!(left.first_child(), PageId::new(500));
    let right = InternalPageRef::open(new_buf.as_slice()).unwrap();
    assert_eq!(right.first_child(), PageId::new(501 + u64::from(mid)));
    assert_eq!(right.entry_count(), INTERNAL_CAPACITY - mid - 1);

    for i in 0..INTERNAL_CAPACITY as u64 {
        let key_id = 10 + i * 10;
        if key_id == expected_promoted_id {
            continue;
        }
        let target = k(1, RecordKind::Node, key_id);
        let child_left = (0..left.entry_count())
            .map(|idx| left.entry(idx).unwrap())
            .find(|(k, _)| *k == target);
        let child_right = (0..right.entry_count())
            .map(|idx| right.entry(idx).unwrap())
            .find(|(k, _)| *k == target);
        assert!(
            child_left.is_some() ^ child_right.is_some(),
            "key {key_id} placed on {}",
            if child_left.is_some() && child_right.is_some() {
                "both"
            } else {
                "neither"
            }
        );
    }
}

#[test]
fn public_api_insert_lookup_roundtrip() {
    let mut idx = build_index();
    let key = k(1, RecordKind::Node, 42);
    let value = v(10, 5);
    assert_eq!(idx.lookup(key).unwrap(), None);
    idx.insert(key, value).unwrap();
    assert_eq!(idx.lookup(key).unwrap(), Some(value));
    let err = idx.insert(key, v(11, 0)).unwrap_err();
    assert!(matches!(err, IndexError::DuplicateKey { .. }));
}

#[test]
fn public_api_upsert_returns_old_value() {
    let mut idx = build_index();
    let key = k(1, RecordKind::Node, 7);
    assert_eq!(idx.upsert(key, v(100, 0)).unwrap(), None);
    assert_eq!(idx.upsert(key, v(200, 1)).unwrap(), Some(v(100, 0)));
    assert_eq!(idx.lookup(key).unwrap(), Some(v(200, 1)));
}

#[test]
fn public_api_remove_marks_tombstone() {
    let mut idx = build_index();
    let key = k(1, RecordKind::Node, 5);
    idx.insert(key, v(50, 0)).unwrap();
    assert_eq!(idx.remove(key).unwrap(), Some(v(50, 0)));
    assert_eq!(idx.lookup(key).unwrap(), None);
    idx.insert(key, v(51, 1)).unwrap();
    assert_eq!(idx.lookup(key).unwrap(), Some(v(51, 1)));
    let absent = k(1, RecordKind::Node, 999);
    assert_eq!(idx.remove(absent).unwrap(), None);
}

#[test]
fn root_split_allocates_new_root() {
    let mut idx = PrimaryIndex::new(PageAllocator::new(), None).unwrap();
    assert_eq!(idx.root().unwrap(), PageId::new(1));
    for i in 0..=u64::from(LEAF_CAPACITY) {
        idx.insert(k(1, RecordKind::Node, i), v(i, 0)).unwrap();
    }
    let root_id = idx.root().unwrap();
    assert_ne!(root_id, PageId::new(1));
    let g = idx.page_store().latch(root_id).unwrap();
    let hdr = read_header(g.as_slice()).unwrap();
    assert_eq!(hdr.page_type, PageType::IndexInternal.as_byte());
    for i in 0..=u64::from(LEAF_CAPACITY) {
        assert_eq!(
            idx.lookup(k(1, RecordKind::Node, i)).unwrap(),
            Some(v(i, 0))
        );
    }
}

#[test]
fn root_pointer_persisted_via_system_catalog() {
    let mut idx = PrimaryIndex::new(PageAllocator::new(), None).unwrap();
    let root_before = idx.root().unwrap();
    let write = idx.root_record();
    assert_eq!(write.tenant_id, TenantId::system());
    assert_eq!(write.key, PRIMARY_INDEX_ROOT_KEY);
    let bytes = write.value.unwrap();
    assert_eq!(bytes.len(), 8);
    let stored = u64::from_le_bytes(bytes[..8].try_into().unwrap());
    assert_eq!(stored, root_before.raw());

    let mut stored_after = stored;
    for i in 0..=u64::from(LEAF_CAPACITY) {
        let mut writes = Vec::new();
        let mut log = TxnMutationLog::new();
        idx.insert_deferred(k(1, RecordKind::Node, i), v(i, 0), &mut writes, &mut log)
            .unwrap();
        for w in writes {
            assert_eq!(w.tenant_id, TenantId::system());
            assert_eq!(w.key, PRIMARY_INDEX_ROOT_KEY);
            stored_after = u64::from_le_bytes(w.value.unwrap()[..8].try_into().unwrap());
        }
    }
    let root_after = idx.root().unwrap();
    assert_ne!(root_after, root_before);
    assert_eq!(stored_after, root_after.raw());
    let bytes = idx.root_record().value.unwrap();
    assert_eq!(u64::from_le_bytes(bytes[..8].try_into().unwrap()), root_after.raw());
}

#[test]
fn root_pointer_recoverable_across_new_primaryindex_instance() {
    let mut idx1 = PrimaryIndex::new(PageAllocator::new(), None).unwrap();
    for i in 0..=u64::from(LEAF_CAPACITY) {
        idx1.insert(k(1, RecordKind::Node, i), v(i, 0)).unwrap();
    }
    let root1 = idx1.root().unwrap();
    let kept = idx1.root_record().value;
    drop(idx1);
    let mut idx2 = PrimaryIndex::new(PageAllocator { next: 100 }, kept).unwrap();
    assert_eq!(idx2.root().unwrap(), root1);
    assert!(idx2.page_store().is_empty());
    assert_eq!(
        idx2.lookup(k(1, RecordKind::Node, 0)),
        Err(IndexError::MissingPage(root1))
    );
    assert_eq!(
        idx2.insert(k(1, RecordKind::Node, 0), v(1, 1)),
        Err(IndexError::MissingPage(root1))
    );
}

#[test]
fn insert_across_three_levels_is_consistent() {
    let mut idx = build_index();
    let n: u64 = 40_000;
    for i in 0..n {
        idx.insert(k(1, RecordKind::Node, i), v(i, (i as u16) & 0xFF))
            .unwrap();
    }
    for &i in &[0_u64, 1, 1_000, 20_000, n - 1] {
        assert_eq!(
            idx.lookup(k(1, RecordKind::Node, i)).unwrap(),
            Some(v(i, (i as u16) & 0xFF))
        );
    }
    assert_eq!(idx.lookup(k(1, RecordKind::Node, u64::MAX)).unwrap(), None);
}

#[test]
fn bootstrap_idempotent_on_empty_then_populated_mvcc() {
    let mut idx = build_index();
    let stats0 = idx.bootstrap_from_mvcc(Vec::new()).unwrap();
    assert_eq!(stats0, BootstrapStats { indexed: 0, skipped: 0 });
    for i in 0..100u64 {
        idx.insert(k(1, RecordKind::Node, i), v(i, 0)).unwrap();
    }
    let entries: Vec<_> = (0..100u64)
        .map(|i| (k(1, RecordKind::Node, i), v(i, 0)))
        .collect();
    let stats1 = idx.bootstrap_from_mvcc(entries.clone()).unwrap();
    assert_eq!(stats1.indexed, 0, "already-indexed keys must be skipped");
    assert_eq!(stats1.skipped, 100);
    let stats2 = idx.bootstrap_from_mvcc(entries).unwrap();
    assert_eq!(stats2, stats1);
}

#[test]
fn bootstrap_matches_manual_inserts() {
    let mut idx = build_index();
    let entries: Vec<_> = (0..500u64)
        .map(|i| (k(1, RecordKind::Node, i), v(i * 7, 0)))
        .collect();
    let stats = idx.bootstrap_from_mvcc(entries.clone()).unwrap();
    assert_eq!(stats.indexed, 500);
    assert_eq!(stats.skipped, 0);
    for (key, value) in entries {
        assert_eq!(idx.lookup(key).unwrap(), Some(value));
    }
}

#[test]
fn index_page_payload_roundtrip() {
    let page_id = PageId::new(42);
    let tenant = TenantId::new(7);
    let mut page = [0u8; PAGE_SIZE];
    for (i, b) in page.iter_mut().enumerate() {
        *b = (i & 0xFF) as u8;
    }
    let payload = encode_index_page_payload(page_id, tenant, &page);
    assert_eq!(payload.len(), 16 + PAGE_SIZE);
    let (pid, tid, bytes) = decode_index_page_payload(&payload).unwrap();
    assert_eq!(pid, page_id);
    assert_eq!(tid, tenant);
    assert_eq!(bytes.as_slice(), &page[..]);
}

#[test]
fn split_preserves_tenant_ordering_invariant() {
    let mut page = fresh_page_buf(PageId::new(1), PageType::IndexLeaf);
    let mut leaf = LeafPageMut::open(page.as_mut_slice()).unwrap();
    let mut all_keys = Vec::new();
    for i in 0..(LEAF_CAPACITY as u64 / 2) {
        all_keys.push(k(1, RecordKind::Node, i));
        all_keys.push(k(2, RecordKind::Node, i));
    }
    all_keys.sort();
    for (i, key) in all_keys.iter().copied().enumerate() {
        leaf.insert(key, v(i as u64, 0)).unwrap();
    }
    let (new_buf, promoted) = leaf.split_into(PageId::new(77)).unwrap();
    let right = LeafPageRef::open(new_buf.as_slice()).unwrap();
    let left = leaf.as_ref();

    for i in 0..left.entry_count() {
        let (lk, _, _) = left.entry(i).unwrap();
        assert!(lk < promoted, "left key {lk:?} >= promoted {promoted:?}");
    }
    for i in 0..right.entry_count() {
        let (rk, _, _) = right.entry(i).unwrap();
        assert!(rk >= promoted);
    }
}

#[derive(Debug, PartialEq, Eq)]
enum LogicalNode {
    Leaf(Vec<(PrimaryKey, PageSlot, bool)>),
    Internal(Vec<PrimaryKey>),
}

fn walk_nodes(idx: &PrimaryIndex) -> Vec<LogicalNode> {
    let mut out = Vec::new();
    walk_rec(idx, idx.root().expect("root resolves"), &mut out);
    out
}

fn walk_rec(idx: &PrimaryIndex, page_id: PageId, out: &mut Vec<LogicalNode>) {
    let page = idx.page_store().latch(page_id).expect("page");
    let header = read_header(page.as_slice()).expect("page header");
    if header.page_type == PageType::IndexLeaf.as_byte() {
        let leaf = LeafPageRef::open(page.as_slice()).expect("leaf");
        let mut entries = Vec::new();
        for i in 0..leaf.entry_count() {
            entries.push(leaf.entry(i).expect("entry"));
        }
        out.push(LogicalNode::Leaf(entries));
    } else {
        let node = InternalPageRef::open(page.as_slice()).expect("node");
        let mut children = vec![node.first_child()];
        let mut separators = Vec::new();
        for i in 0..node.entry_count() {
            let (key, child) = node.entry(i).expect("pair");
            separators.push(key);
            children.push(child);
        }
        out.push(LogicalNode::Internal(separators));
        for child in children {
            walk_rec(idx, child, out);
        }
    }
}

fn walk_leaf_keys(idx: &PrimaryIndex) -> Vec<PrimaryKey> {
    let mut keys = Vec::new();
    for node in walk_nodes(idx) {
        if let LogicalNode::Leaf(entries) = node {
            for (key, _, _) in entries {
                keys.push(key);
            }
        }
    }
    keys
}

fn snapshot_all_pages(idx: &PrimaryIndex) -> BTreeMap<u64, Vec<u8>> {
    let mut out = BTreeMap::new();
    for (id, bytes) in idx.page_store().iter_pages() {
        out.insert(id.raw(), bytes);
    }
    out
}

/// A fixed stream of numbers.
struct Stream(u64);

impl Stream {
    fn next(&mut self, bound: u64) -> u64 {
        self.0 = self.0.wrapping_mul(6364136223846793005).wrapping_add(1442695040888963407);
        (self.0 >> 33) % bound
    }
}

fn random_key(s: &mut Stream, ids: u64) -> PrimaryKey {
    let tenant = 1 + s.next(2);
    let kind = if s.next(2) == 0 { RecordKind::Node } else { RecordKind::Rel };
    k(tenant, kind, s.next(ids))
}

fn run_against_model(seed: u64, ids: u64, steps: u64) -> (PrimaryIndex, BTreeMap<PrimaryKey, PageSlot>) {
    let mut idx = build_index();
    let mut model: BTreeMap<PrimaryKey, PageSlot> = BTreeMap::new();
    let mut seen: BTreeSet<PrimaryKey> = BTreeSet::new();
    let mut s = Stream(seed);
    for step in 0..steps {
        let key = random_key(&mut s, ids);
        let value = v(s.next(1000), s.next(16) as u16);
        seen.insert(key);
        match s.next(8) {
            0 | 1 | 2 => {
                let res = idx.insert(key, value);
                if model.contains_key(&key) {
                    assert_eq!(res, Err(IndexError::DuplicateKey { key }));
                } else {
                    assert_eq!(res, Ok(()));
                    model.insert(key, value);
                }
            }
            3 | 4 => {
                assert_eq!(idx.upsert(key, value).unwrap(), model.get(&key).copied());
                model.insert(key, value);
            }
            5 | 6 => {
                assert_eq!(idx.remove(key).unwrap(), model.remove(&key));
            }
            _ => {}
        }
        assert_eq!(idx.lookup(key).unwrap(), model.get(&key).copied());
        if step % 256 == 0 {
            for key in &seen {
                assert_eq!(idx.lookup(*key).unwrap(), model.get(key).copied());
            }
        }
    }
    for key in &seen {
        assert_eq!(idx.lookup(*key).unwrap(), model.get(key).copied());
    }
    let walked = walk_leaf_keys(&idx);
    for w in walked.windows(2) {
        assert!(w[0] < w[1], "leaf walk not ascending");
    }
    (idx, model)
}

#[test]
fn index_matches_a_map_on_few_keys() {
    for seed in 0..20 {
        run_against_model(seed, 30, 160);
    }
}

#[test]
fn index_matches_a_map_across_splits() {
    for seed in 100..103 {
        let (idx, _) = run_against_model(seed, 500, 4000);
        let leaves = walk_nodes(&idx)
            .iter()
            .filter(|n| matches!(n, LogicalNode::Leaf(_)))
            .count();
        assert!(leaves >= 3, "expected splits, got {leaves} leaves");
    }
}

#[test]
fn splits_preserve_membership() {
    let mut s = Stream(7);
    let mut keys: BTreeSet<PrimaryKey> = BTreeSet::new();
    while keys.len() < 470 {
        keys.insert(random_key(&mut s, 1_000_000));
    }
    let mut idx = build_index();
    let mut expected: BTreeMap<PrimaryKey, PageSlot> = BTreeMap::new();
    for (i, key) in keys.iter().enumerate() {
        let value = v(i as u64 + 1, (i as u16) & 0x0F);
        idx.insert(*key, value).expect("insert ok");
        expected.insert(*key, value);
    }
    let mut live: BTreeMap<PrimaryKey, PageSlot> = BTreeMap::new();
    let mut leaves = 0;
    for node in walk_nodes(&idx) {
        if let LogicalNode::Leaf(entries) = node {
            leaves += 1;
            for (key, value, dead) in entries {
                assert!(!dead);
                live.insert(key, value);
            }
        }
    }
    assert!(leaves >= 3);
    assert_eq!(live, expected);
}

#[test]
fn two_builds_are_the_same_byte_for_byte() {
    let (a, _) = run_against_model(42, 150, 1500);
    let (b, _) = run_against_model(42, 150, 1500);
    assert_eq!(a.page_store().len(), b.page_store().len());
    assert_eq!(walk_nodes(&a), walk_nodes(&b));
    assert_eq!(snapshot_all_pages(&a), snapshot_all_pages(&b));
}

#[test]
fn a_duplicate_on_a_full_leaf_changes_no_page() {
    let mut idx = build_index();
    for i in 0..u64::from(LEAF_CAPACITY) {
        idx.insert(k(1, RecordKind::Node, i), v(i, 0)).unwrap();
    }
    let before = snapshot_all_pages(&idx);
    let key = k(1, RecordKind::Node, 150);
    assert_eq!(idx.insert(key, v(9, 9)), Err(IndexError::DuplicateKey { key }));
    assert_eq!(snapshot_all_pages(&idx), before);
    assert_eq!(idx.lookup(key).unwrap(), Some(v(150, 0)));
    assert_eq!(idx.lookup(k(1, RecordKind::Node, 202)).unwrap(), Some(v(202, 0)));
}

#[test]
fn a_key_that_a_full_leaf_holds_is_written_in_place() {
    let mut idx = build_index();
    for i in 0..u64::from(LEAF_CAPACITY) {
        idx.insert(k(1, RecordKind::Node, i), v(i, 0)).unwrap();
    }
    idx.remove(k(1, RecordKind::Node, 3)).unwrap();
    idx.insert(k(1, RecordKind::Node, 3), v(77, 7)).unwrap();
    assert_eq!(idx.upsert(k(1, RecordKind::Node, 4), v(78, 8)).unwrap(), Some(v(4, 0)));
    assert_eq!(idx.page_store().len(), 1, "no split");
    assert_eq!(idx.lookup(k(1, RecordKind::Node, 3)).unwrap(), Some(v(77, 7)));
}

#[test]
fn notes_of_a_write_undo_it() {
    let mut idx = build_index();
    for i in 0..u64::from(LEAF_CAPACITY) {
        idx.insert(k(1, RecordKind::Node, i), v(i, 0)).unwrap();
    }
    let before = snapshot_all_pages(&idx);
    let root = idx.root().unwrap();
    let mut writes = Vec::new();
    let mut log = TxnMutationLog::new();
    let staged = idx
        .insert_deferred(k(1, RecordKind::Node, 5000), v(1, 1), &mut writes, &mut log)
        .unwrap();
    assert_eq!(staged.len(), 3, "new leaf, old leaf, new root");
    assert_eq!(staged[0].page_id, PageId::new(2));
    assert_eq!(staged[1].page_id, PageId::new(1));
    assert_eq!(staged[2].page_id, PageId::new(3));
    assert_eq!(log.page_mutations.len(), 1);
    assert_eq!(log.new_pages.len(), 2);
    assert_eq!(log.root_changes.len(), 1);
    assert_eq!(log.root_changes[0].1, root);
    idx.restore_root_cache(log.root_changes[0].1);
    for capture in &log.page_mutations {
        idx.page_store_mut()
            .restore_page_bytes(capture.page_id, capture.bytes.as_slice())
            .unwrap();
    }
    for (kind, page) in &log.new_pages {
        assert_eq!(*kind, PageStoreKind::Primary);
        assert!(idx.page_store_mut().remove_page(*page).is_some());
    }
    assert_eq!(snapshot_all_pages(&idx), before);
    assert_eq!(idx.root().unwrap(), root);
}

#[test]
fn a_root_that_is_not_known_is_an_error() {
    let mut idx = build_index();
    idx.restore_root_cache(PageId::new(0));
    assert!(matches!(idx.root(), Err(IndexError::CorruptPage { .. })));
    assert!(matches!(
        idx.lookup(k(1, RecordKind::Node, 1)),
        Err(IndexError::CorruptPage { .. })
    ));
    assert!(matches!(
        idx.upsert(k(1, RecordKind::Node, 1), v(1, 1)),
        Err(IndexError::CorruptPage { .. })
    ));
}

#[test]
fn lookup_of_a_page_of_another_kind_is_an_error() {
    let mut idx = build_index();
    let page = fresh_page_buf(PageId::new(1), PageType::Node);
    idx.page_store_mut().install_or_replace(PageId::new(1), page).unwrap();
    assert!(matches!(
        idx.lookup(k(1, RecordKind::Node, 1)),
        Err(IndexError::CorruptPage { .. })
    ));
    let zeros = vec![0u8; PAGE_SIZE];
    idx.page_store_mut().install_or_replace(PageId::new(1), zeros).unwrap();
    assert!(matches!(idx.lookup(k(1, RecordKind::Node, 1)), Err(IndexError::Core(_))));
}

#[test]
fn a_key_of_an_unknown_kind_is_an_error() {
    let mut page = fresh_page_buf(PageId::new(1), PageType::IndexLeaf);
    {
        let mut leaf = LeafPageMut::open(page.as_mut_slice()).unwrap();
        leaf.insert(k(1, RecordKind::Node, 1), v(1, 1)).unwrap();
    }
    page[40 + 8] = 7;
    let leaf = LeafPageRef::open(page.as_slice()).unwrap();
    assert!(matches!(leaf.entry(0), Err(IndexError::CorruptPage { .. })));
    assert!(matches!(
        leaf.lookup(k(1, RecordKind::Node, 1)),
        Err(IndexError::CorruptPage { .. })
    ));
    assert!(matches!(leaf.entry(1), Err(IndexError::CorruptPage { .. })));
}

#[test]
fn a_page_with_one_entry_is_not_split() {
    let mut page = fresh_page_buf(PageId::new(1), PageType::IndexLeaf);
    let mut leaf = LeafPageMut::open(page.as_mut_slice()).unwrap();
    leaf.insert(k(1, RecordKind::Node, 1), v(1, 1)).unwrap();
    assert!(matches!(leaf.split_into(PageId::new(2)), Err(IndexError::CorruptPage { .. })));
    let mut bytes = [0u8; PAGE_SIZE];
    let mut node = InternalPageMut::init(&mut bytes, PageId::new(3), PageId::new(1));
    assert!(matches!(node.split_into(PageId::new(4)), Err(IndexError::CorruptPage { .. })));
}

#[test]
fn a_payload_of_the_wrong_length_is_an_error() {
    assert!(matches!(
        decode_index_page_payload(&[0u8; 15]),
        Err(IndexError::CorruptPage { .. })
    ));
}

#[test]
fn the_store_lists_every_page_once() {
    let mut store = PrimaryPageStore::new();
    for i in 1..6 {
        store.install_fresh(PageId::new(i), PageType::IndexLeaf).unwrap();
    }
    assert_eq!(store.len(), 5);
    assert_eq!(store.resident_page_count(), 5);
    let (pages, missing) = store.iter_pages_resident_only();
    assert!(missing.is_empty());
    let ids: BTreeSet<u64> = pages.iter().map(|(id, _)| id.raw()).collect();
    assert_eq!(ids, (1..6).collect());
    let mut shown: Vec<u64> = Vec::new();
    let r: Result<Vec<PageId>, u64> =
        store.for_each_resident_page(&mut PageVisits::new(|id: PageId, bytes: &Vec<u8>| {
            assert_eq!(bytes.len(), PAGE_SIZE);
            shown.push(id.raw());
            if id.raw() == 9 { Err(9) } else { Ok(()) }
        }));
    assert!(r.unwrap().is_empty());
    assert_eq!(shown.len(), store.resident_page_count());
    shown.sort();
    shown.dedup();
    assert_eq!(shown.len(), store.resident_page_count(), "each page is shown once");
    let mut last = 0;
    let r: Result<Vec<PageId>, u64> =
        store.for_each_resident_page(&mut PageVisits::new(|id: PageId, _: &Vec<u8>| {
            last = id.raw();
            if id.raw() == 3 { Err(3) } else { Ok(()) }
        }));
    assert_eq!(r.unwrap_err(), 3);
    assert_eq!(last, 3, "nothing is shown after a failure");
}

#[test]
fn a_logged_write_hands_over_every_page_at_once() {
    let mut idx = build_index();
    let before = idx.root().unwrap();
    let mut calls = 0;
    for i in 0..300u64 {
        let mut roots = Vec::new();
        let mut pages = Vec::new();
        let r = idx.write_logged(
            k(1, RecordKind::Node, i),
            WriteOp::Insert(v(i, 0)),
            |staged: &Vec<StagedEmit>, sides: &Vec<SideChannelWrite>| -> Result<(), u8> {
                calls += 1;
                pages = staged.iter().map(|p| (p.page_id, p.bytes.clone())).collect();
                roots = sides.iter().map(|w| (w.tenant_id, w.key, w.value.clone())).collect();
                Ok(())
            },
        );
        assert!(matches!(r, Ok(w) if !w.existed && w.previous.is_none()));
        assert!(!pages.is_empty());
        for (id, bytes) in &pages {
            assert_eq!(&idx.page_store().latch(*id).unwrap(), bytes);
        }
        if !roots.is_empty() {
            let root = idx.root().unwrap().raw();
            assert_eq!(
                roots,
                vec![(TenantId::system(), PRIMARY_INDEX_ROOT_KEY, Some(root.to_le_bytes().to_vec()))]
            );
        }
    }
    assert_eq!(calls, 300);
    assert_ne!(idx.root().unwrap(), before);
}

#[test]
fn a_commit_that_fails_is_reported() {
    let mut idx = build_index();
    let key = k(1, RecordKind::Node, 1);
    let r = idx.write_logged(
        key,
        WriteOp::Insert(v(3, 4)),
        |_: &Vec<StagedEmit>, _: &Vec<SideChannelWrite>| -> Result<(), u8> { Err(9) },
    );
    assert_eq!(r, Err(LoggedWriteError::Commit(9)));
    assert_eq!(idx.lookup(key).unwrap(), Some(v(3, 4)));
    let r = idx.write_logged(
        key,
        WriteOp::Insert(v(5, 6)),
        |_: &Vec<StagedEmit>, _: &Vec<SideChannelWrite>| -> Result<(), u8> {
            panic!("nothing is to be committed")
        },
    );
    assert_eq!(r, Err(LoggedWriteError::Index(IndexError::DuplicateKey { key })));
}

#[test]
fn the_notes_of_a_transaction_undo_it() {
    let mut idx = build_index();
    for i in 0..203u64 {
        idx.insert(k(1, RecordKind::Node, 2 * i), v(i, 0)).unwrap();
    }
    let image = |idx: &PrimaryIndex| -> BTreeMap<u64, Vec<u8>> {
        idx.page_store().iter_pages().into_iter().map(|(id, b)| (id.raw(), b)).collect()
    };
    let start = image(&idx);
    let root = idx.root().unwrap();
    let mut log = TxnMutationLog::new();
    let mut sides = Vec::new();
    for i in 0..400u64 {
        idx.insert_deferred(k(1, RecordKind::Node, 2 * i + 1), v(i, 1), &mut sides, &mut log).unwrap();
    }
    idx.remove_deferred(k(1, RecordKind::Node, 4), &mut sides, &mut log).unwrap();
    assert_ne!(image(&idx), start);
    assert_ne!(idx.root().unwrap(), root);

    for c in &log.page_mutations {
        idx.page_store_mut().restore_page_bytes(c.page_id, &c.bytes).unwrap();
    }
    for (kind, page) in &log.new_pages {
        assert_eq!(*kind, PageStoreKind::Primary);
        idx.page_store_mut().remove_page(*page);
    }
    idx.restore_root_cache(log.root_changes[0].1);
    assert_eq!(image(&idx), start);
    assert_eq!(idx.root().unwrap(), root);
    for i in 0..203u64 {
        assert_eq!(idx.lookup(k(1, RecordKind::Node, 2 * i)).unwrap(), Some(v(i, 0)));
        assert_eq!(idx.lookup(k(1, RecordKind::Node, 2 * i + 1)).unwrap(), None);
    }
    idx.insert(k(1, RecordKind::Node, 1), v(9, 9)).unwrap();
    assert_eq!(idx.lookup(k(1, RecordKind::Node, 1)).unwrap(), Some(v(9, 9)));
}

#[test]
fn a_logged_load_commits_each_new_key() {
    let mut idx = build_index();
    idx.insert(k(1, RecordKind::Node, 2), v(7, 7)).unwrap();
    let list: Vec<(PrimaryKey, PageSlot)> = (0..5).map(|i| (k(1, RecordKind::Node, i), v(i, 0))).collect();
    assert!(idx.can_load(list.len()) && !idx.can_load(usize::MAX));
    let mut calls = 0;
    let stats = idx
        .bootstrap_logged(list.clone(), &mut CommitCalls::new(|pages: &Vec<StagedEmit>, _: &Vec<SideChannelWrite>| -> Result<(), u8> {
            calls += 1;
            assert!(!pages.is_empty());
            Ok(())
        }))
        .unwrap();
    assert_eq!(stats, BootstrapStats { indexed: 4, skipped: 1 });
    assert_eq!(calls, 4);
    assert_eq!(idx.lookup(k(1, RecordKind::Node, 2)).unwrap(), Some(v(7, 7)));
    let again = idx.bootstrap_logged(list, &mut CommitCalls::new(|_: &Vec<StagedEmit>, _: &Vec<SideChannelWrite>| -> Result<(), u8> {
        panic!("nothing is to be committed")
    }));
    assert_eq!(again, Ok(BootstrapStats { indexed: 0, skipped: 5 }));

    let mut left = 2;
    let broken = idx.bootstrap_logged(
        (10..20).map(|i| (k(1, RecordKind::Node, i), v(i, 0))).collect(),
        &mut CommitCalls::new(|_: &Vec<StagedEmit>, _: &Vec<SideChannelWrite>| -> Result<(), u8> {
            left -= 1;
            if left == 0 { Err(3) } else { Ok(()) }
        }),
    );
    assert_eq!(broken, Err(LoggedWriteError::Commit(3)));
    assert!(idx.lookup(k(1, RecordKind::Node, 11)).unwrap().is_some());
    assert!(idx.lookup(k(1, RecordKind::Node, 12)).unwrap().is_none());
}

#[test]
fn a_write_reports_what_it_meets_on_the_way_down() {
    let mut idx = build_index();
    for i in 0..300u64 {
        assert!(idx.can_write());
        idx.insert(k(1, RecordKind::Node, i), v(i, 0)).unwrap();
    }
    let root = idx.root().unwrap();
    let bytes = idx.page_store().latch(root).unwrap();
    let child = InternalPageRef::open(&bytes).unwrap().find_child(k(1, RecordKind::Node, 299)).unwrap();
    let page = idx.page_store_mut().remove_page(child).unwrap();
    let key = k(1, RecordKind::Node, 299);
    assert_eq!(idx.upsert(key, v(0, 0)), Err(IndexError::MissingPage(child)));
    assert_eq!(idx.remove(key), Err(IndexError::MissingPage(child)));
    // The other leaf can still be written.
    let mut other = page.clone();
    other[5] = PageType::Node.as_byte();
    idx.page_store_mut().install(child, other).unwrap();
    assert!(matches!(
        idx.insert(key, v(0, 0)),
        Err(IndexError::CorruptPage { page_id, .. }) if page_id == child
    ));
    let mut torn = page.clone();
    torn[0] ^= 0xFF;
    idx.page_store_mut().install_or_replace(child, torn).unwrap();
    assert!(matches!(idx.upsert(key, v(0, 0)), Err(IndexError::Core(_))));
    let before = idx.page_store().latch(root).unwrap();
    assert_eq!(before, bytes);
    idx.page_store_mut().install_or_replace(child, page).unwrap();
    assert_eq!(idx.upsert(key, v(1, 1)), Ok(Some(v(299, 0))));
}

#[test]
fn the_logged_pages_of_a_write_redo_it() {
    let mut idx = build_index();
    let mut copy: BTreeMap<u64, Vec<u8>> = snapshot_all_pages(&idx);
    for i in 0..700u64 {
        let key = k(1, RecordKind::Node, (i * 7919) % 701);
        let op = match i % 5 {
            4 => WriteOp::Remove,
            _ => WriteOp::Upsert(v(i, 1)),
        };
        let mut staged = Vec::new();
        idx.write_logged(key, op, |pages: &Vec<StagedEmit>, _: &Vec<SideChannelWrite>| -> Result<(), u8> {
            staged = pages.iter().map(|p| (p.page_id.raw(), p.bytes.clone())).collect();
            Ok(())
        })
        .unwrap();
        for (id, bytes) in staged {
            copy.insert(id, bytes);
        }
        if i % 50 == 0 {
            assert_eq!(copy, snapshot_all_pages(&idx));
        }
    }
    assert_eq!(copy, snapshot_all_pages(&idx));
}

#[test]
fn a_logged_load_hands_over_every_page_it_changes() {
    let mut idx = build_index();
    let mut logged: BTreeMap<u64, Vec<u8>> = BTreeMap::new();
    let mut roots: Vec<Vec<u8>> = Vec::new();
    let list: Vec<(PrimaryKey, PageSlot)> =
        (0..450).map(|i| (k(1, RecordKind::Node, (i * 7) % 450), v(i, 0))).collect();
    let stats = idx
        .bootstrap_logged(list, &mut CommitCalls::new(|pages: &Vec<StagedEmit>, sides: &Vec<SideChannelWrite>| -> Result<(), u8> {
            for page in pages {
                logged.insert(page.page_id.raw(), page.bytes.clone());
            }
            for side in sides {
                assert_eq!(side.key, PRIMARY_INDEX_ROOT_KEY);
                roots.push(side.value.clone().unwrap());
            }
            Ok(())
        }))
        .unwrap();
    assert_eq!(stats, BootstrapStats { indexed: 450, skipped: 0 });
    let kept: BTreeMap<u64, Vec<u8>> =
        idx.page_store().iter_pages().into_iter().map(|(id, bytes)| (id.raw(), bytes)).collect();
    assert_eq!(logged, kept);
    // What was logged is an index again.
    let mut store = PrimaryPageStore::new();
    for (id, bytes) in logged {
        store.install(PageId::new(id), bytes).unwrap();
    }
    let next = PageAllocator { next: kept.len() as u64 + 1 };
    let mut back = PrimaryIndex::with_page_store(next, roots.pop(), store).unwrap();
    assert!(back.check_pages());
    for i in 0..450u64 {
        let key = k(1, RecordKind::Node, i);
        assert_eq!(back.lookup(key), idx.lookup(key));
        assert_eq!(back.try_lookup(key), Some(idx.lookup(key)));
    }
}

#[test]
fn pages_that_form_no_tree_are_told_apart() {
    let mut idx = build_index();
    assert!(idx.check_pages());
    for i in 0..300u64 {
        idx.insert(k(1, RecordKind::Node, i), v(i, 0)).unwrap();
    }
    assert!(idx.check_pages());
    let key = k(1, RecordKind::Node, 299);
    assert_eq!(idx.check_way(key), Some(Ok(())));
    let root = idx.root().unwrap();
    let top = idx.page_store().latch(root).unwrap();
    let child = InternalPageRef::open(&top).unwrap().find_child(key).unwrap();
    let leaf = idx.page_store().latch(child).unwrap();

    // A page is missing.
    idx.page_store_mut().remove_page(child);
    assert!(!idx.check_pages());
    assert_eq!(idx.try_lookup(key), Some(Err(IndexError::MissingPage(child))));
    assert_eq!(idx.check_way(key), Some(Err(IndexError::MissingPage(child))));
    idx.page_store_mut().install(child, leaf.clone()).unwrap();
    assert!(idx.check_pages());

    // A leaf claims more entries than fit on it.
    let mut wide = leaf.clone();
    wide[36] = 0xFF;
    wide[37] = 0xFF;
    idx.page_store_mut().install_or_replace(child, wide).unwrap();
    assert!(!idx.check_pages());
    assert_eq!(idx.try_lookup(key), None);

    // The root leads back to itself.
    let mut ring = top.clone();
    let at = INTERNAL_ENTRY_OFFSET + PRIMARY_KEY_SIZE;
    ring[at..at + 8].copy_from_slice(&root.raw().to_le_bytes());
    idx.page_store_mut().install_or_replace(root, ring).unwrap();
    assert!(!idx.check_pages());
    assert_eq!(idx.try_lookup(key), None);
    assert_eq!(idx.check_way(key), None);
    idx.page_store_mut().install_or_replace(root, top).unwrap();

    // The keys of a leaf are out of order.
    let mut swapped = leaf.clone();
    let entry = LeafPageRef::open(&leaf).unwrap().entry(0).unwrap().0.encode();
    let second = 40 + PRIMARY_KEY_SIZE + PAGE_SLOT_SIZE;
    swapped[second..second + PRIMARY_KEY_SIZE].copy_from_slice(&entry);
    idx.page_store_mut().install_or_replace(child, swapped).unwrap();
    assert!(!idx.check_pages());
    idx.page_store_mut().install_or_replace(child, leaf).unwrap();
    assert!(idx.check_pages());
    assert_eq!(idx.lookup(key), Ok(Some(v(299, 0))));

    // A page has a number that is still to be handed out.
    let far = PageId::new(1 << 40);
    idx.page_store_mut().install(far, fresh_page_buf(far, PageType::IndexLeaf)).unwrap();
    assert!(!idx.check_pages());
    assert_eq!(idx.page_store_mut().page_numbers().len(), idx.page_store().len());
}

#[test]
fn a_root_that_is_not_known_is_loaded() {
    let mut idx = build_index();
    let key = k(1, RecordKind::Node, 1);
    idx.insert(key, v(3, 0)).unwrap();
    let root = idx.root().unwrap();
    let kept = idx.root_record().value;
    assert_eq!(idx.load_root(None), Ok(root));
    idx.restore_root_cache(PageId::new(0));
    assert!(matches!(idx.root(), Err(IndexError::CorruptPage { .. })));
    assert!(matches!(idx.load_root(None), Err(IndexError::CorruptPage { .. })));
    assert_eq!(idx.load_root(kept), Ok(root));
    assert_eq!(idx.root(), Ok(root));
    assert!(idx.check_pages());
    assert_eq!(idx.lookup(key), Ok(Some(v(3, 0))));
}

#[test]
fn page_numbers_left_decide_what_can_be_written() {
    let near = PrimaryIndex::new(PageAllocator { next: u64::MAX - 66 }, None).unwrap();
    assert!(!near.can_write() && near.can_load(0) && !near.can_load(1));
    let far = PrimaryIndex::new(PageAllocator { next: u64::MAX - 700 }, None).unwrap();
    assert!(far.can_write() && far.can_load(10) && !far.can_load(11));
}
