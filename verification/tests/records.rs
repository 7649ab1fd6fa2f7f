use arcgraph_storage::ids::{LabelId, Lsn, NodeId, PageId, RelId, TenantId, TypeId};
use arcgraph_storage::page::{
    NodeRecord, PageHeader, PageType, RecordError, RelRecord, NODE_RECORD_SIZE, PAGE_HEADER_SIZE, PAGE_SIZE,
    REL_RECORD_SIZE,
};
use arcgraph_storage::records::{PageError, PageFormat, SlotId, SlottedPage, SlottedPageRef};
use arcgraph_storage::slot_model::{
    MAX_SLOTS, NODE_CAPACITY, PAGE_BODY_BYTES, PROP_BAG_MAX_BYTES, REL_CAPACITY, SLOT_AREA_START,
    SLOT_SIZE,
};

fn fresh_node_page(buf: &mut [u8]) -> SlottedPage<'_> {
    let hdr = PageHeader::new(PageId::new(7), PageType::Node, TenantId::default_tenant());
    SlottedPage::init(buf, hdr).unwrap()
}

fn fresh_rel_page(buf: &mut [u8]) -> SlottedPage<'_> {
    let hdr = PageHeader::new(PageId::new(9), PageType::Rel, TenantId::default_tenant());
    SlottedPage::init(buf, hdr).unwrap()
}

fn fresh_prop_page(buf: &mut [u8]) -> SlottedPage<'_> {
    let hdr = PageHeader::new(PageId::new(11), PageType::PropSlotted, TenantId::default_tenant());
    SlottedPage::init(buf, hdr).unwrap()
}

fn mk_node(id: u64) -> NodeRecord {
    NodeRecord::new(NodeId::new(id), LabelId::new(1), Lsn::new(42))
}

fn mk_rel(id: u64) -> RelRecord {
    RelRecord::new(
        RelId::new(id),
        TypeId::new(2),
        NodeId::new(10),
        NodeId::new(20),
        Lsn::new(42),
    )
}

#[test]
fn capacity_constants_match_math() {
    assert_eq!(NODE_CAPACITY, 119);
    assert_eq!(REL_CAPACITY, 81);
    assert!((NODE_CAPACITY as usize) * (SLOT_SIZE + NODE_RECORD_SIZE) <= PAGE_BODY_BYTES);
    assert!((REL_CAPACITY as usize) * (SLOT_SIZE + REL_RECORD_SIZE) <= PAGE_BODY_BYTES);
}

#[test]
fn exact_redo_can_fill_sparse_and_released_reservation_slots() {
    let mut buf = [0u8; PAGE_SIZE];
    let mut page = fresh_node_page(&mut buf);
    page.put_node_at(SlotId(2), &mk_node(3)).unwrap();
    assert_eq!(page.slot_count(), 3);
    assert!(page.read_node(SlotId(0)).unwrap().is_none());
    assert!(page.read_node(SlotId(1)).unwrap().is_none());
    assert_eq!(page.read_node(SlotId(2)).unwrap().unwrap().id, 3);

    page.put_node_at(SlotId(0), &mk_node(1)).unwrap();
    page.put_node_at(SlotId(1), &mk_node(2)).unwrap();
    assert_eq!(page.read_node(SlotId(0)).unwrap().unwrap().id, 1);
    assert_eq!(page.read_node(SlotId(1)).unwrap().unwrap().id, 2);
}

#[test]
fn durable_tombstone_is_distinct_from_hole_and_rejects_publish_and_redo() {
    let mut buf = [0_u8; PAGE_SIZE];
    let mut page = fresh_node_page(&mut buf);
    page.write_node_at_slot(SlotId(2), &mk_node(2)).unwrap();
    page.permanent_tombstone_node_at_slot(SlotId(2), Lsn::new(77))
        .unwrap();
    assert_eq!(page.read_node(SlotId(2)).unwrap(), None);
    assert!(page.as_ref().is_permanent_tombstone(SlotId(2)).unwrap());
    assert_eq!(
        page.as_ref()
            .permanent_tombstone_lsn(SlotId(2), NODE_RECORD_SIZE as u16)
            .unwrap(),
        Some(77)
    );
    assert!(matches!(
        page.write_node_at_slot(SlotId(2), &mk_node(22)),
        Err(PageError::SlotTombstoned(2))
    ));
    assert!(matches!(
        page.put_node_at(SlotId(2), &mk_node(22)),
        Err(PageError::SlotTombstoned(2))
    ));

    page.put_node_at(SlotId(0), &mk_node(1)).unwrap();
    assert_eq!(page.read_node(SlotId(0)).unwrap().unwrap().id, 1);
}

#[test]
fn init_zeroes_body_and_sets_free_space() {
    let mut buf = [0xAAu8; PAGE_SIZE];
    let page = fresh_node_page(&mut buf);
    let h = page.header();
    assert_eq!(h.slot_count, 0);
    assert_eq!(h.free_space as usize, PAGE_BODY_BYTES);
    assert_eq!(h.tenant_id, TenantId::default_tenant().raw());
    assert!(buf[PAGE_HEADER_SIZE..].iter().all(|&b| b == 0));
}

#[test]
fn open_validates_header() {
    let mut buf = [0u8; PAGE_SIZE];
    let _ = fresh_node_page(&mut buf);
    let reopened = SlottedPage::open(&mut buf);
    assert!(reopened.is_ok());

    buf[0] = 0;
    let err = SlottedPage::open(&mut buf).unwrap_err();
    assert!(matches!(err, PageError::Format(_)));
}

#[test]
fn node_insert_then_read_roundtrip() {
    let mut buf = [0u8; PAGE_SIZE];
    let mut page = fresh_node_page(&mut buf);
    let r1 = mk_node(1);
    let r2 = mk_node(2);
    let s1 = page.insert_node(&r1).unwrap();
    let s2 = page.insert_node(&r2).unwrap();
    assert_eq!(s1, SlotId(0));
    assert_eq!(s2, SlotId(1));
    assert_eq!(page.read_node(s1).unwrap(), Some(r1));
    assert_eq!(page.read_node(s2).unwrap(), Some(r2));
    assert_eq!(page.slot_count(), 2);
}

#[test]
fn rel_insert_then_read_roundtrip() {
    let mut buf = [0u8; PAGE_SIZE];
    let mut page = fresh_rel_page(&mut buf);
    let r = mk_rel(7);
    let s = page.insert_rel(&r).unwrap();
    assert_eq!(page.read_rel(s).unwrap(), Some(r));
}

#[test]
fn insert_rejects_wrong_page_type() {
    let mut buf = [0u8; PAGE_SIZE];
    let mut page = fresh_node_page(&mut buf);
    let err = page.insert_rel(&mk_rel(1)).unwrap_err();
    assert!(matches!(err, PageError::WrongPageType { .. }));
}

#[test]
fn read_rejects_out_of_range_slot() {
    let mut buf = [0u8; PAGE_SIZE];
    let page = fresh_node_page(&mut buf);
    let err = page.read_node(SlotId(0)).unwrap_err();
    assert!(matches!(
        err,
        PageError::SlotOutOfRange { slot: 0, count: 0 }
    ));
}

#[test]
fn update_node_overwrites_in_place_keeping_slot_id() {
    let mut buf = [0u8; PAGE_SIZE];
    let mut page = fresh_node_page(&mut buf);
    let r1 = mk_node(1);
    let s = page.insert_node(&r1).unwrap();

    let mut r2 = r1;
    r2.label_id = 99;
    page.update_node(s, &r2).unwrap();
    assert_eq!(page.read_node(s).unwrap(), Some(r2));
    assert_eq!(page.slot_count(), 1);
}

#[test]
fn update_node_on_tombstoned_slot_fails() {
    let mut buf = [0u8; PAGE_SIZE];
    let mut page = fresh_node_page(&mut buf);
    let s = page.insert_node(&mk_node(1)).unwrap();
    page.tombstone(s).unwrap();
    let err = page.update_node(s, &mk_node(2)).unwrap_err();
    assert!(matches!(err, PageError::SlotTombstoned(0)));
}

#[test]
fn tombstone_hides_record_from_reads() {
    let mut buf = [0u8; PAGE_SIZE];
    let mut page = fresh_node_page(&mut buf);
    let a = page.insert_node(&mk_node(1)).unwrap();
    let b = page.insert_node(&mk_node(2)).unwrap();
    page.tombstone(a).unwrap();
    assert_eq!(page.read_node(a).unwrap(), None);
    assert_eq!(page.read_node(b).unwrap(), Some(mk_node(2)));
    assert_eq!(page.slot_count(), 2);
}

#[test]
fn tombstone_is_idempotent() {
    let mut buf = [0u8; PAGE_SIZE];
    let mut page = fresh_node_page(&mut buf);
    let s = page.insert_node(&mk_node(1)).unwrap();
    page.tombstone(s).unwrap();
    page.tombstone(s).unwrap();
    assert_eq!(page.read_node(s).unwrap(), None);
}

#[test]
fn insert_fills_page_to_capacity_then_reports_full() {
    let mut buf = [0u8; PAGE_SIZE];
    let mut page = fresh_node_page(&mut buf);
    for i in 0..NODE_CAPACITY {
        let s = page.insert_node(&mk_node(i as u64)).unwrap();
        assert_eq!(s, SlotId(i));
    }
    let err = page.insert_node(&mk_node(9999)).unwrap_err();
    assert!(
        matches!(err, PageError::Full { .. }),
        "expected Full, got {err:?}"
    );
}

#[test]
fn rel_insert_fills_to_capacity() {
    let mut buf = [0u8; PAGE_SIZE];
    let mut page = fresh_rel_page(&mut buf);
    for i in 0..REL_CAPACITY {
        page.insert_rel(&mk_rel(i as u64)).unwrap();
    }
    let err = page.insert_rel(&mk_rel(9999)).unwrap_err();
    assert!(matches!(err, PageError::Full { .. }));
}

#[test]
fn iter_nodes_skips_tombstones_and_visits_in_slot_order() {
    let mut buf = [0u8; PAGE_SIZE];
    let mut page = fresh_node_page(&mut buf);
    let s0 = page.insert_node(&mk_node(10)).unwrap();
    let _s1 = page.insert_node(&mk_node(20)).unwrap();
    let _s2 = page.insert_node(&mk_node(30)).unwrap();
    page.tombstone(s0).unwrap();
    let got: Vec<(SlotId, u64)> = page.as_ref().iter_nodes().into_iter().map(|(s, r)| (s, r.id)).collect();
    assert_eq!(got, vec![(SlotId(1), 20), (SlotId(2), 30)]);
}

#[test]
fn free_space_decreases_monotonically_by_slot_plus_record() {
    let mut buf = [0u8; PAGE_SIZE];
    let mut page = fresh_node_page(&mut buf);
    let mut prev = page.free_space();
    for i in 0..5 {
        page.insert_node(&mk_node(i)).unwrap();
        let now = page.free_space();
        assert_eq!(
            prev - now,
            (SLOT_SIZE + NODE_RECORD_SIZE) as u16,
            "free_space should drop by slot+record on every insert"
        );
        prev = now;
    }
}

#[test]
fn records_grow_backward_from_page_end() {
    let mut buf = [0u8; PAGE_SIZE];
    let mut page = fresh_node_page(&mut buf);
    page.insert_node(&mk_node(42)).unwrap();
    let off = u16::from_le_bytes([buf[SLOT_AREA_START], buf[SLOT_AREA_START + 1]]) as usize;
    assert_eq!(off, PAGE_SIZE - NODE_RECORD_SIZE);
}

#[test]
fn fresh_page_opens_with_valid_checksum() {
    let mut buf = [0u8; PAGE_SIZE];
    let _ = fresh_node_page(&mut buf);
    SlottedPage::open(&mut buf.clone()).unwrap();
    SlottedPageRef::open(&buf).unwrap();
}

#[test]
fn checksum_is_nonzero_after_init() {
    let mut buf = [0u8; PAGE_SIZE];
    let page = fresh_node_page(&mut buf);
    let stored = page.header().checksum;
    let computed = crc32c::crc32c(&buf[PAGE_HEADER_SIZE..]);
    assert_eq!(stored, computed);
}

#[test]
fn empty_page_checksum_is_stable_across_inits() {
    let hdr = PageHeader::new(PageId::new(7), PageType::Node, TenantId::default_tenant());
    let mut a = [0u8; PAGE_SIZE];
    let mut b = [0u8; PAGE_SIZE];
    SlottedPage::init(&mut a, hdr).unwrap();
    SlottedPage::init(&mut b, hdr).unwrap();
    assert_eq!(a, b, "empty pages with equal header must be byte-identical");
}

#[test]
fn mutation_updates_checksum() {
    let mut buf = [0u8; PAGE_SIZE];
    let mut page = fresh_node_page(&mut buf);
    let c0 = page.header().checksum;
    page.insert_node(&mk_node(1)).unwrap();
    let c1 = page.header().checksum;
    assert_ne!(c0, c1, "insert must change the body and thus the checksum");
    assert_eq!(c1, crc32c::crc32c(&buf[PAGE_HEADER_SIZE..]));

    SlottedPageRef::open(&buf).unwrap();
}

#[test]
fn tombstone_updates_checksum_and_reopens() {
    let mut buf = [0u8; PAGE_SIZE];
    let mut page = fresh_node_page(&mut buf);
    let s = page.insert_node(&mk_node(1)).unwrap();
    let before = page.header().checksum;
    page.tombstone(s).unwrap();
    let after = page.header().checksum;
    assert_ne!(before, after);
    SlottedPageRef::open(&buf).unwrap();
}

#[test]
fn overwrite_updates_checksum_and_reopens() {
    let mut buf = [0u8; PAGE_SIZE];
    let mut page = fresh_node_page(&mut buf);
    let s = page.insert_node(&mk_node(1)).unwrap();
    let before = page.header().checksum;
    let mut r2 = mk_node(1);
    r2.label_id = 99;
    page.update_node(s, &r2).unwrap();
    let after = page.header().checksum;
    assert_ne!(before, after);
    SlottedPageRef::open(&buf).unwrap();
}

#[test]
fn corrupt_body_byte_fails_verification() {
    let mut buf = [0u8; PAGE_SIZE];
    {
        let mut page = fresh_node_page(&mut buf);
        page.insert_node(&mk_node(42)).unwrap();
    }
    buf[PAGE_HEADER_SIZE + 17] ^= 0xFF;
    let err = SlottedPageRef::open(&buf).unwrap_err();
    assert!(
        matches!(err, PageError::ChecksumMismatch { .. }),
        "got {err:?}"
    );
    let err2 = SlottedPage::open(&mut buf).unwrap_err();
    assert!(
        matches!(err2, PageError::ChecksumMismatch { .. }),
        "got {err2:?}"
    );
}

#[test]
fn corrupt_record_area_byte_fails_verification() {
    let mut buf = [0u8; PAGE_SIZE];
    {
        let mut page = fresh_node_page(&mut buf);
        page.insert_node(&mk_node(42)).unwrap();
    }
    buf[PAGE_SIZE - 1] ^= 0x01;
    let err = SlottedPageRef::open(&buf).unwrap_err();
    assert!(matches!(err, PageError::ChecksumMismatch { .. }));
}

#[test]
fn checksum_field_change_alone_fails_verification() {
    let mut buf = [0u8; PAGE_SIZE];
    let _ = fresh_node_page(&mut buf);
    buf[32] ^= 0x55;
    let err = SlottedPageRef::open(&buf).unwrap_err();
    assert!(matches!(err, PageError::ChecksumMismatch { .. }));
}

#[test]
fn open_rejects_forged_oversized_slot_count() {
    let mut buf = [0u8; PAGE_SIZE];
    {
        let mut page = fresh_node_page(&mut buf);
        page.insert_node(&mk_node(1)).unwrap();
    }
    SlottedPageRef::open(&buf).unwrap();
    SlottedPage::open(&mut buf.clone()).unwrap();

    buf[36..38].copy_from_slice(&u16::MAX.to_le_bytes());

    let err = SlottedPageRef::open(&buf).unwrap_err();
    assert!(
        matches!(err, PageError::Format(ref m) if m.message().contains("slot_count")),
        "ref open: expected slot_count Format reject, got {err:?}"
    );
    let err_mut = SlottedPage::open(&mut buf).unwrap_err();
    assert!(
        matches!(err_mut, PageError::Format(ref m) if m.message().contains("slot_count")),
        "mut open: expected slot_count Format reject, got {err_mut:?}"
    );
}

#[test]
fn slot_count_boundary_is_exact() {
    let mut buf = [0u8; PAGE_SIZE];
    {
        let mut page = fresh_node_page(&mut buf);
        page.insert_node(&mk_node(1)).unwrap();
    }
    buf[36..38].copy_from_slice(&MAX_SLOTS.to_le_bytes());
    assert!(
        SlottedPageRef::open(&buf).is_ok(),
        "slot_count == MAX_SLOTS ({MAX_SLOTS}) must be accepted"
    );
    buf[36..38].copy_from_slice(&(MAX_SLOTS + 1).to_le_bytes());
    let err = SlottedPageRef::open(&buf).unwrap_err();
    assert!(
        matches!(err, PageError::Format(ref m) if m.message().contains("slot_count")),
        "slot_count == MAX_SLOTS+1 must be a Format reject, got {err:?}"
    );
}

#[test]
fn slot_entry_bounds_checks_forged_slot_count() {
    let mut buf = [0u8; PAGE_SIZE];
    {
        let mut page = fresh_node_page(&mut buf);
        page.insert_node(&mk_node(1)).unwrap();
    }
    buf[36..38].copy_from_slice(&u16::MAX.to_le_bytes());

    let view = SlottedPageRef::from_bytes_unchecked(&buf);
    let res = view.read_node(SlotId(MAX_SLOTS));
    assert!(
        matches!(res, Err(PageError::Format(_))),
        "expected a Format error at the out-of-bounds slot, got {res:?}"
    );
    let _ = view.iter_nodes().len();
    let _ = view.iter_rels().len();
}

#[test]
fn insert_rejects_crafted_oversized_free_space() {
    let mut buf = [0u8; PAGE_SIZE];
    {
        let mut page = fresh_node_page(&mut buf);
        page.insert_node(&mk_node(1)).unwrap();
    }
    {
        let mut tmp = buf;
        let mut page = SlottedPage::open(&mut tmp).unwrap();
        page.insert_node(&mk_node(2)).unwrap();
    }
    buf[38..40].copy_from_slice(&u16::MAX.to_le_bytes());
    let mut page = SlottedPage::open(&mut buf).unwrap();
    let err = page.insert_node(&mk_node(2)).unwrap_err();
    assert!(
        matches!(err, PageError::Format(ref m) if m.message().contains("watermark underflow")),
        "expected a Format watermark-underflow reject, got {err:?}"
    );
}

#[test]
fn insert_rejects_crafted_inconsistent_watermark_sum() {
    let mut buf = [0u8; PAGE_SIZE];
    {
        let mut page = fresh_node_page(&mut buf);
        page.insert_node(&mk_node(1)).unwrap();
    }
    buf[36..38].copy_from_slice(&100u16.to_le_bytes());
    buf[38..40].copy_from_slice(&8000u16.to_le_bytes());
    let mut page = SlottedPage::open(&mut buf).unwrap();
    let err = page.insert_node(&mk_node(2)).unwrap_err();
    assert!(
        matches!(err, PageError::Format(ref m) if m.message().contains("watermark underflow")),
        "expected a Format watermark-underflow reject, got {err:?}"
    );
}

#[test]
fn insert_raw_guard_is_transparent_to_valid_pages() {
    let mut buf = [0u8; PAGE_SIZE];
    {
        let mut page = fresh_node_page(&mut buf);
        for i in 0..3u64 {
            let slot = page.insert_node(&mk_node(i)).unwrap();
            assert_eq!(page.read_node(slot).unwrap(), Some(mk_node(i)));
        }
    }
    for k in 0..3usize {
        let slot_off = SLOT_AREA_START + k * SLOT_SIZE;
        let off = u16::from_le_bytes([buf[slot_off], buf[slot_off + 1]]) as usize;
        let len = u16::from_le_bytes([buf[slot_off + 2], buf[slot_off + 3]]) as usize;
        assert_eq!(
            off,
            PAGE_SIZE - (k + 1) * NODE_RECORD_SIZE,
            "record {k} offset must be byte-identical to the pre-guard formula"
        );
        assert_eq!(len, NODE_RECORD_SIZE);
    }
    SlottedPageRef::open(&buf).unwrap();
}

#[test]
fn bag_insert_then_read_roundtrip_variable_lengths() {
    let mut buf = vec![0u8; PAGE_SIZE];
    let mut page = fresh_prop_page(&mut buf);
    let bags: Vec<Vec<u8>> = vec![
        b"a".to_vec(),
        vec![0x42; 60],
        vec![0x7F; 150],
        vec![0x01; 2048],
    ];
    let mut slots = Vec::new();
    for b in &bags {
        slots.push(page.insert_bag(b).expect("insert"));
    }
    for (slot, b) in slots.iter().zip(&bags) {
        assert_eq!(
            page.read_bag(*slot).expect("read").expect("live"),
            &b[..],
            "bag must round-trip byte-identical"
        );
    }
}

#[test]
fn bag_capacity_127_at_60_bytes() {
    let mut buf = vec![0u8; PAGE_SIZE];
    let mut page = fresh_prop_page(&mut buf);
    for i in 0..127 {
        page.insert_bag(&[(i & 0xFF) as u8; 60])
            .unwrap_or_else(|e| panic!("bag {i} must fit: {e:?}"));
    }
    assert!(
        matches!(page.insert_bag(&[0u8; 60]), Err(PageError::Full { .. })),
        "the 128th 60 B bag must report Full"
    );
}

#[test]
fn bag_max_size_fills_page_exactly_and_reads_back() {
    let mut buf = vec![0u8; PAGE_SIZE];
    let mut page = fresh_prop_page(&mut buf);
    let bag = vec![0xEE; PROP_BAG_MAX_BYTES];
    let slot = page.insert_bag(&bag).expect("max-size bag must fit");
    assert_eq!(page.free_space(), 0, "page exactly full");
    assert_eq!(page.read_bag(slot).unwrap().unwrap(), &bag[..]);
    assert!(
        matches!(page.insert_bag(b"x"), Err(PageError::Full { .. })),
        "nothing further fits"
    );
}

#[test]
fn bag_rejects_empty_and_oversize() {
    let mut buf = vec![0u8; PAGE_SIZE];
    let mut page = fresh_prop_page(&mut buf);
    assert!(matches!(page.insert_bag(b""), Err(PageError::Format(_))));
    assert!(matches!(
        page.insert_bag(&vec![0u8; PROP_BAG_MAX_BYTES + 1]),
        Err(PageError::Format(_))
    ));
}

#[test]
fn bag_apis_reject_wrong_page_type() {
    let mut buf = vec![0u8; PAGE_SIZE];
    let mut node_page = fresh_node_page(&mut buf);
    assert!(matches!(
        node_page.insert_bag(b"bag"),
        Err(PageError::WrongPageType { .. })
    ));
    let node_ref = node_page.as_ref();
    assert!(matches!(
        node_ref.read_bag(SlotId(0)),
        Err(PageError::WrongPageType { .. })
    ));
    let mut buf2 = vec![0u8; PAGE_SIZE];
    let _ = fresh_prop_page(&mut buf2);
    assert!(matches!(
        SlottedPageRef::open_prop_trusted(&buf[..]),
        Err(PageError::WrongPageType { .. })
    ));
    assert!(SlottedPageRef::open_prop_trusted(&buf2[..]).is_ok());
}

#[test]
fn bag_tombstone_reads_none_and_full_open_validates() {
    let mut buf = vec![0u8; PAGE_SIZE];
    let mut page = fresh_prop_page(&mut buf);
    let s0 = page.insert_bag(b"first").unwrap();
    let s1 = page.insert_bag(b"second").unwrap();
    page.tombstone(s0).unwrap();
    assert!(page.read_bag(s0).unwrap().is_none(), "tombstoned → None");
    assert_eq!(page.read_bag(s1).unwrap().unwrap(), b"second");
    assert!(SlottedPageRef::open(&buf[..]).is_ok());
}

#[test]
fn a_redo_step_runs_once_and_stamps_the_page() {
    let mut buf = [0u8; PAGE_SIZE];
    let mut page = fresh_node_page(&mut buf);
    assert_eq!(page.page_lsn(), Lsn::new(0));
    let done: Result<bool, PageError> = page.apply_redo_if_newer(Lsn::new(5), |p: &mut SlottedPage<'_>| {
        p.put_node_at(SlotId(0), &mk_node(1))
    });
    assert_eq!(done, Ok(true));
    assert_eq!(page.page_lsn(), Lsn::new(5));
    let again: Result<bool, PageError> = page.apply_redo_if_newer(Lsn::new(5), |p: &mut SlottedPage<'_>| {
        p.put_node_at(SlotId(1), &mk_node(2))
    });
    assert_eq!(again, Ok(false));
    assert_eq!(page.slot_count(), 1);
    let failed: Result<bool, PageError> = page.apply_redo_if_newer(Lsn::new(9), |p: &mut SlottedPage<'_>| {
        p.put_rel_at(SlotId(1), &mk_rel(2))
    });
    assert!(matches!(failed, Err(PageError::WrongPageType { .. })));
    assert_eq!(page.page_lsn(), Lsn::new(5), "a step that fails does not stamp");
    SlottedPageRef::open(&buf).unwrap();
}

#[test]
fn an_older_version_is_not_published_over_a_newer_one() {
    let mut buf = [0u8; PAGE_SIZE];
    let mut page = fresh_node_page(&mut buf);
    page.write_node_at_slot(SlotId(0), &mk_node(1)).unwrap();
    let old = NodeRecord::new(NodeId::new(1), LabelId::new(1), Lsn::new(41));
    assert_eq!(
        page.write_node_at_slot(SlotId(0), &old),
        Err(PageError::StalePublish { slot: 0, current: 42, incoming: 41 })
    );
    let new = NodeRecord::new(NodeId::new(1), LabelId::new(3), Lsn::new(43));
    page.write_node_at_slot(SlotId(0), &new).unwrap();
    assert_eq!(page.read_node(SlotId(0)).unwrap(), Some(new));
}

#[test]
fn fixed_slots_lie_where_their_number_says() {
    let mut buf = [0u8; PAGE_SIZE];
    {
        let mut page = fresh_rel_page(&mut buf);
        page.write_rel_at_slot(SlotId(3), &mk_rel(3)).unwrap();
        assert_eq!(page.slot_count(), 4);
        assert_eq!(page.read_rel(SlotId(0)).unwrap(), None);
        assert_eq!(page.read_rel(SlotId(3)).unwrap(), Some(mk_rel(3)));
        assert_eq!(
            page.write_rel_at_slot(SlotId(REL_CAPACITY), &mk_rel(9)),
            Err(PageError::SlotOutOfRange { slot: REL_CAPACITY, count: REL_CAPACITY })
        );
    }
    let at = SLOT_AREA_START + 3 * SLOT_SIZE;
    let off = u16::from_le_bytes([buf[at], buf[at + 1]]) as usize;
    assert_eq!(off, PAGE_SIZE - 4 * REL_RECORD_SIZE);
}

#[test]
fn the_order_of_fixed_writes_does_not_matter() {
    let mut a = [0u8; PAGE_SIZE];
    let mut b = [0u8; PAGE_SIZE];
    {
        let mut page = fresh_node_page(&mut a);
        for i in [0u16, 1, 2, 5] {
            page.write_node_at_slot(SlotId(i), &mk_node(i as u64)).unwrap();
        }
    }
    {
        let mut page = fresh_node_page(&mut b);
        for i in [5u16, 2, 0, 1] {
            page.write_node_at_slot(SlotId(i), &mk_node(i as u64)).unwrap();
        }
    }
    assert_eq!(a, b);
}

#[test]
fn fixed_writes_in_any_order_are_dense_inserts() {
    let mut a = [0u8; PAGE_SIZE];
    let mut b = [0u8; PAGE_SIZE];
    {
        let mut page = fresh_node_page(&mut a);
        for i in 0u16..NODE_CAPACITY {
            let slot = (i * 50) % NODE_CAPACITY;
            page.write_node_at_slot(SlotId(slot), &mk_node(slot as u64)).unwrap();
        }
    }
    {
        let mut page = fresh_node_page(&mut b);
        for i in 0u16..NODE_CAPACITY {
            assert_eq!(page.insert_node(&mk_node(i as u64)).unwrap(), SlotId(i));
        }
    }
    assert_eq!(a, b);
}

#[test]
fn one_changed_body_byte_is_noticed() {
    let mut buf = [0u8; PAGE_SIZE];
    fresh_node_page(&mut buf).insert_node(&mk_node(1)).unwrap();
    for at in (PAGE_HEADER_SIZE..PAGE_SIZE).step_by(97) {
        for change in [1u8, 0x80, 0xFF] {
            let mut bad = buf;
            bad[at] ^= change;
            assert!(matches!(SlottedPageRef::open(&bad), Err(PageError::ChecksumMismatch { .. })));
        }
    }
}

#[test]
fn relationships_at_distinct_slots_go_in_any_order() {
    let mut a = [0u8; PAGE_SIZE];
    let mut b = [0u8; PAGE_SIZE];
    {
        let mut page = fresh_rel_page(&mut a);
        for i in [3u16, 80, 17, 0] {
            page.write_rel_at_slot(SlotId(i), &mk_rel(i as u64)).unwrap();
        }
    }
    {
        let mut page = fresh_rel_page(&mut b);
        for i in [0u16, 17, 3, 80] {
            page.write_rel_at_slot(SlotId(i), &mk_rel(i as u64)).unwrap();
        }
    }
    assert_eq!(a, b);
}

#[test]
fn a_durable_tombstone_is_not_overwritten() {
    let mut buf = vec![0u8; PAGE_SIZE];
    let mut page = fresh_prop_page(&mut buf);
    page.put_fixed_bag_at_slot(SlotId(0), &[5u8; 64], 100).unwrap();
    page.permanent_tombstone_fixed_bag_at_slot(SlotId(1), Lsn::new(3), 64, 100).unwrap();
    let free = page.as_ref().header().free_space;
    assert_eq!(page.put_bag_at(SlotId(1), &[8u8; 64]), Err(PageError::SlotTombstoned(1)));
    assert_eq!(page.put_bag_at(SlotId(1), b"short"), Err(PageError::SlotTombstoned(1)));
    assert_eq!(page.tombstone(SlotId(1)), Ok(()));
    assert!(page.as_ref().is_permanent_tombstone(SlotId(1)).unwrap());
    assert_eq!(page.as_ref().permanent_tombstone_lsn(SlotId(1), 64).unwrap(), Some(3));
    assert_eq!(page.as_ref().header().free_space, free);
    assert_eq!(page.read_bag(SlotId(0)).unwrap().unwrap(), &[5u8; 64]);
    SlottedPageRef::open(&buf).unwrap();
}

#[test]
fn a_refused_redo_leaves_the_page() {
    let mut buf = [0u8; PAGE_SIZE];
    fresh_node_page(&mut buf);
    buf[38] = 0xFF;
    buf[39] = 0x1F;
    let before = buf;
    let mut page = SlottedPage::open(&mut buf).unwrap();
    assert_eq!(
        page.put_node_at(SlotId(3), &mk_node(1)),
        Err(PageError::Format(PageFormat::WatermarkUnderflow { free_space: 8179, slot_count: 3 }))
    );
    assert_eq!(buf, before);
}

#[test]
fn a_durable_tombstone_keeps_the_newest_lsn() {
    let mut buf = [0u8; PAGE_SIZE];
    let mut page = fresh_rel_page(&mut buf);
    page.write_rel_at_slot(SlotId(1), &mk_rel(1)).unwrap();
    page.permanent_tombstone_rel_at_slot(SlotId(1), Lsn::new(50)).unwrap();
    page.permanent_tombstone_rel_at_slot(SlotId(1), Lsn::new(40)).unwrap();
    let len = REL_RECORD_SIZE as u16;
    assert_eq!(page.as_ref().permanent_tombstone_lsn(SlotId(1), len).unwrap(), Some(50));
    page.permanent_tombstone_rel_at_slot(SlotId(1), Lsn::new(60)).unwrap();
    assert_eq!(page.as_ref().permanent_tombstone_lsn(SlotId(1), len).unwrap(), Some(60));
    assert_eq!(page.as_ref().permanent_tombstone_lsn(SlotId(0), len).unwrap(), None);
    assert!(matches!(
        page.as_ref().permanent_tombstone_lsn(SlotId(1), 4),
        Err(PageError::Format(_))
    ));
}

#[test]
fn the_bytes_of_a_hole_are_still_there() {
    let mut buf = [0u8; PAGE_SIZE];
    let mut page = fresh_node_page(&mut buf);
    page.write_node_at_slot(SlotId(0), &mk_node(8)).unwrap();
    page.tombstone(SlotId(0)).unwrap();
    assert_eq!(page.read_node(SlotId(0)).unwrap(), None);
    assert_eq!(
        page.as_ref().recover_tombstoned_node(SlotId(0)).unwrap(),
        Some(mk_node(8))
    );
    let mut rels = [0u8; PAGE_SIZE];
    let mut page = fresh_rel_page(&mut rels);
    page.write_rel_at_slot(SlotId(0), &mk_rel(8)).unwrap();
    page.tombstone(SlotId(0)).unwrap();
    assert_eq!(
        page.as_ref().recover_tombstoned_rel(SlotId(0)).unwrap(),
        Some(mk_rel(8))
    );
}

#[test]
fn a_hole_is_revived_by_redo() {
    let mut buf = vec![0u8; PAGE_SIZE];
    let mut page = fresh_prop_page(&mut buf);
    let s0 = page.insert_bag(b"first").unwrap();
    let s1 = page.insert_bag(b"second").unwrap();
    page.tombstone(s0).unwrap();
    page.put_bag_at(s0, b"third").unwrap();
    assert_eq!(page.read_bag(s0).unwrap().unwrap(), b"third");
    assert_eq!(page.read_bag(s1).unwrap().unwrap(), b"second");
    assert!(matches!(page.put_bag_at(s1, b"longer than before"), Err(PageError::Format(_))));
    page.put_bag_at(s1, b"SECOND").unwrap();
    assert_eq!(page.read_bag(s1).unwrap().unwrap(), b"SECOND");
}

#[test]
fn fixed_bags_are_put_and_retired_in_place() {
    let mut buf = vec![0u8; PAGE_SIZE];
    let mut page = fresh_prop_page(&mut buf);
    page.put_fixed_bag_at_slot(SlotId(1), &[7u8; 64], 100).unwrap();
    assert_eq!(page.read_bag(SlotId(1)).unwrap().unwrap(), &[7u8; 64]);
    page.permanent_tombstone_fixed_bag_at_slot(SlotId(1), Lsn::new(3), 64, 100).unwrap();
    assert_eq!(page.read_bag(SlotId(1)).unwrap(), None);
    assert_eq!(
        page.put_fixed_bag_at_slot(SlotId(1), &[8u8; 64], 100),
        Err(PageError::SlotTombstoned(1))
    );
    assert_eq!(
        page.put_fixed_bag_at_slot(SlotId(100), &[8u8; 64], 100),
        Err(PageError::SlotOutOfRange { slot: 100, count: 100 })
    );
}

#[test]
fn a_record_that_does_not_decode_is_an_error() {
    let mut buf = [0u8; PAGE_SIZE];
    {
        let mut page = fresh_node_page(&mut buf);
        page.insert_node(&mk_node(1)).unwrap();
    }
    let at = PAGE_SIZE - NODE_RECORD_SIZE;
    buf[at] ^= 0xFF;
    let view = SlottedPageRef::from_bytes_unchecked(&buf);
    assert!(matches!(
        view.read_node(SlotId(0)),
        Err(PageError::RecordDecode(RecordError::BadMagic { .. }))
    ));
    assert!(view.iter_nodes().is_empty());
}

#[test]
fn a_buffer_of_another_length_is_no_page() {
    let mut short = vec![0u8; 100];
    assert!(matches!(SlottedPageRef::open(&short), Err(PageError::Format(_))));
    assert!(matches!(SlottedPage::open(&mut short), Err(PageError::Format(_))));
    let hdr = PageHeader::new(PageId::new(7), PageType::Node, TenantId::default_tenant());
    assert!(matches!(SlottedPage::init(&mut short, hdr), Err(PageError::Format(_))));
    let mut whole = vec![0u8; PAGE_SIZE];
    let leaf = PageHeader::new(PageId::new(7), PageType::IndexLeaf, TenantId::default_tenant());
    assert!(matches!(SlottedPage::init(&mut whole, leaf), Err(PageError::WrongPageType { .. })));
}

#[test]
fn headers_and_records_are_read_back() {
    let hdr = PageHeader::new(PageId::new(7), PageType::Rel, TenantId::new(3));
    let bytes = hdr.to_bytes();
    assert_eq!(bytes.len(), PAGE_HEADER_SIZE);
    assert_eq!(PageHeader::from_bytes(&bytes), Ok(hdr));
    let node = mk_node(77);
    assert_eq!(node.to_bytes().len(), NODE_RECORD_SIZE);
    assert_eq!(NodeRecord::from_bytes(&node.to_bytes()), Ok(node));
    let rel = mk_rel(78);
    assert_eq!(rel.to_bytes().len(), REL_RECORD_SIZE);
    assert_eq!(RelRecord::from_bytes(&rel.to_bytes()), Ok(rel));
}

#[test]
fn the_checksum_is_that_of_the_outside_crate() {
    let mut buf = [0u8; PAGE_SIZE];
    {
        let mut page = fresh_node_page(&mut buf);
        page.insert_node(&mk_node(1)).unwrap();
    }
    let stored = u32::from_le_bytes([buf[32], buf[33], buf[34], buf[35]]);
    assert_eq!(stored, crc32c::crc32c(&buf[PAGE_HEADER_SIZE..]));
    assert_ne!(stored, 0);
}
