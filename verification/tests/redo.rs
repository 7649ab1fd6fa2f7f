use arcgraph_storage::delta::{
    is_owner_store_id, recovery_step, settle_install, DeltaError, DeltaFault, DeltaOp, DeltaOpKind, OwnerLayout,
    RecoveryStep, StoreFailure, STORE_BLOB_OVERFLOW, STORE_GRANTS, STORE_INTERN,
    STORE_NODE_BINDINGS, STORE_PROPS, STORE_RECORD, STORE_RELS, STORE_REL_BINDINGS, STORE_TEL,
};
use arcgraph_storage::ids::{LabelId, Lsn, NodeId, PageId, RelId, TenantId, TypeId};
use arcgraph_storage::page::{NodeRecord, PageHeader, PageType, RelRecord, PAGE_HEADER_SIZE, PAGE_SIZE};
use arcgraph_storage::record_store::RecordPageStore;
use arcgraph_storage::records::{PageError, PageFormat, SlotId, SlottedPage, SlottedPageRef};
use arcgraph_storage::redo::{
    apply_physical_delta, apply_recovery_delta, apply_redo_if_newer, sort_by_redo_range,
    try_physical_delta, try_recovery_delta, DeltaPageStore, DirtyPageKey, DirtyPageSnapshot, DirtyPageTable, RecoveryDeltaOutcome,
    RedoLsnRange, RedoOrderError, RedoOrderStats,
};

const OWNER: OwnerLayout = OwnerLayout { row_bytes: 64, rows_per_page: 100 };

fn range(base: u64, end: u64) -> RedoLsnRange {
    RedoLsnRange::new(Lsn::new(base), Lsn::new(end)).unwrap()
}

fn key(tenant: u64, store_id: u16, page_no: u64) -> DirtyPageKey {
    DirtyPageKey { tenant_id: TenantId::new(tenant), store_id, page_no }
}

fn op(kind: DeltaOpKind, store_id: u16, page_no: u64, slot: u16, lsn: u64, payload: &[u8]) -> DeltaOp {
    DeltaOp {
        kind,
        store_id,
        page_no,
        slot,
        tenant_id: TenantId::default_tenant(),
        op_lsn: Lsn::new(lsn),
        payload: payload.to_vec(),
        retires_owner_row: false,
    }
}

fn alloc_page(store_id: u16, page_no: u64, lsn: u64, page_type: PageType) -> DeltaOp {
    op(DeltaOpKind::PageAlloc, store_id, page_no, 0, lsn, &[page_type.as_byte()])
}

fn node(id: u64) -> NodeRecord {
    NodeRecord::new(NodeId::new(id), LabelId::new(1), Lsn::new(3))
}

fn rel(id: u64) -> RelRecord {
    RelRecord::new(RelId::new(id), TypeId::new(2), NodeId::new(1), NodeId::new(2), Lsn::new(3))
}

fn fresh(page_type: PageType, page_no: u64, flags: u16) -> Vec<u8> {
    let mut bytes = vec![0u8; PAGE_SIZE];
    let mut header = PageHeader::new(PageId::new(page_no), page_type, TenantId::default_tenant());
    header.flags = flags;
    SlottedPage::init(bytes.as_mut_slice(), header).unwrap();
    bytes
}

fn lsn_of(bytes: &[u8]) -> u64 {
    SlottedPageRef::open(bytes).unwrap().page_lsn().raw()
}

// ---- ranges -----------------------------------------------------------------

#[test]
fn a_range_needs_a_base_above_zero_and_not_past_its_end() {
    assert!(RedoLsnRange::new(Lsn::new(0), Lsn::new(4)).is_none());
    assert!(RedoLsnRange::new(Lsn::new(5), Lsn::new(4)).is_none());
    let r = range(4, 6);
    assert_eq!((r.base().raw(), r.end().raw(), r.commit_lsn().raw()), (4, 6, 6));
    assert_eq!(r.predecessor().raw(), 3);
    assert_eq!(r.len(), 3);
    assert!(!r.is_empty());
}

#[test]
fn a_range_is_found_from_its_commit_and_its_operations() {
    assert_eq!(RedoLsnRange::ending_at(Lsn::new(10), 3), Some(range(8, 10)));
    assert_eq!(RedoLsnRange::ending_at(Lsn::new(10), 0), Some(range(10, 10)));
    assert_eq!(RedoLsnRange::ending_at(Lsn::new(3), 3), Some(range(1, 3)));
    assert_eq!(RedoLsnRange::ending_at(Lsn::new(3), 4), None);
    assert_eq!(RedoLsnRange::ending_at(Lsn::new(0), 0), None);
}

#[test]
fn each_operation_of_a_range_has_its_own_lsn() {
    let r = range(8, 10);
    let lsns: Vec<u64> = (0..3).map(|i| r.op_lsn(i).unwrap().raw()).collect();
    assert_eq!(lsns, vec![8, 9, 10]);
    assert!(r.op_lsn(3).is_none());
    assert!(r.contains(Lsn::new(8)) && r.contains(Lsn::new(10)));
    assert!(!r.contains(Lsn::new(7)) && !r.contains(Lsn::new(11)));
    let last = range(u64::MAX - 1, u64::MAX);
    assert_eq!(last.op_lsn(1), Some(Lsn::new(u64::MAX)));
    assert!(last.op_lsn(2).is_none());
}

fn range_of(bundle: &(RedoLsnRange, u32)) -> RedoLsnRange {
    bundle.0
}

#[test]
fn bundles_come_out_in_the_order_of_their_ranges() {
    let mut bundles =
        vec![(range(9, 9), 1), (range(1, 3), 2), (range(4, 4), 3), (range(1, 3), 4), (range(20, 22), 5)];
    let stats = sort_by_redo_range(&mut bundles, range_of).unwrap();
    assert_eq!(bundles.iter().map(|b| b.1).collect::<Vec<u32>>(), vec![2, 4, 3, 1, 5]);
    assert_eq!(stats, RedoOrderStats { duplicate_ranges: 1, gaps: 2 });
    let mut none: Vec<(RedoLsnRange, u32)> = Vec::new();
    assert_eq!(
        sort_by_redo_range(&mut none, range_of),
        Ok(RedoOrderStats { duplicate_ranges: 0, gaps: 0 })
    );
}

#[test]
fn ranges_that_overlap_are_refused() {
    let mut bundles = vec![(range(9, 9), 1), (range(1, 5), 2), (range(5, 7), 3)];
    assert_eq!(
        sort_by_redo_range(&mut bundles, range_of),
        Err(RedoOrderError { previous: range(1, 5), overlapping: range(5, 7) })
    );
    assert_eq!(bundles.iter().map(|b| b.1).collect::<Vec<u32>>(), vec![2, 3, 1]);
    // The same base and another end.
    let mut bundles = vec![(range(1, 5), 2), (range(1, 4), 3)];
    assert_eq!(
        sort_by_redo_range(&mut bundles, range_of),
        Err(RedoOrderError { previous: range(1, 4), overlapping: range(1, 5) })
    );
}

#[test]
fn no_gap_is_seen_at_the_end_of_the_numbers() {
    let mut bundles = vec![(range(u64::MAX, u64::MAX), 1), (range(1, u64::MAX - 1), 2)];
    assert_eq!(
        sort_by_redo_range(&mut bundles, range_of),
        Ok(RedoOrderStats { duplicate_ranges: 0, gaps: 0 })
    );
}

#[test]
fn an_operation_runs_once_for_its_lsn() {
    let mut page_lsn = Lsn::new(5);
    let mut runs = 0;
    assert_eq!(
        apply_redo_if_newer(&mut page_lsn, Lsn::new(5), || -> Result<(), u8> { Err(1) }),
        Ok(false)
    );
    assert_eq!(
        apply_redo_if_newer(&mut page_lsn, Lsn::new(6), || -> Result<(), u8> {
            runs += 1;
            Ok(())
        }),
        Ok(true)
    );
    assert_eq!((page_lsn, runs), (Lsn::new(6), 1));
    assert_eq!(
        apply_redo_if_newer(&mut page_lsn, Lsn::new(6), || -> Result<(), u8> {
            runs += 1;
            Ok(())
        }),
        Ok(false)
    );
    assert_eq!(runs, 1);
    assert_eq!(
        apply_redo_if_newer(&mut page_lsn, Lsn::new(9), || -> Result<(), u8> { Err(7) }),
        Err(7)
    );
    assert_eq!(page_lsn, Lsn::new(6));
}

// ---- the table of dirty pages -----------------------------------------------

#[test]
fn the_first_mark_gives_the_lsn_and_every_mark_a_generation() {
    let mut t = DirtyPageTable::new();
    assert!(t.is_empty());
    let a = t.mark_dirty(key(1, 2, 3), Lsn::new(10));
    let b = t.mark_dirty(key(1, 2, 3), Lsn::new(20));
    assert_eq!(a.rec_lsn, Lsn::new(10));
    assert_eq!(b.rec_lsn, Lsn::new(10));
    assert!(b.dirty_gen > a.dirty_gen);
    assert_eq!(t.snapshot_key(key(1, 2, 3)), Some(b));
    assert_eq!(t.snapshot_key(key(1, 2, 4)), None);
    assert_eq!(t.len(), 1);
}

#[test]
fn a_covering_mark_lowers_the_lsn() {
    let mut t = DirtyPageTable::new();
    t.mark_dirty(key(1, 2, 3), Lsn::new(200));
    assert_eq!(t.mark_dirty_covering(key(1, 2, 3), Lsn::new(100)).rec_lsn, Lsn::new(100));
    assert_eq!(t.mark_dirty_covering(key(1, 2, 3), Lsn::new(300)).rec_lsn, Lsn::new(100));
    assert_eq!(t.mark_dirty_covering(key(1, 2, 9), Lsn::new(7)).rec_lsn, Lsn::new(7));
    assert_eq!(t.redo_lsn(Lsn::new(1000)), Lsn::new(7));
}

#[test]
fn a_mark_during_a_flush_outlives_it() {
    let mut t = DirtyPageTable::new();
    let before = t.mark_dirty(key(1, 2, 3), Lsn::new(10));
    t.mark_dirty(key(1, 2, 3), Lsn::new(11));
    assert!(!t.complete_flush(before));
    assert_eq!(t.len(), 1);
    let now = t.snapshot_key(key(1, 2, 3)).unwrap();
    assert!(t.complete_flush(now));
    assert!(t.is_empty());
    assert!(!t.complete_flush(now));
    // A page that comes back is not taken for the one that left.
    t.mark_dirty(key(1, 2, 3), Lsn::new(12));
    assert!(!t.complete_flush(now));
    assert_eq!(t.redo_lsn(Lsn::new(99)), Lsn::new(12));
}

#[test]
fn a_snapshot_is_in_the_order_of_the_pages() {
    let mut t = DirtyPageTable::new();
    for (a, b, c) in [(2, 1, 1), (1, 3, 9), (1, 2, 7), (1, 2, 5)] {
        t.mark_dirty(key(a, b, c), Lsn::new(c + 40));
    }
    let keys: Vec<DirtyPageKey> = t.snapshot().iter().map(|s| s.key).collect();
    assert_eq!(keys, vec![key(1, 2, 5), key(1, 2, 7), key(1, 3, 9), key(2, 1, 1)]);
    assert_eq!(t.redo_lsn(Lsn::new(3)), Lsn::new(41));
    assert_eq!(DirtyPageTable::new().redo_lsn(Lsn::new(3)), Lsn::new(3));
}

#[test]
fn a_restored_table_goes_on_with_fresh_generations() {
    let mut t = DirtyPageTable::new();
    t.mark_dirty(key(1, 2, 3), Lsn::new(10));
    t.mark_dirty(key(1, 2, 4), Lsn::new(11));
    let saved = t.snapshot();
    let mut u = DirtyPageTable::new();
    u.mark_dirty(key(9, 9, 9), Lsn::new(1));
    u.restore(&saved);
    assert_eq!(u.snapshot(), saved);
    let fresh = u.mark_dirty(key(5, 5, 5), Lsn::new(1));
    assert!(saved.iter().all(|s| s.dirty_gen < fresh.dirty_gen));
    u.restore(&[]);
    assert!(u.is_empty());
    assert!(u.mark_dirty(key(5, 5, 5), Lsn::new(1)).dirty_gen > fresh.dirty_gen);
    u.restore(&[DirtyPageSnapshot { key: key(1, 1, 1), rec_lsn: Lsn::new(2), dirty_gen: 50 }]);
    assert_eq!(u.mark_dirty(key(1, 1, 1), Lsn::new(8)).dirty_gen, 51);
}

// ---- physical redo ----------------------------------------------------------

#[test]
fn a_record_is_put_once() {
    let mut page = fresh(PageType::Node, 7, 0);
    let put = op(DeltaOpKind::PutRecord, STORE_RECORD, 7, 2, 30, &node(5).to_bytes());
    assert_eq!(apply_physical_delta(&mut page, &put, Lsn::new(31), OWNER), Ok(true));
    assert_eq!(lsn_of(&page), 30);
    let view = SlottedPageRef::open(&page).unwrap();
    assert_eq!(view.read_node(SlotId(2)).unwrap().unwrap().id, 5);
    assert!(view.read_node(SlotId(0)).unwrap().is_none());
    let once = page.clone();
    assert_eq!(apply_physical_delta(&mut page, &put, Lsn::new(31), OWNER), Ok(false));
    assert_eq!(page, once);
}

#[test]
fn a_relationship_ends_at_its_commit() {
    let mut page = fresh(PageType::Rel, 7, 0);
    let put = op(DeltaOpKind::PutRecord, STORE_RELS, 7, 0, 30, &rel(5).to_bytes());
    assert_eq!(apply_physical_delta(&mut page, &put, Lsn::new(30), OWNER), Ok(true));
    let end = op(DeltaOpKind::TombstoneRecord, STORE_RECORD, 7, 0, 40, &[]);
    assert_eq!(apply_physical_delta(&mut page, &end, Lsn::new(44), OWNER), Ok(true));
    let view = SlottedPageRef::open(&page).unwrap();
    assert_eq!(view.read_rel(SlotId(0)).unwrap().unwrap().expired_lsn, 44);
    assert_eq!(lsn_of(&page), 40);
}

#[test]
fn a_node_is_tombstoned() {
    let mut page = fresh(PageType::Node, 7, 0);
    let put = op(DeltaOpKind::PutRecord, STORE_RECORD, 7, 0, 30, &node(5).to_bytes());
    apply_physical_delta(&mut page, &put, Lsn::new(30), OWNER).unwrap();
    let end = op(DeltaOpKind::TombstoneRecord, STORE_RECORD, 7, 0, 31, &[]);
    assert_eq!(apply_physical_delta(&mut page, &end, Lsn::new(31), OWNER), Ok(true));
    assert!(SlottedPageRef::open(&page).unwrap().read_node(SlotId(0)).unwrap().is_none());
}

#[test]
fn a_bag_is_put() {
    let mut page = fresh(PageType::PropSlotted, 7, 0);
    let put = op(DeltaOpKind::PutPropBlock, STORE_PROPS, 7, 0, 30, b"some bag");
    assert_eq!(apply_physical_delta(&mut page, &put, Lsn::new(30), OWNER), Ok(true));
    let view = SlottedPageRef::open(&page).unwrap();
    assert_eq!(view.read_bag(SlotId(0)).unwrap(), Some(&b"some bag"[..]));
}

#[test]
fn an_owner_row_is_put_and_retired() {
    for (kind, store) in
        [(DeltaOpKind::InternBind, STORE_INTERN), (DeltaOpKind::AclGrant, STORE_GRANTS)]
    {
        assert!(is_owner_store_id(store));
        let mut page = fresh(PageType::PropSlotted, 7, store);
        let put = op(kind, store, 7, 3, 30, &[9u8; 64]);
        assert_eq!(apply_physical_delta(&mut page, &put, Lsn::new(30), OWNER), Ok(true));
        let view = SlottedPageRef::open(&page).unwrap();
        assert_eq!(view.read_bag(SlotId(3)).unwrap(), Some(&[9u8; 64][..]));
        let retire = DeltaOp { retires_owner_row: true, ..op(kind, store, 7, 3, 31, &[0u8; 64]) };
        assert_eq!(apply_physical_delta(&mut page, &retire, Lsn::new(31), OWNER), Ok(true));
        let view = SlottedPageRef::open(&page).unwrap();
        assert_eq!(view.is_permanent_tombstone(SlotId(3)), Ok(true));
        assert_eq!(view.permanent_tombstone_lsn(SlotId(3), 64), Ok(Some(31)));
        // A retired row does not come back.
        let late = op(kind, store, 7, 3, 32, &[9u8; 64]);
        let before = page.clone();
        assert_eq!(
            apply_physical_delta(&mut page, &late, Lsn::new(32), OWNER),
            Err(DeltaError {
                lsn: Lsn::new(32),
                reason: DeltaFault::Apply { kind, error: PageError::SlotTombstoned(3) },
            })
        );
        assert_eq!(page, before);
    }
    assert!(is_owner_store_id(STORE_NODE_BINDINGS) && is_owner_store_id(STORE_REL_BINDINGS));
    assert!(!is_owner_store_id(STORE_PROPS) && !is_owner_store_id(STORE_TEL));
}

fn refused(page: &[u8], op: &DeltaOp, commit: u64) -> DeltaFault {
    let mut copy = page.to_vec();
    let err = apply_physical_delta(&mut copy, op, Lsn::new(commit), OWNER).unwrap_err();
    assert_eq!(err.lsn, op.op_lsn);
    assert_eq!(copy, page, "a refused operation leaves the page as it was");
    err.reason
}

#[test]
fn operations_that_do_not_fit_the_page_are_refused() {
    let nodes = fresh(PageType::Node, 7, 0);
    let rels = fresh(PageType::Rel, 7, 0);
    let bags = fresh(PageType::PropSlotted, 7, 0);
    let kind = DeltaOpKind::PutRecord;
    let good = node(5).to_bytes();

    assert_eq!(
        refused(&nodes, &op(DeltaOpKind::PageAlloc, STORE_RECORD, 7, 0, 3, &[]), 3),
        DeltaFault::AllocPayload { len: 0 }
    );
    assert_eq!(
        refused(&nodes, &alloc_page(STORE_RECORD, 7, 3, PageType::Node), 3),
        DeltaFault::NotPageData { kind: DeltaOpKind::PageAlloc }
    );
    assert_eq!(
        refused(&nodes, &op(DeltaOpKind::Logical, STORE_RECORD, 7, 0, 3, &[]), 3),
        DeltaFault::NotPageData { kind: DeltaOpKind::Logical }
    );
    assert_eq!(
        refused(&nodes, &op(kind, STORE_RECORD, 7, 0, 3, &good), 2),
        DeltaFault::CommitBeforeOp { commit_lsn: 2, op_lsn: 3 }
    );
    let mut torn = nodes.clone();
    torn[PAGE_SIZE - 1] ^= 1;
    assert!(matches!(
        refused(&torn, &op(kind, STORE_RECORD, 7, 0, 3, &good), 3),
        DeltaFault::Open(PageError::ChecksumMismatch { .. })
    ));
    let tenant = TenantId::default_tenant().raw();
    assert_eq!(
        refused(&nodes, &op(kind, STORE_RECORD, 8, 0, 3, &good), 3),
        DeltaFault::WrongTarget { tenant_id: tenant, page_id: 7 }
    );
    let foreign =
        DeltaOp { tenant_id: TenantId::new(tenant + 9), ..op(kind, STORE_RECORD, 7, 0, 3, &good) };
    assert_eq!(
        refused(&nodes, &foreign, 3),
        DeltaFault::WrongTarget { tenant_id: tenant, page_id: 7 }
    );
    for store in [STORE_PROPS, STORE_RELS, STORE_INTERN, STORE_GRANTS, STORE_NODE_BINDINGS] {
        assert_eq!(
            refused(&nodes, &op(kind, store, 7, 0, 3, &good), 3),
            DeltaFault::WrongStore { store_id: store, page_type: PageType::Node.as_byte() }
        );
    }
    // An owner page belongs to the store in its flags.
    let interned = fresh(PageType::PropSlotted, 7, STORE_INTERN);
    assert_eq!(
        refused(&interned, &op(DeltaOpKind::AclGrant, STORE_GRANTS, 7, 0, 3, &[1; 64]), 3),
        DeltaFault::WrongStore {
            store_id: STORE_GRANTS,
            page_type: PageType::PropSlotted.as_byte()
        }
    );
    for store in [STORE_TEL, STORE_BLOB_OVERFLOW, 77] {
        assert_eq!(
            refused(&nodes, &op(kind, store, 7, 0, 3, &good), 3),
            DeltaFault::UngovernedStore { store_id: store }
        );
    }
    assert_eq!(
        refused(&nodes, &op(kind, STORE_RECORD, 7, 0, 3, &good[1..]), 3),
        DeltaFault::NodeLength { len: 63 }
    );
    assert!(matches!(
        refused(&nodes, &op(kind, STORE_RECORD, 7, 0, 3, &[0; 64]), 3),
        DeltaFault::NodePayload(_)
    ));
    assert_eq!(
        refused(&rels, &op(kind, STORE_RECORD, 7, 0, 3, &good), 3),
        DeltaFault::RelLength { len: 64 }
    );
    assert!(matches!(
        refused(&rels, &op(kind, STORE_RECORD, 7, 0, 3, &[0; 96]), 3),
        DeltaFault::RelPayload(_)
    ));
    assert_eq!(
        refused(&bags, &op(kind, STORE_PROPS, 7, 0, 3, &good), 3),
        DeltaFault::WrongPageType { kind, page_type: PageType::PropSlotted.as_byte() }
    );
    assert_eq!(
        refused(&nodes, &op(DeltaOpKind::PutPropBlock, STORE_RECORD, 7, 0, 3, &good), 3),
        DeltaFault::WrongPageType {
            kind: DeltaOpKind::PutPropBlock,
            page_type: PageType::Node.as_byte()
        }
    );
    assert_eq!(
        refused(&bags, &op(DeltaOpKind::TombstoneRecord, STORE_PROPS, 7, 0, 3, &[]), 3),
        DeltaFault::WrongPageType {
            kind: DeltaOpKind::TombstoneRecord,
            page_type: PageType::PropSlotted.as_byte()
        }
    );
    assert_eq!(
        refused(&nodes, &op(DeltaOpKind::TombstoneRecord, STORE_RECORD, 7, 0, 3, &[]), 3),
        DeltaFault::Apply {
            kind: DeltaOpKind::TombstoneRecord,
            error: PageError::SlotOutOfRange { slot: 0, count: 0 }
        }
    );
    assert_eq!(
        refused(&rels, &op(DeltaOpKind::TombstoneRecord, STORE_RECORD, 7, 0, 3, &[]), 3),
        DeltaFault::TombstoneRead(PageError::SlotOutOfRange { slot: 0, count: 0 })
    );
    let mut ended = rels.clone();
    let put = op(kind, STORE_RECORD, 7, 1, 3, &rel(5).to_bytes());
    apply_physical_delta(&mut ended, &put, Lsn::new(3), OWNER).unwrap();
    assert_eq!(
        refused(&ended, &op(DeltaOpKind::TombstoneRecord, STORE_RECORD, 7, 0, 4, &[]), 4),
        DeltaFault::TombstoneEmpty
    );
}

// ---- recovery ---------------------------------------------------------------

struct World {
    props: RecordPageStore,
    records: RecordPageStore,
    dirty: DirtyPageTable,
}

impl World {
    fn new() -> World {
        World {
            props: RecordPageStore::new(),
            records: RecordPageStore::new(),
            dirty: DirtyPageTable::new(),
        }
    }

    fn replay(&mut self, op: &DeltaOp, commit: u64) -> Result<RecoveryDeltaOutcome, DeltaFault> {
        apply_recovery_delta(
            &mut self.props,
            &mut self.records,
            &mut self.dirty,
            op,
            Lsn::new(commit),
            OWNER,
        )
        .map_err(|e| {
            assert_eq!(e.lsn, op.op_lsn);
            e.reason
        })
    }

    fn record_page(&self, page_no: u64) -> Vec<u8> {
        self.records
            .read_page_for_redo(TenantId::default_tenant(), PageId::new(page_no))
            .unwrap()
            .unwrap()
    }
}

#[test]
fn recovery_formats_fills_and_skips() {
    let mut w = World::new();
    let tenant = TenantId::default_tenant();
    let make = alloc_page(STORE_RECORD, 7, 10, PageType::Node);
    let put = op(DeltaOpKind::PutRecord, STORE_RECORD, 7, 0, 11, &node(5).to_bytes());
    assert_eq!(w.replay(&make, 12), Ok(RecoveryDeltaOutcome::Formatted));
    assert_eq!(lsn_of(&w.record_page(7)), 10);
    assert_eq!(w.dirty.redo_lsn(Lsn::new(99)), Lsn::new(10));
    assert_eq!(w.replay(&put, 12), Ok(RecoveryDeltaOutcome::Applied));
    let page = w.record_page(7);
    assert_eq!(lsn_of(&page), 11);
    assert_eq!(
        SlottedPageRef::open(&page).unwrap().read_node(SlotId(0)).unwrap().unwrap().id,
        5
    );
    let at = DirtyPageKey { tenant_id: tenant, store_id: STORE_RECORD, page_no: 7 };
    assert_eq!(w.dirty.snapshot_key(at).unwrap().rec_lsn, Lsn::new(10));
    // A second replay finds everything done.
    let before = w.dirty.snapshot();
    assert_eq!(w.replay(&make, 12), Ok(RecoveryDeltaOutcome::Idempotent));
    assert_eq!(w.replay(&put, 12), Ok(RecoveryDeltaOutcome::Idempotent));
    assert_eq!(w.record_page(7), page);
    assert_eq!(w.dirty.snapshot(), before);
    assert!(w.props.is_empty());
}

#[test]
fn recovery_keeps_the_stores_apart() {
    let mut w = World::new();
    assert_eq!(
        w.replay(&alloc_page(STORE_PROPS, 7, 10, PageType::PropSlotted), 10),
        Ok(RecoveryDeltaOutcome::Formatted)
    );
    assert!(w.records.is_empty());
    assert_eq!(
        w.replay(&alloc_page(STORE_INTERN, 8, 11, PageType::PropSlotted), 11),
        Ok(RecoveryDeltaOutcome::Formatted)
    );
    assert_eq!(w.props.len(), 1);
    let view = w.record_page(8);
    assert_eq!(SlottedPageRef::open(&view).unwrap().header().flags, STORE_INTERN);
    assert_eq!(
        w.replay(&op(DeltaOpKind::InternBind, STORE_INTERN, 8, 0, 12, &[4; 64]), 12),
        Ok(RecoveryDeltaOutcome::Applied)
    );
    assert_eq!(
        w.replay(&op(DeltaOpKind::PutPropBlock, STORE_PROPS, 7, 0, 13, b"bag"), 13),
        Ok(RecoveryDeltaOutcome::Applied)
    );
    assert_eq!(w.dirty.len(), 2);
}

#[test]
fn an_adjacency_page_is_formatted_with_its_checksum() {
    let mut w = World::new();
    let make = alloc_page(STORE_TEL, 4, 10, PageType::Tel);
    assert_eq!(w.replay(&make, 10), Ok(RecoveryDeltaOutcome::Formatted));
    let page = w.record_page(4);
    let header = PageHeader::from_bytes(&page[..PAGE_HEADER_SIZE]).unwrap();
    assert_eq!(header.lsn, 10);
    assert_eq!(header.free_space as usize, PAGE_SIZE - PAGE_HEADER_SIZE);
    assert_eq!(header.checksum, crc32c::crc32c(&page[PAGE_HEADER_SIZE..]));
    assert_eq!(w.replay(&make, 10), Ok(RecoveryDeltaOutcome::Idempotent));
    let later = alloc_page(STORE_TEL, 4, 11, PageType::Tel);
    assert_eq!(w.replay(&later, 11), Err(DeltaFault::AllocOnOlderPage));
    let mut torn = page.clone();
    torn[PAGE_SIZE - 1] ^= 1;
    w.records.install_or_replace(PageId::new(4), torn).unwrap();
    assert_eq!(w.replay(&make, 10), Err(DeltaFault::TelPage));
    let mut torn = page;
    torn[0] ^= 1;
    w.records.install_or_replace(PageId::new(4), torn).unwrap();
    assert!(matches!(w.replay(&make, 10), Err(DeltaFault::TelHeader(_))));
}

#[test]
fn a_page_of_zeros_counts_as_missing() {
    let mut w = World::new();
    w.records.install_or_replace(PageId::new(7), vec![0; PAGE_SIZE]).unwrap();
    assert_eq!(
        w.replay(&op(DeltaOpKind::PutRecord, STORE_RECORD, 7, 0, 11, &node(5).to_bytes()), 11),
        Err(DeltaFault::AbsentPage { kind: DeltaOpKind::PutRecord })
    );
    assert_eq!(
        w.replay(&alloc_page(STORE_RECORD, 7, 10, PageType::Node), 12),
        Ok(RecoveryDeltaOutcome::Formatted)
    );
}

#[test]
fn recovery_refuses_what_it_cannot_replay() {
    let mut w = World::new();
    assert_eq!(
        w.replay(&op(DeltaOpKind::PageAlloc, STORE_RECORD, 7, 0, 3, &[1, 2]), 3),
        Err(DeltaFault::AllocPayload { len: 2 })
    );
    assert_eq!(
        w.replay(&op(DeltaOpKind::PutPropBlock, STORE_BLOB_OVERFLOW, 7, 0, 3, &[]), 3),
        Err(DeltaFault::BlobOverflow)
    );
    assert_eq!(
        w.replay(&op(DeltaOpKind::Logical, STORE_RECORD, 7, 0, 3, &[]), 3),
        Err(DeltaFault::LogicalOp)
    );
    assert_eq!(
        w.replay(&op(DeltaOpKind::PutRecord, 77, 7, 0, 3, &[]), 3),
        Err(DeltaFault::UnknownStore { store_id: 77 })
    );
    assert_eq!(
        w.replay(&op(DeltaOpKind::PageAlloc, STORE_RECORD, 7, 0, 3, &[99]), 3),
        Err(DeltaFault::AllocType { got: 99 })
    );
    assert_eq!(w.replay(&alloc_page(STORE_RECORD, 7, 3, PageType::Node), 3).is_ok(), true);
    assert_eq!(
        w.replay(&alloc_page(STORE_RECORD, 7, 4, PageType::Node), 4),
        Err(DeltaFault::AllocOnOlderPage)
    );
    let mut torn = w.record_page(7);
    torn[PAGE_SIZE - 1] ^= 1;
    w.records.install_or_replace(PageId::new(7), torn).unwrap();
    assert!(matches!(
        w.replay(&op(DeltaOpKind::PutRecord, STORE_RECORD, 7, 0, 5, &node(1).to_bytes()), 5),
        Err(DeltaFault::TornPage(_))
    ));
    assert_eq!(w.dirty.len(), 1);
}

#[test]
fn a_step_is_decided_from_the_page_alone() {
    let make = alloc_page(STORE_RECORD, 7, 10, PageType::Node);
    match recovery_step(None, &make, Lsn::new(10), OWNER) {
        Ok(RecoveryStep::Install { page, outcome }) => {
            assert_eq!(outcome, RecoveryDeltaOutcome::Formatted);
            assert_eq!(lsn_of(&page), 10);
            assert!(matches!(
                recovery_step(Some(page), &make, Lsn::new(10), OWNER),
                Ok(RecoveryStep::Idempotent)
            ));
        }
        _ => panic!("a missing page is formatted"),
    }
}

#[test]
fn a_change_that_would_leave_its_page_is_not_tried() {
    let good = fresh(PageType::Node, 7, 0);
    let mut forged = good.clone();
    forged[38] = 0xFF;
    forged[39] = 0xFF;
    let far = op(DeltaOpKind::PutRecord, STORE_RECORD, 7, 5000, 3, &node(5).to_bytes());
    assert_eq!(far.check_target(&forged, Lsn::new(3)), Ok(true));
    let mut page = forged.clone();
    assert_eq!(
        try_physical_delta(&mut page, &far, Lsn::new(3), OWNER),
        Some(Err(DeltaError {
            lsn: Lsn::new(3),
            reason: DeltaFault::Apply {
                kind: DeltaOpKind::PutRecord,
                error: PageError::Format(PageFormat::WatermarkUnderflow {
                    free_space: 45535,
                    slot_count: 5000,
                }),
            },
        }))
    );
    assert_eq!(page, forged);
    // On a page whose header is right the slot is refused.
    let mut page = good.clone();
    assert!(matches!(
        try_physical_delta(&mut page, &far, Lsn::new(3), OWNER),
        Some(Err(DeltaError { reason: DeltaFault::Apply { error: PageError::Full { .. }, .. }, .. }))
    ));
    let near = op(DeltaOpKind::PutRecord, STORE_RECORD, 7, 1, 3, &node(5).to_bytes());
    assert_eq!(try_physical_delta(&mut page, &near, Lsn::new(3), OWNER), Some(Ok(true)));
    assert_eq!(try_physical_delta(&mut page, &near, Lsn::new(3), OWNER), Some(Ok(false)));
    assert_eq!(near.check_target(&page, Lsn::new(3)), Ok(false));
    let narrow = OwnerLayout { row_bytes: 7, rows_per_page: 1 };
    assert_eq!(try_physical_delta(&mut page, &near, Lsn::new(3), narrow), None);

    // A tombstone whose body would lie in the header.
    let mut rows = fresh(PageType::PropSlotted, 9, STORE_INTERN);
    SlottedPage::open(rows.as_mut_slice())
        .unwrap()
        .permanent_tombstone_fixed_bag_at_slot(SlotId(0), Lsn::new(1), 64, 100)
        .unwrap();
    let last = Lsn::new(u64::MAX);
    let mut again = op(DeltaOpKind::InternBind, STORE_INTERN, 9, 0, u64::MAX, b"");
    again.retires_owner_row = true;
    let wide = OwnerLayout { row_bytes: 8160, rows_per_page: 1 };
    assert!(!again.fits_page(&rows, last, wide));
    assert!(again.fits_page(&rows, last, OWNER));
    let before = rows.clone();
    assert_eq!(try_physical_delta(&mut rows, &again, last, wide), None);
    assert_eq!(rows, before);
    // A put on it is refused, and an LSN that is not newer changes nothing.
    let put = op(DeltaOpKind::InternBind, STORE_INTERN, 9, 0, 3, &[1u8; 64]);
    assert!(put.fits_page(&rows, Lsn::new(3), wide));
    assert!(matches!(
        try_physical_delta(&mut rows, &put, Lsn::new(3), wide),
        Some(Err(DeltaError {
            reason: DeltaFault::Apply { error: PageError::SlotTombstoned(0), .. },
            ..
        }))
    ));
    assert_eq!(rows, before);

    let mut older = op(DeltaOpKind::InternBind, STORE_INTERN, 9, 0, 3, b"");
    older.retires_owner_row = true;
    let mut page = rows.clone();
    assert_eq!(try_physical_delta(&mut page, &older, Lsn::new(3), wide), Some(Ok(true)));
    assert_eq!(page[PAGE_HEADER_SIZE..], rows[PAGE_HEADER_SIZE..]);
    assert_eq!(lsn_of(&page), 3);

    let mut w = World::new();
    w.records.install_or_replace(PageId::new(7), forged).unwrap();
    w.records.install_or_replace(PageId::new(9), rows).unwrap();
    assert_eq!(
        try_recovery_delta(&mut w.props, &mut w.records, &mut w.dirty, &again, last, wide),
        None
    );
    let run = |w: &mut World, op: &DeltaOp, owner: OwnerLayout| {
        try_recovery_delta(&mut w.props, &mut w.records, &mut w.dirty, op, Lsn::new(9), owner)
    };
    assert_eq!(run(&mut w, &near, narrow), None);
    assert!(w.dirty.is_empty() && w.dirty.can_mark());
    let other = alloc_page(STORE_PROPS, 8, 9, PageType::PropSlotted);
    assert_eq!(run(&mut w, &other, OWNER), Some(Ok(RecoveryDeltaOutcome::Formatted)));
    assert_eq!(run(&mut w, &far, OWNER).map(|r| r.is_err()), Some(true));
    assert_eq!(run(&mut w, &near, OWNER).map(|r| r.is_err()), Some(true));
    w.records.install_or_replace(PageId::new(7), good).unwrap();
    assert_eq!(run(&mut w, &near, OWNER), Some(Ok(RecoveryDeltaOutcome::Applied)));
}

#[test]
fn a_durable_tombstone_outlives_redo() {
    let mut nodes = fresh(PageType::Node, 7, 0);
    {
        let mut page = SlottedPage::open(nodes.as_mut_slice()).unwrap();
        page.write_node_at_slot(SlotId(0), &node(1)).unwrap();
        page.permanent_tombstone_node_at_slot(SlotId(1), Lsn::new(2)).unwrap();
    }
    let buried = |bytes: &[u8]| {
        SlottedPageRef::open(bytes).unwrap().is_permanent_tombstone(SlotId(1)).unwrap()
    };
    let before = nodes.clone();
    let end = op(DeltaOpKind::TombstoneRecord, STORE_RECORD, 7, 1, 5, b"");
    assert_eq!(apply_physical_delta(&mut nodes, &end, Lsn::new(5), OWNER), Ok(true));
    assert!(buried(&nodes));
    assert_eq!(nodes[PAGE_HEADER_SIZE..], before[PAGE_HEADER_SIZE..]);
    assert_eq!(lsn_of(&nodes), 5);
    let put = op(DeltaOpKind::PutRecord, STORE_RECORD, 7, 1, 6, &node(4).to_bytes());
    let stamped = nodes.clone();
    assert_eq!(
        apply_physical_delta(&mut nodes, &put, Lsn::new(6), OWNER),
        Err(DeltaError {
            lsn: Lsn::new(6),
            reason: DeltaFault::Apply {
                kind: DeltaOpKind::PutRecord,
                error: PageError::SlotTombstoned(1),
            },
        })
    );
    assert_eq!(nodes, stamped);
    // Operations on other slots leave it alone.
    let end = op(DeltaOpKind::TombstoneRecord, STORE_RECORD, 7, 0, 7, b"");
    assert_eq!(apply_physical_delta(&mut nodes, &end, Lsn::new(7), OWNER), Ok(true));
    let put = op(DeltaOpKind::PutRecord, STORE_RECORD, 7, 4, 8, &node(4).to_bytes());
    assert_eq!(apply_physical_delta(&mut nodes, &put, Lsn::new(8), OWNER), Ok(true));
    assert!(buried(&nodes));

    let mut bags = fresh(PageType::PropSlotted, 8, 0);
    SlottedPage::open(bags.as_mut_slice())
        .unwrap()
        .permanent_tombstone_fixed_bag_at_slot(SlotId(1), Lsn::new(2), 64, 100)
        .unwrap();
    let before = bags.clone();
    let put = op(DeltaOpKind::PutPropBlock, STORE_PROPS, 8, 1, 6, &[9u8; 64]);
    assert_eq!(
        apply_physical_delta(&mut bags, &put, Lsn::new(6), OWNER),
        Err(DeltaError {
            lsn: Lsn::new(6),
            reason: DeltaFault::Apply {
                kind: DeltaOpKind::PutPropBlock,
                error: PageError::SlotTombstoned(1),
            },
        })
    );
    assert_eq!(bags, before);
    assert!(buried(&bags));
}

#[test]
fn an_install_is_settled_by_the_answer_of_the_store() {
    let mut dirty = DirtyPageTable::new();
    let make = alloc_page(STORE_RECORD, 7, 10, PageType::Node);
    assert_eq!(
        settle_install(&make, RecoveryDeltaOutcome::Formatted, Err(StoreFailure), &mut dirty),
        Err(DeltaError { lsn: Lsn::new(10), reason: DeltaFault::Store })
    );
    assert!(dirty.is_empty());
    assert_eq!(
        settle_install(&make, RecoveryDeltaOutcome::Formatted, Ok(()), &mut dirty),
        Ok(RecoveryDeltaOutcome::Formatted)
    );
    let row = dirty.snapshot_key(key(make.tenant_id.raw(), STORE_RECORD, 7)).unwrap();
    assert_eq!(row.rec_lsn, Lsn::new(10));
}
