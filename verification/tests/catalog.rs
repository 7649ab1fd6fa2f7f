use arcgraph_storage::ids::{LabelId, Lsn, StringId, TenantId};
use arcgraph_storage::property_index_catalog::{
    decode_catalog, encode_catalog, CreateOutcome, IndexState, PropertyIndexCatalog,
    PropertyIndexCatalogError, PropertyIndexRecord, CATALOG_FORMAT_VERSION,
    PROPERTY_INDEX_CATALOG_KEY,
};
use arcgraph_storage::secondary_handle::{
    SecondaryIndexHandle, SecondaryIndexHandleError, SecondaryIndexValue,
};
use arcgraph_storage::ids::{NodeId, PageId};
use arcgraph_storage::mutation_log::TxnMutationLog;
use arcgraph_storage::primary_index::StagedEmit;

fn rec(name: &str, state: IndexState) -> PropertyIndexRecord {
    PropertyIndexRecord {
        name: name.to_string(),
        tenant: TenantId::default_tenant(),
        label: LabelId::new(7),
        property_key: StringId::new(11),
        property_name: "email".to_string(),
        state,
    }
}

/// The system record that keeps the list, and the LSN of its last commit.
#[derive(Default)]
struct Durable {
    value: Option<Vec<u8>>,
    lsn: u64,
}

impl Durable {
    fn commit(&mut self, value: Vec<u8>) -> Result<Lsn, String> {
        self.value = Some(value);
        self.lsn += 1;
        Ok(Lsn::new(self.lsn))
    }
}

#[test]
fn catalog_key_is_disjoint() {
    assert_ne!(PROPERTY_INDEX_CATALOG_KEY, 0);
    assert_ne!(PROPERTY_INDEX_CATALOG_KEY, 2);
    assert_ne!(PROPERTY_INDEX_CATALOG_KEY, 0x8000_0000_0000_0000);
    assert_eq!(PROPERTY_INDEX_CATALOG_KEY, 0x2000_0000_0000_0000);
}

#[test]
fn encode_decode_round_trip() {
    let recs = vec![
        rec("user_email", IndexState::Building),
        PropertyIndexRecord {
            name: "user_age".to_string(),
            tenant: TenantId::new(42),
            label: LabelId::new(9),
            property_key: StringId::new(13),
            property_name: "age".to_string(),
            state: IndexState::Online,
        },
    ];
    let encoded = encode_catalog(&recs);
    let decoded = decode_catalog(&encoded);
    assert_eq!(decoded, recs);
}

#[test]
fn the_form_of_a_list_is_fixed() {
    let encoded = encode_catalog(&[rec("é", IndexState::Online)]);
    let mut want = vec![1u8, 1, 0, 0, 0];
    want.extend_from_slice(&[2, 0, 0, 0, 0xC3, 0xA9]);
    want.extend_from_slice(&1u64.to_le_bytes());
    want.extend_from_slice(&7u32.to_le_bytes());
    want.extend_from_slice(&11u32.to_le_bytes());
    want.extend_from_slice(&5u32.to_le_bytes());
    want.extend_from_slice(b"email");
    want.push(1);
    assert_eq!(encoded, want);
}

#[test]
fn decode_empty_and_malformed_is_empty() {
    assert!(decode_catalog(&[]).is_empty());
    assert!(decode_catalog(&[99u8]).is_empty());
    let mut b = vec![CATALOG_FORMAT_VERSION];
    b.extend_from_slice(&5u32.to_le_bytes());
    assert!(decode_catalog(&b).is_empty());
}

#[test]
fn a_list_that_is_damaged_anywhere_is_empty() {
    let recs = vec![rec("a", IndexState::Online), rec("b", IndexState::Online)];
    let encoded = encode_catalog(&recs);
    assert_eq!(decode_catalog(&encoded).len(), 2);
    for n in 0..encoded.len() {
        assert!(decode_catalog(&encoded[..n]).is_empty(), "cut at {n}");
    }
    let mut bad = encoded.clone();
    let at = encoded.len() - 1 - 5;
    bad[at] = 0xFF;
    assert!(decode_catalog(&bad).is_empty(), "not UTF-8");
}

#[test]
fn create_inserts_building_and_lists() {
    let mut mgr = Durable::default();
    let mut cat = PropertyIndexCatalog::new();
    assert_eq!(
        cat.create_index(|b| mgr.commit(b), rec("user_email", IndexState::Online), false)
            .unwrap(),
        CreateOutcome::Created
    );
    let listed = cat.list();
    assert_eq!(listed.len(), 1);
    assert_eq!(listed[0].state, IndexState::Building);
    assert_eq!(listed[0].name, "user_email");
}

#[test]
fn if_not_exists_is_idempotent() {
    let mut mgr = Durable::default();
    let mut cat = PropertyIndexCatalog::new();
    cat.create_index(|b| mgr.commit(b), rec("e", IndexState::Building), true)
        .unwrap();
    assert_eq!(
        cat.create_index(|b| mgr.commit(b), rec("e", IndexState::Building), true)
            .unwrap(),
        CreateOutcome::AlreadyExists
    );
    assert_eq!(cat.list().len(), 1, "IF NOT EXISTS must not duplicate");
    assert_eq!(mgr.lsn, 1, "a declaration that changes nothing commits nothing");
}

#[test]
fn create_without_if_not_exists_on_existing_errors() {
    let mut mgr = Durable::default();
    let mut cat = PropertyIndexCatalog::new();
    cat.create_index(|b| mgr.commit(b), rec("e", IndexState::Building), false)
        .unwrap();
    let err = cat
        .create_index(|b| mgr.commit(b), rec("e", IndexState::Building), false)
        .unwrap_err();
    assert!(matches!(err, PropertyIndexCatalogError::AlreadyExists { name } if name == "e"));
}

#[test]
fn drop_removes_and_if_exists_semantics() {
    let mut mgr = Durable::default();
    let mut cat = PropertyIndexCatalog::new();
    cat.create_index(|b| mgr.commit(b), rec("e", IndexState::Building), false)
        .unwrap();
    let tenant = TenantId::default_tenant();
    assert!(cat.drop_index(|b| mgr.commit(b), tenant, "e", false).unwrap());
    assert!(cat.list().is_empty());
    assert!(!cat.drop_index(|b| mgr.commit(b), tenant, "e", true).unwrap());
    let err = cat
        .drop_index(|b| mgr.commit(b), tenant, "e", false)
        .unwrap_err();
    assert!(matches!(err, PropertyIndexCatalogError::NotFound { name } if name == "e"));
}

#[test]
fn a_commit_that_fails_leaves_the_list() {
    let mut mgr = Durable::default();
    let mut cat = PropertyIndexCatalog::new();
    let err = cat
        .create_index(|_| Err("disk".to_string()), rec("e", IndexState::Building), false)
        .unwrap_err();
    assert!(matches!(err, PropertyIndexCatalogError::Commit(e) if e == "disk"));
    assert!(cat.list().is_empty());
    for name in ["a", "b", "c"] {
        cat.create_index(|b| mgr.commit(b), rec(name, IndexState::Building), false)
            .unwrap();
    }
    let err = cat
        .drop_index(|_| Err("disk".to_string()), TenantId::default_tenant(), "b", false)
        .unwrap_err();
    assert!(matches!(err, PropertyIndexCatalogError::Commit(_)));
    let names: Vec<String> = cat.list().into_iter().map(|r| r.name).collect();
    assert_eq!(names, vec!["a", "b", "c"]);
}

#[test]
fn set_state_online_flip_rides_caller_tx() {
    let mut mgr = Durable::default();
    let mut cat = PropertyIndexCatalog::new();
    cat.create_index(|b| mgr.commit(b), rec("e", IndexState::Building), false)
        .unwrap();
    let (prev, value) = cat
        .set_state_in(TenantId::default_tenant(), "e", IndexState::Online)
        .unwrap();
    assert_eq!(prev, IndexState::Building);
    mgr.commit(value).unwrap();
    assert_eq!(
        cat.resolve(TenantId::default_tenant(), "e").unwrap().state,
        IndexState::Online
    );
}

#[test]
fn crash_mid_backfill_recovers_building_not_online() {
    let mut mgr = Durable::default();
    let mut cat = PropertyIndexCatalog::new();
    cat.create_index(|b| mgr.commit(b), rec("e", IndexState::Building), false)
        .unwrap();
    let lsn = Lsn::new(mgr.lsn);
    {
        let dropped = cat.set_state_in(TenantId::default_tenant(), "e", IndexState::Online);
        assert!(dropped.is_some());
    }
    let mut recovered = PropertyIndexCatalog::new();
    recovered.recover(mgr.value.clone(), lsn);
    assert_eq!(
        recovered.resolve(TenantId::default_tenant(), "e").unwrap().state,
        IndexState::Building,
        "crash-mid-backfill must recover Building, never a partial Online"
    );
}

#[test]
fn online_flip_committed_survives_recovery() {
    let mut mgr = Durable::default();
    let mut cat = PropertyIndexCatalog::new();
    cat.create_index(|b| mgr.commit(b), rec("e", IndexState::Building), false)
        .unwrap();
    let (_, value) = cat
        .set_state_in(TenantId::default_tenant(), "e", IndexState::Online)
        .unwrap();
    let lsn = mgr.commit(value).unwrap();
    let mut recovered = PropertyIndexCatalog::new();
    recovered.recover(mgr.value.clone(), lsn);
    assert_eq!(
        recovered.resolve(TenantId::default_tenant(), "e").unwrap().state,
        IndexState::Online,
        "a committed Online flip must survive recovery"
    );
}

#[test]
fn indexes_on_returns_declared_keys() {
    let mut mgr = Durable::default();
    let mut cat = PropertyIndexCatalog::new();
    cat.create_index(|b| mgr.commit(b), rec("e", IndexState::Building), false)
        .unwrap();
    let on = cat.indexes_on(TenantId::default_tenant(), LabelId::new(7));
    assert_eq!(on, vec![(StringId::new(11), IndexState::Building)]);
    assert!(cat
        .indexes_on(TenantId::default_tenant(), LabelId::new(8))
        .is_empty());
}

#[test]
fn crash_partial_tail_present_flip_dropped_recovers_building() {
    let tenant = TenantId::default_tenant();
    let mut mgr = Durable::default();
    let mut cat = PropertyIndexCatalog::new();
    cat.create_index(|b| mgr.commit(b), rec("e2", IndexState::Building), false)
        .unwrap();
    {
        let (_, value) = cat.set_state_in(tenant, "e2", IndexState::Online).unwrap();
        mgr.commit(value).unwrap();
    }
    cat.create_index(|b| mgr.commit(b), rec("e", IndexState::Building), false)
        .unwrap();
    let e_building_lsn = Lsn::new(mgr.lsn);
    {
        let dropped = cat.set_state_in(tenant, "e", IndexState::Online);
        drop(dropped);
    }
    let mut recovered = PropertyIndexCatalog::new();
    recovered.recover(mgr.value.clone(), e_building_lsn);
    assert_eq!(
        recovered.resolve(tenant, "e").unwrap().state,
        IndexState::Building,
        "e's flip never committed"
    );
    assert_eq!(
        recovered.resolve(tenant, "e2").unwrap().state,
        IndexState::Online,
        "e2's flip did commit"
    );
}

#[test]
fn recover_never_promotes_unrecognized_state_byte() {
    const FLIPPING_SENTINEL: u8 = 2;
    let mut value = encode_catalog(&[rec("e", IndexState::Building)]);
    let last = value.len() - 1;
    value[last] = FLIPPING_SENTINEL;
    let mut recovered = PropertyIndexCatalog::new();
    recovered.recover(Some(value), Lsn::new(1));
    assert_eq!(
        recovered.resolve(TenantId::default_tenant(), "e").unwrap().state,
        IndexState::Building,
        "an unrecognized durable state byte must recover Building, never Online"
    );
}

#[test]
fn reconcile_recovered_states_downgrades_non_online_only() {
    let mut recs = vec![
        rec("building_stays", IndexState::Building),
        rec("online_stays", IndexState::Online),
    ];
    PropertyIndexCatalog::reconcile_recovered_states(&mut recs);
    assert_eq!(recs[0].state, IndexState::Building);
    assert_eq!(
        recs[1].state,
        IndexState::Online,
        "a complete Online record is never downgraded"
    );
}

#[test]
fn a_reverted_state_is_the_one_before() {
    let tenant = TenantId::default_tenant();
    let mut mgr = Durable::default();
    let mut cat = PropertyIndexCatalog::new();
    cat.create_index(|b| mgr.commit(b), rec("e", IndexState::Building), false)
        .unwrap();
    let before = cat.list();
    let (previous, _) = cat.set_state_in(tenant, "e", IndexState::Online).unwrap();
    cat.revert_state(tenant, "e", previous);
    assert_eq!(cat.list(), before);
    cat.revert_state(tenant, "gone", IndexState::Online);
    assert_eq!(cat.list(), before);
    assert!(cat.set_state_in(tenant, "gone", IndexState::Online).is_none());
}

#[test]
fn the_list_of_a_tenant_holds_its_own_indexes() {
    let mut mgr = Durable::default();
    let mut cat = PropertyIndexCatalog::new();
    let mut other = rec("e", IndexState::Building);
    other.tenant = TenantId::new(9);
    cat.create_index(|b| mgr.commit(b), rec("e", IndexState::Building), false)
        .unwrap();
    cat.create_index(|b| mgr.commit(b), other, false).unwrap();
    assert_eq!(cat.list().len(), 2, "a name is a tenant's own");
    let mine = cat.list_for_tenant(TenantId::new(9));
    assert_eq!(mine.len(), 1);
    assert_eq!(mine[0].tenant, TenantId::new(9));
    assert!(cat.resolve(TenantId::new(8), "e").is_none());
}

#[test]
fn an_empty_record_recovers_an_empty_list() {
    let mut cat = PropertyIndexCatalog::new();
    cat.recover(None, Lsn::new(5));
    assert!(cat.list().is_empty());
}

#[test]
fn commits_maintain_an_index_in_every_state() {
    assert!(IndexState::Building.maintenance_active());
    assert!(IndexState::Online.maintenance_active());
    assert!(!IndexState::Building.planner_visible());
    assert!(IndexState::Online.planner_visible());
}

/// An index that only counts what it is asked.
struct Counting {
    calls: usize,
}

impl SecondaryIndexHandle for Counting {
    fn insert_property(
        &mut self,
        _tenant: TenantId,
        _label: LabelId,
        _property_key: StringId,
        _value: SecondaryIndexValue,
        _node: NodeId,
    ) -> Result<(), SecondaryIndexHandleError> {
        self.calls += 1;
        Ok(())
    }

    fn remove_property(
        &mut self,
        _tenant: TenantId,
        _label: LabelId,
        _property_key: StringId,
        _value: SecondaryIndexValue,
        _node: NodeId,
    ) -> Result<bool, SecondaryIndexHandleError> {
        Err(SecondaryIndexHandleError::Backend("full".to_string()))
    }

    fn insert_property_deferred(
        &mut self,
        _tenant: TenantId,
        _label: LabelId,
        _property_key: StringId,
        _value: SecondaryIndexValue,
        _node: NodeId,
        _log: &mut TxnMutationLog,
    ) -> Result<Vec<StagedEmit>, SecondaryIndexHandleError> {
        Ok(Vec::new())
    }

    fn remove_property_deferred(
        &mut self,
        _tenant: TenantId,
        _label: LabelId,
        _property_key: StringId,
        _value: SecondaryIndexValue,
        _node: NodeId,
        _log: &mut TxnMutationLog,
    ) -> Result<Vec<StagedEmit>, SecondaryIndexHandleError> {
        Ok(Vec::new())
    }

    fn persist_pending_root_update(&mut self) -> Result<(), SecondaryIndexHandleError> {
        Ok(())
    }

    fn rollback_remove_page(&mut self, _page_id: PageId) {}

    fn rollback_restore_page(
        &mut self,
        _page_id: PageId,
        _pre_bytes: &[u8],
    ) -> Result<(), SecondaryIndexHandleError> {
        Ok(())
    }

    fn rollback_restore_root(&mut self, _old_root_id: PageId) {}
}

#[test]
fn an_index_without_a_lifecycle_is_online() {
    let mut index = Counting { calls: 0 };
    assert_eq!(index.index_state(), IndexState::Online);
    index.set_index_state(IndexState::Building);
    assert_eq!(index.index_state(), IndexState::Online);
    assert!(index.maintenance_active());
    index
        .insert_property(
            TenantId::new(1),
            LabelId::new(1),
            StringId::new(1),
            SecondaryIndexValue::U32(5),
            NodeId::new(3),
        )
        .unwrap();
    assert_eq!(index.calls, 1);
}
