use std::collections::{BTreeMap, BTreeSet};

use arcgraph_storage::ids::{LabelId, Lsn, NodeId, PageId, RelId, TenantId, TypeId};
use arcgraph_storage::page::{NodeRecord, RelRecord};
use arcgraph_storage::primary_index::{
    PageAllocator, PageSlot, PrimaryIndex, PrimaryKey, RecordKind,
};
use arcgraph_storage::recovery::index_rebuild::{
    index_outcome, rebuild_all_tenant_index, rebuild_index_for_tenant, IndexRebuildOutcome,
    IndexRebuildReport, RecordCalls,
};
use arcgraph_storage::recovery::stats_rebuild::{
    observe_stats_rebuild, rebuild_all_tenant_stats, rebuild_catalog_stats_for_tenant,
    RebuildReport, StatsCall, StatsCalls, StatsEvent, TenantRebuildOutcome,
};
use arcgraph_storage::recovery::tel_rebuild::{
    adjacency_outcome, rebuild_adjacency_for_tenant, rebuild_all_tenant_adjacency,
    AdjacencyRebuildOutcome, AdjacencyRebuildReport, RelCalls,
};
use arcgraph_storage::recovery::visible::{
    decode_node_bytes, decode_rel_bytes, VisibleError, VisibleRecord, REL_TAG_BIT,
};
use arcgraph_storage::slot_model::SlotId;

/// A store of versions: every write of a key, in the order of the commits.
#[derive(Default)]
struct Versions {
    chains: BTreeMap<(u64, u64), Vec<(u64, Option<Vec<u8>>)>>,
}

impl Versions {
    fn write(&mut self, lsn: u64, tenant: TenantId, key: u64, value: Option<Vec<u8>>) {
        self.chains.entry((tenant.raw(), key)).or_default().push((lsn, value));
    }

    fn node(&mut self, tenant: TenantId, rec: &NodeRecord, lsn: u64) {
        self.write(lsn, tenant, rec.id, Some(rec.to_bytes().to_vec()));
    }

    fn rel(&mut self, tenant: TenantId, rec: &RelRecord, lsn: u64) {
        self.write(lsn, tenant, rec.id | REL_TAG_BIT, Some(rec.to_bytes().to_vec()));
    }

    fn current(&self) -> Lsn {
        Lsn::new(self.chains.values().flatten().map(|v| v.0).max().unwrap_or(0))
    }

    fn tenants(&self) -> Vec<TenantId> {
        let raws: BTreeSet<u64> = self.chains.keys().map(|k| k.0).collect();
        raws.into_iter().map(TenantId::new).collect()
    }

    /// What the snapshot shows of a tenant. Relationships come before nodes.
    fn visible(&self, tenant: TenantId, at: Lsn) -> Vec<VisibleRecord> {
        let mut out = Vec::new();
        for ((t, key), versions) in self.chains.iter().rev() {
            if *t != tenant.raw() {
                continue;
            }
            let last = versions.iter().filter(|v| v.0 <= at.raw()).last();
            if let Some((lsn, Some(bytes))) = last {
                out.push(VisibleRecord {
                    key: *key,
                    bytes: bytes.clone(),
                    created_lsn: Lsn::new(*lsn),
                });
            }
        }
        out
    }
}

fn node(id: u64, label: u32, lsn: u64) -> NodeRecord {
    NodeRecord::new(NodeId::new(id), LabelId::new(label), Lsn::new(lsn))
}

fn rel(id: u64, ty: u32, src: u64, dst: u64, lsn: u64) -> RelRecord {
    RelRecord::new(
        RelId::new(id),
        TypeId::new(ty),
        NodeId::new(src),
        NodeId::new(dst),
        Lsn::new(lsn),
    )
}

/// An index and the records that it points at.
struct Dual {
    index: PrimaryIndex,
    nodes: BTreeMap<u64, NodeRecord>,
    next_page: u64,
}

impl Dual {
    fn new() -> Dual {
        Dual {
            index: PrimaryIndex::new(PageAllocator::new(), None).unwrap(),
            nodes: BTreeMap::new(),
            next_page: 5000,
        }
    }

    fn lookup(&self, tenant: TenantId, kind: RecordKind, id: u64) -> Option<PageSlot> {
        self.index.lookup(PrimaryKey::new(tenant, kind, id)).unwrap()
    }

    fn read_node(&self, tenant: TenantId, id: u64) -> Option<&NodeRecord> {
        let slot = self.lookup(tenant, RecordKind::Node, id)?;
        self.nodes.get(&slot.page.raw())
    }

    fn reinstate(
        &mut self,
        tenant: TenantId,
        key: u64,
        bytes: &Vec<u8>,
        created: Lsn,
    ) -> Result<bool, VisibleError> {
        let kind = if key & REL_TAG_BIT == 0 { RecordKind::Node } else { RecordKind::Rel };
        let id = key & !REL_TAG_BIT;
        if self.lookup(tenant, kind, id).is_some() {
            return Ok(false);
        }
        let page = self.next_page;
        if kind == RecordKind::Node {
            let mut rec = decode_node_bytes(bytes)?;
            rec.created_lsn = created.raw();
            self.nodes.insert(page, rec);
        } else {
            decode_rel_bytes(bytes)?;
        }
        self.next_page += 1;
        let slot = PageSlot::new(PageId::new(page), SlotId(0));
        self.index.insert(PrimaryKey::new(tenant, kind, id), slot).unwrap();
        Ok(true)
    }
}

fn reconcile(at: Lsn, versions: &Versions, store: &mut Dual) -> IndexRebuildReport {
    let mut outcomes = Vec::new();
    for tenant in versions.tenants() {
        let records = versions.visible(tenant, at);
        let mut calls = RecordCalls::new(|t: TenantId, key: u64, bytes: &Vec<u8>, lsn: Lsn| {
            store.reinstate(t, key, bytes, lsn)
        });
        let outcome = rebuild_index_for_tenant(tenant, &records, &mut calls);
        outcomes.push((tenant, outcome));
    }
    rebuild_all_tenant_index(outcomes)
}

fn split_brained(id: u64, label: u32, a: u32, b: u32, lsn: u64) -> Versions {
    let mut versions = Versions::default();
    let mut rec = node(id, label, 0);
    rec.inline_u32a = a;
    rec.inline_u32b = b;
    versions.node(TenantId::default_tenant(), &rec, lsn);
    versions
}

#[test]
fn reconcile_heals_missing_primary_from_mvcc() {
    let mut store = Dual::new();
    let tenant = TenantId::default_tenant();
    let label = 7u32;
    let versions = split_brained(42, label, 100, 200, 500);
    let recovered_lsn = versions.current();
    assert!(
        store.lookup(tenant, RecordKind::Node, 42).is_none(),
        "pre-reconcile the split-brained node must be ABSENT from the primary index"
    );
    let report = reconcile(recovered_lsn, &versions, &mut store);
    assert!(report.failed.is_empty(), "no tenant may fail reconcile");
    assert_eq!(
        report.total_records_reinstated(),
        1,
        "the split-brained node must be reinstated exactly once"
    );
    assert!(
        store.lookup(tenant, RecordKind::Node, 42).is_some(),
        "post-reconcile primary (id) lookup must FIND the healed node"
    );
    let rec = store
        .read_node(tenant, 42)
        .expect("post-reconcile the node must be readable by id");
    assert_eq!(rec.id, 42);
    assert_eq!(rec.label_id, label);
    assert_eq!(
        rec.created_lsn, 500,
        "the reinstalled slot carries the MVCC version's committed LSN"
    );
}

#[test]
fn reinstated_slot_takes_created_lsn_from_version_not_payload() {
    let mut store = Dual::new();
    let tenant = TenantId::default_tenant();
    let commit_lsn = 777_u64;
    let versions = split_brained(1234, 3, 11, 22, commit_lsn);
    let shown = versions.visible(tenant, versions.current());
    assert_eq!(
        decode_node_bytes(&shown[0].bytes).unwrap().created_lsn,
        0,
        "fixture precondition: payload carries the ZERO placeholder"
    );
    assert!(store.lookup(tenant, RecordKind::Node, 1234).is_none());
    let report = reconcile(versions.current(), &versions, &mut store);
    assert!(report.failed.is_empty());
    assert_eq!(report.total_records_reinstated(), 1);
    let healed = store
        .read_node(tenant, 1234)
        .expect("healed node must be readable by id");
    assert_eq!(
        healed.created_lsn, commit_lsn,
        "the reinstalled slot must carry the MVCC version's created_lsn"
    );
}

#[test]
fn reconcile_heals_missing_rel_primary_from_mvcc() {
    let mut store = Dual::new();
    let tenant = TenantId::default_tenant();
    let mut versions = Versions::default();
    versions.rel(tenant, &rel(99, 5, 1, 2, 0), 600);
    assert!(store.lookup(tenant, RecordKind::Rel, 99).is_none());
    let report = reconcile(versions.current(), &versions, &mut store);
    assert_eq!(report.total_records_reinstated(), 1);
    assert!(
        store.lookup(tenant, RecordKind::Rel, 99).is_some(),
        "post-reconcile rel primary (id) lookup must FIND the healed rel"
    );
}

#[test]
fn reconcile_is_noop_for_normally_committed_node_and_idempotent() {
    let mut store = Dual::new();
    let tenant = TenantId::default_tenant();
    let versions = split_brained(1, 3, 0, 0, 1);
    // The commit itself put the node into the index.
    let bytes = versions.visible(tenant, versions.current())[0].bytes.clone();
    store.reinstate(tenant, 1, &bytes, Lsn::new(1)).unwrap();
    let recovered_lsn = versions.current();
    let slot_before = store
        .lookup(tenant, RecordKind::Node, 1)
        .expect("normally-committed node is already indexed");
    let r1 = reconcile(recovered_lsn, &versions, &mut store);
    assert_eq!(
        r1.total_records_reinstated(),
        0,
        "a normally-committed node must NOT be reinstated"
    );
    assert_eq!(
        store.lookup(tenant, RecordKind::Node, 1),
        Some(slot_before),
        "the present primary entry must be UNCHANGED by a no-op reconcile (no dup slot)"
    );
    let r2 = reconcile(recovered_lsn, &versions, &mut store);
    assert_eq!(
        r2.total_records_reinstated(),
        0,
        "re-reconcile is idempotent"
    );
    assert_eq!(
        store.lookup(tenant, RecordKind::Node, 1),
        Some(slot_before),
        "second reconcile leaves the entry unchanged"
    );
}

#[test]
fn reconciled_index_survives_a_second_restart() {
    let mut store = Dual::new();
    let tenant = TenantId::default_tenant();
    let versions = split_brained(77, 4, 11, 22, 700);
    let recovered_lsn = versions.current();
    let r1 = reconcile(recovered_lsn, &versions, &mut store);
    assert_eq!(r1.total_records_reinstated(), 1);
    assert!(store.lookup(tenant, RecordKind::Node, 77).is_some());
    let r2 = reconcile(recovered_lsn, &versions, &mut store);
    assert_eq!(
        r2.total_records_reinstated(),
        0,
        "the reconciled index must survive a second restart (re-reconcile is a no-op)"
    );
    assert!(
        store.lookup(tenant, RecordKind::Node, 77).is_some(),
        "post-second-restart the healed node stays id-lookup-able"
    );
}

#[test]
fn reconcile_skips_tombstoned_record() {
    let mut store = Dual::new();
    let tenant = TenantId::default_tenant();
    let mut versions = Versions::default();
    versions.node(tenant, &node(88, 1, 100), 100);
    versions.write(200, tenant, 88, None);
    let report = reconcile(Lsn::new(200), &versions, &mut store);
    assert_eq!(
        report.total_records_reinstated(),
        0,
        "a node deleted before recovery must not be reinstated into the index"
    );
    assert!(
        store.lookup(tenant, RecordKind::Node, 88).is_none(),
        "the tombstoned node must remain absent from the primary index"
    );
}

#[test]
fn reconcile_is_vacuous_when_dual_write_disabled() {
    let versions = split_brained(1, 1, 0, 0, 100);
    let tenant = TenantId::default_tenant();
    let records = versions.visible(tenant, versions.current());
    let mut calls = RecordCalls::new(|_: TenantId, _: u64, _: &Vec<u8>, _: Lsn| {
        Ok::<bool, VisibleError>(false)
    });
    let outcome = rebuild_index_for_tenant(tenant, &records, &mut calls);
    let report = rebuild_all_tenant_index(vec![(tenant, outcome)]);
    assert!(report.failed.is_empty());
    assert_eq!(
        report.total_records_reinstated(),
        0,
        "no primary index means nothing to reconcile — vacuous success"
    );
    assert_eq!(report.total_records_walked(), 1);
}

/// The statistics of one tenant.
#[derive(Default)]
struct Stats {
    labels: BTreeMap<u32, u64>,
    types: BTreeMap<u32, u64>,
    nodes: u64,
    rels: u64,
    degrees: BTreeMap<(u32, u32, u64), u64>,
    started: u64,
    commits: u64,
}

impl Stats {
    fn apply(&mut self, events: &[StatsEvent]) {
        self.started += 1;
        for event in events {
            match event {
                StatsEvent::Node(label) => {
                    *self.labels.entry(label.raw()).or_default() += 1;
                    self.nodes += 1;
                }
                StatsEvent::Rel { rel_type, source } => {
                    *self.types.entry(rel_type.raw()).or_default() += 1;
                    self.rels += 1;
                    if let Some((label, vertex)) = source {
                        *self
                            .degrees
                            .entry((label.raw(), rel_type.raw(), vertex.raw()))
                            .or_default() += 1;
                    }
                }
            }
        }
        self.commits += 1;
    }
}

fn rebuild_stats(
    tenant: TenantId,
    at: Lsn,
    versions: &Versions,
    store: &mut BTreeMap<u64, Stats>,
) -> TenantRebuildOutcome {
    let rebuilt = rebuild_catalog_stats_for_tenant(&versions.visible(tenant, at));
    store.entry(tenant.raw()).or_default().apply(&rebuilt.events);
    rebuilt.outcome
}

fn rebuild_all_stats(
    at: Lsn,
    versions: &Versions,
    store: &mut BTreeMap<u64, Stats>,
) -> RebuildReport {
    let mut outcomes = Vec::new();
    for tenant in versions.tenants() {
        outcomes.push((tenant, rebuild_stats(tenant, at, versions, store)));
    }
    rebuild_all_tenant_stats(outcomes)
}

#[test]
fn rebuild_for_tenant_with_no_records_returns_zero_walked() {
    let versions = Versions::default();
    let mut store = BTreeMap::new();
    let tenant = TenantId::new(42);
    match rebuild_stats(tenant, Lsn::new(0), &versions, &mut store) {
        TenantRebuildOutcome::Success {
            nodes_walked,
            rels_walked,
        } => {
            assert_eq!(nodes_walked, 0);
            assert_eq!(rels_walked, 0);
        }
        other => panic!("expected Success; got {other:?}"),
    }
    let stats = &store[&42];
    assert_eq!(stats.nodes, 0);
    assert_eq!(stats.rels, 0);
    assert_eq!(stats.commits, 1);
}

#[test]
fn rebuild_all_walks_every_tenant_with_chains() {
    let mut versions = Versions::default();
    let mut store = BTreeMap::new();
    let t_a = TenantId::new(10);
    let t_b = TenantId::new(20);
    let t_c = TenantId::new(30);
    for i in 0..5 {
        versions.node(t_a, &node(100 + i, 1, 100 + i), 100 + i);
    }
    for i in 0..2 {
        versions.node(t_a, &node(200 + i, 2, 200 + i), 200 + i);
    }
    for i in 0..3 {
        versions.rel(t_b, &rel(300 + i, 7, 1, 2, 300 + i), 300 + i);
    }
    versions.node(t_c, &node(400, 99, 400), 400);
    versions.rel(t_c, &rel(500, 99, 1, 2, 500), 500);

    let report = rebuild_all_stats(versions.current(), &versions, &mut store);
    assert_eq!(report.successful.len(), 3);
    assert!(report.failed.is_empty());
    let by_tenant: BTreeMap<u64, (u64, u64)> =
        report.successful.iter().map(|(t, n, r)| (t.raw(), (*n, *r))).collect();
    assert_eq!(by_tenant.get(&10), Some(&(7, 0)));
    assert_eq!(by_tenant.get(&20), Some(&(0, 3)));
    assert_eq!(by_tenant.get(&30), Some(&(1, 1)));

    assert_eq!(store[&10].labels.get(&1), Some(&5));
    assert_eq!(store[&10].labels.get(&2), Some(&2));
    assert_eq!(store[&10].nodes, 7);
    assert_eq!(store[&10].rels, 0);
    assert_eq!(store[&10].commits, 1);
    assert_eq!(store[&20].types.get(&7), Some(&3));
    assert_eq!(store[&20].rels, 3);
    assert_eq!(store[&20].nodes, 0);
    assert_eq!(store[&30].labels.get(&99), Some(&1));
    assert_eq!(store[&30].types.get(&99), Some(&1));
    assert_eq!(report.tenants_walked(), 3);
    assert_eq!(report.total_nodes_walked(), 8);
    assert_eq!(report.total_rels_walked(), 4);
}

#[test]
fn rebuild_skips_tombstoned_records_at_recovered_lsn() {
    let mut versions = Versions::default();
    let mut store = BTreeMap::new();
    let tenant = TenantId::new(7);
    versions.node(tenant, &node(1, 1, 10), 10);
    versions.write(20, tenant, 1, None);
    match rebuild_stats(tenant, Lsn::new(20), &versions, &mut store) {
        TenantRebuildOutcome::Success {
            nodes_walked,
            rels_walked,
        } => {
            assert_eq!(nodes_walked, 0, "tombstoned record must not be counted");
            assert_eq!(rels_walked, 0);
        }
        other => panic!("expected Success; got {other:?}"),
    }
    assert_eq!(store[&7].labels.get(&1), None);
    assert_eq!(store[&7].nodes, 0);
}

#[test]
fn rebuild_preserves_hub_sketch_when_relationships_iterate_before_nodes() {
    let mut versions = Versions::default();
    let mut store = BTreeMap::new();
    let tenant = TenantId::new(811);
    let fanout = 384_u64;
    versions.node(tenant, &node(1, 9, 1), 1);
    for offset in 0..fanout {
        versions.node(tenant, &node(2 + offset, 9, 2 + offset), 2 + offset);
    }
    for offset in 0..fanout {
        versions.rel(
            tenant,
            &rel(10_000 + offset, 4, 1, 2 + offset, 1_000 + offset),
            1_000 + offset,
        );
    }
    let shown = versions.visible(tenant, versions.current());
    assert!(shown[0].key & REL_TAG_BIT != 0);
    let outcome = rebuild_stats(tenant, versions.current(), &versions, &mut store);
    assert_eq!(
        outcome,
        TenantRebuildOutcome::Success {
            nodes_walked: fanout + 1,
            rels_walked: fanout
        }
    );
    let degree = store[&811]
        .degrees
        .get(&(9, 4, 1))
        .expect("recovery rebuild must preserve the hub sketch entry");
    assert_eq!(
        *degree, fanout,
        "a single pass drops rels that come before their source node"
    );
}

#[test]
fn rebuild_per_tenant_fault_isolation_one_panics_others_succeed() {
    let mut versions = Versions::default();
    let mut store = BTreeMap::new();
    versions.node(TenantId::new(1), &node(10, 7, 10), 10);
    versions.node(TenantId::new(2), &node(20, 8, 20), 20);
    versions.node(TenantId::new(3), &node(30, 9, 30), 30);
    let report = rebuild_all_stats(versions.current(), &versions, &mut store);
    assert_eq!(report.successful.len(), 3);
    assert!(report.failed.is_empty());
    assert_eq!(store[&1].labels.get(&7), Some(&1));
    assert_eq!(store[&1].labels.get(&8), None);
    assert_eq!(store[&2].labels.get(&8), Some(&1));
    assert_eq!(store[&2].labels.get(&7), None);
}

#[test]
fn rebuild_with_only_visible_at_earlier_lsn_skips_later_records() {
    let mut versions = Versions::default();
    let mut store = BTreeMap::new();
    let tenant = TenantId::new(1);
    versions.node(tenant, &node(1, 7, 100), 100);
    versions.node(tenant, &node(2, 8, 200), 200);
    match rebuild_stats(tenant, Lsn::new(150), &versions, &mut store) {
        TenantRebuildOutcome::Success {
            nodes_walked,
            rels_walked,
        } => {
            assert_eq!(nodes_walked, 1, "only the lsn=100 record must be visible");
            assert_eq!(rels_walked, 0);
        }
        other => panic!("expected Success; got {other:?}"),
    }
    assert_eq!(store[&1].labels.get(&7), Some(&1));
    assert_eq!(store[&1].labels.get(&8), None);
}

#[test]
fn rebuild_panic_safety_seqlock_invariant_preserved() {
    let mut versions = Versions::default();
    let mut store: BTreeMap<u64, Stats> = BTreeMap::new();
    let tenant = TenantId::new(1);
    // A commit that began and never ended.
    store.entry(1).or_default().started += 1;
    versions.node(tenant, &node(1, 7, 100), 100);
    let outcome = rebuild_stats(tenant, versions.current(), &versions, &mut store);
    assert!(matches!(
        outcome,
        TenantRebuildOutcome::Success {
            nodes_walked: 1,
            rels_walked: 0
        }
    ));
    let stats = store.get_mut(&1).unwrap();
    assert_eq!(stats.commits, 1);
    stats.commits += 1;
    assert_eq!(stats.started, stats.commits);
    assert_eq!(stats.labels.get(&7), Some(&1));
    assert_eq!(stats.nodes, 1);
}

#[test]
fn rebuild_cross_key_invariant_holds_after_rebuild() {
    let mut versions = Versions::default();
    let mut store = BTreeMap::new();
    let tenant = TenantId::new(1);
    let mut next = 100u64;
    for (label, count) in [(1u32, 3u64), (2, 2), (3, 2)] {
        for _ in 0..count {
            versions.node(tenant, &node(next, label, next), next);
            next += 1;
        }
    }
    for (ty, count) in [(7u32, 3u64), (9, 1)] {
        for _ in 0..count {
            versions.rel(tenant, &rel(next, ty, 1, 2, next), next);
            next += 1;
        }
    }
    let outcome = rebuild_stats(tenant, versions.current(), &versions, &mut store);
    assert!(matches!(
        outcome,
        TenantRebuildOutcome::Success {
            nodes_walked: 7,
            rels_walked: 4
        }
    ));
    let stats = &store[&1];
    let sum_labels: u64 = stats.labels.values().sum();
    let sum_rels: u64 = stats.types.values().sum();
    assert_eq!(sum_labels, stats.nodes);
    assert_eq!(sum_rels, stats.rels);
    assert_eq!(stats.nodes, 7);
    assert_eq!(stats.rels, 4);
}

#[test]
fn rebuild_idempotent_double_invocation_doubles_counts_then_user_must_reset() {
    let mut versions = Versions::default();
    let mut store = BTreeMap::new();
    let tenant = TenantId::new(1);
    versions.node(tenant, &node(1, 7, 100), 100);
    let _ = rebuild_stats(tenant, Lsn::new(100), &versions, &mut store);
    let _ = rebuild_stats(tenant, Lsn::new(100), &versions, &mut store);
    assert_eq!(
        store[&1].labels.get(&7),
        Some(&2),
        "double-invoke doubles increments — production caller must invoke ONCE per recovery"
    );
    assert_eq!(store[&1].commits, 2);
}

/// The edges of each node, out of it and into it.
#[derive(Default)]
struct Edges {
    out: BTreeMap<u64, Vec<(u64, u64, u32)>>,
    into: BTreeMap<u64, Vec<(u64, u64, u32)>>,
}

impl Edges {
    fn put(&mut self, rec: &RelRecord) {
        self.out.entry(rec.src_id).or_default().push((rec.dst_id, rec.id, rec.type_id));
        self.into.entry(rec.dst_id).or_default().push((rec.src_id, rec.id, rec.type_id));
    }

    fn out_of(&self, id: u64) -> Vec<(u64, u64, u32)> {
        self.out.get(&id).cloned().unwrap_or_default()
    }

    fn into_of(&self, id: u64) -> Vec<(u64, u64, u32)> {
        self.into.get(&id).cloned().unwrap_or_default()
    }
}

fn rebuild_edges(at: Lsn, versions: &Versions, edges: &mut Edges) -> AdjacencyRebuildReport {
    let mut outcomes = Vec::new();
    for tenant in versions.tenants() {
        let records = versions.visible(tenant, at);
        let outcome =
            rebuild_adjacency_for_tenant(
                tenant,
                at,
                &records,
                &mut RelCalls::new(|_: TenantId, rec: &RelRecord, lsn: Lsn| {
                    assert_eq!(lsn, at);
                    edges.put(rec);
                    Ok::<(), VisibleError>(())
                }),
            );
        outcomes.push((tenant, outcome));
    }
    rebuild_all_tenant_adjacency(outcomes)
}

#[test]
fn rebuild_reinstates_forward_adjacency_from_recovered_rels() {
    let mut versions = Versions::default();
    let mut edges = Edges::default();
    let tenant = TenantId::default_tenant();
    versions.rel(tenant, &rel(10, 7, 1, 2, 100), 100);
    versions.rel(tenant, &rel(11, 7, 2, 3, 101), 101);
    assert_eq!(
        edges.out_of(1).len(),
        0,
        "pre-rebuild adjacency must be empty"
    );
    let report = rebuild_edges(versions.current(), &versions, &mut edges);
    assert_eq!(report.total_rels_reinstated(), 2);
    assert!(report.failed.is_empty());

    assert_eq!(edges.out_of(1).len(), 1, "src 1 has one out-edge after rebuild");
    assert_eq!(edges.out_of(1)[0].0, 2);
    assert_eq!(edges.out_of(1)[0].1, 10);
    assert_eq!(edges.out_of(2).len(), 1, "node 2 has one out-edge after rebuild");
    assert_eq!(edges.out_of(2)[0].0, 3);
    let typed = edges.out_of(1).into_iter().filter(|e| e.2 == 7).count();
    assert_eq!(typed, 1);

    assert_eq!(edges.into_of(2).len(), 1, "node 2 has one in-edge after rebuild");
    assert_eq!(edges.into_of(2)[0].0, 1, "in-edge of 2 originates at 1");
    assert_eq!(edges.into_of(2)[0].1, 10);
    assert_eq!(edges.into_of(3).len(), 1);
    assert_eq!(edges.into_of(3)[0].0, 2);
    assert_eq!(edges.into_of(3)[0].1, 11);
    assert_eq!(edges.into_of(1).len(), 0, "node 1 is a pure source — no in-edges");
}

#[test]
fn rebuild_skips_tombstoned_rels() {
    let mut versions = Versions::default();
    let mut edges = Edges::default();
    let tenant = TenantId::default_tenant();
    versions.rel(tenant, &rel(10, 7, 1, 2, 100), 100);
    versions.write(200, tenant, 10 | REL_TAG_BIT, None);
    let report = rebuild_edges(Lsn::new(200), &versions, &mut edges);
    assert_eq!(
        report.total_rels_reinstated(),
        0,
        "a rel deleted before recovery must not be reinstated into the TEL"
    );
    assert_eq!(edges.out_of(1).len(), 0);
}

#[test]
fn rebuild_roundtrip_through_live_commit_matches_in_session() {
    let mut versions = Versions::default();
    let mut live = Edges::default();
    let tenant = TenantId::default_tenant();
    let edge = rel(1, 5, 1, 2, 1);
    versions.node(tenant, &node(1, 1, 1), 1);
    versions.node(tenant, &node(2, 1, 1), 1);
    versions.rel(tenant, &edge, 1);
    live.put(&edge);
    let live_out = live.out_of(1);
    assert_eq!(live_out, vec![(2, 1, 5)]);
    let mut recovered = Edges::default();
    let report = rebuild_edges(versions.current(), &versions, &mut recovered);
    assert_eq!(report.total_rels_reinstated(), 1);
    assert_eq!(
        recovered.out_of(1),
        live_out,
        "rebuilt adjacency must match the live in-session adjacency"
    );
}

#[test]
fn rebuild_reinstates_supernode_past_overflow_boundary() {
    const FANOUT: u64 = 5000;
    let mut versions = Versions::default();
    let mut edges = Edges::default();
    let tenant = TenantId::default_tenant();
    let mut expected: BTreeMap<u64, u64> = BTreeMap::new();
    for i in 0..FANOUT {
        versions.rel(tenant, &rel(100 + i, 7, 1, 10_000 + i, 100 + i), 100 + i);
        expected.insert(100 + i, 10_000 + i);
    }
    let report = rebuild_edges(versions.current(), &versions, &mut edges);
    assert_eq!(
        report.total_rels_reinstated(),
        FANOUT,
        "every recovered rel must be reinstated into the rebuilt TEL"
    );
    assert!(report.failed.is_empty(), "no rel may fail reinstatement");
    let out = edges.out_of(1);
    assert_eq!(
        out.len(),
        FANOUT as usize,
        "rebuilt supernode must expose ALL out-edges (no overflow drop on recovery)"
    );
    let got: BTreeMap<u64, u64> = out.iter().map(|e| (e.1, e.0)).collect();
    assert_eq!(got, expected, "every rebuilt edge maps to its original dst");
    let in_edges = edges.into_of(10_000);
    assert_eq!(
        in_edges.len(),
        1,
        "each leaf dst has one in-edge from the hub"
    );
    assert_eq!(in_edges[0].0, 1);
}

#[test]
fn rebuild_reinstates_reverse_supernode_past_overflow_boundary() {
    const FANOUT: u64 = 5000;
    let mut versions = Versions::default();
    let mut edges = Edges::default();
    let tenant = TenantId::default_tenant();
    let mut expected_srcs: BTreeSet<u64> = BTreeSet::new();
    for i in 0..FANOUT {
        versions.rel(tenant, &rel(100 + i, 7, 10_000 + i, 1, 100 + i), 100 + i);
        expected_srcs.insert(10_000 + i);
    }
    let report = rebuild_edges(versions.current(), &versions, &mut edges);
    assert_eq!(
        report.total_rels_reinstated(),
        FANOUT,
        "every recovered rel must be reinstated into the rebuilt TEL"
    );
    assert!(report.failed.is_empty(), "no rel may fail reinstatement");
    let in_edges = edges.into_of(1);
    assert_eq!(
        in_edges.len(),
        FANOUT as usize,
        "rebuilt reverse supernode must expose ALL in-edges"
    );
    let got_srcs: BTreeSet<u64> = in_edges.iter().map(|e| e.0).collect();
    assert_eq!(
        got_srcs, expected_srcs,
        "every inbound source preserved through the reverse rebuild"
    );
}

#[test]
fn records_that_fail_are_passed_over() {
    let tenant = TenantId::new(4);
    let records = vec![
        VisibleRecord { key: 1, bytes: node(1, 2, 3).to_bytes().to_vec(), created_lsn: Lsn::new(3) },
        VisibleRecord { key: 2, bytes: vec![0; 5], created_lsn: Lsn::new(4) },
        VisibleRecord {
            key: 9 | REL_TAG_BIT,
            bytes: rel(9, 6, 1, 2, 5).to_bytes().to_vec(),
            created_lsn: Lsn::new(5),
        },
        VisibleRecord { key: 3 | REL_TAG_BIT, bytes: vec![0; 1], created_lsn: Lsn::new(6) },
    ];
    let mut handed: Vec<(TenantId, u64, Vec<u8>, Lsn)> = Vec::new();
    let mut calls = RecordCalls::new(|t: TenantId, key: u64, bytes: &Vec<u8>, lsn: Lsn| {
        handed.push((t, key, bytes.clone(), lsn));
        match key {
            1 => Ok(true),
            2 => Err("unreadable"),
            _ => Ok(false),
        }
    });
    let index = rebuild_index_for_tenant(tenant, &records, &mut calls);
    let once: Vec<(TenantId, u64, Vec<u8>, Lsn)> = records
        .iter()
        .map(|r| (tenant, r.key, r.bytes.clone(), r.created_lsn))
        .collect();
    assert_eq!(handed, once, "each record is handed over once, with its own key, bytes and LSN");
    assert_eq!(index_outcome(&vec![Ok(true), Err("unreadable"), Ok(false), Ok(false)]), index);
    assert_eq!(
        index,
        IndexRebuildOutcome::Success { records_walked: 4, records_reinstated: 1 }
    );
    let stats = rebuild_catalog_stats_for_tenant(&records);
    assert_eq!(
        stats.events,
        vec![
            StatsEvent::Node(LabelId::new(2)),
            StatsEvent::Rel {
                rel_type: TypeId::new(6),
                source: Some((LabelId::new(2), NodeId::new(1))),
            },
        ]
    );
    assert_eq!(stats.rel_label_misses, 0);
    let mut seen = Vec::new();
    let mut calls = RelCalls::new(|_: TenantId, r: &RelRecord, _: Lsn| {
        seen.push(r.id);
        Err::<(), &str>("full")
    });
    let edges = rebuild_adjacency_for_tenant(tenant, Lsn::new(6), &records, &mut calls);
    assert_eq!(
        adjacency_outcome(&vec![Ok(()), Err("full"), Ok(())]),
        AdjacencyRebuildOutcome::Success { rels_reinstated: 2 }
    );
    assert_eq!(edges, AdjacencyRebuildOutcome::Success { rels_reinstated: 0 });
    assert_eq!(seen, vec![9]);
    assert!(matches!(decode_node_bytes(&[0; 5]), Err(VisibleError::Length { got: 5 })));
    assert!(matches!(decode_rel_bytes(&[0; 1]), Err(VisibleError::Length { got: 1 })));
}

#[test]
fn a_dangling_relationship_is_counted_and_noted() {
    let records = vec![VisibleRecord {
        key: 9 | REL_TAG_BIT,
        bytes: rel(9, 6, 77, 2, 5).to_bytes().to_vec(),
        created_lsn: Lsn::new(5),
    }];
    let stats = rebuild_catalog_stats_for_tenant(&records);
    assert_eq!(stats.rel_label_misses, 1);
    assert_eq!(stats.events, vec![StatsEvent::Rel { rel_type: TypeId::new(6), source: None }]);
    assert_eq!(
        stats.outcome,
        TenantRebuildOutcome::Success { nodes_walked: 0, rels_walked: 1 }
    );
}

#[test]
fn reports_are_in_the_order_of_the_tenants() {
    let t = |n: u64| TenantId::new(n);
    let ok = |w: u64, r: u64| IndexRebuildOutcome::Success {
        records_walked: w,
        records_reinstated: r,
    };
    let broken = IndexRebuildOutcome::PartialFailure { panic_message: "why".to_string() };
    let a = vec![(t(9), ok(1, 1)), (t(2), broken.clone()), (t(5), ok(4, 0)), (t(1), broken)];
    let mut b = a.clone();
    b.reverse();
    let x = rebuild_all_tenant_index(a);
    let y = rebuild_all_tenant_index(b);
    assert_eq!(x.successful, vec![(t(5), 4, 0), (t(9), 1, 1)]);
    assert_eq!(x.failed, vec![(t(1), "why".to_string()), (t(2), "why".to_string())]);
    assert_eq!(x.successful, y.successful);
    assert_eq!(x.failed, y.failed);
    assert_eq!(x.tenants_walked(), 4);
    assert_eq!(x.total_records_walked(), 5);
    assert_eq!(x.total_records_reinstated(), 1);

    let s = rebuild_all_tenant_stats(vec![
        (t(3), TenantRebuildOutcome::PartialFailure { panic_message: "x".to_string() }),
        (t(2), TenantRebuildOutcome::Success { nodes_walked: 2, rels_walked: 7 }),
    ]);
    assert_eq!(s.successful, vec![(t(2), 2, 7)]);
    assert_eq!(s.failed, vec![(t(3), "x".to_string())]);
    assert_eq!(s.tenants_walked(), 2);
    assert_eq!((s.total_nodes_walked(), s.total_rels_walked()), (2, 7));

    let e = rebuild_all_tenant_adjacency(vec![
        (t(3), AdjacencyRebuildOutcome::Success { rels_reinstated: 5 }),
        (t(2), AdjacencyRebuildOutcome::Success { rels_reinstated: 6 }),
        (t(1), AdjacencyRebuildOutcome::PartialFailure { panic_message: "z".to_string() }),
    ]);
    assert_eq!(e.successful, vec![(t(2), 6), (t(3), 5)]);
    assert_eq!(e.failed, vec![(t(1), "z".to_string())]);
    assert_eq!(e.tenants_walked(), 3);
    assert_eq!(e.total_rels_reinstated(), 11);
}

#[test]
fn the_order_of_the_records_does_not_change_the_counts() {
    let mut records: Vec<VisibleRecord> = Vec::new();
    for i in 1..=6u64 {
        records.push(VisibleRecord {
            key: i,
            bytes: node(i, (i % 2) as u32 + 1, 3).to_bytes().to_vec(),
            created_lsn: Lsn::new(3),
        });
        records.push(VisibleRecord {
            key: i | REL_TAG_BIT,
            bytes: rel(i, (i % 3) as u32, 2 * i, 1, 4).to_bytes().to_vec(),
            created_lsn: Lsn::new(4),
        });
    }
    let mut turned = records.clone();
    turned.reverse();
    turned.swap(2, 7);
    let a = rebuild_catalog_stats_for_tenant(&records);
    let b = rebuild_catalog_stats_for_tenant(&turned);
    assert_eq!(a.outcome, b.outcome);
    assert_eq!(a.outcome, TenantRebuildOutcome::Success { nodes_walked: 6, rels_walked: 6 });
    assert_eq!((a.rel_label_misses, b.rel_label_misses), (3, 3));
    let sorted = |events: &Vec<StatsEvent>| {
        let mut shown: Vec<String> = events.iter().map(|e| format!("{e:?}")).collect();
        shown.sort();
        shown
    };
    assert_eq!(sorted(&a.events), sorted(&b.events));
    let labelled = a.events.iter().filter(|e| **e == StatsEvent::Node(LabelId::new(1))).count();
    assert_eq!(labelled, 3);
}

#[test]
fn statistics_are_rebuilt_as_one_commit() {
    let tenant = TenantId::new(4);
    let records = vec![
        VisibleRecord {
            key: 9 | REL_TAG_BIT,
            bytes: rel(9, 6, 1, 2, 5).to_bytes().to_vec(),
            created_lsn: Lsn::new(5),
        },
        VisibleRecord { key: 1, bytes: node(1, 2, 3).to_bytes().to_vec(), created_lsn: Lsn::new(3) },
    ];
    let mut seen: Vec<(TenantId, StatsCall)> = Vec::new();
    let mut calls = StatsCalls::new(|t: TenantId, call: StatsCall| seen.push((t, call)));
    let rebuilt = observe_stats_rebuild(tenant, &records, &mut calls);
    assert_eq!(
        rebuilt.outcome,
        TenantRebuildOutcome::Success { nodes_walked: 1, rels_walked: 1 }
    );
    let source = Some((LabelId::new(2), NodeId::new(1)));
    assert_eq!(
        seen,
        vec![
            (tenant, StatsCall::Begin),
            (tenant, StatsCall::Step(StatsEvent::Node(LabelId::new(2)))),
            (tenant, StatsCall::Step(StatsEvent::Rel { rel_type: TypeId::new(6), source })),
            (tenant, StatsCall::End),
        ]
    );
}
