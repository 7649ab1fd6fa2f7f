//! Rebuilding the statistics of each tenant.
use std::collections::HashMap;

use vstd::prelude::*;
use vstd::std_specs::hash::group_hash_axioms;

use crate::codec::{u32_at, u64_at};
use crate::ids::{LabelId, NodeId, TenantId, TypeId};
use crate::order::{law_sorting_forgets_the_order, sort_by_keys, sorted_by};
use crate::recovery::index_rebuild::{
    distinct_tenants, lemma_distinct_tenants, lemma_sum_part, sum_of, tenant_key, tenant_key_of,
};
use crate::recovery::rebuild_laws::{is_node, is_rel, law_node_steps, law_rel_steps};
use crate::recovery::visible::{
    decode_node_bytes, decode_rel_bytes, is_rel_key, node_in, rel_in, VisibleRecord, REL_TAG_BIT,
};

verus! {

/// How the rebuild of one tenant's statistics ended.
#[derive(Clone, Debug, PartialEq, Eq)]
pub enum TenantRebuildOutcome {
    /// Every record was seen.
    Success {
        /// Nodes that were counted.
        nodes_walked: u64,
        /// Relationships that were counted.
        rels_walked: u64,
    },
    /// The rebuild broke off.
    PartialFailure {
        /// Why.
        panic_message: String,
    },
}

/// How the rebuilds of all tenants ended, each list in the order of the
/// tenants.
#[derive(Clone, Debug, Default)]
pub struct RebuildReport {
    /// Tenants whose rebuild came to its end: nodes and relationships that were
    /// counted.
    pub successful: Vec<(TenantId, u64, u64)>,
    /// Tenants whose rebuild broke off, and why.
    pub failed: Vec<(TenantId, String)>,
}

/// One step of a tenant's statistics.
#[derive(Clone, Copy, Debug, PartialEq, Eq)]
pub enum StatsEvent {
    /// A node with this label counts, for its label and in total.
    Node(LabelId),
    /// A relationship of this type counts, for its type and in total. Where the
    /// label of its source is known, the source's out-degree counts too.
    Rel {
        /// The type.
        rel_type: TypeId,
        /// The label of the source, and the source.
        source: Option<(LabelId, NodeId)>,
    },
}

/// What a tenant's statistics are rebuilt from.
#[derive(Debug)]
pub struct StatsRebuild {
    /// The steps, in order: the nodes, then the relationships. They are to be
    /// applied as one commit.
    pub events: Vec<StatsEvent>,
    /// How the rebuild ended.
    pub outcome: TenantRebuildOutcome,
    /// Relationships whose source is not among the nodes.
    pub rel_label_misses: u64,
}

impl RebuildReport {
    /// The number of tenants.
    pub fn tenants_walked(&self) -> (n: usize)
        requires
            self.successful@.len() + self.failed@.len() <= usize::MAX,
        ensures
            n == self.successful@.len() + self.failed@.len(),
    {
        self.successful.len() + self.failed.len()
    }

    /// The number of nodes that were counted.
    pub fn total_nodes_walked(&self) -> (n: u64)
        requires
            sum_of(self.successful@, |t: (TenantId, u64, u64)| t.1) <= u64::MAX,
        ensures
            n == sum_of(self.successful@, |t: (TenantId, u64, u64)| t.1),
    {
        let ghost pick = |t: (TenantId, u64, u64)| t.1;
        let ghost s = self.successful@;
        let mut n: u64 = 0;
        let mut i: usize = 0;
        assert(s.take(0) =~= Seq::<(TenantId, u64, u64)>::empty());
        while i < self.successful.len()
            invariant
                s == self.successful@,
                pick == (|t: (TenantId, u64, u64)| t.1),
                i <= s.len(),
                n == sum_of(s.take(i as int), pick),
                sum_of(s, pick) <= u64::MAX,
            decreases s.len() - i,
        {
            proof {
                lemma_sum_part(s, pick, i as int);
                lemma_sum_part(s, pick, i + 1);
            }
            n = n + self.successful[i].1;
            i += 1;
        }
        assert(s.take(i as int) =~= s);
        n
    }

    /// The number of relationships that were counted.
    pub fn total_rels_walked(&self) -> (n: u64)
        requires
            sum_of(self.successful@, |t: (TenantId, u64, u64)| t.2) <= u64::MAX,
        ensures
            n == sum_of(self.successful@, |t: (TenantId, u64, u64)| t.2),
    {
        let ghost pick = |t: (TenantId, u64, u64)| t.2;
        let ghost s = self.successful@;
        let mut n: u64 = 0;
        let mut i: usize = 0;
        assert(s.take(0) =~= Seq::<(TenantId, u64, u64)>::empty());
        while i < self.successful.len()
            invariant
                s == self.successful@,
                pick == (|t: (TenantId, u64, u64)| t.2),
                i <= s.len(),
                n == sum_of(s.take(i as int), pick),
                sum_of(s, pick) <= u64::MAX,
            decreases s.len() - i,
        {
            proof {
                lemma_sum_part(s, pick, i as int);
                lemma_sum_part(s, pick, i + 1);
            }
            n = n + self.successful[i].2;
            i += 1;
        }
        assert(s.take(i as int) =~= s);
        n
    }
}

/// The steps of the nodes among the records. Records that cannot be read are
/// passed over.
pub open spec fn node_events(records: Seq<VisibleRecord>) -> Seq<StatsEvent>
    decreases records.len(),
{
    if records.len() == 0 {
        Seq::empty()
    } else {
        let front = node_events(records.drop_last());
        let last = records.last();
        if is_rel_key(last.key) {
            front
        } else {
            match node_in(last.bytes@) {
                Ok(node) => front.push(StatsEvent::Node(LabelId(node.label_id))),
                Err(_) => front,
            }
        }
    }
}

/// The labels of the nodes among the records. Of two records with one number
/// the later one counts.
pub open spec fn labels_of(records: Seq<VisibleRecord>) -> Map<u64, LabelId>
    decreases records.len(),
{
    if records.len() == 0 {
        Map::empty()
    } else {
        let front = labels_of(records.drop_last());
        let last = records.last();
        if is_rel_key(last.key) {
            front
        } else {
            match node_in(last.bytes@) {
                Ok(node) => front.insert(node.id, LabelId(node.label_id)),
                Err(_) => front,
            }
        }
    }
}

/// The steps of the relationships among the records.
pub open spec fn rel_events(records: Seq<VisibleRecord>, labels: Map<u64, LabelId>) -> Seq<StatsEvent>
    decreases records.len(),
{
    if records.len() == 0 {
        Seq::empty()
    } else {
        let front = rel_events(records.drop_last(), labels);
        let last = records.last();
        if !is_rel_key(last.key) {
            front
        } else {
            match rel_in(last.bytes@) {
                Ok(rel) => front.push(
                    StatsEvent::Rel {
                        rel_type: TypeId(rel.type_id),
                        source: if labels.contains_key(rel.src_id) {
                            Some((labels[rel.src_id], NodeId(rel.src_id)))
                        } else {
                            None
                        },
                    },
                ),
                Err(_) => front,
            }
        }
    }
}

/// The number of relationships whose source is not known.
pub open spec fn misses(events: Seq<StatsEvent>) -> int
    decreases events.len(),
{
    if events.len() == 0 {
        0
    } else {
        misses(events.drop_last()) + if events.last() matches StatsEvent::Rel { source: None, .. } {
            1int
        } else {
            0int
        }
    }
}

/// The steps, the outcome and the misses are those of the records.
pub open spec fn rebuilt_from(records: Seq<VisibleRecord>, r: StatsRebuild) -> bool {
    let nodes = node_events(records);
    let rels = rel_events(records, labels_of(records));
    &&& r.events@ == nodes + rels
    &&& nodes.len() <= records.len() && rels.len() <= records.len()
    &&& r.outcome == TenantRebuildOutcome::Success {
        nodes_walked: nodes.len() as u64,
        rels_walked: rels.len() as u64,
    }
    &&& r.rel_label_misses == misses(rels)
}

/// The steps from which a tenant's statistics are rebuilt: every node that the
/// snapshot shows, then every relationship. The nodes come first, so that the
/// label of a relationship's source is known whatever the order of the records.
pub fn rebuild_catalog_stats_for_tenant(records: &Vec<VisibleRecord>) -> (r: StatsRebuild)
    ensures
        rebuilt_from(records@, r),
        ({
            let nodes = records@.filter(|v: VisibleRecord| is_node(v));
            let rels = records@.filter(|v: VisibleRecord| is_rel(v));
            let n = nodes.len() as int;
            &&& r.events@.len() == nodes.len() + rels.len()
            &&& r.events@.take(n) == nodes.map_values(
                |v: VisibleRecord| StatsEvent::Node(LabelId(u32_at(v.bytes@, 16))),
            )
            &&& forall|i: int|
                0 <= i < rels.len() ==> (#[trigger] r.events@.skip(n)[i] matches StatsEvent::Rel {
                    rel_type,
                    source,
                } && rel_type.0 == u32_at(rels[i].bytes@, 16) && (source matches Some((_, node))
                    ==> node.0 == u64_at(rels[i].bytes@, 24)))
        }),
{
    broadcast use group_hash_axioms;

    let ghost all = records@;
    let mut events: Vec<StatsEvent> = Vec::new();
    let mut node_labels: HashMap<u64, LabelId> = HashMap::new();
    let mut nodes_walked: u64 = 0;
    let mut i: usize = 0;
    proof {
        assert(all.take(0) =~= Seq::<VisibleRecord>::empty());
        assert(node_labels@ =~= labels_of(all.take(0)));
    }
    while i < records.len()
        invariant
            all == records@,
            i <= all.len(),
            events@ == node_events(all.take(i as int)),
            node_labels@ == labels_of(all.take(i as int)),
            nodes_walked == events@.len(),
            nodes_walked <= i,
        decreases all.len() - i,
    {
        broadcast use group_hash_axioms;

        let record = &records[i];
        proof {
            assert(all.take(i + 1).drop_last() =~= all.take(i as int));
            assert(all.take(i + 1).last() == all[i as int]);
        }
        if record.key & REL_TAG_BIT == 0 {
            match decode_node_bytes(record.bytes.as_slice()) {
                Err(_) => {},
                Ok(node) => {
                    events.push(StatsEvent::Node(LabelId(node.label_id)));
                    node_labels.insert(node.id, LabelId(node.label_id));
                    nodes_walked += 1;
                },
            }
        }
        i += 1;
    }
    assert(all.take(i as int) =~= all);
    let ghost labels = labels_of(all);
    let ghost nodes = node_events(all);
    let mut rels_walked: u64 = 0;
    let mut rel_label_misses: u64 = 0;
    let mut k: usize = 0;
    proof {
        assert(all.take(0) =~= Seq::<VisibleRecord>::empty());
        assert(events@ =~= nodes + rel_events(all.take(0), labels));
    }
    while k < records.len()
        invariant
            all == records@,
            k <= all.len(),
            node_labels@ == labels,
            events@ == nodes + rel_events(all.take(k as int), labels),
            rels_walked == rel_events(all.take(k as int), labels).len(),
            rels_walked <= k,
            rel_label_misses == misses(rel_events(all.take(k as int), labels)),
            rel_label_misses <= k,
        decreases all.len() - k,
    {
        broadcast use group_hash_axioms;

        let record = &records[k];
        let ghost before = rel_events(all.take(k as int), labels);
        proof {
            assert(all.take(k + 1).drop_last() =~= all.take(k as int));
            assert(all.take(k + 1).last() == all[k as int]);
        }
        if record.key & REL_TAG_BIT != 0 {
            match decode_rel_bytes(record.bytes.as_slice()) {
                Err(_) => {},
                Ok(rel) => {
                    let source = match node_labels.get(&rel.src_id) {
                        Some(label) => Some((*label, NodeId(rel.src_id))),
                        None => None,
                    };
                    match source {
                        Some(_) => {},
                        None => {
                            rel_label_misses += 1;
                        },
                    }
                    let event = StatsEvent::Rel { rel_type: TypeId(rel.type_id), source };
                    events.push(event);
                    rels_walked += 1;
                    proof {
                        let now = rel_events(all.take(k + 1), labels);
                        assert(now == before.push(event));
                        assert(now.drop_last() =~= before);
                        assert(events@ =~= nodes + now);
                    }
                },
            }
        }
        k += 1;
    }
    assert(all.take(k as int) =~= all);
    proof {
        law_node_steps(all);
        law_rel_steps(all, labels_of(all));
        let n = node_events(all).len() as int;
        assert(events@.take(n) =~= node_events(all));
        assert(events@.skip(n) =~= rel_events(all, labels_of(all)));
    }
    StatsRebuild {
        events,
        outcome: TenantRebuildOutcome::Success { nodes_walked, rels_walked },
        rel_label_misses,
    }
}

/// One call on a tenant's statistics.
#[derive(Clone, Copy, Debug, PartialEq, Eq)]
pub enum StatsCall {
    /// Announces a commit to the readers of the statistics.
    Begin,
    /// Applies one step.
    Step(StatsEvent),
    /// Ends the commit that was announced.
    End,
}

/// What a rebuild of the statistics fills.
pub trait StatsTarget {
    /// The calls that were made so far.
    spec fn calls(&self) -> Seq<(TenantId, StatsCall)>;

    /// Calls can be made.
    spec fn ready(&self) -> bool;

    /// Makes a call on a tenant's statistics.
    fn call(&mut self, tenant: TenantId, call: StatsCall)
        requires
            old(self).ready(),
        ensures
            final(self).ready(),
            final(self).calls() == old(self).calls().push((tenant, call)),
    ;
}

/// A target that hands each call to a closure.
pub struct StatsCalls<F: FnMut(TenantId, StatsCall)> {
    apply: F,
    calls: Ghost<Seq<(TenantId, StatsCall)>>,
}

impl<F: FnMut(TenantId, StatsCall)> StatsCalls<F> {
    /// The closure.
    pub closed spec fn closure(self) -> F {
        self.apply
    }

    /// A target on which no call was made yet.
    pub fn new(apply: F) -> (t: StatsCalls<F>)
        ensures
            t.closure() == apply,
            t.calls() == Seq::<(TenantId, StatsCall)>::empty(),
    {
        StatsCalls { apply, calls: Ghost(Seq::empty()) }
    }
}

impl<F: FnMut(TenantId, StatsCall)> StatsTarget for StatsCalls<F> {
    closed spec fn calls(&self) -> Seq<(TenantId, StatsCall)> {
        self.calls@
    }

    open spec fn ready(&self) -> bool {
        forall|t: TenantId, call: StatsCall| #[trigger] call_requires(self.closure(), (t, call))
    }

    fn call(&mut self, tenant: TenantId, call: StatsCall)
        ensures
            call_ensures(old(self).closure(), (tenant, call), ()),
            final(self).closure() == old(self).closure(),
    {
        assert(self.closure() == self.apply);
        (self.apply)(tenant, call);
        proof {
            self.calls = Ghost(self.calls@.push((tenant, call)));
        }
    }
}

/// The calls of one rebuild: one commit is announced, every step is applied once
/// and in order, and the commit is ended.
pub open spec fn stats_calls(tenant: TenantId, events: Seq<StatsEvent>) -> Seq<
    (TenantId, StatsCall),
> {
    seq![(tenant, StatsCall::Begin)] + step_calls(tenant, events) + seq![(tenant, StatsCall::End)]
}

/// One call per step.
pub open spec fn step_calls(tenant: TenantId, events: Seq<StatsEvent>) -> Seq<
    (TenantId, StatsCall),
> {
    Seq::new(events.len(), |i: int| (tenant, StatsCall::Step(events[i])))
}

/// Rebuilds the statistics of a tenant on `target`, as one commit.
pub fn observe_stats_rebuild<T: StatsTarget>(
    tenant: TenantId,
    records: &Vec<VisibleRecord>,
    target: &mut T,
) -> (r: StatsRebuild)
    requires
        old(target).ready(),
    ensures
        final(target).ready(),
        rebuilt_from(records@, r),
        final(target).calls() == old(target).calls() + stats_calls(tenant, r.events@),
{
    let ghost before = target.calls();
    target.call(tenant, StatsCall::Begin);
    let rebuilt = rebuild_catalog_stats_for_tenant(records);
    let ghost events = rebuilt.events@;
    let ghost begun = before + seq![(tenant, StatsCall::Begin)];
    let mut i: usize = 0;
    assert(target.calls() =~= begun + step_calls(tenant, events.take(0)));
    while i < rebuilt.events.len()
        invariant
            events == rebuilt.events@,
            i <= events.len(),
            target.ready(),
            target.calls() == begun + step_calls(tenant, events.take(i as int)),
        decreases events.len() - i,
    {
        target.call(tenant, StatsCall::Step(rebuilt.events[i]));
        assert(target.calls() =~= begun + step_calls(tenant, events.take(i + 1)));
        i += 1;
    }
    target.call(tenant, StatsCall::End);
    proof {
        assert(events.take(i as int) =~= events);
        assert(target.calls() =~= before + stats_calls(tenant, events));
    }
    rebuilt
}

/// A relationship counts for the out-degree of its source, under the source's
/// label, wherever the source stands among the records.
pub proof fn law_source_is_known(records: Seq<VisibleRecord>, i: int, j: int)
    requires
        0 <= i < records.len() && 0 <= j < records.len(),
        is_rel_key(records[i].key) && rel_in(records[i].bytes@) is Ok,
        !is_rel_key(records[j].key) && node_in(records[j].bytes@) is Ok,
        rel_in(records[i].bytes@)->Ok_0.src_id == node_in(records[j].bytes@)->Ok_0.id,
        one_label_each(records),
    ensures
        ({
            let rel = rel_in(records[i].bytes@)->Ok_0;
            let label = LabelId(node_in(records[j].bytes@)->Ok_0.label_id);
            rel_events(records, labels_of(records)).contains(
                StatsEvent::Rel {
                    rel_type: TypeId(rel.type_id),
                    source: Some((label, NodeId(rel.src_id))),
                },
            )
        }),
{
    lemma_label(records, j);
    lemma_rel_event(records, labels_of(records), i);
}

/// No two nodes among the records have one number and two labels.
pub open spec fn one_label_each(records: Seq<VisibleRecord>) -> bool {
    forall|i: int, j: int|
        #![trigger records[i], records[j]]
        0 <= i < records.len() && 0 <= j < records.len() && !is_rel_key(records[i].key)
            && !is_rel_key(records[j].key) ==> match (
            node_in(records[i].bytes@),
            node_in(records[j].bytes@),
        ) {
            (Ok(a), Ok(b)) => a.id == b.id ==> a.label_id == b.label_id,
            _ => true,
        }
}

proof fn lemma_label(records: Seq<VisibleRecord>, j: int)
    requires
        0 <= j < records.len(),
        !is_rel_key(records[j].key) && node_in(records[j].bytes@) is Ok,
        one_label_each(records),
    ensures
        ({
            let node = node_in(records[j].bytes@)->Ok_0;
            &&& labels_of(records).contains_key(node.id)
            &&& labels_of(records)[node.id] == LabelId(node.label_id)
        }),
    decreases records.len(),
{
    let front = records.drop_last();
    let last = records[records.len() - 1];
    assert(one_label_each(records) && records[j] == records[j]);
    if j < front.len() {
        assert(one_label_each(front)) by {
            assert forall|a: int, b: int|
                #![trigger front[a], front[b]]
                0 <= a < front.len() && 0 <= b < front.len() && !is_rel_key(front[a].key)
                    && !is_rel_key(front[b].key) implies match (
                node_in(front[a].bytes@),
                node_in(front[b].bytes@),
            ) {
                (Ok(x), Ok(y)) => x.id == y.id ==> x.label_id == y.label_id,
                _ => true,
            } by {
                assert(front[a] == records[a] && front[b] == records[b]);
            }
        }
        assert(front[j] == records[j]);
        lemma_label(front, j);
    }
}

proof fn lemma_rel_event(records: Seq<VisibleRecord>, labels: Map<u64, LabelId>, i: int)
    requires
        0 <= i < records.len(),
        is_rel_key(records[i].key) && rel_in(records[i].bytes@) is Ok,
    ensures
        ({
            let rel = rel_in(records[i].bytes@)->Ok_0;
            rel_events(records, labels).contains(
                StatsEvent::Rel {
                    rel_type: TypeId(rel.type_id),
                    source: if labels.contains_key(rel.src_id) {
                        Some((labels[rel.src_id], NodeId(rel.src_id)))
                    } else {
                        None
                    },
                },
            )
        }),
    decreases records.len(),
{
    let front = records.drop_last();
    let before = rel_events(front, labels);
    let all = rel_events(records, labels);
    let rel = rel_in(records[i].bytes@)->Ok_0;
    let event = StatsEvent::Rel {
        rel_type: TypeId(rel.type_id),
        source: if labels.contains_key(rel.src_id) {
            Some((labels[rel.src_id], NodeId(rel.src_id)))
        } else {
            None
        },
    };
    if i < front.len() {
        assert(front[i] == records[i]);
        lemma_rel_event(front, labels, i);
        let k = choose|k: int| 0 <= k < before.len() && before[k] == event;
        assert(all[k] == event);
    } else {
        assert(all.last() == event);
    }
}

/// The number of nodes with a label among the steps.
pub open spec fn label_card(events: Seq<StatsEvent>, label: LabelId) -> int
    decreases events.len(),
{
    if events.len() == 0 {
        0
    } else {
        label_card(events.drop_last(), label) + if events.last() == StatsEvent::Node(label) {
            1int
        } else {
            0int
        }
    }
}

/// The number of nodes with one of these labels.
pub open spec fn sum_of_cards(events: Seq<StatsEvent>, labels: Seq<LabelId>) -> int
    decreases labels.len(),
{
    if labels.len() == 0 {
        0
    } else {
        sum_of_cards(events, labels.drop_last()) + label_card(events, labels.last())
    }
}

/// The step is that of a node with one of these labels.
pub open spec fn labelled(event: StatsEvent, labels: Seq<LabelId>) -> bool {
    match event {
        StatsEvent::Node(l) => labels.contains(l),
        StatsEvent::Rel { .. } => false,
    }
}

/// Every step is that of a node with one of these labels.
pub open spec fn covered(events: Seq<StatsEvent>, labels: Seq<LabelId>) -> bool {
    forall|i: int| 0 <= i < events.len() ==> labelled(#[trigger] events[i], labels)
}

/// The counts of the labels add up to the count of the nodes: every node that
/// was counted is counted for one label.
pub proof fn law_labels_add_up(records: Seq<VisibleRecord>, labels: Seq<LabelId>)
    requires
        labels.no_duplicates(),
        covered(node_events(records), labels),
    ensures
        sum_of_cards(node_events(records), labels) == node_events(records).len(),
{
    lemma_labels_add_up(node_events(records), labels);
}

proof fn lemma_labels_add_up(events: Seq<StatsEvent>, labels: Seq<LabelId>)
    requires
        labels.no_duplicates(),
        covered(events, labels),
    ensures
        sum_of_cards(events, labels) == events.len(),
    decreases events.len(),
{
    if events.len() == 0 {
        lemma_no_cards(labels);
        assert(events =~= Seq::<StatsEvent>::empty());
    } else {
        let front = events.drop_last();
        assert(covered(front, labels)) by {
            assert forall|i: int| 0 <= i < front.len() implies labelled(
                #[trigger] front[i],
                labels,
            ) by {
                assert(labelled(events[i], labels));
            }
        }
        lemma_labels_add_up(front, labels);
        assert(labelled(events[events.len() - 1], labels));
        if let StatsEvent::Node(l) = events.last() {
            lemma_one_more(events, labels, l);
        }
    }
}

proof fn lemma_no_cards(labels: Seq<LabelId>)
    ensures
        sum_of_cards(Seq::<StatsEvent>::empty(), labels) == 0,
    decreases labels.len(),
{
    if labels.len() > 0 {
        lemma_no_cards(labels.drop_last());
    }
}

proof fn lemma_one_more(events: Seq<StatsEvent>, labels: Seq<LabelId>, l: LabelId)
    requires
        events.len() > 0,
        events.last() == StatsEvent::Node(l),
        labels.no_duplicates(),
    ensures
        sum_of_cards(events, labels) == sum_of_cards(events.drop_last(), labels) + if labels.contains(
            l,
        ) {
            1int
        } else {
            0int
        },
    decreases labels.len(),
{
    if labels.len() > 0 {
        let front = labels.drop_last();
        lemma_one_more(events, front, l);
        assert(front.contains(l) <==> labels.contains(l) && labels.last() != l) by {
            if front.contains(l) {
                let i = choose|i: int| 0 <= i < front.len() && front[i] == l;
                assert(labels[i] == l);
            }
            if labels.contains(l) && labels.last() != l {
                let i = choose|i: int| 0 <= i < labels.len() && labels[i] == l;
                assert(front[i] == l);
            }
        }
        if labels.last() == l {
            assert(labels[labels.len() - 1] == l);
        }
    }
}

/// The number of relationships of a type among the steps.
pub open spec fn type_card(events: Seq<StatsEvent>, rel_type: TypeId) -> int
    decreases events.len(),
{
    if events.len() == 0 {
        0
    } else {
        type_card(events.drop_last(), rel_type) + if of_type(events.last(), rel_type) {
            1int
        } else {
            0int
        }
    }
}

/// The step is that of a relationship of the type.
pub open spec fn of_type(event: StatsEvent, rel_type: TypeId) -> bool {
    match event {
        StatsEvent::Rel { rel_type: t, .. } => t == rel_type,
        StatsEvent::Node(_) => false,
    }
}

/// The step is that of a relationship whose source is not known.
pub open spec fn sourceless(event: StatsEvent) -> bool {
    event matches StatsEvent::Rel { source: None, .. }
}

/// The order of the records does not change what is rebuilt: the steps are the
/// same up to their order, and so is every count.
pub proof fn law_rebuild_forgets_the_order(a: Seq<VisibleRecord>, b: Seq<VisibleRecord>)
    requires
        a.to_multiset() == b.to_multiset(),
        one_label_each(a),
    ensures
        ({
            let na = node_events(a);
            let nb = node_events(b);
            let ra = rel_events(a, labels_of(a));
            let rb = rel_events(b, labels_of(b));
            &&& na.to_multiset() == nb.to_multiset() && na.len() == nb.len()
            &&& ra.to_multiset() == rb.to_multiset() && ra.len() == rb.len()
            &&& (na + ra).to_multiset() == (nb + rb).to_multiset()
            &&& misses(ra) == misses(rb)
            &&& forall|label: LabelId| #[trigger] label_card(na, label) == label_card(nb, label)
            &&& forall|t: TypeId| #[trigger] type_card(ra, t) == type_card(rb, t)
        }),
{
    let na = node_events(a);
    let nb = node_events(b);
    lemma_same_labels(a, b);
    let labels = labels_of(a);
    let ra = rel_events(a, labels);
    let rb = rel_events(b, labels);
    let node = |r: VisibleRecord| node_event(r);
    let rel = |r: VisibleRecord| rel_event(r, labels);
    lemma_nodes_by(a, node);
    lemma_nodes_by(b, node);
    lemma_rels_by(a, labels, rel);
    lemma_rels_by(b, labels, rel);
    lemma_same_events(a, b, node);
    lemma_same_events(a, b, rel);
    broadcast use vstd::seq_lib::group_to_multiset_ensures;

    assert(na.len() == nb.len()) by {
        assert(na.to_multiset().len() == nb.to_multiset().len());
    }
    assert(ra.len() == rb.len()) by {
        assert(ra.to_multiset().len() == rb.to_multiset().len());
    }
    assert((na + ra).to_multiset() == (nb + rb).to_multiset()) by {
        vstd::seq_lib::lemma_multiset_commutative(na, ra);
        vstd::seq_lib::lemma_multiset_commutative(nb, rb);
    }
    let missing = |e: StatsEvent| sourceless(e);
    lemma_misses_by(ra, missing);
    lemma_misses_by(rb, missing);
    lemma_count_by(ra, missing);
    lemma_count_by(rb, missing);
    assert forall|label: LabelId| #[trigger] label_card(na, label) == label_card(nb, label) by {
        let p = |e: StatsEvent| e == StatsEvent::Node(label);
        lemma_labels_by(na, label, p);
        lemma_labels_by(nb, label, p);
        lemma_count_by(na, p);
        lemma_count_by(nb, p);
    }
    assert forall|t: TypeId| #[trigger] type_card(ra, t) == type_card(rb, t) by {
        let p = |e: StatsEvent| of_type(e, t);
        lemma_types_by(ra, t, p);
        lemma_types_by(rb, t, p);
        lemma_count_by(ra, p);
        lemma_count_by(rb, p);
    }
}

/// The record is that of a node with the label.
pub open spec fn node_with(record: VisibleRecord, label: LabelId) -> bool {
    !is_rel_key(record.key) && node_in(record.bytes@) is Ok && node_in(record.bytes@)->Ok_0.label_id
        == label.0
}

/// The record is that of a relationship of the type.
pub open spec fn rel_with(record: VisibleRecord, rel_type: TypeId) -> bool {
    is_rel_key(record.key) && rel_in(record.bytes@) is Ok && rel_in(record.bytes@)->Ok_0.type_id
        == rel_type.0
}

/// Each label and each type gets its share: the count of a label is the number
/// of readable nodes that carry it, and the count of a type is the number of
/// readable relationships of it.
pub proof fn law_counts_are_shares(
    records: Seq<VisibleRecord>,
    known: Map<u64, LabelId>,
    label: LabelId,
    rel_type: TypeId,
)
    ensures
        label_card(node_events(records), label) == count_by(
            records,
            |r: VisibleRecord| node_with(r, label),
        ),
        type_card(rel_events(records, known), rel_type) == count_by(
            records,
            |r: VisibleRecord| rel_with(r, rel_type),
        ),
        node_events(records).len() == count_by(
            records,
            |r: VisibleRecord| !is_rel_key(r.key) && node_in(r.bytes@) is Ok,
        ),
        rel_events(records, known).len() == count_by(
            records,
            |r: VisibleRecord| is_rel_key(r.key) && rel_in(r.bytes@) is Ok,
        ),
    decreases records.len(),
{
    if records.len() > 0 {
        let front = records.drop_last();
        law_counts_are_shares(front, known, label, rel_type);
        let nodes = node_events(records);
        let rels = rel_events(records, known);
        if nodes.len() > node_events(front).len() {
            assert(nodes.drop_last() =~= node_events(front));
        }
        if rels.len() > rel_events(front, known).len() {
            assert(rels.drop_last() =~= rel_events(front, known));
        }
    }
}

/// The counts of steps that are applied one after the other add up: steps that
/// are applied twice count twice.
pub proof fn law_counts_add(a: Seq<StatsEvent>, b: Seq<StatsEvent>, label: LabelId, t: TypeId)
    ensures
        label_card(a + b, label) == label_card(a, label) + label_card(b, label),
        type_card(a + b, t) == type_card(a, t) + type_card(b, t),
        misses(a + b) == misses(a) + misses(b),
    decreases b.len(),
{
    if b.len() == 0 {
        assert(a + b =~= a);
    } else {
        law_counts_add(a, b.drop_last(), label, t);
        assert((a + b).drop_last() =~= a + b.drop_last());
        assert((a + b).last() == b.last());
    }
}

/// The step that a node record gives.
spec fn node_event(record: VisibleRecord) -> Option<StatsEvent> {
    if is_rel_key(record.key) {
        None
    } else {
        match node_in(record.bytes@) {
            Ok(node) => Some(StatsEvent::Node(LabelId(node.label_id))),
            Err(_) => None,
        }
    }
}

/// The step that a relationship record gives.
spec fn rel_event(record: VisibleRecord, labels: Map<u64, LabelId>) -> Option<StatsEvent> {
    if !is_rel_key(record.key) {
        None
    } else {
        match rel_in(record.bytes@) {
            Ok(rel) => Some(
                StatsEvent::Rel {
                    rel_type: TypeId(rel.type_id),
                    source: if labels.contains_key(rel.src_id) {
                        Some((labels[rel.src_id], NodeId(rel.src_id)))
                    } else {
                        None
                    },
                },
            ),
            Err(_) => None,
        }
    }
}

/// The steps that `step` gives the records.
spec fn events_by(
    records: Seq<VisibleRecord>,
    step: spec_fn(VisibleRecord) -> Option<StatsEvent>,
) -> Seq<StatsEvent>
    decreases records.len(),
{
    if records.len() == 0 {
        Seq::empty()
    } else {
        let front = events_by(records.drop_last(), step);
        match step(records.last()) {
            Some(e) => front.push(e),
            None => front,
        }
    }
}

/// The number of items that `p` holds of.
pub open spec fn count_by<T>(s: Seq<T>, p: spec_fn(T) -> bool) -> int
    decreases s.len(),
{
    if s.len() == 0 {
        0
    } else {
        count_by(s.drop_last(), p) + if p(s.last()) {
            1int
        } else {
            0int
        }
    }
}

/// That number does not depend on the order of the items.
proof fn lemma_count_by<T>(s: Seq<T>, p: spec_fn(T) -> bool)
    ensures
        count_by(s, p) == s.to_multiset().filter(p).len(),
    decreases s.len(),
{
    broadcast use {vstd::seq_lib::group_to_multiset_ensures, vstd::multiset::group_multiset_axioms};

    if s.len() == 0 {
        assert(s.to_multiset().filter(p) =~= vstd::multiset::Multiset::<T>::empty());
    } else {
        let front = s.drop_last();
        lemma_count_by(front, p);
        assert(s =~= front.push(s.last()));
        assert(s.to_multiset() =~= front.to_multiset().insert(s.last()));
        if p(s.last()) {
            assert(s.to_multiset().filter(p) =~= front.to_multiset().filter(p).insert(s.last()));
        } else {
            assert(s.to_multiset().filter(p) =~= front.to_multiset().filter(p));
        }
    }
}

/// How often a step occurs is how many records give it.
proof fn lemma_event_count(
    records: Seq<VisibleRecord>,
    step: spec_fn(VisibleRecord) -> Option<StatsEvent>,
    e: StatsEvent,
    gives: spec_fn(VisibleRecord) -> bool,
)
    requires
        forall|r: VisibleRecord| #[trigger] gives(r) == (step(r) == Some(e)),
    ensures
        events_by(records, step).to_multiset().count(e) == count_by(records, gives),
    decreases records.len(),
{
    broadcast use {vstd::seq_lib::group_to_multiset_ensures, vstd::multiset::group_multiset_axioms};

    if records.len() > 0 {
        lemma_event_count(records.drop_last(), step, e, gives);
        assert(gives(records.last()) == (step(records.last()) == Some(e)));
    }
}

proof fn lemma_same_events(
    a: Seq<VisibleRecord>,
    b: Seq<VisibleRecord>,
    step: spec_fn(VisibleRecord) -> Option<StatsEvent>,
)
    requires
        a.to_multiset() == b.to_multiset(),
    ensures
        events_by(a, step).to_multiset() == events_by(b, step).to_multiset(),
{
    let x = events_by(a, step).to_multiset();
    let y = events_by(b, step).to_multiset();
    assert forall|e: StatsEvent| #[trigger] x.count(e) == y.count(e) by {
        let gives = |r: VisibleRecord| step(r) == Some(e);
        lemma_event_count(a, step, e, gives);
        lemma_event_count(b, step, e, gives);
        lemma_count_by(a, gives);
        lemma_count_by(b, gives);
    }
    assert(x =~= y);
}

proof fn lemma_nodes_by(
    records: Seq<VisibleRecord>,
    step: spec_fn(VisibleRecord) -> Option<StatsEvent>,
)
    requires
        forall|r: VisibleRecord| #[trigger] step(r) == node_event(r),
    ensures
        events_by(records, step) == node_events(records),
    decreases records.len(),
{
    if records.len() > 0 {
        lemma_nodes_by(records.drop_last(), step);
    }
}

proof fn lemma_rels_by(
    records: Seq<VisibleRecord>,
    labels: Map<u64, LabelId>,
    step: spec_fn(VisibleRecord) -> Option<StatsEvent>,
)
    requires
        forall|r: VisibleRecord| #[trigger] step(r) == rel_event(r, labels),
    ensures
        events_by(records, step) == rel_events(records, labels),
    decreases records.len(),
{
    if records.len() > 0 {
        lemma_rels_by(records.drop_last(), labels, step);
    }
}

proof fn lemma_misses_by(events: Seq<StatsEvent>, p: spec_fn(StatsEvent) -> bool)
    requires
        forall|e: StatsEvent| #[trigger] p(e) == sourceless(e),
    ensures
        misses(events) == count_by(events, p),
    decreases events.len(),
{
    if events.len() > 0 {
        lemma_misses_by(events.drop_last(), p);
        assert(p(events.last()) == sourceless(events.last()));
    }
}

proof fn lemma_labels_by(events: Seq<StatsEvent>, label: LabelId, p: spec_fn(StatsEvent) -> bool)
    requires
        forall|e: StatsEvent| #[trigger] p(e) == (e == StatsEvent::Node(label)),
    ensures
        label_card(events, label) == count_by(events, p),
    decreases events.len(),
{
    if events.len() > 0 {
        lemma_labels_by(events.drop_last(), label, p);
        assert(p(events.last()) == (events.last() == StatsEvent::Node(label)));
    }
}

proof fn lemma_types_by(events: Seq<StatsEvent>, t: TypeId, p: spec_fn(StatsEvent) -> bool)
    requires
        forall|e: StatsEvent| #[trigger] p(e) == of_type(e, t),
    ensures
        type_card(events, t) == count_by(events, p),
    decreases events.len(),
{
    if events.len() > 0 {
        lemma_types_by(events.drop_last(), t, p);
        assert(p(events.last()) == of_type(events.last(), t));
    }
}

/// A label that is known comes from a node among the records.
proof fn lemma_label_source(records: Seq<VisibleRecord>, id: u64)
    requires
        labels_of(records).contains_key(id),
    ensures
        exists|j: int|
            0 <= j < records.len() && !is_rel_key((#[trigger] records[j]).key) && node_in(
                records[j].bytes@,
            ) is Ok && node_in(records[j].bytes@)->Ok_0.id == id,
    decreases records.len(),
{
    let front = records.drop_last();
    let last = records[records.len() - 1];
    if !is_rel_key(last.key) && node_in(last.bytes@) is Ok && node_in(last.bytes@)->Ok_0.id == id {
    } else {
        lemma_label_source(front, id);
        let j = choose|j: int|
            0 <= j < front.len() && !is_rel_key((#[trigger] front[j]).key) && node_in(
                front[j].bytes@,
            ) is Ok && node_in(front[j].bytes@)->Ok_0.id == id;
        assert(records[j] == front[j]);
    }
}

/// The labels known from some records are those known from the same records in
/// another order.
proof fn lemma_same_labels(a: Seq<VisibleRecord>, b: Seq<VisibleRecord>)
    requires
        a.to_multiset() == b.to_multiset(),
        one_label_each(a),
    ensures
        labels_of(a) == labels_of(b),
{
    broadcast use vstd::seq_lib::group_to_multiset_ensures;

    assert forall|r: VisibleRecord|
        #![trigger a.contains(r)]
        #![trigger b.contains(r)]
        a.contains(r) <==> b.contains(r) by {
        assert(a.contains(r) <==> a.to_multiset().count(r) > 0);
        assert(b.contains(r) <==> b.to_multiset().count(r) > 0);
    }
    assert(one_label_each(b)) by {
        assert forall|i: int, j: int|
            #![trigger b[i], b[j]]
            0 <= i < b.len() && 0 <= j < b.len() && !is_rel_key(b[i].key) && !is_rel_key(
                b[j].key,
            ) implies match (node_in(b[i].bytes@), node_in(b[j].bytes@)) {
            (Ok(x), Ok(y)) => x.id == y.id ==> x.label_id == y.label_id,
            _ => true,
        } by {
            assert(b.contains(b[i]) && b.contains(b[j]));
            let p = choose|p: int| 0 <= p < a.len() && a[p] == b[i];
            let q = choose|q: int| 0 <= q < a.len() && a[q] == b[j];
            assert(a[p] == b[i] && a[q] == b[j]);
        }
    }
    lemma_labels_within(a, b);
    lemma_labels_within(b, a);
    assert(labels_of(a) =~= labels_of(b));
}

proof fn lemma_labels_within(a: Seq<VisibleRecord>, b: Seq<VisibleRecord>)
    requires
        one_label_each(a),
        one_label_each(b),
        forall|r: VisibleRecord| #[trigger] a.contains(r) ==> b.contains(r),
    ensures
        forall|id: u64| #[trigger]
            labels_of(a).contains_key(id) ==> labels_of(b).contains_key(id) && labels_of(b)[id]
                == labels_of(a)[id],
{
    assert forall|id: u64| #[trigger] labels_of(a).contains_key(id) implies labels_of(
        b,
    ).contains_key(id) && labels_of(b)[id] == labels_of(a)[id] by {
        lemma_label_source(a, id);
        let j = choose|j: int|
            0 <= j < a.len() && !is_rel_key((#[trigger] a[j]).key) && node_in(
                a[j].bytes@,
            ) is Ok && node_in(a[j].bytes@)->Ok_0.id == id;
        assert(a.contains(a[j]));
        let k = choose|k: int| 0 <= k < b.len() && b[k] == a[j];
        lemma_label(a, j);
        lemma_label(b, k);
    }
}

/// The tenants of a list of outcomes that came to their end.
pub open spec fn successes(s: Seq<(TenantId, TenantRebuildOutcome)>) -> Seq<(TenantId, u64, u64)>
    decreases s.len(),
{
    if s.len() == 0 {
        Seq::empty()
    } else {
        match s.last().1 {
            TenantRebuildOutcome::Success { nodes_walked, rels_walked } => successes(
                s.drop_last(),
            ).push((s.last().0, nodes_walked, rels_walked)),
            TenantRebuildOutcome::PartialFailure { .. } => successes(s.drop_last()),
        }
    }
}

/// The tenants of a list of outcomes that broke off.
pub open spec fn failures(s: Seq<(TenantId, TenantRebuildOutcome)>) -> Seq<(TenantId, String)>
    decreases s.len(),
{
    if s.len() == 0 {
        Seq::empty()
    } else {
        match s.last().1 {
            TenantRebuildOutcome::Success { .. } => failures(s.drop_last()),
            TenantRebuildOutcome::PartialFailure { panic_message } => failures(
                s.drop_last(),
            ).push((s.last().0, panic_message)),
        }
    }
}

/// The report of all tenants from the outcomes of each, in the order of the
/// tenants.
pub fn rebuild_all_tenant_stats(outcomes: Vec<(TenantId, TenantRebuildOutcome)>) -> (r:
    RebuildReport)
    ensures
        ({
            let sorted = sorted_by(
                outcomes@,
                |o: (TenantId, TenantRebuildOutcome)| tenant_key(o),
            );
            &&& r.successful@ == successes(sorted)
            &&& r.failed@ == failures(sorted)
        }),
{
    let ghost key = |o: (TenantId, TenantRebuildOutcome)| tenant_key(o);
    let mut outcomes = outcomes;
    sort_by_keys(&mut outcomes, tenant_key_of::<TenantRebuildOutcome>, Ghost(key));
    let ghost sorted = outcomes@;
    let mut successful: Vec<(TenantId, u64, u64)> = Vec::new();
    let mut failed: Vec<(TenantId, String)> = Vec::new();
    let mut i: usize = 0;
    assert(sorted.take(0) =~= Seq::<(TenantId, TenantRebuildOutcome)>::empty());
    while i < outcomes.len()
        invariant
            i <= sorted.len(),
            sorted == outcomes@,
            successful@ == successes(sorted.take(i as int)),
            failed@ == failures(sorted.take(i as int)),
        decreases sorted.len() - i,
    {
        proof {
            assert(sorted.take(i + 1).drop_last() =~= sorted.take(i as int));
            assert(sorted.take(i + 1).last() == sorted[i as int]);
        }
        let tenant = outcomes[i].0;
        match &outcomes[i].1 {
            TenantRebuildOutcome::Success { nodes_walked, rels_walked } => {
                successful.push((tenant, *nodes_walked, *rels_walked));
            },
            TenantRebuildOutcome::PartialFailure { panic_message } => {
                failed.push((tenant, panic_message.clone()));
            },
        }
        i += 1;
    }
    assert(sorted.take(i as int) =~= sorted);
    RebuildReport { successful, failed }
}

/// Every tenant is reported, in one of the two lists.
pub proof fn law_every_tenant_is_reported(s: Seq<(TenantId, TenantRebuildOutcome)>, i: int)
    requires
        0 <= i < s.len(),
    ensures
        successes(s).len() + failures(s).len() == s.len(),
        match s[i].1 {
            TenantRebuildOutcome::Success { nodes_walked, rels_walked } => successes(s).contains(
                (s[i].0, nodes_walked, rels_walked),
            ),
            TenantRebuildOutcome::PartialFailure { panic_message } => failures(s).contains(
                (s[i].0, panic_message),
            ),
        },
    decreases s.len(),
{
    lemma_report_len(s);
    let front = s.drop_last();
    if i < front.len() {
        law_every_tenant_is_reported(front, i);
        assert(front[i] == s[i]);
    }
    match s[i].1 {
        TenantRebuildOutcome::Success { nodes_walked, rels_walked } => {
            let t = (s[i].0, nodes_walked, rels_walked);
            if i < front.len() {
                let j = choose|j: int| 0 <= j < successes(front).len() && successes(front)[j] == t;
                assert(successes(s)[j] == t);
            } else {
                assert(successes(s).last() == t);
            }
        },
        TenantRebuildOutcome::PartialFailure { panic_message } => {
            let t = (s[i].0, panic_message);
            if i < front.len() {
                let j = choose|j: int| 0 <= j < failures(front).len() && failures(front)[j] == t;
                assert(failures(s)[j] == t);
            } else {
                assert(failures(s).last() == t);
            }
        },
    }
}

/// The report is the same in whatever order the outcomes came in, as long as
/// no tenant has two.
pub proof fn law_report_forgets_the_order(
    a: Seq<(TenantId, TenantRebuildOutcome)>,
    b: Seq<(TenantId, TenantRebuildOutcome)>,
)
    requires
        a.to_multiset() == b.to_multiset(),
        distinct_tenants(a),
    ensures
        ({
            let x = sorted_by(a, |o: (TenantId, TenantRebuildOutcome)| tenant_key(o));
            let y = sorted_by(b, |o: (TenantId, TenantRebuildOutcome)| tenant_key(o));
            successes(x) == successes(y) && failures(x) == failures(y)
        }),
{
    let key = |o: (TenantId, TenantRebuildOutcome)| tenant_key(o);
    lemma_distinct_tenants(a, key);
    law_sorting_forgets_the_order(a, b, key);
}

proof fn lemma_report_len(s: Seq<(TenantId, TenantRebuildOutcome)>)
    ensures
        successes(s).len() + failures(s).len() == s.len(),
    decreases s.len(),
{
    if s.len() > 0 {
        lemma_report_len(s.drop_last());
    }
}

} // verus!
