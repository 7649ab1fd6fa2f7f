//! What the rebuilds take from the records, said by the records' own keys and
//! bytes.
use vstd::prelude::*;

use crate::codec::{u16_at, u32_at, u64_at};
use crate::ids::{LabelId, Lsn, NodeId, TenantId, TypeId};
use crate::order::{key_le, law_sorted, sorted_by};
use crate::page::{decode_node, decode_rel, NodeRecord, RelRecord};
use crate::recovery::index_rebuild::{
    record_calls, reinstated_count, sum_of, tenant_key, IndexRebuildOutcome,
};
use crate::recovery::stats_rebuild::{
    label_card, labels_of, misses, node_events, rebuilt_from, rel_events, stats_calls, type_card,
    StatsCall, StatsEvent, StatsRebuild, TenantRebuildOutcome,
};
use crate::recovery::tel_rebuild::{
    put_back_count, rel_calls, rels_of, AdjacencyRebuildOutcome,
};
use crate::recovery::visible::{is_rel_key, node_in, rel_in, VisibleError, VisibleRecord};

verus! {

// ---- records --------------------------------------------------------------

/// The record is that of a relationship: its key has the top bit, and its bytes
/// are those of a relationship.
pub open spec fn is_rel(r: VisibleRecord) -> bool {
    &&& r.key >= 0x8000_0000_0000_0000
    &&& r.bytes@.len() == 96
    &&& u16_at(r.bytes@, 0) == 0x5241
    &&& r.bytes@[2] == 1
}

/// The record is that of a node: its key lacks the top bit, and its bytes are
/// those of a node.
pub open spec fn is_node(r: VisibleRecord) -> bool {
    &&& r.key < 0x8000_0000_0000_0000
    &&& r.bytes@.len() == 64
    &&& u16_at(r.bytes@, 0) == 0x4E41
    &&& r.bytes@[2] == 1
}

/// The relationship in the record's bytes, field by field.
pub open spec fn rel_from(r: VisibleRecord) -> RelRecord {
    let b = r.bytes@;
    RelRecord {
        id: u64_at(b, 8),
        type_id: u32_at(b, 16),
        flags: u32_at(b, 4),
        src_id: u64_at(b, 24),
        dst_id: u64_at(b, 32),
        created_lsn: u64_at(b, 40),
        expired_lsn: u64_at(b, 48),
        property_ref: u64_at(b, 56),
        inline_u32a: u32_at(b, 64),
        inline_u32b: u32_at(b, 68),
    }
}

/// How a record is told and read: the top bit of the key tells relationships from
/// nodes, and the bytes have to be a whole record of that kind.
pub proof fn law_records_are_told_by_their_key(r: VisibleRecord)
    ensures
        is_rel_key(r.key) <==> r.key >= 0x8000_0000_0000_0000,
        is_rel_key(r.key) && rel_in(r.bytes@) is Ok <==> is_rel(r),
        !is_rel_key(r.key) && node_in(r.bytes@) is Ok <==> is_node(r),
        is_rel(r) ==> rel_in(r.bytes@)->Ok_0 == rel_from(r),
        is_node(r) ==> {
            let n = node_in(r.bytes@)->Ok_0;
            &&& n.id == u64_at(r.bytes@, 8)
            &&& n.label_id == u32_at(r.bytes@, 16)
        },
{
    let key = r.key;
    assert(key & 0x8000_0000_0000_0000 != 0 <==> key >= 0x8000_0000_0000_0000) by (bit_vector);
}

// ---- adjacency ------------------------------------------------------------

/// The relationships that are handed over are those of the records, every one of
/// them and no other, in the order of the records.
pub proof fn law_rels_are_those_of_the_records(records: Seq<VisibleRecord>)
    ensures
        rels_of(records) == records.filter(|r: VisibleRecord| is_rel(r)).map_values(
            |r: VisibleRecord| rel_from(r),
        ),
    decreases records.len(),
{
    reveal(Seq::filter);
    let p = |r: VisibleRecord| is_rel(r);
    let f = |r: VisibleRecord| rel_from(r);
    if records.len() > 0 {
        law_rels_are_those_of_the_records(records.drop_last());
        law_records_are_told_by_their_key(records.last());
    }
    assert(rels_of(records) =~= records.filter(p).map_values(f));
}

/// One call per relationship, with its own arguments and its own answer.
pub proof fn law_rel_calls<E>(
    tenant: TenantId,
    at: Lsn,
    rels: Seq<RelRecord>,
    answers: Seq<Result<(), E>>,
    i: int,
)
    requires
        0 <= i < rels.len(),
    ensures
        rel_calls(tenant, at, rels, answers).len() == rels.len(),
        rel_calls(tenant, at, rels, answers)[i] == (tenant, rels[i], at, answers[i]),
{
}

/// The relationships that were put back are those that the target took.
pub proof fn law_put_back_count<E>(answers: Seq<Result<(), E>>)
    ensures
        put_back_count(answers) == answers.filter(|a: Result<(), E>| a is Ok).len(),
    decreases answers.len(),
{
    reveal(Seq::filter);
    if answers.len() > 0 {
        law_put_back_count(answers.drop_last());
    }
}

// ---- index ----------------------------------------------------------------

/// One call per record, with its own key, bytes and LSN, and its own answer.
pub proof fn law_record_calls<E>(
    tenant: TenantId,
    records: Seq<VisibleRecord>,
    answers: Seq<Result<bool, E>>,
    i: int,
)
    requires
        0 <= i < records.len(),
    ensures
        record_calls(tenant, records, answers).len() == records.len(),
        record_calls(tenant, records, answers)[i] == (
            tenant,
            records[i].key,
            records[i].bytes@,
            records[i].created_lsn,
            answers[i],
        ),
{
}

/// The records that were reinstated are those of which the target said so.
pub proof fn law_reinstated_count<E>(answers: Seq<Result<bool, E>>)
    ensures
        reinstated_count(answers) == answers.filter(
            |a: Result<bool, E>| a is Ok && a->Ok_0,
        ).len(),
    decreases answers.len(),
{
    reveal(Seq::filter);
    if answers.len() > 0 {
        law_reinstated_count(answers.drop_last());
    }
}

// ---- statistics -----------------------------------------------------------

/// The steps of the nodes are those of the node records, every one of them and no
/// other, in their order, each with its own label.
pub proof fn law_node_steps(records: Seq<VisibleRecord>)
    ensures
        node_events(records) == records.filter(|r: VisibleRecord| is_node(r)).map_values(
            |r: VisibleRecord| StatsEvent::Node(LabelId(u32_at(r.bytes@, 16))),
        ),
    decreases records.len(),
{
    reveal(Seq::filter);
    let p = |r: VisibleRecord| is_node(r);
    let f = |r: VisibleRecord| StatsEvent::Node(LabelId(u32_at(r.bytes@, 16)));
    if records.len() > 0 {
        law_node_steps(records.drop_last());
        law_records_are_told_by_their_key(records.last());
    }
    assert(node_events(records) =~= records.filter(p).map_values(f));
}

/// The steps of the relationships are those of the relationship records, every
/// one of them and no other, in their order, each with its own type, and with its
/// source where the source's label is known.
pub proof fn law_rel_steps(records: Seq<VisibleRecord>, known: Map<u64, LabelId>)
    ensures
        rel_events(records, known) == records.filter(|r: VisibleRecord| is_rel(r)).map_values(
            |r: VisibleRecord|
                StatsEvent::Rel {
                    rel_type: TypeId(u32_at(r.bytes@, 16)),
                    source: if known.contains_key(u64_at(r.bytes@, 24)) {
                        Some((known[u64_at(r.bytes@, 24)], NodeId(u64_at(r.bytes@, 24))))
                    } else {
                        None
                    },
                },
        ),
    decreases records.len(),
{
    reveal(Seq::filter);
    let p = |r: VisibleRecord| is_rel(r);
    let f = |r: VisibleRecord|
        StatsEvent::Rel {
            rel_type: TypeId(u32_at(r.bytes@, 16)),
            source: if known.contains_key(u64_at(r.bytes@, 24)) {
                Some((known[u64_at(r.bytes@, 24)], NodeId(u64_at(r.bytes@, 24))))
            } else {
                None
            },
        };
    if records.len() > 0 {
        law_rel_steps(records.drop_last(), known);
        law_records_are_told_by_their_key(records.last());
    }
    assert(rel_events(records, known) =~= records.filter(p).map_values(f));
}

/// The label of a node is known exactly where a node record has its number, and
/// it is that of the last such record.
pub proof fn law_known_labels(records: Seq<VisibleRecord>, id: u64)
    ensures
        labels_of(records).contains_key(id) <==> exists|i: int|
            0 <= i < records.len() && #[trigger] is_node(records[i]) && u64_at(
                records[i].bytes@,
                8,
            ) == id,
        forall|i: int|
            0 <= i < records.len() && #[trigger] is_node(records[i]) && u64_at(records[i].bytes@, 8)
                == id && (forall|j: int|
                i < j < records.len() && #[trigger] is_node(records[j]) ==> u64_at(
                    records[j].bytes@,
                    8,
                ) != id) ==> labels_of(records)[id] == LabelId(u32_at(records[i].bytes@, 16)),
    decreases records.len(),
{
    if records.len() > 0 {
        let front = records.drop_last();
        let n = records.len() - 1;
        law_known_labels(front, id);
        law_records_are_told_by_their_key(records[n]);
        if labels_of(records).contains_key(id) {
            if is_node(records[n]) && u64_at(records[n].bytes@, 8) == id {
            } else {
                let i = choose|i: int|
                    0 <= i < front.len() && #[trigger] is_node(front[i]) && u64_at(
                        front[i].bytes@,
                        8,
                    ) == id;
                assert(is_node(records[i]));
            }
        }
        if exists|i: int|
            0 <= i < records.len() && #[trigger] is_node(records[i]) && u64_at(
                records[i].bytes@,
                8,
            ) == id {
            let i = choose|i: int|
                0 <= i < records.len() && #[trigger] is_node(records[i]) && u64_at(
                    records[i].bytes@,
                    8,
                ) == id;
            if i < n {
                assert(is_node(front[i]));
            }
        }
        assert forall|i: int|
            0 <= i < records.len() && #[trigger] is_node(records[i]) && u64_at(records[i].bytes@, 8)
                == id && (forall|j: int|
                i < j < records.len() && #[trigger] is_node(records[j]) ==> u64_at(
                    records[j].bytes@,
                    8,
                ) != id) implies labels_of(records)[id] == LabelId(
            u32_at(records[i].bytes@, 16),
        ) by {
            if i < n {
                assert(is_node(front[i]));
                assert forall|j: int| i < j < front.len() && #[trigger] is_node(front[j]) implies u64_at(
                    front[j].bytes@,
                    8,
                ) != id by {
                    assert(is_node(records[j]));
                }
                if is_node(records[n]) {
                    assert(u64_at(records[n].bytes@, 8) != id);
                }
            }
        }
    }
}

/// What the counts count.
pub proof fn law_counts(events: Seq<StatsEvent>, label: LabelId, rel_type: TypeId)
    ensures
        label_card(events, label) == events.filter(
            |e: StatsEvent| e == StatsEvent::Node(label),
        ).len(),
        type_card(events, rel_type) == events.filter(
            |e: StatsEvent| e is Rel && e->rel_type == rel_type,
        ).len(),
        misses(events) == events.filter(|e: StatsEvent| e is Rel && e->source is None).len(),
    decreases events.len(),
{
    reveal(Seq::filter);
    if events.len() > 0 {
        law_counts(events.drop_last(), label, rel_type);
    }
}

/// The calls of a statistics rebuild: the first announces a commit, the last ends
/// it, and between them each step is applied once, in order.
pub proof fn law_stats_calls(tenant: TenantId, events: Seq<StatsEvent>, i: int)
    requires
        0 <= i < events.len(),
    ensures
        stats_calls(tenant, events).len() == events.len() + 2,
        stats_calls(tenant, events)[0] == (tenant, StatsCall::Begin),
        stats_calls(tenant, events)[i + 1] == (tenant, StatsCall::Step(events[i])),
        stats_calls(tenant, events)[events.len() as int + 1] == (tenant, StatsCall::End),
{
}

// ---- reports --------------------------------------------------------------

/// Outcomes are reported in the order of their tenants, each as often as it was
/// given.
pub proof fn law_tenants_ascend<T>(s: Seq<(TenantId, T)>, i: int, j: int)
    requires
        0 <= i < j < s.len(),
    ensures
        ({
            let sorted = sorted_by(s, |o: (TenantId, T)| tenant_key(o));
            &&& sorted.len() == s.len()
            &&& sorted.to_multiset() == s.to_multiset()
            &&& sorted[i].0.0 <= sorted[j].0.0
        }),
{
    let key = |o: (TenantId, T)| tenant_key(o);
    law_sorted(s, key);
    let sorted = sorted_by(s, key);
    assert(key_le(key(sorted[i]), key(sorted[j])));
}

/// The report of the index rebuilds lists every tenant that came to its end, with
/// its counts, and every other one with the reason, in the order given.
pub proof fn law_index_report(s: Seq<(TenantId, IndexRebuildOutcome)>)
    ensures
        crate::recovery::index_rebuild::successes(s) == s.filter(
            |o: (TenantId, IndexRebuildOutcome)| o.1 is Success,
        ).map_values(
            |o: (TenantId, IndexRebuildOutcome)|
                (o.0, o.1->records_walked, o.1->records_reinstated),
        ),
        crate::recovery::index_rebuild::failures(s) == s.filter(
            |o: (TenantId, IndexRebuildOutcome)| o.1 is PartialFailure,
        ).map_values(|o: (TenantId, IndexRebuildOutcome)| (o.0, o.1->panic_message)),
    decreases s.len(),
{
    reveal(Seq::filter);
    if s.len() > 0 {
        law_index_report(s.drop_last());
    }
    assert(crate::recovery::index_rebuild::successes(s) =~= s.filter(
        |o: (TenantId, IndexRebuildOutcome)| o.1 is Success,
    ).map_values(
        |o: (TenantId, IndexRebuildOutcome)| (o.0, o.1->records_walked, o.1->records_reinstated),
    ));
    assert(crate::recovery::index_rebuild::failures(s) =~= s.filter(
        |o: (TenantId, IndexRebuildOutcome)| o.1 is PartialFailure,
    ).map_values(|o: (TenantId, IndexRebuildOutcome)| (o.0, o.1->panic_message)));
}

/// The report of the statistics rebuilds lists every tenant that came to its end,
/// with its counts, and every other one with the reason, in the order given.
pub proof fn law_stats_report(s: Seq<(TenantId, TenantRebuildOutcome)>)
    ensures
        crate::recovery::stats_rebuild::successes(s) == s.filter(
            |o: (TenantId, TenantRebuildOutcome)| o.1 is Success,
        ).map_values(
            |o: (TenantId, TenantRebuildOutcome)| (o.0, o.1->nodes_walked, o.1->rels_walked),
        ),
        crate::recovery::stats_rebuild::failures(s) == s.filter(
            |o: (TenantId, TenantRebuildOutcome)| o.1 is PartialFailure,
        ).map_values(|o: (TenantId, TenantRebuildOutcome)| (o.0, o.1->panic_message)),
    decreases s.len(),
{
    reveal(Seq::filter);
    if s.len() > 0 {
        law_stats_report(s.drop_last());
    }
    assert(crate::recovery::stats_rebuild::successes(s) =~= s.filter(
        |o: (TenantId, TenantRebuildOutcome)| o.1 is Success,
    ).map_values(
        |o: (TenantId, TenantRebuildOutcome)| (o.0, o.1->nodes_walked, o.1->rels_walked),
    ));
    assert(crate::recovery::stats_rebuild::failures(s) =~= s.filter(
        |o: (TenantId, TenantRebuildOutcome)| o.1 is PartialFailure,
    ).map_values(|o: (TenantId, TenantRebuildOutcome)| (o.0, o.1->panic_message)));
}

/// The report of the adjacency rebuilds lists every tenant that came to its end,
/// with its count, and every other one with the reason, in the order given.
pub proof fn law_adjacency_report(s: Seq<(TenantId, AdjacencyRebuildOutcome)>)
    ensures
        crate::recovery::tel_rebuild::successes(s) == s.filter(
            |o: (TenantId, AdjacencyRebuildOutcome)| o.1 is Success,
        ).map_values(|o: (TenantId, AdjacencyRebuildOutcome)| (o.0, o.1->rels_reinstated)),
        crate::recovery::tel_rebuild::failures(s) == s.filter(
            |o: (TenantId, AdjacencyRebuildOutcome)| o.1 is PartialFailure,
        ).map_values(|o: (TenantId, AdjacencyRebuildOutcome)| (o.0, o.1->panic_message)),
    decreases s.len(),
{
    reveal(Seq::filter);
    if s.len() > 0 {
        law_adjacency_report(s.drop_last());
    }
    assert(crate::recovery::tel_rebuild::successes(s) =~= s.filter(
        |o: (TenantId, AdjacencyRebuildOutcome)| o.1 is Success,
    ).map_values(|o: (TenantId, AdjacencyRebuildOutcome)| (o.0, o.1->rels_reinstated)));
    assert(crate::recovery::tel_rebuild::failures(s) =~= s.filter(
        |o: (TenantId, AdjacencyRebuildOutcome)| o.1 is PartialFailure,
    ).map_values(|o: (TenantId, AdjacencyRebuildOutcome)| (o.0, o.1->panic_message)));
}

/// Sums add up over the parts of a list, and the sum of one item is its number.
pub proof fn law_sums_add<T>(a: Seq<T>, b: Seq<T>, pick: spec_fn(T) -> u64, x: T)
    ensures
        sum_of(Seq::<T>::empty(), pick) == 0,
        sum_of(seq![x], pick) == pick(x),
        sum_of(a + b, pick) == sum_of(a, pick) + sum_of(b, pick),
    decreases b.len(),
{
    assert(seq![x].drop_last() =~= Seq::<T>::empty());
    assert(sum_of(seq![x].drop_last(), pick) == 0);
    if b.len() == 0 {
        assert(a + b =~= a);
    } else {
        law_sums_add(a, b.drop_last(), pick, x);
        assert((a + b).drop_last() =~= a + b.drop_last());
    }
}

/// What is said of bytes that are no record.
pub proof fn law_unreadable_records(b: Seq<u8>)
    ensures
        b.len() != 64 ==> node_in(b) == Err::<NodeRecord, VisibleError>(
            VisibleError::Length { got: b.len() as usize },
        ),
        b.len() == 64 && decode_node(b) is Err ==> node_in(b) == Err::<NodeRecord, VisibleError>(
            VisibleError::Record(decode_node(b)->Err_0),
        ),
        b.len() == 64 && decode_node(b) is Ok ==> node_in(b) is Ok && node_in(b)->Ok_0
            == decode_node(b)->Ok_0,
        b.len() != 96 ==> rel_in(b) == Err::<RelRecord, VisibleError>(
            VisibleError::Length { got: b.len() as usize },
        ),
        b.len() == 96 && decode_rel(b) is Err ==> rel_in(b) == Err::<RelRecord, VisibleError>(
            VisibleError::Record(decode_rel(b)->Err_0),
        ),
        b.len() == 96 && decode_rel(b) is Ok ==> rel_in(b) is Ok && rel_in(b)->Ok_0
            == decode_rel(b)->Ok_0,
{
}

/// A rebuild of the statistics takes one step per node record, then one per
/// relationship record, each in the order of the records and with the label or the
/// type of its own record; it counts both, and the relationships whose source is
/// not among the nodes.
pub proof fn law_statistics_rebuild(records: Seq<VisibleRecord>, r: StatsRebuild, i: int, j: int)
    requires
        rebuilt_from(records, r),
        0 <= i < records.filter(|v: VisibleRecord| is_node(v)).len(),
        0 <= j < records.filter(|v: VisibleRecord| is_rel(v)).len(),
    ensures
        ({
            let nodes = records.filter(|v: VisibleRecord| is_node(v));
            let rels = records.filter(|v: VisibleRecord| is_rel(v));
            let src = u64_at(rels[j].bytes@, 24);
            let step = r.events@[nodes.len() + j];
            &&& r.events@.len() == nodes.len() + rels.len()
            &&& r.events@[i] == StatsEvent::Node(LabelId(u32_at(nodes[i].bytes@, 16)))
            &&& step is Rel
            &&& step->rel_type == TypeId(u32_at(rels[j].bytes@, 16))
            &&& step->source is Some <==> exists|k: int|
                0 <= k < records.len() && #[trigger] is_node(records[k]) && u64_at(
                    records[k].bytes@,
                    8,
                ) == src
            &&& step->source matches Some((label, node)) ==> node == NodeId(src)
        }),
{
    law_node_steps(records);
    law_rel_steps(records, labels_of(records));
    let rels = records.filter(|v: VisibleRecord| is_rel(v));
    law_known_labels(records, u64_at(rels[j].bytes@, 24));
}

/// What a rebuild of the statistics counts.
pub proof fn law_statistics_counts(records: Seq<VisibleRecord>, r: StatsRebuild)
    requires
        rebuilt_from(records, r),
    ensures
        ({
            let nodes = records.filter(|v: VisibleRecord| is_node(v));
            let rels = records.filter(|v: VisibleRecord| is_rel(v));
            &&& r.outcome is Success
            &&& r.outcome->nodes_walked == nodes.len() as u64
            &&& r.outcome->rels_walked == rels.len() as u64
            &&& nodes.len() + rels.len() <= records.len()
            &&& r.rel_label_misses == r.events@.skip(nodes.len() as int).filter(
                |e: StatsEvent| e is Rel && e->source is None,
            ).len()
        }),
{
    law_node_steps(records);
    law_rel_steps(records, labels_of(records));
    lemma_apart(records);
    let nodes = node_events(records);
    let rels = rel_events(records, labels_of(records));
    assert(r.events@.skip(nodes.len() as int) =~= rels);
    law_counts(rels, LabelId(0), TypeId(0));
}

proof fn lemma_apart(records: Seq<VisibleRecord>)
    ensures
        records.filter(|v: VisibleRecord| is_node(v)).len() + records.filter(
            |v: VisibleRecord| is_rel(v),
        ).len() <= records.len(),
    decreases records.len(),
{
    reveal(Seq::filter);
    if records.len() > 0 {
        lemma_apart(records.drop_last());
    }
}

} // verus!
