//! Rebuilding the adjacency of each tenant.
use vstd::prelude::*;

use crate::ids::{Lsn, TenantId};
use crate::order::{law_sorting_forgets_the_order, sort_by_keys, sorted_by};
use crate::page::RelRecord;
use crate::recovery::index_rebuild::{
    distinct_tenants, lemma_distinct_tenants, lemma_sum_part, sum_of, tenant_key, tenant_key_of,
};
use crate::recovery::rebuild_laws::{is_rel, law_rels_are_those_of_the_records, rel_from};
use crate::recovery::visible::{
    decode_rel_bytes, is_rel_key, rel_in, VisibleRecord, REL_TAG_BIT,
};

verus! {

/// How the rebuild of one tenant's adjacency ended.
#[derive(Clone, Debug, PartialEq, Eq)]
pub enum AdjacencyRebuildOutcome {
    /// Every relationship was seen.
    Success {
        /// Relationships that were put back.
        rels_reinstated: u64,
    },
    /// The rebuild broke off.
    PartialFailure {
        /// Why.
        panic_message: String,
    },
}

/// How the rebuilds of all tenants ended, each list in the order of the
/// tenants.
#[derive(Clone, Debug, Default)]
pub struct AdjacencyRebuildReport {
    /// Tenants whose rebuild came to its end, and the relationships that were
    /// put back.
    pub successful: Vec<(TenantId, u64)>,
    /// Tenants whose rebuild broke off, and why.
    pub failed: Vec<(TenantId, String)>,
}

impl AdjacencyRebuildReport {
    /// The number of tenants.
    pub fn tenants_walked(&self) -> (n: usize)
        requires
            self.successful@.len() + self.failed@.len() <= usize::MAX,
        ensures
            n == self.successful@.len() + self.failed@.len(),
    {
        self.successful.len() + self.failed.len()
    }

    /// The number of relationships that were put back.
    pub fn total_rels_reinstated(&self) -> (n: u64)
        requires
            sum_of(self.successful@, |t: (TenantId, u64)| t.1) <= u64::MAX,
        ensures
            n == sum_of(self.successful@, |t: (TenantId, u64)| t.1),
    {
        let ghost pick = |t: (TenantId, u64)| t.1;
        let ghost s = self.successful@;
        let mut n: u64 = 0;
        let mut i: usize = 0;
        assert(s.take(0) =~= Seq::<(TenantId, u64)>::empty());
        while i < self.successful.len()
            invariant
                s == self.successful@,
                pick == (|t: (TenantId, u64)| t.1),
                i <= s.len(),
                n == sum_of(s.take(i as int), pick),
                sum_of(s, pick) <= u64::MAX,
            decreases s.len() - i,
        {
            proof {
                lemma_sum_part(s, pick, i as int);
                lemma_sum_part(s, pick, i + 1);
            }
            n = n + self.successful[i].1;
            i += 1;
        }
        assert(s.take(i as int) =~= s);
        n
    }
}

/// The relationships among the records, in order. Nodes, and records that
/// cannot be read, are passed over.
pub open spec fn rels_of(records: Seq<VisibleRecord>) -> Seq<RelRecord>
    decreases records.len(),
{
    if records.len() == 0 {
        Seq::empty()
    } else {
        let front = rels_of(records.drop_last());
        let last = records.last();
        if !is_rel_key(last.key) {
            front
        } else {
            match rel_in(last.bytes@) {
                Ok(rel) => front.push(rel),
                Err(_) => front,
            }
        }
    }
}

/// The number of relationships that were put back.
pub open spec fn put_back_count<E>(results: Seq<Result<(), E>>) -> int
    decreases results.len(),
{
    if results.len() == 0 {
        0
    } else {
        put_back_count(results.drop_last()) + if results.last() is Ok {
            1int
        } else {
            0int
        }
    }
}

/// A relationship that was handed over: the tenant, the relationship, the LSN
/// of the snapshot, and the answer.
pub type RelCall<E> = (TenantId, RelRecord, Lsn, Result<(), E>);

/// What a rebuild of the adjacency fills.
pub trait RelTarget<E> {
    /// The relationships that were handed over so far, with the answers.
    spec fn calls(&self) -> Seq<RelCall<E>>;

    /// Relationships can be handed over.
    spec fn ready(&self) -> bool;

    /// Puts the edges of a relationship back.
    fn reinstate_rel_adjacency(&mut self, tenant: TenantId, rel: &RelRecord, at: Lsn) -> (r: Result<
        (),
        E,
    >)
        requires
            old(self).ready(),
        ensures
            final(self).ready(),
            final(self).calls() == old(self).calls().push((tenant, *rel, at, r)),
    ;
}

/// A target that hands each relationship to a closure.
#[verifier::reject_recursive_types(E)]
pub struct RelCalls<E, F: FnMut(TenantId, &RelRecord, Lsn) -> Result<(), E>> {
    reinstate: F,
    calls: Ghost<Seq<RelCall<E>>>,
}

impl<E, F: FnMut(TenantId, &RelRecord, Lsn) -> Result<(), E>> RelCalls<E, F> {
    /// The closure.
    pub closed spec fn closure(self) -> F {
        self.reinstate
    }

    /// A target that has seen no relationship yet.
    pub fn new(reinstate: F) -> (t: RelCalls<E, F>)
        ensures
            t.closure() == reinstate,
            t.calls() == Seq::<RelCall<E>>::empty(),
    {
        RelCalls { reinstate, calls: Ghost(Seq::empty()) }
    }
}

impl<E, F: FnMut(TenantId, &RelRecord, Lsn) -> Result<(), E>> RelTarget<E> for RelCalls<E, F> {
    closed spec fn calls(&self) -> Seq<RelCall<E>> {
        self.calls@
    }

    open spec fn ready(&self) -> bool {
        forall|t: TenantId, rel: RelRecord, lsn: Lsn| #[trigger]
            call_requires(self.closure(), (t, &rel, lsn))
    }

    fn reinstate_rel_adjacency(&mut self, tenant: TenantId, rel: &RelRecord, at: Lsn) -> (r: Result<
        (),
        E,
    >)
        ensures
            call_ensures(old(self).closure(), (tenant, rel, at), r),
            final(self).closure() == old(self).closure(),
    {
        assert(self.closure() == self.reinstate);
        let r = (self.reinstate)(tenant, rel, at);
        proof {
            self.calls = Ghost(self.calls@.push((tenant, *rel, at, r)));
        }
        r
    }
}

/// One call per relationship, in their order, with the answers.
pub open spec fn rel_calls<E>(
    tenant: TenantId,
    at: Lsn,
    rels: Seq<RelRecord>,
    answers: Seq<Result<(), E>>,
) -> Seq<RelCall<E>> {
    Seq::new(rels.len(), |i: int| (tenant, rels[i], at, answers[i]))
}

/// How a rebuild ends that got these answers, one per relationship: an answer
/// that is an error is passed over.
pub fn adjacency_outcome<E>(answers: &Vec<Result<(), E>>) -> (r: AdjacencyRebuildOutcome)
    ensures
        0 <= put_back_count(answers@) <= answers@.len(),
        r == (AdjacencyRebuildOutcome::Success {
            rels_reinstated: put_back_count(answers@) as u64,
        }),
{
    let mut rels_reinstated: u64 = 0;
    let mut i: usize = 0;
    assert(answers@.take(0) =~= Seq::<Result<(), E>>::empty());
    while i < answers.len()
        invariant
            i <= answers@.len(),
            rels_reinstated == put_back_count(answers@.take(i as int)),
            rels_reinstated <= i,
        decreases answers@.len() - i,
    {
        proof {
            assert(answers@.take(i + 1).drop_last() =~= answers@.take(i as int));
            assert(answers@.take(i + 1).last() == answers@[i as int]);
        }
        match &answers[i] {
            Ok(_) => {
                rels_reinstated += 1;
            },
            Err(_) => {},
        }
        i += 1;
    }
    assert(answers@.take(i as int) =~= answers@);
    AdjacencyRebuildOutcome::Success { rels_reinstated }
}

/// Hands every relationship that the snapshot shows to `target`, once and in
/// order, and nothing else. The target puts its edges back. One that fails is
/// passed over.
pub fn rebuild_adjacency_for_tenant<E, T: RelTarget<E>>(
    tenant: TenantId,
    recovered_lsn: Lsn,
    records: &Vec<VisibleRecord>,
    target: &mut T,
) -> (r: AdjacencyRebuildOutcome)
    requires
        old(target).ready(),
    ensures
        final(target).ready(),
        exists|answers: Seq<Result<(), E>>|
            {
                &&& answers.len() == rels_of(records@).len()
                &&& final(target).calls() == old(target).calls() + #[trigger] rel_calls(
                    tenant,
                    recovered_lsn,
                    rels_of(records@),
                    answers,
                )
                &&& 0 <= put_back_count(answers) <= answers.len() <= records@.len()
                &&& r == (AdjacencyRebuildOutcome::Success {
                    rels_reinstated: put_back_count(answers) as u64,
                })
            },
        final(target).calls().skip(old(target).calls().len() as int).map_values(
            |c: RelCall<E>| c.1,
        ) == records@.filter(|v: VisibleRecord| is_rel(v)).map_values(
            |v: VisibleRecord| rel_from(v),
        ),
{
    let mut answers: Vec<Result<(), E>> = Vec::new();
    let ghost before = target.calls();
    let ghost all = records@;
    let mut i: usize = 0;
    proof {
        assert(all.take(0) =~= Seq::<VisibleRecord>::empty());
        assert(before + rel_calls(tenant, recovered_lsn, rels_of(all.take(0)), answers@)
            =~= before);
    }
    while i < records.len()
        invariant
            all == records@,
            i <= all.len(),
            answers@.len() == rels_of(all.take(i as int)).len(),
            answers@.len() <= i,
            target.ready(),
            target.calls() == before + rel_calls(
                tenant,
                recovered_lsn,
                rels_of(all.take(i as int)),
                answers@,
            ),
        decreases all.len() - i,
    {
        let record = &records[i];
        proof {
            assert(all.take(i + 1).drop_last() =~= all.take(i as int));
            assert(all.take(i + 1).last() == all[i as int]);
        }
        if record.key & REL_TAG_BIT != 0 {
            match decode_rel_bytes(record.bytes.as_slice()) {
                Err(_) => {},
                Ok(rel) => {
                    let answer = target.reinstate_rel_adjacency(tenant, &rel, recovered_lsn);
                    answers.push(answer);
                    assert(target.calls() =~= before + rel_calls(
                        tenant,
                        recovered_lsn,
                        rels_of(all.take(i + 1)),
                        answers@,
                    ));
                },
            }
        }
        i += 1;
    }
    assert(all.take(i as int) =~= all);
    proof {
        law_rels_are_those_of_the_records(all);
        assert(target.calls().skip(before.len() as int).map_values(|c: RelCall<E>| c.1)
            =~= rels_of(all));
    }
    adjacency_outcome(&answers)
}

/// The tenants of a list of outcomes that came to their end.
pub open spec fn successes(s: Seq<(TenantId, AdjacencyRebuildOutcome)>) -> Seq<(TenantId, u64)>
    decreases s.len(),
{
    if s.len() == 0 {
        Seq::empty()
    } else {
        match s.last().1 {
            AdjacencyRebuildOutcome::Success { rels_reinstated } => successes(
                s.drop_last(),
            ).push((s.last().0, rels_reinstated)),
            AdjacencyRebuildOutcome::PartialFailure { .. } => successes(s.drop_last()),
        }
    }
}

/// The tenants of a list of outcomes that broke off.
pub open spec fn failures(s: Seq<(TenantId, AdjacencyRebuildOutcome)>) -> Seq<(TenantId, String)>
    decreases s.len(),
{
    if s.len() == 0 {
        Seq::empty()
    } else {
        match s.last().1 {
            AdjacencyRebuildOutcome::Success { .. } => failures(s.drop_last()),
            AdjacencyRebuildOutcome::PartialFailure { panic_message } => failures(
                s.drop_last(),
            ).push((s.last().0, panic_message)),
        }
    }
}

/// The report of all tenants from the outcomes of each, in the order of the
/// tenants.
pub fn rebuild_all_tenant_adjacency(outcomes: Vec<(TenantId, AdjacencyRebuildOutcome)>) -> (r:
    AdjacencyRebuildReport)
    ensures
        ({
            let sorted = sorted_by(
                outcomes@,
                |o: (TenantId, AdjacencyRebuildOutcome)| tenant_key(o),
            );
            &&& r.successful@ == successes(sorted)
            &&& r.failed@ == failures(sorted)
        }),
{
    let ghost key = |o: (TenantId, AdjacencyRebuildOutcome)| tenant_key(o);
    let mut outcomes = outcomes;
    sort_by_keys(&mut outcomes, tenant_key_of::<AdjacencyRebuildOutcome>, Ghost(key));
    let ghost sorted = outcomes@;
    let mut successful: Vec<(TenantId, u64)> = Vec::new();
    let mut failed: Vec<(TenantId, String)> = Vec::new();
    let mut i: usize = 0;
    assert(sorted.take(0) =~= Seq::<(TenantId, AdjacencyRebuildOutcome)>::empty());
    while i < outcomes.len()
        invariant
            i <= sorted.len(),
            sorted == outcomes@,
            successful@ == successes(sorted.take(i as int)),
            failed@ == failures(sorted.take(i as int)),
        decreases sorted.len() - i,
    {
        proof {
            assert(sorted.take(i + 1).drop_last() =~= sorted.take(i as int));
            assert(sorted.take(i + 1).last() == sorted[i as int]);
        }
        let tenant = outcomes[i].0;
        match &outcomes[i].1 {
            AdjacencyRebuildOutcome::Success { rels_reinstated } => {
                successful.push((tenant, *rels_reinstated));
            },
            AdjacencyRebuildOutcome::PartialFailure { panic_message } => {
                failed.push((tenant, panic_message.clone()));
            },
        }
        i += 1;
    }
    assert(sorted.take(i as int) =~= sorted);
    AdjacencyRebuildReport { successful, failed }
}

/// Every tenant is reported, in one of the two lists.
pub proof fn law_every_tenant_is_reported(s: Seq<(TenantId, AdjacencyRebuildOutcome)>, i: int)
    requires
        0 <= i < s.len(),
    ensures
        successes(s).len() + failures(s).len() == s.len(),
        match s[i].1 {
            AdjacencyRebuildOutcome::Success { rels_reinstated } => successes(s).contains(
                (s[i].0, rels_reinstated),
            ),
            AdjacencyRebuildOutcome::PartialFailure { panic_message } => failures(s).contains(
                (s[i].0, panic_message),
            ),
        },
    decreases s.len(),
{
    lemma_report_len(s);
    let front = s.drop_last();
    if i < front.len() {
        law_every_tenant_is_reported(front, i);
        assert(front[i] == s[i]);
    }
    match s[i].1 {
        AdjacencyRebuildOutcome::Success { rels_reinstated } => {
            let t = (s[i].0, rels_reinstated);
            if i < front.len() {
                let j = choose|j: int| 0 <= j < successes(front).len() && successes(front)[j] == t;
                assert(successes(s)[j] == t);
            } else {
                assert(successes(s).last() == t);
            }
        },
        AdjacencyRebuildOutcome::PartialFailure { panic_message } => {
            let t = (s[i].0, panic_message);
            if i < front.len() {
                let j = choose|j: int| 0 <= j < failures(front).len() && failures(front)[j] == t;
                assert(failures(s)[j] == t);
            } else {
                assert(failures(s).last() == t);
            }
        },
    }
}

/// The report is the same in whatever order the outcomes came in, as long as
/// no tenant has two.
pub proof fn law_report_forgets_the_order(
    a: Seq<(TenantId, AdjacencyRebuildOutcome)>,
    b: Seq<(TenantId, AdjacencyRebuildOutcome)>,
)
    requires
        a.to_multiset() == b.to_multiset(),
        distinct_tenants(a),
    ensures
        ({
            let x = sorted_by(a, |o: (TenantId, AdjacencyRebuildOutcome)| tenant_key(o));
            let y = sorted_by(b, |o: (TenantId, AdjacencyRebuildOutcome)| tenant_key(o));
            successes(x) == successes(y) && failures(x) == failures(y)
        }),
{
    let key = |o: (TenantId, AdjacencyRebuildOutcome)| tenant_key(o);
    lemma_distinct_tenants(a, key);
    law_sorting_forgets_the_order(a, b, key);
}

proof fn lemma_report_len(s: Seq<(TenantId, AdjacencyRebuildOutcome)>)
    ensures
        successes(s).len() + failures(s).len() == s.len(),
    decreases s.len(),
{
    if s.len() > 0 {
        lemma_report_len(s.drop_last());
    }
}

} // verus!
