//! Rebuilding the index of each tenant.
use vstd::prelude::*;

use crate::ids::{Lsn, TenantId};
use crate::order::{
    distinct_keys, law_sorting_forgets_the_order, sort_by_keys, sorted_by, SortKey,
};
use crate::recovery::visible::VisibleRecord;

verus! {

/// How the rebuild of one tenant's index ended.
#[derive(Clone, Debug, PartialEq, Eq)]
pub enum IndexRebuildOutcome {
    /// Every record was seen.
    Success {
        /// Records that were seen.
        records_walked: u64,
        /// Records that the index lacked.
        records_reinstated: u64,
    },
    /// The rebuild broke off.
    PartialFailure {
        /// Why.
        panic_message: String,
    },
}

/// How the rebuilds of all tenants ended, each list in the order of the
/// tenants.
#[derive(Clone, Debug, Default)]
pub struct IndexRebuildReport {
    /// Tenants whose rebuild came to its end: records seen, and records that
    /// the index lacked.
    pub successful: Vec<(TenantId, u64, u64)>,
    /// Tenants whose rebuild broke off, and why.
    pub failed: Vec<(TenantId, String)>,
}

/// The number of records that the index lacked.
pub open spec fn reinstated_count<E>(results: Seq<Result<bool, E>>) -> int
    decreases results.len(),
{
    if results.len() == 0 {
        0
    } else {
        reinstated_count(results.drop_last()) + if results.last() matches Ok(true) {
            1int
        } else {
            0int
        }
    }
}

/// The sum of the first `n` numbers that `pick` gives.
pub open spec fn sum_of<T>(s: Seq<T>, pick: spec_fn(T) -> u64) -> int
    decreases s.len(),
{
    if s.len() == 0 {
        0
    } else {
        sum_of(s.drop_last(), pick) + pick(s.last())
    }
}

/// The sum of a part is at most the sum of the whole.
pub proof fn lemma_sum_part<T>(s: Seq<T>, pick: spec_fn(T) -> u64, n: int)
    requires
        0 <= n <= s.len(),
    ensures
        0 <= sum_of(s.take(n), pick) <= sum_of(s, pick),
        n < s.len() ==> sum_of(s.take(n + 1), pick) == sum_of(s.take(n), pick) + pick(s[n]),
    decreases s.len(),
{
    if n < s.len() {
        assert(s.take(n + 1).drop_last() =~= s.take(n));
        assert(s.take(n + 1).last() == s[n]);
    }
    if s.len() > 0 {
        if n == s.len() {
            assert(s.take(n) =~= s);
            lemma_sum_part(s.drop_last(), pick, n - 1);
            assert(s.drop_last().take(n - 1) =~= s.drop_last());
        } else {
            assert(s.drop_last().take(n) =~= s.take(n));
            lemma_sum_part(s.drop_last(), pick, n);
        }
    }
}

impl IndexRebuildReport {
    /// The number of tenants.
    pub fn tenants_walked(&self) -> (n: usize)
        requires
            self.successful@.len() + self.failed@.len() <= usize::MAX,
        ensures
            n == self.successful@.len() + self.failed@.len(),
    {
        self.successful.len() + self.failed.len()
    }

    /// The number of records that were seen.
    pub fn total_records_walked(&self) -> (n: u64)
        requires
            sum_of(self.successful@, |t: (TenantId, u64, u64)| t.1) <= u64::MAX,
        ensures
            n == sum_of(self.successful@, |t: (TenantId, u64, u64)| t.1),
    {
        let ghost pick = |t: (TenantId, u64, u64)| t.1;
        let ghost s = self.successful@;
        let mut n: u64 = 0;
        let mut i: usize = 0;
        assert(s.take(0) =~= Seq::<(TenantId, u64, u64)>::empty());
        while i < self.successful.len()
            invariant
                s == self.successful@,
                pick == (|t: (TenantId, u64, u64)| t.1),
                i <= s.len(),
                n == sum_of(s.take(i as int), pick),
                sum_of(s, pick) <= u64::MAX,
            decreases s.len() - i,
        {
            proof {
                lemma_sum_part(s, pick, i as int);
                lemma_sum_part(s, pick, i + 1);
            }
            n = n + self.successful[i].1;
            i += 1;
        }
        assert(s.take(i as int) =~= s);
        n
    }

    /// The number of records that the indexes lacked.
    pub fn total_records_reinstated(&self) -> (n: u64)
        requires
            sum_of(self.successful@, |t: (TenantId, u64, u64)| t.2) <= u64::MAX,
        ensures
            n == sum_of(self.successful@, |t: (TenantId, u64, u64)| t.2),
    {
        let ghost pick = |t: (TenantId, u64, u64)| t.2;
        let ghost s = self.successful@;
        let mut n: u64 = 0;
        let mut i: usize = 0;
        assert(s.take(0) =~= Seq::<(TenantId, u64, u64)>::empty());
        while i < self.successful.len()
            invariant
                s == self.successful@,
                pick == (|t: (TenantId, u64, u64)| t.2),
                i <= s.len(),
                n == sum_of(s.take(i as int), pick),
                sum_of(s, pick) <= u64::MAX,
            decreases s.len() - i,
        {
            proof {
                lemma_sum_part(s, pick, i as int);
                lemma_sum_part(s, pick, i + 1);
            }
            n = n + self.successful[i].2;
            i += 1;
        }
        assert(s.take(i as int) =~= s);
        n
    }
}

/// A record that was handed over: the tenant, the key, the bytes, the LSN of
/// the version, and the answer.
pub type RecordCall<E> = (TenantId, u64, Seq<u8>, Lsn, Result<bool, E>);

/// What a rebuild of the index fills.
pub trait RecordTarget<E> {
    /// The records that were handed over so far, with the answers.
    spec fn calls(&self) -> Seq<RecordCall<E>>;

    /// Records can be handed over.
    spec fn ready(&self) -> bool;

    /// Puts a record into the index if it is missing there, and says whether it
    /// was.
    fn reinstate_record_index(
        &mut self,
        tenant: TenantId,
        key: u64,
        bytes: &Vec<u8>,
        created_lsn: Lsn,
    ) -> (r: Result<bool, E>)
        requires
            old(self).ready(),
        ensures
            final(self).ready(),
            final(self).calls() == old(self).calls().push((tenant, key, bytes@, created_lsn, r)),
    ;
}

/// A target that hands each record to a closure.
#[verifier::reject_recursive_types(E)]
pub struct RecordCalls<E, F: FnMut(TenantId, u64, &Vec<u8>, Lsn) -> Result<bool, E>> {
    reinstate: F,
    calls: Ghost<Seq<RecordCall<E>>>,
}

impl<E, F: FnMut(TenantId, u64, &Vec<u8>, Lsn) -> Result<bool, E>> RecordCalls<E, F> {
    /// The closure.
    pub closed spec fn closure(self) -> F {
        self.reinstate
    }

    /// A target that has seen no record yet.
    pub fn new(reinstate: F) -> (t: RecordCalls<E, F>)
        ensures
            t.closure() == reinstate,
            t.calls() == Seq::<RecordCall<E>>::empty(),
    {
        RecordCalls { reinstate, calls: Ghost(Seq::empty()) }
    }
}

impl<E, F: FnMut(TenantId, u64, &Vec<u8>, Lsn) -> Result<bool, E>> RecordTarget<E> for RecordCalls<
    E,
    F,
> {
    closed spec fn calls(&self) -> Seq<RecordCall<E>> {
        self.calls@
    }

    open spec fn ready(&self) -> bool {
        forall|t: TenantId, key: u64, bytes: Vec<u8>, lsn: Lsn| #[trigger]
            call_requires(self.closure(), (t, key, &bytes, lsn))
    }

    fn reinstate_record_index(
        &mut self,
        tenant: TenantId,
        key: u64,
        bytes: &Vec<u8>,
        created_lsn: Lsn,
    ) -> (r: Result<bool, E>)
        ensures
            call_ensures(old(self).closure(), (tenant, key, bytes, created_lsn), r),
            final(self).closure() == old(self).closure(),
    {
        assert(self.closure() == self.reinstate);
        let r = (self.reinstate)(tenant, key, bytes, created_lsn);
        proof {
            self.calls = Ghost(self.calls@.push((tenant, key, bytes@, created_lsn, r)));
        }
        r
    }
}

/// One call per record, in the order of the records, with the answers.
pub open spec fn record_calls<E>(
    tenant: TenantId,
    records: Seq<VisibleRecord>,
    answers: Seq<Result<bool, E>>,
) -> Seq<RecordCall<E>> {
    Seq::new(
        records.len(),
        |i: int|
            (tenant, records[i].key, records[i].bytes@, records[i].created_lsn, answers[i]),
    )
}

/// How a rebuild ends that got these answers, one per record: an answer that is
/// an error is passed over.
pub fn index_outcome<E>(answers: &Vec<Result<bool, E>>) -> (r: IndexRebuildOutcome)
    ensures
        0 <= reinstated_count(answers@) <= answers@.len(),
        r == (IndexRebuildOutcome::Success {
            records_walked: answers@.len() as u64,
            records_reinstated: reinstated_count(answers@) as u64,
        }),
{
    let mut records_reinstated: u64 = 0;
    let mut i: usize = 0;
    assert(answers@.take(0) =~= Seq::<Result<bool, E>>::empty());
    while i < answers.len()
        invariant
            i <= answers@.len(),
            records_reinstated == reinstated_count(answers@.take(i as int)),
            records_reinstated <= i,
        decreases answers@.len() - i,
    {
        proof {
            assert(answers@.take(i + 1).drop_last() =~= answers@.take(i as int));
            assert(answers@.take(i + 1).last() == answers@[i as int]);
        }
        match &answers[i] {
            Ok(true) => {
                records_reinstated += 1;
            },
            Ok(false) => {},
            Err(_) => {},
        }
        i += 1;
    }
    assert(answers@.take(i as int) =~= answers@);
    IndexRebuildOutcome::Success { records_walked: answers.len() as u64, records_reinstated }
}

/// Hands every record that the snapshot shows to `target`, once and in order.
/// The target puts it into the index if it is missing there and says whether it
/// was. A record that fails is passed over.
pub fn rebuild_index_for_tenant<E, T: RecordTarget<E>>(
    tenant: TenantId,
    records: &Vec<VisibleRecord>,
    target: &mut T,
) -> (r: IndexRebuildOutcome)
    requires
        old(target).ready(),
    ensures
        final(target).ready(),
        exists|answers: Seq<Result<bool, E>>|
            {
                &&& answers.len() == records@.len()
                &&& final(target).calls() == old(target).calls() + #[trigger] record_calls(
                    tenant,
                    records@,
                    answers,
                )
                &&& 0 <= reinstated_count(answers) <= records@.len()
                &&& r == (IndexRebuildOutcome::Success {
                    records_walked: records@.len() as u64,
                    records_reinstated: reinstated_count(answers) as u64,
                })
            },
{
    let mut answers: Vec<Result<bool, E>> = Vec::new();
    let ghost before = target.calls();
    let mut i: usize = 0;
    assert(before + record_calls(tenant, records@.take(0), answers@) =~= before);
    while i < records.len()
        invariant
            i <= records@.len(),
            answers@.len() == i,
            target.ready(),
            target.calls() == before + record_calls(tenant, records@.take(i as int), answers@),
        decreases records@.len() - i,
    {
        let record = &records[i];
        let answer = target.reinstate_record_index(
            tenant,
            record.key,
            &record.bytes,
            record.created_lsn,
        );
        answers.push(answer);
        assert(target.calls() =~= before + record_calls(
            tenant,
            records@.take(i + 1),
            answers@,
        ));
        i += 1;
    }
    assert(records@.take(i as int) =~= records@);
    index_outcome(&answers)
}

/// The sort key of an outcome: the tenant.
pub open spec fn tenant_key<T>(o: (TenantId, T)) -> SortKey {
    (o.0.0, 0, 0)
}

/// No tenant has two outcomes.
pub open spec fn distinct_tenants<T>(s: Seq<(TenantId, T)>) -> bool {
    forall|i: int, j: int| 0 <= i < j < s.len() ==> (#[trigger] s[i]).0 != (#[trigger] s[j]).0
}

pub(crate) proof fn lemma_distinct_tenants<T>(
    s: Seq<(TenantId, T)>,
    key: spec_fn((TenantId, T)) -> SortKey,
)
    requires
        distinct_tenants(s),
        forall|o: (TenantId, T)| #[trigger] key(o) == tenant_key(o),
    ensures
        distinct_keys(s, key),
{
    assert forall|u: (TenantId, T), v: (TenantId, T)|
        (#[trigger] s.contains(u) && #[trigger] s.contains(v) && key(u) == key(v)) implies u == v by {
        let i = choose|i: int| 0 <= i < s.len() && s[i] == u;
        let j = choose|j: int| 0 <= j < s.len() && s[j] == v;
        assert(u.0 == v.0);
        if i != j {
            assert(s[i].0 != s[j].0);
        }
    }
}

/// The key by which outcomes are sorted.
pub(crate) fn tenant_key_of<T>(o: &(TenantId, T)) -> (k: SortKey)
    ensures
        k == tenant_key(*o),
{
    (o.0.0, 0, 0)
}

/// The tenants of a list of outcomes that came to their end.
pub open spec fn successes(s: Seq<(TenantId, IndexRebuildOutcome)>) -> Seq<(TenantId, u64, u64)>
    decreases s.len(),
{
    if s.len() == 0 {
        Seq::empty()
    } else {
        match s.last().1 {
            IndexRebuildOutcome::Success { records_walked, records_reinstated } => successes(
                s.drop_last(),
            ).push((s.last().0, records_walked, records_reinstated)),
            IndexRebuildOutcome::PartialFailure { .. } => successes(s.drop_last()),
        }
    }
}

/// The tenants of a list of outcomes that broke off.
pub open spec fn failures(s: Seq<(TenantId, IndexRebuildOutcome)>) -> Seq<(TenantId, String)>
    decreases s.len(),
{
    if s.len() == 0 {
        Seq::empty()
    } else {
        match s.last().1 {
            IndexRebuildOutcome::Success { .. } => failures(s.drop_last()),
            IndexRebuildOutcome::PartialFailure { panic_message } => failures(
                s.drop_last(),
            ).push((s.last().0, panic_message)),
        }
    }
}

/// The report of all tenants from the outcomes of each, in the order of the
/// tenants.
pub fn rebuild_all_tenant_index(outcomes: Vec<(TenantId, IndexRebuildOutcome)>) -> (r:
    IndexRebuildReport)
    ensures
        ({
            let sorted = sorted_by(
                outcomes@,
                |o: (TenantId, IndexRebuildOutcome)| tenant_key(o),
            );
            &&& r.successful@ == successes(sorted)
            &&& r.failed@ == failures(sorted)
        }),
{
    let ghost key = |o: (TenantId, IndexRebuildOutcome)| tenant_key(o);
    let mut outcomes = outcomes;
    sort_by_keys(&mut outcomes, tenant_key_of::<IndexRebuildOutcome>, Ghost(key));
    let ghost sorted = outcomes@;
    let mut successful: Vec<(TenantId, u64, u64)> = Vec::new();
    let mut failed: Vec<(TenantId, String)> = Vec::new();
    let mut i: usize = 0;
    assert(sorted.take(0) =~= Seq::<(TenantId, IndexRebuildOutcome)>::empty());
    while i < outcomes.len()
        invariant
            i <= sorted.len(),
            sorted == outcomes@,
            successful@ == successes(sorted.take(i as int)),
            failed@ == failures(sorted.take(i as int)),
        decreases sorted.len() - i,
    {
        proof {
            assert(sorted.take(i + 1).drop_last() =~= sorted.take(i as int));
            assert(sorted.take(i + 1).last() == sorted[i as int]);
        }
        let tenant = outcomes[i].0;
        match &outcomes[i].1 {
            IndexRebuildOutcome::Success { records_walked, records_reinstated } => {
                successful.push((tenant, *records_walked, *records_reinstated));
            },
            IndexRebuildOutcome::PartialFailure { panic_message } => {
                failed.push((tenant, panic_message.clone()));
            },
        }
        i += 1;
    }
    assert(sorted.take(i as int) =~= sorted);
    IndexRebuildReport { successful, failed }
}

/// Every tenant is reported, in one of the two lists.
pub proof fn law_every_tenant_is_reported(s: Seq<(TenantId, IndexRebuildOutcome)>, i: int)
    requires
        0 <= i < s.len(),
    ensures
        successes(s).len() + failures(s).len() == s.len(),
        match s[i].1 {
            IndexRebuildOutcome::Success { records_walked, records_reinstated } => successes(s).contains(
                (s[i].0, records_walked, records_reinstated),
            ),
            IndexRebuildOutcome::PartialFailure { panic_message } => failures(s).contains(
                (s[i].0, panic_message),
            ),
        },
    decreases s.len(),
{
    lemma_report_len(s);
    let front = s.drop_last();
    if i < front.len() {
        law_every_tenant_is_reported(front, i);
        assert(front[i] == s[i]);
    }
    match s[i].1 {
        IndexRebuildOutcome::Success { records_walked, records_reinstated } => {
            let t = (s[i].0, records_walked, records_reinstated);
            if i < front.len() {
                let j = choose|j: int| 0 <= j < successes(front).len() && successes(front)[j] == t;
                assert(successes(s)[j] == t);
            } else {
                assert(successes(s).last() == t);
            }
        },
        IndexRebuildOutcome::PartialFailure { panic_message } => {
            let t = (s[i].0, panic_message);
            if i < front.len() {
                let j = choose|j: int| 0 <= j < failures(front).len() && failures(front)[j] == t;
                assert(failures(s)[j] == t);
            } else {
                assert(failures(s).last() == t);
            }
        },
    }
}

/// The report is the same in whatever order the outcomes came in, as long as
/// no tenant has two.
pub proof fn law_report_forgets_the_order(
    a: Seq<(TenantId, IndexRebuildOutcome)>,
    b: Seq<(TenantId, IndexRebuildOutcome)>,
)
    requires
        a.to_multiset() == b.to_multiset(),
        distinct_tenants(a),
    ensures
        ({
            let x = sorted_by(a, |o: (TenantId, IndexRebuildOutcome)| tenant_key(o));
            let y = sorted_by(b, |o: (TenantId, IndexRebuildOutcome)| tenant_key(o));
            successes(x) == successes(y) && failures(x) == failures(y)
        }),
{
    let key = |o: (TenantId, IndexRebuildOutcome)| tenant_key(o);
    lemma_distinct_tenants(a, key);
    law_sorting_forgets_the_order(a, b, key);
}

proof fn lemma_report_len(s: Seq<(TenantId, IndexRebuildOutcome)>)
    ensures
        successes(s).len() + failures(s).len() == s.len(),
    decreases s.len(),
{
    if s.len() > 0 {
        lemma_report_len(s.drop_last());
    }
}

} // verus!
