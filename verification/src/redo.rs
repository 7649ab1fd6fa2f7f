//! The redo clock. Every commit owns a contiguous range of LSNs, every
//! operation of the commit one LSN of the range, and recovery replays the
//! commits in the order of their ranges.
use vstd::prelude::*;

use crate::ids::Lsn;
use crate::order::{in_order, key_le, keyed, law_sorted, sort_by_keys, sorted_by, SortKey};

pub use crate::delta::{
    apply_physical_delta, apply_recovery_delta, try_physical_delta, try_recovery_delta,
    DeltaPageStore, RecoveryDeltaOutcome,
};
pub use crate::dirty::{DirtyPageKey, DirtyPageSnapshot, DirtyPageTable};

verus! {

/// The LSNs of one commit, both ends included. The end is also the LSN at
/// which the commit becomes visible. A commit without operations still takes
/// up one LSN.
#[derive(Clone, Copy, Debug, PartialEq, Eq, Hash, Structural)]
pub struct RedoLsnRange {
    /// The first LSN.
    pub base: Lsn,
    /// The last LSN.
    pub end: Lsn,
}

impl RedoLsnRange {
    /// A range starts above zero and holds at least one LSN.
    pub open spec fn wf(self) -> bool {
        0 < self.base.0 <= self.end.0
    }

    /// A range from its ends; `None` for a base of zero or one past the end.
    pub fn new(base: Lsn, end: Lsn) -> (r: Option<RedoLsnRange>)
        ensures
            r == if (RedoLsnRange { base, end }).wf() {
                Some(RedoLsnRange { base, end })
            } else {
                None
            },
    {
        if base.raw() == 0 || base.raw() > end.raw() {
            return None;
        }
        Some(RedoLsnRange { base, end })
    }

    /// The range of a commit from its LSN and the number of its operations;
    /// `None` where the range would start at zero or below.
    pub fn ending_at(commit_lsn: Lsn, op_count: usize) -> (r: Option<RedoLsnRange>)
        ensures
            ({
                let width = if op_count == 0 {
                    1
                } else {
                    op_count as int
                };
                match r {
                    Some(range) => commit_lsn.0 >= width && range.wf() && range.end == commit_lsn
                        && range.width() == width,
                    None => commit_lsn.0 < width,
                }
            }),
    {
        let width: u64 = if op_count == 0 {
            1
        } else {
            op_count as u64
        };
        match commit_lsn.raw().checked_sub(width - 1) {
            Some(base) => RedoLsnRange::new(Lsn::new(base), commit_lsn),
            None => None,
        }
    }

    /// The number of LSNs in the range.
    pub open spec fn width(self) -> int {
        self.end.0 - self.base.0 + 1
    }

    /// The first LSN, by which recovery orders commits.
    pub fn base(self) -> (r: Lsn)
        ensures
            r == self.base,
    {
        self.base
    }

    /// The last LSN.
    pub fn end(self) -> (r: Lsn)
        ensures
            r == self.end,
    {
        self.end
    }

    /// The LSN at which the commit becomes visible: the range's end.
    pub fn commit_lsn(self) -> (r: Lsn)
        ensures
            r == self.end,
    {
        self.end
    }

    /// The LSN right before the range.
    pub fn predecessor(self) -> (r: Lsn)
        requires
            self.wf(),
        ensures
            r.0 == self.base.0 - 1,
    {
        Lsn::new(self.base.raw() - 1)
    }

    /// The number of LSNs in the range.
    pub fn len(self) -> (n: u64)
        requires
            self.wf(),
        ensures
            n == self.width(),
            n > 0,
    {
        self.end.raw() - self.base.raw() + 1
    }

    /// A range is never empty.
    pub fn is_empty(self) -> (r: bool)
        ensures
            !r,
    {
        false
    }

    /// The LSN of the operation with this index; `None` past the range.
    pub open spec fn lsn_of_op(self, index: int) -> Option<Lsn> {
        if index < self.width() {
            Some(Lsn((self.base.0 + index) as u64))
        } else {
            None
        }
    }

    /// The LSN lies in the range.
    pub open spec fn holds(self, lsn: Lsn) -> bool {
        self.base.0 <= lsn.0 <= self.end.0
    }

    /// The LSN of the operation with this index; `None` past the range.
    pub fn op_lsn(self, index: usize) -> (r: Option<Lsn>)
        requires
            self.wf(),
        ensures
            r == self.lsn_of_op(index as int),
    {
        if index as u64 >= self.len() {
            return None;
        }
        Some(Lsn::new(self.base.raw() + index as u64))
    }

    /// Whether the LSN lies in the range.
    pub fn contains(self, lsn: Lsn) -> (r: bool)
        ensures
            r == self.holds(lsn),
    {
        self.base.raw() <= lsn.raw() && lsn.raw() <= self.end.raw()
    }
}

/// The operations of a commit have LSNs of its range, each one its own, in
/// the order of the operations, and the last one is the commit's.
pub proof fn law_op_lsns(range: RedoLsnRange, i: int, j: int)
    requires
        range.wf(),
        0 <= i < j < range.width(),
    ensures
        range.lsn_of_op(i) matches Some(a) && range.lsn_of_op(j) matches Some(b) && range.holds(a)
            && range.holds(b) && a.0 < b.0,
        range.lsn_of_op(range.width() - 1) == Some(range.end),
{
}

/// Operations of commits whose ranges do not overlap never share an LSN, and
/// those of the earlier commit come first.
pub proof fn law_commits_do_not_mix(a: RedoLsnRange, b: RedoLsnRange, i: int, j: int)
    requires
        a.wf() && b.wf(),
        a.end.0 < b.base.0,
        0 <= i < a.width(),
        0 <= j < b.width(),
    ensures
        a.lsn_of_op(i) matches Some(x) && b.lsn_of_op(j) matches Some(y) && x.0 < y.0
            && !a.holds(y) && !b.holds(x),
{
}

/// Two ranges that overlap without being the same.
#[derive(Clone, Copy, Debug, PartialEq, Eq, Structural)]
pub struct RedoOrderError {
    /// The earlier of the two in sorted order.
    pub previous: RedoLsnRange,
    /// The range that overlaps it.
    pub overlapping: RedoLsnRange,
}

/// What sorting found out about a stream of commits.
#[derive(Clone, Copy, Debug, PartialEq, Eq, Structural)]
pub struct RedoOrderStats {
    /// Ranges that repeat the one before them.
    pub duplicate_ranges: u64,
    /// Places where LSNs are missing between two ranges.
    pub gaps: u64,
}

/// The key by which ranges are ordered: base, then end.
pub open spec fn range_key(range: RedoLsnRange) -> SortKey {
    (range.base.0, range.end.0, 0)
}

/// The range that `range_of` gives a bundle.
pub open spec fn range_by<T, F: Fn(&T) -> RedoLsnRange>(range_of: F, bundle: T) -> RedoLsnRange {
    choose|range: RedoLsnRange| call_ensures(range_of, (&bundle,), range)
}

/// What the check says of ranges in their order: each one repeats the one before
/// it, follows it, or follows it after a gap; anything else is an error.
pub open spec fn order_stats(ranges: Seq<RedoLsnRange>) -> Result<RedoOrderStats, RedoOrderError>
    decreases ranges.len(),
{
    if ranges.len() == 0 {
        Ok(RedoOrderStats { duplicate_ranges: 0, gaps: 0 })
    } else {
        match order_stats(ranges.drop_last()) {
            Err(e) => Err(e),
            Ok(stats) => if ranges.len() == 1 {
                Ok(stats)
            } else {
                let previous = ranges[ranges.len() - 2];
                let current = ranges.last();
                if current == previous {
                    Ok(
                        RedoOrderStats {
                            duplicate_ranges: (stats.duplicate_ranges + 1) as u64,
                            gaps: stats.gaps,
                        },
                    )
                } else if current.base.0 <= previous.end.0 {
                    Err(RedoOrderError { previous, overlapping: current })
                } else if current.base.0 > previous.end.0 + 1 {
                    Ok(
                        RedoOrderStats {
                            duplicate_ranges: stats.duplicate_ranges,
                            gaps: (stats.gaps + 1) as u64,
                        },
                    )
                } else {
                    Ok(stats)
                }
            },
        }
    }
}

/// The ranges of the bundles.
pub open spec fn ranges_by<T, F: Fn(&T) -> RedoLsnRange>(range_of: F, bundles: Seq<T>) -> Seq<
    RedoLsnRange,
> {
    Seq::new(bundles.len(), |i: int| range_by(range_of, bundles[i]))
}

/// The bundles in redo order. Bundles with one range keep their order.
pub open spec fn redo_order<T, F: Fn(&T) -> RedoLsnRange>(range_of: F, bundles: Seq<T>) -> Seq<T> {
    sorted_by(bundles, |bundle: T| range_key(range_by(range_of, bundle)))
}

/// The bundles with one range, in their order.
pub open spec fn bundles_at<T, F: Fn(&T) -> RedoLsnRange>(
    range_of: F,
    bundles: Seq<T>,
    range: RedoLsnRange,
) -> Seq<T> {
    keyed(bundles, |bundle: T| range_key(range_by(range_of, bundle)), range_key(range))
}

/// Sorts the bundles by their ranges and checks that the ranges form one
/// order. Bundles that repeat a range stay in the list; ranges that overlap
/// otherwise are an error, found at the first of them. The list is sorted
/// either way.
pub fn sort_by_redo_range<T, F: Fn(&T) -> RedoLsnRange>(bundles: &mut Vec<T>, range_of: F) -> (r:
    Result<RedoOrderStats, RedoOrderError>)
    requires
        forall|t: T| #[trigger] call_requires(range_of, (&t,)),
        forall|t: T, a: RedoLsnRange, b: RedoLsnRange| #[trigger]
            call_ensures(range_of, (&t,), a) && #[trigger] call_ensures(range_of, (&t,), b) ==> a
                == b,
    ensures
        final(bundles)@ == redo_order(range_of, old(bundles)@),
        r == order_stats(ranges_by(range_of, final(bundles)@)),
{
    sort_bundles(bundles, &range_of);
    let mut duplicate_ranges: u64 = 0;
    let mut gaps: u64 = 0;
    let mut previous_unique: Option<RedoLsnRange> = None;
    let ghost ranges = ranges_by(range_of, bundles@);
    let mut i: usize = 0;
    assert(ranges.take(0) =~= Seq::<RedoLsnRange>::empty());
    while i < bundles.len()
        invariant
            i <= bundles@.len(),
            bundles@ == redo_order(range_of, old(bundles)@),
            ranges == ranges_by(range_of, bundles@),
            duplicate_ranges + gaps <= i,
            order_stats(ranges.take(i as int)) == Ok::<RedoOrderStats, RedoOrderError>(
                RedoOrderStats { duplicate_ranges, gaps },
            ),
            previous_unique == if i == 0 {
                None::<RedoLsnRange>
            } else {
                Some(ranges[i - 1])
            },
            forall|t: T| #[trigger] call_requires(range_of, (&t,)),
            forall|t: T, a: RedoLsnRange, b: RedoLsnRange| #[trigger]
                call_ensures(range_of, (&t,), a) && #[trigger] call_ensures(range_of, (&t,), b)
                    ==> a == b,
        decreases bundles@.len() - i,
    {
        let current = range_of(&bundles[i]);
        proof {
            assert(current == range_by(range_of, bundles@[i as int]));
            assert(current == ranges[i as int]);
            assert(ranges.take(i + 1).drop_last() =~= ranges.take(i as int));
            assert(ranges.take(i + 1).last() == current);
            if i > 0 {
                assert(ranges.take(i + 1)[i - 1] == ranges[i - 1]);
            }
        }
        match previous_unique {
            None => {
                previous_unique = Some(current);
            },
            Some(previous) => {
                if current == previous {
                    duplicate_ranges += 1;
                } else {
                    if current.base().raw() <= previous.end().raw() {
                        proof {
                            lemma_error_stays(ranges, i + 1);
                        }
                        return Err(RedoOrderError { previous, overlapping: current });
                    }
                    if current.base().raw() - previous.end().raw() > 1 {
                        gaps += 1;
                    }
                    previous_unique = Some(current);
                }
            },
        }
        i += 1;
    }
    assert(ranges.take(i as int) =~= ranges);
    Ok(RedoOrderStats { duplicate_ranges, gaps })
}

fn sort_bundles<T, F: Fn(&T) -> RedoLsnRange>(bundles: &mut Vec<T>, range_of: &F)
    requires
        forall|t: T| #[trigger] call_requires(*range_of, (&t,)),
        forall|t: T, a: RedoLsnRange, b: RedoLsnRange| #[trigger]
            call_ensures(*range_of, (&t,), a) && #[trigger] call_ensures(*range_of, (&t,), b) ==> a
                == b,
    ensures
        final(bundles)@ == redo_order(*range_of, old(bundles)@),
{
    let ghost key = |bundle: T| range_key(range_by(*range_of, bundle));
    let key_of = |bundle: &T| -> (k: SortKey)
        ensures
            k == range_key(range_by(*range_of, *bundle)),
    {
        let range = range_of(bundle);
        (range.base.0, range.end.0, 0)
    };
    sort_by_keys(bundles, key_of, Ghost(key));
}

proof fn lemma_error_stays(ranges: Seq<RedoLsnRange>, n: int)
    requires
        0 <= n <= ranges.len(),
        order_stats(ranges.take(n)) is Err,
    ensures
        order_stats(ranges) == order_stats(ranges.take(n)),
    decreases ranges.len(),
{
    if n == ranges.len() {
        assert(ranges.take(n) =~= ranges);
    } else {
        assert(ranges.drop_last().take(n) =~= ranges.take(n));
        lemma_error_stays(ranges.drop_last(), n);
    }
}

/// Any two of the ranges are the same, or one ends before the other starts.
pub open spec fn no_overlap(ranges: Seq<RedoLsnRange>) -> bool {
    forall|x: RedoLsnRange, y: RedoLsnRange| #[trigger]
        ranges.contains(x) && #[trigger] ranges.contains(y) ==> x == y || x.end.0 < y.base.0
            || y.end.0 < x.base.0
}

/// The range has others before it, and none that ends right before it.
pub open spec fn after_gap(ranges: Seq<RedoLsnRange>, range: RedoLsnRange) -> bool {
    &&& exists|x: RedoLsnRange| #[trigger] ranges.contains(x) && x.end.0 < range.base.0
    &&& forall|x: RedoLsnRange| #[trigger] ranges.contains(x) ==> x.end.0 + 1 != range.base.0
}

/// The ranges that come after a gap.
pub open spec fn gap_ranges(ranges: Seq<RedoLsnRange>) -> Set<RedoLsnRange> {
    ranges.to_set().filter(|range: RedoLsnRange| after_gap(ranges, range))
}

/// A sorted stream holds the bundles it held before, in the order of their
/// ranges, and bundles with one range stay in the order they came in. The check
/// succeeds exactly where any two of the ranges are the same or disjoint. It then
/// counts as duplicates the bundles beyond the first of each range, and as gaps
/// the ranges that come after LSNs which no range holds.
pub proof fn law_redo_order<T, F: Fn(&T) -> RedoLsnRange>(range_of: F, bundles: Seq<T>)
    requires
        forall|t: T| (#[trigger] range_by(range_of, t)).wf(),
        bundles.len() <= u64::MAX,
    ensures
        ({
            let sorted = redo_order(range_of, bundles);
            let given = ranges_by(range_of, bundles);
            let ranges = ranges_by(range_of, sorted);
            &&& sorted.to_multiset() == bundles.to_multiset()
            &&& sorted.len() == bundles.len()
            &&& in_order(sorted, |bundle: T| range_key(range_by(range_of, bundle)))
            &&& forall|range: RedoLsnRange| #[trigger]
                bundles_at(range_of, sorted, range) == bundles_at(range_of, bundles, range)
            &&& order_stats(ranges) is Ok <==> no_overlap(given)
            &&& order_stats(ranges) matches Ok(stats) ==> {
                &&& forall|i: int, j: int|
                    0 <= i < j < ranges.len() ==> #[trigger] ranges[i] == #[trigger] ranges[j]
                        || ranges[i].end.0 < ranges[j].base.0
                &&& given.to_set().finite()
                &&& stats.duplicate_ranges == bundles.len() - given.to_set().len()
                &&& stats.gaps == gap_ranges(given).len()
            }
        }),
{
    let key = |bundle: T| range_key(range_by(range_of, bundle));
    law_sorted(bundles, key);
    let sorted = redo_order(range_of, bundles);
    let given = ranges_by(range_of, bundles);
    let ranges = ranges_by(range_of, sorted);
    assert forall|range: RedoLsnRange| #[trigger]
        bundles_at(range_of, sorted, range) == bundles_at(range_of, bundles, range) by {
        assert(keyed(sorted, key, range_key(range)) == keyed(
            bundles,
            key,
            range_key(range),
        ));
    }
    assert forall|x: RedoLsnRange|
        #![trigger given.contains(x)]
        #![trigger ranges.contains(x)]
        given.contains(x) <==> ranges.contains(x) by {
        lemma_ranges_contain(range_of, bundles, sorted, x);
        lemma_ranges_contain(range_of, sorted, bundles, x);
    }
    assert forall|i: int, j: int| 0 <= i < j < ranges.len() implies key_le(
        range_key(#[trigger] ranges[i]),
        range_key(#[trigger] ranges[j]),
    ) by {
        assert(key_le(key(sorted[i]), key(sorted[j])));
    }
    if no_overlap(given) {
        assert(no_overlap(ranges));
        lemma_sorts_well(ranges);
    }
    if order_stats(ranges) is Ok {
        lemma_disjoint(ranges);
        assert forall|x: RedoLsnRange, y: RedoLsnRange| #[trigger]
            given.contains(x) && #[trigger] given.contains(y) implies x == y || x.end.0 < y.base.0
            || y.end.0 < x.base.0 by {
            assert(ranges.contains(x) && ranges.contains(y));
            let i = choose|i: int| 0 <= i < ranges.len() && ranges[i] == x;
            let j = choose|j: int| 0 <= j < ranges.len() && ranges[j] == y;
            assert(i < j ==> ranges[i] == ranges[j] || ranges[i].end.0 < ranges[j].base.0);
            assert(j < i ==> ranges[j] == ranges[i] || ranges[j].end.0 < ranges[i].base.0);
        }
        lemma_counts(ranges);
        assert(given.to_set() =~= ranges.to_set());
        assert(gap_ranges(given) =~= gap_ranges(ranges)) by {
            assert forall|x: RedoLsnRange| after_gap(given, x) == after_gap(ranges, x) by {
                if after_gap(ranges, x) {
                    let w = choose|w: RedoLsnRange| #[trigger]
                        ranges.contains(w) && w.end.0 < x.base.0;
                    assert(given.contains(w));
                }
                if after_gap(given, x) {
                    let w = choose|w: RedoLsnRange| #[trigger]
                        given.contains(w) && w.end.0 < x.base.0;
                    assert(ranges.contains(w));
                }
            }
        }
    }
}

/// A range among those of some bundles is among those of the same bundles in
/// another order.
proof fn lemma_ranges_contain<T, F: Fn(&T) -> RedoLsnRange>(
    range_of: F,
    a: Seq<T>,
    b: Seq<T>,
    x: RedoLsnRange,
)
    requires
        a.to_multiset() == b.to_multiset(),
    ensures
        ranges_by(range_of, a).contains(x) ==> ranges_by(range_of, b).contains(x),
{
    broadcast use vstd::seq_lib::group_to_multiset_ensures;

    let ra = ranges_by(range_of, a);
    let rb = ranges_by(range_of, b);
    if ra.contains(x) {
        let i = choose|i: int| 0 <= i < ra.len() && ra[i] == x;
        assert(a.contains(a[i]));
        assert(b.to_multiset().count(a[i]) > 0);
        assert(b.contains(a[i]));
        let j = choose|j: int| 0 <= j < b.len() && b[j] == a[i];
        assert(rb[j] == x);
    }
}

/// Ranges in order, no two of which overlap, pass the check.
proof fn lemma_sorts_well(ranges: Seq<RedoLsnRange>)
    requires
        no_overlap(ranges),
        forall|i: int| 0 <= i < ranges.len() ==> (#[trigger] ranges[i]).wf(),
        forall|i: int, j: int|
            0 <= i < j < ranges.len() ==> key_le(
                range_key(#[trigger] ranges[i]),
                range_key(#[trigger] ranges[j]),
            ),
    ensures
        order_stats(ranges) is Ok,
    decreases ranges.len(),
{
    if ranges.len() > 0 {
        let front = ranges.drop_last();
        assert forall|i: int| 0 <= i < front.len() implies front[i] == #[trigger] ranges[i] by {}
        assert forall|x: RedoLsnRange, y: RedoLsnRange| #[trigger]
            front.contains(x) && #[trigger] front.contains(y) implies x == y || x.end.0 < y.base.0
            || y.end.0 < x.base.0 by {
            let i = choose|i: int| 0 <= i < front.len() && front[i] == x;
            let j = choose|j: int| 0 <= j < front.len() && front[j] == y;
            assert(ranges[i] == x && ranges[j] == y);
            assert(ranges.contains(x) && ranges.contains(y));
        }
        lemma_sorts_well(front);
        if ranges.len() > 1 {
            let n = ranges.len() - 1;
            assert(ranges.contains(ranges[n - 1]) && ranges.contains(ranges[n]));
            assert(key_le(range_key(ranges[n - 1]), range_key(ranges[n])));
            assert(ranges[n].wf());
        }
    }
}

/// What the check counts in ranges that pass it.
proof fn lemma_counts(ranges: Seq<RedoLsnRange>)
    requires
        order_stats(ranges) is Ok,
        ranges.len() <= u64::MAX,
        forall|i: int| 0 <= i < ranges.len() ==> (#[trigger] ranges[i]).wf(),
    ensures
        ranges.to_set().finite(),
        order_stats(ranges)->Ok_0.duplicate_ranges == ranges.len() - ranges.to_set().len(),
        order_stats(ranges)->Ok_0.gaps == gap_ranges(ranges).len(),
        order_stats(ranges)->Ok_0.gaps <= ranges.len(),
    decreases ranges.len(),
{
    if ranges.len() == 0 {
        assert(ranges.to_set() =~= Set::<RedoLsnRange>::empty());
        assert(gap_ranges(ranges) =~= Set::<RedoLsnRange>::empty());
    } else {
        let front = ranges.drop_last();
        let n = ranges.len() - 1;
        let c = ranges[n];
        assert forall|i: int| 0 <= i < front.len() implies front[i] == #[trigger] ranges[i] by {}
        lemma_counts(front);
        lemma_disjoint(ranges);
        assert forall|x: RedoLsnRange| #[trigger] ranges.contains(x) <==> front.contains(x) || x
            == c by {
            if ranges.contains(x) {
                let i = choose|i: int| 0 <= i < ranges.len() && ranges[i] == x;
                if i < n {
                    assert(front[i] == x);
                }
            }
            if front.contains(x) {
                let i = choose|i: int| 0 <= i < front.len() && front[i] == x;
                assert(ranges[i] == x);
            }
            assert(ranges[n] == c);
        }
        assert(ranges.to_set() =~= front.to_set().insert(c));
        assert forall|x: RedoLsnRange| #[trigger] front.contains(x) implies x == c || x.end.0
            < c.base.0 by {
            let i = choose|i: int| 0 <= i < front.len() && front[i] == x;
            assert(ranges[i] == ranges[n] || ranges[i].end.0 < ranges[n].base.0);
        }
        assert(c.wf());
        assert forall|x: RedoLsnRange| front.contains(x) implies after_gap(front, x) == #[trigger]
            after_gap(ranges, x) by {
            let i = choose|i: int| 0 <= i < front.len() && front[i] == x;
            assert(ranges[i].wf());
            if after_gap(front, x) {
                let w = choose|w: RedoLsnRange| #[trigger] front.contains(w) && w.end.0 < x.base.0;
                assert(ranges.contains(w));
            }
            if after_gap(ranges, x) {
                let w = choose|w: RedoLsnRange| #[trigger] ranges.contains(w) && w.end.0
                    < x.base.0;
                assert(front.contains(w));
                assert forall|y: RedoLsnRange| #[trigger] front.contains(y) implies y.end.0 + 1
                    != x.base.0 by {
                    assert(ranges.contains(y));
                }
            }
        }
        if n == 0 {
            assert(!after_gap(ranges, c)) by {
                assert forall|w: RedoLsnRange| #[trigger] ranges.contains(w) implies w.end.0
                    >= c.base.0 by {
                    assert(!front.contains(w));
                }
            }
            assert(gap_ranges(ranges) =~= gap_ranges(front));
        } else {
            let p = ranges[n - 1];
            assert(front[n - 1] == p);
            assert(front.contains(p));
            assert(ranges.contains(p));
            if c == p {
                assert(ranges.to_set() =~= front.to_set());
                assert(gap_ranges(ranges) =~= gap_ranges(front));
            } else {
                assert(!front.contains(c)) by {
                    if front.contains(c) {
                        let i = choose|i: int| 0 <= i < front.len() && front[i] == c;
                        assert(ranges[i] == c);
                        if i < n - 1 {
                            assert(ranges[i] == ranges[n - 1] || ranges[i].end.0 < ranges[n
                                - 1].base.0);
                            assert(p.wf());
                        }
                    }
                }
                assert(after_gap(ranges, c) <==> p.end.0 + 1 < c.base.0) by {
                    assert forall|x: RedoLsnRange| #[trigger] ranges.contains(x) && x
                        != c implies x.end.0 <= p.end.0 by {
                        let i = choose|i: int| 0 <= i < front.len() && front[i] == x;
                        assert(ranges[i] == x);
                        if i < n - 1 {
                            assert(ranges[i] == ranges[n - 1] || ranges[i].end.0 < ranges[n
                                - 1].base.0);
                            assert(p.wf());
                        }
                    }
                }
                if after_gap(ranges, c) {
                    assert(gap_ranges(ranges) =~= gap_ranges(front).insert(c));
                } else {
                    assert(gap_ranges(ranges) =~= gap_ranges(front));
                }
            }
        }
    }
}

proof fn lemma_disjoint(ranges: Seq<RedoLsnRange>)
    requires
        order_stats(ranges) is Ok,
        forall|i: int| 0 <= i < ranges.len() ==> (#[trigger] ranges[i]).wf(),
    ensures
        forall|i: int, j: int|
            0 <= i < j < ranges.len() ==> #[trigger] ranges[i] == #[trigger] ranges[j]
                || ranges[i].end.0 < ranges[j].base.0,
    decreases ranges.len(),
{
    if ranges.len() > 1 {
        let front = ranges.drop_last();
        assert forall|i: int| 0 <= i < front.len() implies (#[trigger] front[i]).wf() by {
            assert(front[i] == ranges[i]);
        }
        lemma_disjoint(front);
        let n = ranges.len() - 1;
        assert forall|i: int, j: int| 0 <= i < j < ranges.len() implies #[trigger] ranges[i]
            == #[trigger] ranges[j] || ranges[i].end.0 < ranges[j].base.0 by {
            assert(front[i] == ranges[i]);
            if j < n {
                assert(front[j] == ranges[j]);
            } else {
                assert(front[n - 1] == ranges[n - 1]);
                assert(ranges[n - 1].wf());
                if i < n - 1 {
                    assert(front[i] == front[n - 1] || front[i].end.0 < front[n - 1].base.0);
                }
            }
        }
    }
}

/// Runs the operation if its LSN is above the page's, and moves the page's
/// LSN up to it, but only once the operation has succeeded. Says whether it
/// ran.
pub fn apply_redo_if_newer<E, F: FnOnce() -> Result<(), E>>(
    page_lsn: &mut Lsn,
    op_lsn: Lsn,
    apply: F,
) -> (r: Result<bool, E>)
    requires
        op_lsn.0 > old(page_lsn).0 ==> call_requires(apply, ()),
    ensures
        op_lsn.0 <= old(page_lsn).0 ==> *final(page_lsn) == *old(page_lsn) && r == Ok::<bool, E>(
            false,
        ),
        op_lsn.0 > old(page_lsn).0 ==> match r {
            Ok(ran) => ran && call_ensures(apply, (), Ok::<(), E>(())) && *final(page_lsn)
                == op_lsn,
            Err(e) => call_ensures(apply, (), Err::<(), E>(e)) && *final(page_lsn) == *old(
                page_lsn,
            ),
        },
{
    if op_lsn.raw() <= page_lsn.raw() {
        return Ok(false);
    }
    match apply() {
        Ok(done) => {
            assert(done == ());
            *page_lsn = op_lsn;
            Ok(true)
        },
        Err(e) => Err(e),
    }
}

/// What a range is, and the LSN of each of its operations.
pub proof fn law_range(range: RedoLsnRange, index: int)
    requires
        0 <= index,
    ensures
        range.wf() <==> 0 < range.base.0 && range.base.0 <= range.end.0,
        range.width() == range.end.0 - range.base.0 + 1,
        range.wf() && index <= range.end.0 - range.base.0 ==> (range.lsn_of_op(index) matches Some(
            lsn,
        ) && lsn.0 == range.base.0 + index),
        range.wf() && index > range.end.0 - range.base.0 ==> range.lsn_of_op(index) is None,
{
}

/// The range at `j` repeats the one before it, or starts behind its end.
pub open spec fn follows(ranges: Seq<RedoLsnRange>, j: int) -> bool {
    ranges[j] == ranges[j - 1] || ranges[j].base.0 > ranges[j - 1].end.0
}

/// The check fails at the first range that neither repeats the one before it nor
/// starts behind its end, and names the two; it succeeds where there is none.
pub proof fn law_first_overlap_is_reported(ranges: Seq<RedoLsnRange>)
    ensures
        forall|i: int|
            0 < i < ranges.len() && !(#[trigger] follows(ranges, i)) && (forall|j: int|
                0 < j < i ==> #[trigger] follows(ranges, j)) ==> order_stats(ranges) == Err::<
                RedoOrderStats,
                RedoOrderError,
            >(RedoOrderError { previous: ranges[i - 1], overlapping: ranges[i] }),
        order_stats(ranges) is Ok <==> forall|j: int|
            0 < j < ranges.len() ==> #[trigger] follows(ranges, j),
    decreases ranges.len(),
{
    if ranges.len() > 0 {
        let front = ranges.drop_last();
        let n = ranges.len() - 1;
        law_first_overlap_is_reported(front);
        assert forall|j: int| 0 < j < n implies #[trigger] follows(front, j) == follows(
            ranges,
            j,
        ) by {}
        assert(n > 0 ==> ranges[n - 1] == front[n - 1]);
        if order_stats(front) is Ok {
            assert forall|j: int| 0 < j < n implies #[trigger] follows(ranges, j) by {
                assert(follows(front, j));
            }
            if order_stats(ranges) is Ok {
                assert(n > 0 ==> follows(ranges, n));
            } else {
                assert(n > 0 && !follows(ranges, n));
            }
        } else {
            let j = choose|j: int| 0 < j < front.len() && !(#[trigger] follows(front, j));
            assert(!follows(ranges, j));
        }
        assert forall|i: int|
            0 < i < ranges.len() && !(#[trigger] follows(ranges, i)) && (forall|j: int|
                0 < j < i ==> #[trigger] follows(ranges, j)) implies order_stats(ranges) == Err::<
            RedoOrderStats,
            RedoOrderError,
        >(RedoOrderError { previous: ranges[i - 1], overlapping: ranges[i] }) by {
            if i < n {
                assert(!follows(front, i));
                assert forall|j: int| 0 < j < i implies #[trigger] follows(front, j) by {
                    assert(follows(ranges, j));
                }
            } else {
                assert forall|j: int| 0 < j < front.len() implies #[trigger] follows(front, j) by {
                    assert(follows(ranges, j));
                }
            }
        }
    }
}

/// What one more range adds to the counts: a duplicate where it repeats the range
/// before it, a gap where at least one LSN lies between the two, and nothing where
/// it starts right behind. The first range adds nothing.
pub proof fn law_next_range_counts(ranges: Seq<RedoLsnRange>, x: RedoLsnRange)
    requires
        order_stats(ranges) is Ok,
        order_stats(ranges)->Ok_0.duplicate_ranges < u64::MAX,
        order_stats(ranges)->Ok_0.gaps < u64::MAX,
    ensures
        ({
            let before = order_stats(ranges)->Ok_0;
            let after = order_stats(ranges.push(x));
            &&& ranges.len() == 0 ==> (after matches Ok(now) && now.duplicate_ranges == 0
                && now.gaps == 0)
            &&& ranges.len() > 0 && x == ranges.last() ==> (after matches Ok(now)
                && now.duplicate_ranges == before.duplicate_ranges + 1 && now.gaps == before.gaps)
            &&& ranges.len() > 0 && x != ranges.last() && x.base.0 == ranges.last().end.0 + 1
                ==> after == Ok::<RedoOrderStats, RedoOrderError>(before)
            &&& ranges.len() > 0 && x != ranges.last() && x.base.0 > ranges.last().end.0 + 1 ==> (
            after matches Ok(now) && now.duplicate_ranges == before.duplicate_ranges && now.gaps
                == before.gaps + 1)
        }),
{
    assert(ranges.push(x).drop_last() =~= ranges);
}

} // verus!
