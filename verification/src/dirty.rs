//! The table of dirty pages: which pages hold changes that their home on disk
//! lacks, and from which LSN on they have to be redone.
use dashmap::DashMap;
use vstd::prelude::*;

use crate::dash::{
    no_rows, rows_clear, rows_get, rows_insert, rows_len, rows_list, rows_new, rows_of,
    rows_remove_at, Row, RowKey,
};
use crate::ids::{Lsn, TenantId};
use crate::order::{
    distinct_keys, in_order, key_le, law_one_order, law_sorted, sort_by_keys, SortKey,
};

verus! {

/// Physical identity of a page in the table.
#[derive(Clone, Copy, Debug, PartialEq, Eq, PartialOrd, Ord, Hash, Structural)]
pub struct DirtyPageKey {
    /// The tenant that owns the page.
    pub tenant_id: TenantId,
    /// The store that the page belongs to.
    pub store_id: u16,
    /// The page's number in its store.
    pub page_no: u64,
}

/// What the table says of one page at one moment.
#[derive(Clone, Copy, Debug, PartialEq, Eq, Structural)]
pub struct DirtyPageSnapshot {
    /// The page.
    pub key: DirtyPageKey,
    /// The first LSN that dirtied the page since its last completed flush.
    pub rec_lsn: Lsn,
    /// The stamp of the last dirty mark. It is never given out twice by one
    /// table, so with the key it tells one marking from every other.
    pub dirty_gen: u64,
}

/// The row key of a page.
pub open spec fn row_key(key: DirtyPageKey) -> RowKey {
    (key.tenant_id.0, key.store_id, key.page_no)
}

/// The page of a row key.
pub open spec fn page_key(key: RowKey) -> DirtyPageKey {
    DirtyPageKey { tenant_id: TenantId(key.0), store_id: key.1, page_no: key.2 }
}

/// What the table says of the page under `key`.
pub open spec fn snapshot_of(rows: Map<RowKey, Row>, key: RowKey) -> DirtyPageSnapshot {
    DirtyPageSnapshot {
        key: page_key(key),
        rec_lsn: Lsn(rows[key].0),
        dirty_gen: rows[key].1,
    }
}

/// No row carries a generation that the clock has not given out.
pub open spec fn rows_behind(rows: Map<RowKey, Row>, clock: u64) -> bool {
    forall|key: RowKey| #[trigger] rows.contains_key(key) ==> rows[key].1 <= clock
}

/// The row after a mark that keeps the LSN of the first one.
pub open spec fn marked_row(rows: Map<RowKey, Row>, clock: u64, key: RowKey, lsn: u64) -> Row {
    (
        if rows.contains_key(key) {
            rows[key].0
        } else {
            lsn
        },
        (clock + 1) as u64,
    )
}

/// The row after a mark that covers `lsn`, be it below the LSN that is there.
pub open spec fn covered_row(rows: Map<RowKey, Row>, clock: u64, key: RowKey, lsn: u64) -> Row {
    (
        if rows.contains_key(key) && rows[key].0 < lsn {
            rows[key].0
        } else {
            lsn
        },
        (clock + 1) as u64,
    )
}

/// The rows after a flush of `key` at the generation `dirty_gen`.
pub open spec fn flushed_rows(rows: Map<RowKey, Row>, key: RowKey, dirty_gen: u64) -> Map<
    RowKey,
    Row,
> {
    if rows.contains_key(key) && rows[key].1 == dirty_gen {
        rows.remove(key)
    } else {
        rows
    }
}

/// The rows that a list of snapshots describes; of two with one key the later
/// one counts.
pub open spec fn listed_rows(list: Seq<DirtyPageSnapshot>) -> Map<RowKey, Row>
    decreases list.len(),
{
    if list.len() == 0 {
        no_rows()
    } else {
        listed_rows(list.drop_last()).insert(
            row_key(list.last().key),
            (list.last().rec_lsn.0, list.last().dirty_gen),
        )
    }
}

/// The greatest of `clock` and the generations of the list.
pub open spec fn listed_clock(list: Seq<DirtyPageSnapshot>, clock: u64) -> u64
    decreases list.len(),
{
    if list.len() == 0 {
        clock
    } else {
        let before = listed_clock(list.drop_last(), clock);
        if before < list.last().dirty_gen {
            list.last().dirty_gen
        } else {
            before
        }
    }
}

/// The sort key of a page: tenant, store, page number.
pub open spec fn sort_key(s: DirtyPageSnapshot) -> SortKey {
    (s.key.tenant_id.0, s.key.store_id as u64, s.key.page_no)
}

fn sort_key_of(s: &DirtyPageSnapshot) -> (k: SortKey)
    ensures
        k == sort_key(*s),
{
    (s.key.tenant_id.0, s.key.store_id as u64, s.key.page_no)
}

/// `list` names every row of `rows` once.
pub open spec fn lists_rows(list: Seq<DirtyPageSnapshot>, rows: Map<RowKey, Row>) -> bool {
    &&& forall|i: int|
        0 <= i < list.len() ==> rows.contains_key(row_key((#[trigger] list[i]).key)) && list[i]
            == snapshot_of(rows, row_key(list[i].key))
    &&& forall|i: int, j: int|
        0 <= i < j < list.len() ==> (#[trigger] list[i]).key != (#[trigger] list[j]).key
    &&& forall|key: RowKey| #[trigger]
        rows.contains_key(key) ==> list.contains(snapshot_of(rows, key))
}

/// The dirty pages. Its size follows the pages that are dirty now, not those
/// that ever were.
pub struct DirtyPageTable {
    entries: DashMap<RowKey, Row>,
    dirty_gen_clock: u64,
}

impl DirtyPageTable {
    /// The rows of the table.
    pub closed spec fn rows(self) -> Map<RowKey, Row> {
        rows_of(self.entries)
    }

    /// The last generation that was given out.
    pub closed spec fn clock(self) -> u64 {
        self.dirty_gen_clock
    }

    /// No row carries a generation that was not given out yet.
    pub open spec fn wf(self) -> bool {
        rows_behind(self.rows(), self.clock())
    }

    /// An empty table.
    pub fn new() -> (t: DirtyPageTable)
        ensures
            t.wf(),
            t.rows() == no_rows(),
            t.clock() == 0,
    {
        DirtyPageTable { entries: rows_new(), dirty_gen_clock: 0 }
    }

    fn next_dirty_gen(&mut self) -> (g: u64)
        requires
            old(self).clock() < u64::MAX,
        ensures
            g == old(self).clock() + 1,
            final(self).clock() == g,
            final(self).rows() == old(self).rows(),
    {
        self.dirty_gen_clock = self.dirty_gen_clock + 1;
        self.dirty_gen_clock
    }

    /// Whether there is a generation left for another mark.
    pub fn can_mark(&self) -> (r: bool)
        ensures
            r == (self.clock() < u64::MAX),
    {
        self.dirty_gen_clock < u64::MAX
    }

    /// Marks the page dirty: a first mark notes `op_lsn`, a later one keeps
    /// the LSN that is there. Either way the page gets a fresh generation.
    pub fn mark_dirty(&mut self, key: DirtyPageKey, op_lsn: Lsn) -> (r: DirtyPageSnapshot)
        requires
            old(self).wf(),
            old(self).clock() < u64::MAX,
        ensures
            final(self).wf(),
            final(self).clock() == old(self).clock() + 1,
            final(self).rows() == old(self).rows().insert(
                row_key(key),
                marked_row(old(self).rows(), old(self).clock(), row_key(key), op_lsn.0),
            ),
            r == snapshot_of(final(self).rows(), row_key(key)),
            r.key == key,
    {
        let at: RowKey = (key.tenant_id.0, key.store_id, key.page_no);
        let dirty_gen = self.next_dirty_gen();
        let rec_lsn: u64 = match rows_get(&self.entries, at) {
            Some(row) => row.0,
            None => op_lsn.0,
        };
        rows_insert(&mut self.entries, at, (rec_lsn, dirty_gen));
        DirtyPageSnapshot { key, rec_lsn: Lsn(rec_lsn), dirty_gen }
    }

    /// Marks the page dirty by an operation whose LSN may lie below the one
    /// that is there: the page's LSN is lowered to cover it.
    pub fn mark_dirty_covering(&mut self, key: DirtyPageKey, op_lsn: Lsn) -> (r: DirtyPageSnapshot)
        requires
            old(self).wf(),
            old(self).clock() < u64::MAX,
        ensures
            final(self).wf(),
            final(self).clock() == old(self).clock() + 1,
            final(self).rows() == old(self).rows().insert(
                row_key(key),
                covered_row(old(self).rows(), old(self).clock(), row_key(key), op_lsn.0),
            ),
            r == snapshot_of(final(self).rows(), row_key(key)),
            r.key == key,
    {
        let at: RowKey = (key.tenant_id.0, key.store_id, key.page_no);
        let dirty_gen = self.next_dirty_gen();
        let rec_lsn: u64 = match rows_get(&self.entries, at) {
            Some(row) => if row.0 < op_lsn.0 {
                row.0
            } else {
                op_lsn.0
            },
            None => op_lsn.0,
        };
        rows_insert(&mut self.entries, at, (rec_lsn, dirty_gen));
        DirtyPageSnapshot { key, rec_lsn: Lsn(rec_lsn), dirty_gen }
    }

    /// Replaces the rows by those of a checkpoint, generations included. The
    /// clock moves up to the highest of them and never back.
    pub fn restore(&mut self, snapshots: &[DirtyPageSnapshot])
        requires
            old(self).wf(),
        ensures
            final(self).wf(),
            final(self).rows() == listed_rows(snapshots@),
            final(self).clock() == listed_clock(snapshots@, old(self).clock()),
    {
        let ghost start = self.clock();
        rows_clear(&mut self.entries);
        let mut i: usize = 0;
        proof {
            assert(snapshots@.take(0) =~= Seq::<DirtyPageSnapshot>::empty());
        }
        while i < snapshots.len()
            invariant
                i <= snapshots@.len(),
                self.wf(),
                self.rows() == listed_rows(snapshots@.take(i as int)),
                self.clock() == listed_clock(snapshots@.take(i as int), start),
            decreases snapshots@.len() - i,
        {
            let s = snapshots[i];
            if self.dirty_gen_clock < s.dirty_gen {
                self.dirty_gen_clock = s.dirty_gen;
            }
            rows_insert(
                &mut self.entries,
                (s.key.tenant_id.0, s.key.store_id, s.key.page_no),
                (s.rec_lsn.0, s.dirty_gen),
            );
            proof {
                assert(snapshots@.take(i + 1).drop_last() =~= snapshots@.take(i as int));
            }
            i += 1;
        }
        assert(snapshots@.take(i as int) =~= snapshots@);
    }

    /// Every dirty page, in the order of tenant, store and page number.
    pub fn snapshot(&self) -> (out: Vec<DirtyPageSnapshot>)
        ensures
            lists_rows(out@, self.rows()),
            in_order(out@, |s: DirtyPageSnapshot| sort_key(s)),
    {
        let list = rows_list(&self.entries);
        let ghost rows = self.rows();
        let mut out: Vec<DirtyPageSnapshot> = Vec::new();
        let mut i: usize = 0;
        while i < list.len()
            invariant
                i <= list@.len(),
                out@.len() == i,
                forall|j: int|
                    0 <= j < list@.len() ==> rows.contains_pair((#[trigger] list@[j]).0, list@[j].1),
                forall|j: int| 0 <= j < i ==> #[trigger] out@[j] == snapshot_of(rows, list@[j].0),
            decreases list@.len() - i,
        {
            let (key, row) = list[i];
            out.push(
                DirtyPageSnapshot {
                    key: DirtyPageKey {
                        tenant_id: TenantId(key.0),
                        store_id: key.1,
                        page_no: key.2,
                    },
                    rec_lsn: Lsn(row.0),
                    dirty_gen: row.1,
                },
            );
            i += 1;
        }
        let ghost raw = out@;
        let ghost by = |s: DirtyPageSnapshot| sort_key(s);
        proof {
            assert forall|i: int, j: int| 0 <= i < j < raw.len() implies (#[trigger] raw[i]).key != (
            #[trigger] raw[j]).key by {
                assert(list@[i].0 != list@[j].0);
            }
            assert forall|key: RowKey| #[trigger] rows.contains_key(key) implies raw.contains(
                snapshot_of(rows, key),
            ) by {
                let i = choose|i: int| 0 <= i < list@.len() && (#[trigger] list@[i]).0 == key;
                assert(raw[i] == snapshot_of(rows, key));
            }
            assert(lists_rows(raw, rows));
        }
        sort_by_keys(
            &mut out,
            sort_key_of,
            Ghost(by),
        );
        proof {
            law_sorted(raw, by);
            lemma_lists_permuted(raw, out@, rows);
        }
        out
    }

    /// What the table says of one page; `None` where the page is clean.
    pub fn snapshot_key(&self, key: DirtyPageKey) -> (r: Option<DirtyPageSnapshot>)
        ensures
            r == if self.rows().contains_key(row_key(key)) {
                Some(snapshot_of(self.rows(), row_key(key)))
            } else {
                None
            },
    {
        match rows_get(&self.entries, (key.tenant_id.0, key.store_id, key.page_no)) {
            Some(row) => Some(DirtyPageSnapshot { key, rec_lsn: Lsn(row.0), dirty_gen: row.1 }),
            None => None,
        }
    }

    /// Removes a flushed page, but only if no mark came after the snapshot
    /// that the flush was made from. Says whether the page was removed.
    pub fn complete_flush(&mut self, flushed: DirtyPageSnapshot) -> (r: bool)
        requires
            old(self).wf(),
        ensures
            final(self).wf(),
            final(self).clock() == old(self).clock(),
            final(self).rows() == flushed_rows(
                old(self).rows(),
                row_key(flushed.key),
                flushed.dirty_gen,
            ),
            r == (old(self).rows().contains_key(row_key(flushed.key)) && old(self).rows()[row_key(
                flushed.key,
            )].1 == flushed.dirty_gen),
    {
        rows_remove_at(
            &mut self.entries,
            (flushed.key.tenant_id.0, flushed.key.store_id, flushed.key.page_no),
            flushed.dirty_gen,
        )
    }

    /// Where redo has to start: the lowest LSN of a dirty page, or
    /// `checkpoint_lsn` where every page is clean.
    pub fn redo_lsn(&self, checkpoint_lsn: Lsn) -> (r: Lsn)
        ensures
            self.rows() == no_rows() ==> r == checkpoint_lsn,
            forall|key: RowKey| #[trigger] self.rows().contains_key(key) ==> r.0
                <= self.rows()[key].0,
            self.rows() != no_rows() ==> exists|key: RowKey| #[trigger]
                self.rows().contains_key(key) && self.rows()[key].0 == r.0,
    {
        let list = rows_list(&self.entries);
        let ghost rows = self.rows();
        if list.len() == 0 {
            assert(rows =~= no_rows()) by {
                assert forall|key: RowKey| !rows.contains_key(key) by {
                    if rows.contains_key(key) {
                        let i = choose|i: int| 0 <= i < list@.len() && (#[trigger] list@[i]).0 == key;
                        assert(false);
                    }
                }
            }
            return checkpoint_lsn;
        }
        let mut low: u64 = list[0].1.0;
        let mut i: usize = 1;
        while i < list.len()
            invariant
                1 <= i <= list@.len(),
                forall|j: int| 0 <= j < i ==> low <= (#[trigger] list@[j]).1.0,
                exists|j: int| 0 <= j < i && (#[trigger] list@[j]).1.0 == low,
            decreases list@.len() - i,
        {
            if list[i].1.0 < low {
                low = list[i].1.0;
            }
            i += 1;
        }
        proof {
            let j = choose|j: int| 0 <= j < i && (#[trigger] list@[j]).1.0 == low;
            assert(rows.contains_key(list@[j].0));
            assert forall|key: RowKey| #[trigger] rows.contains_key(key) implies low
                <= rows[key].0 by {
                let k = choose|k: int| 0 <= k < list@.len() && (#[trigger] list@[k]).0 == key;
                assert(low <= list@[k].1.0);
            }
        }
        Lsn(low)
    }

    /// The number of dirty pages.
    pub fn len(&self) -> (n: usize)
        ensures
            n == self.rows().len(),
    {
        rows_len(&self.entries)
    }

    /// Whether every page is clean.
    pub fn is_empty(&self) -> (r: bool)
        ensures
            r == (self.rows() == no_rows()),
    {
        rows_len(&self.entries) == 0
    }
}

proof fn lemma_lists_permuted(
    a: Seq<DirtyPageSnapshot>,
    b: Seq<DirtyPageSnapshot>,
    rows: Map<RowKey, Row>,
)
    requires
        lists_rows(a, rows),
        a.to_multiset() == b.to_multiset(),
    ensures
        lists_rows(b, rows),
{
    broadcast use vstd::seq_lib::group_to_multiset_ensures;

    assert forall|s: DirtyPageSnapshot| a.contains(s) == b.contains(s) by {
        assert(a.contains(s) <==> a.to_multiset().count(s) > 0);
        assert(b.contains(s) <==> b.to_multiset().count(s) > 0);
    }
    assert forall|i: int| 0 <= i < b.len() implies rows.contains_key(
        row_key((#[trigger] b[i]).key),
    ) && b[i] == snapshot_of(rows, row_key(b[i].key)) by {
        assert(b.contains(b[i]));
        let j = choose|j: int| 0 <= j < a.len() && a[j] == b[i];
        assert(a[j] == b[i]);
    }
    assert(a.no_duplicates()) by {
        assert forall|i: int, j: int| 0 <= i < a.len() && 0 <= j < a.len() && i != j implies a[i]
            != a[j] by {
            if i < j {
                assert(a[i].key != a[j].key);
            } else {
                assert(a[j].key != a[i].key);
            }
        }
    }
    a.lemma_multiset_has_no_duplicates();
    assert(b.no_duplicates()) by {
        assert forall|s: DirtyPageSnapshot| b.to_multiset().contains(s) implies b.to_multiset().count(
            s,
        ) == 1 by {
            assert(a.to_multiset().contains(s));
        }
        b.lemma_multiset_has_no_duplicates_conv();
    }
    assert forall|i: int, j: int| 0 <= i < j < b.len() implies (#[trigger] b[i]).key != (
    #[trigger] b[j]).key by {
        if b[i].key == b[j].key {
            assert(b[i] == b[j]);
        }
    }
}

/// The rows alone decide what a snapshot lists, and in which order.
pub proof fn law_rows_decide_the_snapshot(
    a: Seq<DirtyPageSnapshot>,
    b: Seq<DirtyPageSnapshot>,
    rows: Map<RowKey, Row>,
)
    requires
        lists_rows(a, rows) && lists_rows(b, rows),
        in_order(a, |s: DirtyPageSnapshot| sort_key(s)),
        in_order(b, |s: DirtyPageSnapshot| sort_key(s)),
    ensures
        a == b,
{
    let key = |s: DirtyPageSnapshot| sort_key(s);
    lemma_list_of_rows(a, rows);
    lemma_list_of_rows(b, rows);
    assert forall|v: DirtyPageSnapshot| #[trigger] a.contains(v) <==> b.contains(v) by {}
    law_one_order(a, b, key);
}

proof fn lemma_list_of_rows(a: Seq<DirtyPageSnapshot>, rows: Map<RowKey, Row>)
    requires
        lists_rows(a, rows),
    ensures
        distinct_keys(a, |s: DirtyPageSnapshot| sort_key(s)),
        forall|v: DirtyPageSnapshot| #[trigger]
            a.contains(v) <==> rows.contains_key(row_key(v.key)) && v == snapshot_of(
                rows,
                row_key(v.key),
            ),
{
    assert forall|v: DirtyPageSnapshot| #[trigger]
        a.contains(v) <==> rows.contains_key(row_key(v.key)) && v == snapshot_of(
            rows,
            row_key(v.key),
        ) by {
        if a.contains(v) {
            let i = choose|i: int| 0 <= i < a.len() && a[i] == v;
            assert(rows.contains_key(row_key(a[i].key)));
        }
    }
    let key = |s: DirtyPageSnapshot| sort_key(s);
    assert forall|u: DirtyPageSnapshot, v: DirtyPageSnapshot|
        (#[trigger] a.contains(u) && #[trigger] a.contains(v) && key(u) == key(v)) implies u == v by {
        assert(row_key(u.key) == row_key(v.key));
    }
}

/// A page that was marked again after a snapshot stays in the table when the
/// flush of that snapshot completes.
pub proof fn law_mark_outlives_flush(rows: Map<RowKey, Row>, clock: u64, key: RowKey, lsn: u64)
    requires
        rows_behind(rows, clock),
        clock < u64::MAX,
        rows.contains_key(key),
    ensures
        ({
            let taken = snapshot_of(rows, key);
            let after = rows.insert(key, marked_row(rows, clock, key, lsn));
            flushed_rows(after, key, taken.dirty_gen) == after
        }),
{
}

/// A token is good once: a page that was flushed and then marked again is not
/// removed by the snapshot that the first flush used.
pub proof fn law_token_is_not_reused(rows: Map<RowKey, Row>, clock: u64, key: RowKey, lsn: u64)
    requires
        rows_behind(rows, clock),
        clock < u64::MAX,
        rows.contains_key(key),
    ensures
        ({
            let taken = snapshot_of(rows, key);
            let gone = flushed_rows(rows, key, taken.dirty_gen);
            let back = gone.insert(key, marked_row(gone, clock, key, lsn));
            &&& !gone.contains_key(key)
            &&& back[key].0 == lsn
            &&& flushed_rows(back, key, taken.dirty_gen) == back
        }),
{
}

/// A token that was handed out before a mark never matches the row that the
/// mark left, whatever happened to the table in between: generations only grow.
pub proof fn law_stale_token_never_matches(
    rows: Map<RowKey, Row>,
    clock: u64,
    key: RowKey,
    lsn: u64,
    token: u64,
)
    requires
        token <= clock < u64::MAX,
    ensures
        ({
            let marked = rows.insert(key, marked_row(rows, clock, key, lsn));
            let covered = rows.insert(key, covered_row(rows, clock, key, lsn));
            &&& marked[key].1 > token && flushed_rows(marked, key, token) == marked
            &&& covered[key].1 > token && flushed_rows(covered, key, token) == covered
        }),
{
}

/// A page is marked, flushed and marked again: the second mark has its own LSN
/// and a newer generation, the first snapshot no longer removes the page, and
/// the second one does.
pub proof fn law_page_is_marked_anew(
    rows: Map<RowKey, Row>,
    clock: u64,
    key: RowKey,
    first: u64,
    second: u64,
)
    requires
        rows_behind(rows, clock),
        clock + 1 < u64::MAX,
        !rows.contains_key(key),
    ensures
        ({
            let once = rows.insert(key, marked_row(rows, clock, key, first));
            let s1 = snapshot_of(once, key);
            let gone = flushed_rows(once, key, s1.dirty_gen);
            let twice = gone.insert(key, marked_row(gone, (clock + 1) as u64, key, second));
            let s2 = snapshot_of(twice, key);
            &&& s1.rec_lsn.0 == first
            &&& gone == rows
            &&& s2.rec_lsn.0 == second
            &&& s2.dirty_gen > s1.dirty_gen
            &&& flushed_rows(twice, key, s1.dirty_gen) == twice
            &&& flushed_rows(twice, key, s2.dirty_gen) == rows
        }),
{
    let once = rows.insert(key, marked_row(rows, clock, key, first));
    let s1 = snapshot_of(once, key);
    let gone = flushed_rows(once, key, s1.dirty_gen);
    assert(gone =~= rows);
    let twice = gone.insert(key, marked_row(gone, (clock + 1) as u64, key, second));
    let s2 = snapshot_of(twice, key);
    assert(flushed_rows(twice, key, s2.dirty_gen) =~= rows);
}

/// A covering mark never leaves the page's LSN above the operation's, nor
/// above the one that was there.
pub proof fn law_cover_keeps_the_earliest(
    rows: Map<RowKey, Row>,
    clock: u64,
    key: RowKey,
    lsn: u64,
)
    ensures
        covered_row(rows, clock, key, lsn).0 <= lsn,
        rows.contains_key(key) ==> covered_row(rows, clock, key, lsn).0 <= rows[key].0,
        covered_row(rows, clock, key, lsn).0 == lsn || (rows.contains_key(key) && covered_row(
            rows,
            clock,
            key,
            lsn,
        ).0 == rows[key].0),
{
}

/// A table that is restored from its own snapshot holds the same rows, and
/// its clock stays behind none of them.
pub proof fn law_restore_of_snapshot(
    list: Seq<DirtyPageSnapshot>,
    rows: Map<RowKey, Row>,
    clock: u64,
)
    requires
        lists_rows(list, rows),
    ensures
        listed_rows(list) == rows,
        rows_behind(rows, listed_clock(list, clock)),
        listed_clock(list, clock) >= clock,
{
    lemma_listed(list, clock);
    assert forall|key: RowKey| #[trigger] rows.contains_key(key) implies listed_rows(
        list,
    ).contains_key(key) && listed_rows(list)[key] == rows[key] by {
        let i = choose|i: int| 0 <= i < list.len() && list[i] == snapshot_of(rows, key);
        assert(list[i] == snapshot_of(rows, key));
        assert(row_key(list[i].key) == key);
    }
    assert(listed_rows(list) =~= rows);
}

proof fn lemma_listed(list: Seq<DirtyPageSnapshot>, clock: u64)
    requires
        forall|i: int, j: int|
            0 <= i < j < list.len() ==> (#[trigger] list[i]).key != (#[trigger] list[j]).key,
    ensures
        forall|i: int|
            0 <= i < list.len() ==> listed_rows(list).contains_pair(
                row_key((#[trigger] list[i]).key),
                (list[i].rec_lsn.0, list[i].dirty_gen),
            ),
        forall|key: RowKey| #[trigger]
            listed_rows(list).contains_key(key) ==> exists|i: int|
                0 <= i < list.len() && row_key((#[trigger] list[i]).key) == key,
        rows_behind(listed_rows(list), listed_clock(list, clock)),
        listed_clock(list, clock) >= clock,
    decreases list.len(),
{
    if list.len() > 0 {
        let front = list.drop_last();
        assert forall|i: int, j: int| 0 <= i < j < front.len() implies (#[trigger] front[i]).key
            != (#[trigger] front[j]).key by {
            assert(front[i] == list[i] && front[j] == list[j]);
        }
        lemma_listed(front, clock);
        let n = list.len() - 1;
        assert forall|i: int| 0 <= i < list.len() implies listed_rows(list).contains_pair(
            row_key((#[trigger] list[i]).key),
            (list[i].rec_lsn.0, list[i].dirty_gen),
        ) by {
            if i < n {
                assert(front[i] == list[i]);
                assert(list[i].key != list[n].key);
                assert(row_key(list[i].key) != row_key(list[n].key));
            }
        }
        assert forall|key: RowKey| #[trigger] listed_rows(list).contains_key(key) implies exists|
            i: int,
        | 0 <= i < list.len() && row_key((#[trigger] list[i]).key) == key by {
            if key == row_key(list[n].key) {
            } else {
                let i = choose|i: int| 0 <= i < front.len() && row_key((#[trigger] front[i]).key) == key;
                assert(list[i] == front[i]);
            }
        }
    }
}

/// A page and its row tell each other, and a snapshot says what the row says.
pub proof fn law_rows_name_pages(rows: Map<RowKey, Row>, key: DirtyPageKey, at: RowKey)
    ensures
        row_key(key).0 == key.tenant_id.0 && row_key(key).1 == key.store_id && row_key(key).2
            == key.page_no,
        page_key(row_key(key)) == key,
        row_key(page_key(at)) == at,
        snapshot_of(rows, at).key == page_key(at),
        snapshot_of(rows, at).rec_lsn.0 == rows[at].0,
        snapshot_of(rows, at).dirty_gen == rows[at].1,
{
}

/// A mark of a clean page notes the operation's LSN, one of a dirty page keeps the
/// LSN that is there; a covering mark takes the lower of the two. Each gets the
/// generation after the last.
pub proof fn law_marks(rows: Map<RowKey, Row>, clock: u64, key: RowKey, lsn: u64)
    requires
        clock < u64::MAX,
    ensures
        !rows.contains_key(key) ==> marked_row(rows, clock, key, lsn).0 == lsn && covered_row(
            rows,
            clock,
            key,
            lsn,
        ).0 == lsn,
        rows.contains_key(key) ==> marked_row(rows, clock, key, lsn).0 == rows[key].0,
        rows.contains_key(key) && rows[key].0 <= lsn ==> covered_row(rows, clock, key, lsn).0
            == rows[key].0,
        rows.contains_key(key) && rows[key].0 >= lsn ==> covered_row(rows, clock, key, lsn).0
            == lsn,
        marked_row(rows, clock, key, lsn).1 == clock + 1,
        covered_row(rows, clock, key, lsn).1 == clock + 1,
{
}

/// A flush takes out its page where the generation is that of the row, and no
/// other page ever.
pub proof fn law_flush(rows: Map<RowKey, Row>, key: RowKey, dirty_gen: u64, other: RowKey)
    ensures
        ({
            let after = flushed_rows(rows, key, dirty_gen);
            &&& after.contains_key(key) <==> rows.contains_key(key) && rows[key].1 != dirty_gen
            &&& other != key ==> (after.contains_key(other) <==> rows.contains_key(other))
            &&& after.contains_key(other) ==> after[other] == rows[other]
        }),
{
}

/// A restored table has a row for exactly the pages of the list, each as the last
/// entry for the page says; the clock is the highest of the old one and of the
/// generations in the list.
pub proof fn law_restored_rows(list: Seq<DirtyPageSnapshot>, clock: u64, key: DirtyPageKey)
    ensures
        listed_rows(list).contains_key(row_key(key)) <==> exists|i: int|
            0 <= i < list.len() && (#[trigger] list[i]).key == key,
        forall|i: int|
            0 <= i < list.len() && (#[trigger] list[i]).key == key && (forall|j: int|
                i < j < list.len() ==> (#[trigger] list[j]).key != key) ==> listed_rows(
                list,
            )[row_key(key)] == (list[i].rec_lsn.0, list[i].dirty_gen),
        listed_clock(list, clock) >= clock,
        forall|i: int|
            0 <= i < list.len() ==> listed_clock(list, clock) >= (#[trigger] list[i]).dirty_gen,
        listed_clock(list, clock) == clock || exists|i: int|
            0 <= i < list.len() && (#[trigger] list[i]).dirty_gen == listed_clock(list, clock),
    decreases list.len(),
{
    if list.len() > 0 {
        let front = list.drop_last();
        let n = list.len() - 1;
        law_restored_rows(front, clock, key);
        assert forall|i: int| 0 <= i < front.len() implies front[i] == #[trigger] list[i] by {}
        if row_key(list[n].key) == row_key(key) {
            assert(page_key(row_key(list[n].key)) == list[n].key);
            assert(page_key(row_key(key)) == key);
            assert(list[n].key == key);
        }
        if listed_rows(list).contains_key(row_key(key)) && list[n].key != key {
            let i = choose|i: int| 0 <= i < front.len() && (#[trigger] front[i]).key == key;
            assert(list[i].key == key);
        }
        if exists|i: int| 0 <= i < list.len() && (#[trigger] list[i]).key == key {
            let i = choose|i: int| 0 <= i < list.len() && (#[trigger] list[i]).key == key;
            if i < n {
                assert(front[i].key == key);
            }
        }
        assert forall|i: int|
            0 <= i < list.len() && (#[trigger] list[i]).key == key && (forall|j: int|
                i < j < list.len() ==> (#[trigger] list[j]).key != key) implies listed_rows(
            list,
        )[row_key(key)] == (list[i].rec_lsn.0, list[i].dirty_gen) by {
            if i < n {
                assert(list[n].key != key);
                assert(front[i].key == key);
                assert forall|j: int| i < j < front.len() implies (#[trigger] front[j]).key
                    != key by {
                    assert(list[j].key != key);
                }
            }
        }
        let before = listed_clock(front, clock);
        if before >= list[n].dirty_gen && before != clock {
            let i = choose|i: int| 0 <= i < front.len() && (#[trigger] front[i]).dirty_gen == before;
            assert(list[i].dirty_gen == before);
        }
        if before < list[n].dirty_gen {
            assert(list[n].dirty_gen == listed_clock(list, clock));
        }
    }
}

/// A snapshot lists each dirty page once and no clean one, by tenant, then by
/// store, then by page number.
pub proof fn law_snapshot_lists_the_dirty_pages(
    list: Seq<DirtyPageSnapshot>,
    rows: Map<RowKey, Row>,
    i: int,
    j: int,
    key: DirtyPageKey,
)
    requires
        lists_rows(list, rows),
        in_order(list, |s: DirtyPageSnapshot| sort_key(s)),
        0 <= i < j < list.len(),
    ensures
        rows.contains_key(row_key(key)) <==> exists|k: int|
            0 <= k < list.len() && (#[trigger] list[k]).key == key,
        list[i].rec_lsn.0 == rows[row_key(list[i].key)].0,
        list[i].dirty_gen == rows[row_key(list[i].key)].1,
        list[i].key.tenant_id.0 <= list[j].key.tenant_id.0,
        list[i].key.tenant_id == list[j].key.tenant_id ==> list[i].key.store_id
            <= list[j].key.store_id,
        list[i].key.tenant_id == list[j].key.tenant_id && list[i].key.store_id
            == list[j].key.store_id ==> list[i].key.page_no < list[j].key.page_no,
{
    let order = |s: DirtyPageSnapshot| sort_key(s);
    assert(key_le(order(list[i]), order(list[j])));
    assert(list[i].key != list[j].key);
    assert(list[i] == snapshot_of(rows, row_key(list[i].key)));
    if rows.contains_key(row_key(key)) {
        let s = snapshot_of(rows, row_key(key));
        assert(list.contains(s));
        let k = choose|k: int| 0 <= k < list.len() && list[k] == s;
        assert(page_key(row_key(key)) == key);
        assert(list[k].key == key);
    }
    if exists|k: int| 0 <= k < list.len() && (#[trigger] list[k]).key == key {
        let k = choose|k: int| 0 <= k < list.len() && (#[trigger] list[k]).key == key;
        assert(rows.contains_key(row_key(list[k].key)));
    }
}

} // verus!
