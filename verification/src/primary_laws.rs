//! What the primary index answers and keeps, said by its pages and by the lists
//! that it is given.
use vstd::prelude::*;

use crate::codec::{group_codec, le64, lemma_u64_read_back, u16_at, u64_at};
use crate::ids::PageId;
use crate::index_model::{
    ascending_keys, key_lt, lemma_rank_le_is, rank, IndexError, IndexFault, PageSlot, PrimaryKey,
};
use crate::index_nodes::{
    entries, leaf_high, leaf_low, leaf_sorted, lemma_leaf_halves, lemma_leaf_set,
    lemma_node_halves, node_high, node_low, node_sorted, pairs, seps_of, LeafEntry,
};
use crate::index_page::find_child_result;
use crate::mutation_log::{
    captured, empty_log, law_nothing_to_undo, law_rollback, rolled_back, undoes, IndexHandle,
    LogModel, PageStoreKind,
};
use crate::page::decode_header;
use crate::primary_index::{
    all_taken, committed, descent, emits, index_payload, index_wrote, kept_root,
    law_payload_round_trip, leaf_lookup, lemma_way_fuel, load_entry, load_states, loaded,
    loaded_count, map_answer, payload_result, root_fault, root_write, value_of, values_after,
    way_down, write_fault, writes, CommitCall, PrimaryIndex, SideChannelWrite, StagedEmit,
};
use crate::store_laws::law_capture;
use crate::tree_laws::{
    law_write_is_a_map_update, lemma_entries_halves, lemma_entry_for, lemma_leaf_with,
    lemma_node_with,
};
use crate::tree_log::{law_logged_pages_redo_a_write, redone};
use crate::tree_model::{
    changed, divided, index_step, leaf_step, node_step, node_with, noted, put_in_leaf, root_page,
    root_step, write_step, SplitInfo, TreeState, WriteOp,
};
use crate::tree_undo::law_notes_undo_a_write;

verus! {

// ---- going down -----------------------------------------------------------

/// One step of a lookup on its way down: what each kind of page leads to.
pub proof fn law_descent_step(pages: Map<u64, Seq<u8>>, id: u64, key: PrimaryKey, fuel: nat)
    ensures
        ({
            let b = pages[id];
            let whole = pages.contains_key(id) && b.len() == 8192;
            let headed = whole && decode_header(b) is Ok;
            let here = descent(pages, id, key, fuel);
            &&& !pages.contains_key(id) ==> here == Some(
                Err::<Option<PageSlot>, IndexError>(IndexError::MissingPage(PageId(id))),
            )
            &&& whole && decode_header(b) is Err ==> here == Some(
                Err::<Option<PageSlot>, IndexError>(IndexError::Core(decode_header(b)->Err_0)),
            )
            &&& headed && b[5] != 5 && b[5] != 6 ==> here == Some(
                Err::<Option<PageSlot>, IndexError>(
                    IndexError::CorruptPage {
                        page_id: PageId(u64_at(b, 8)),
                        reason: IndexFault::NotIndexPage { got: b[5] },
                    },
                ),
            )
            &&& headed && b[5] == 5 && u16_at(b, 36) <= 203 ==> here == Some(leaf_lookup(b, key))
            &&& headed && b[5] == 6 && u16_at(b, 36) <= 254 ==> match find_child_result(b, key) {
                Err(e) => here == Some(Err::<Option<PageSlot>, IndexError>(e)),
                Ok(child) => descent(pages, id, key, fuel + 1) == descent(
                    pages,
                    child.0,
                    key,
                    fuel,
                ),
            }
        }),
{
}

/// One step of a write on its way down: what each kind of page leads to.
pub proof fn law_way_step(pages: Map<u64, Seq<u8>>, id: u64, key: PrimaryKey, fuel: nat)
    ensures
        ({
            let b = pages[id];
            let whole = pages.contains_key(id) && b.len() == 8192;
            let headed = whole && decode_header(b) is Ok;
            let here = way_down(pages, id, key, fuel);
            &&& !pages.contains_key(id) ==> here == Some(
                Err::<(), IndexError>(IndexError::MissingPage(PageId(id))),
            )
            &&& whole && decode_header(b) is Err ==> here == Some(
                Err::<(), IndexError>(IndexError::Core(decode_header(b)->Err_0)),
            )
            &&& headed && b[5] != 5 && b[5] != 6 ==> here == Some(
                Err::<(), IndexError>(
                    IndexError::CorruptPage {
                        page_id: PageId(id),
                        reason: IndexFault::NotIndexPage { got: b[5] },
                    },
                ),
            )
            &&& headed && b[5] == 5 ==> here == Some(Ok::<(), IndexError>(()))
            &&& headed && b[5] == 6 && u16_at(b, 36) <= 254 ==> match find_child_result(b, key) {
                Err(e) => here == Some(Err::<(), IndexError>(e)),
                Ok(child) => way_down(pages, id, key, fuel + 1) == way_down(
                    pages,
                    child.0,
                    key,
                    fuel,
                ),
            }
        }),
{
}

// ---- the map --------------------------------------------------------------

/// What a write does to a map, and what it answers.
pub proof fn law_map_write(
    values: Map<PrimaryKey, PageSlot>,
    key: PrimaryKey,
    v: PageSlot,
    other: PrimaryKey,
)
    ensures
        values_after(values, key, WriteOp::Upsert(v)) == values.insert(key, v),
        values_after(values, key, WriteOp::Remove) == values.remove(key),
        values.contains_key(key) ==> values_after(values, key, WriteOp::Insert(v)) == values
            && map_answer(values, key, WriteOp::Insert(v)) == Err::<Option<PageSlot>, IndexError>(
            IndexError::DuplicateKey { key },
        ),
        !values.contains_key(key) ==> values_after(values, key, WriteOp::Insert(v))
            == values.insert(key, v) && map_answer(values, key, WriteOp::Insert(v)) == Ok::<
            Option<PageSlot>,
            IndexError,
        >(None),
        map_answer(values, key, WriteOp::Upsert(v)) == Ok::<Option<PageSlot>, IndexError>(
            value_of(values, key),
        ),
        map_answer(values, key, WriteOp::Remove) == Ok::<Option<PageSlot>, IndexError>(
            value_of(values, key),
        ),
        value_of(values, key) is Some <==> values.contains_key(key),
        values.contains_key(key) ==> value_of(values, key) == Some(values[key]),
{
}

// ---- loading --------------------------------------------------------------

/// A load brings in each key of the list that the index lacks, with the value that
/// comes first, and nothing else; keys that the index has keep their values.
pub proof fn law_load(
    values: Map<PrimaryKey, PageSlot>,
    list: Seq<(PrimaryKey, PageSlot)>,
    key: PrimaryKey,
)
    ensures
        loaded(values, list).contains_key(key) <==> values.contains_key(key) || exists|i: int|
            0 <= i < list.len() && (#[trigger] list[i]).0 == key,
        values.contains_key(key) ==> loaded(values, list)[key] == values[key],
    decreases list.len(),
{
    if list.len() > 0 {
        let front = list.drop_last();
        let n = list.len() - 1;
        law_load(values, front, key);
        if loaded(values, front).contains_key(key) && !values.contains_key(key) {
            let i = choose|i: int| 0 <= i < front.len() && (#[trigger] front[i]).0 == key;
            assert(list[i].0 == key);
        }
        if exists|i: int| 0 <= i < list.len() && (#[trigger] list[i]).0 == key {
            let i = choose|i: int| 0 <= i < list.len() && (#[trigger] list[i]).0 == key;
            if i < n {
                assert(front[i].0 == key);
            }
        }
        assert(list[n] == list.last());
    }
}

/// Of several values for one key that the index lacks the first is loaded.
pub proof fn law_first_value_is_loaded(
    values: Map<PrimaryKey, PageSlot>,
    list: Seq<(PrimaryKey, PageSlot)>,
    i: int,
)
    requires
        0 <= i < list.len(),
        !values.contains_key(list[i].0),
        forall|j: int| 0 <= j < i ==> (#[trigger] list[j]).0 != list[i].0,
    ensures
        loaded(values, list)[list[i].0] == list[i].1,
    decreases list.len(),
{
    let front = list.drop_last();
    let n = list.len() - 1;
    let key = list[i].0;
    law_load(values, front, key);
    if i < n {
        assert forall|j: int| 0 <= j < i implies (#[trigger] front[j]).0 != front[i].0 by {
            assert(front[j] == list[j]);
        }
        law_first_value_is_loaded(values, front, i);
        assert(front[i].0 == key);
    } else {
        assert forall|j: int| 0 <= j < front.len() implies (#[trigger] front[j]).0 != key by {
            assert(front[j] == list[j]);
        }
    }
}

/// A load counts the keys that it brings in: those of the list that the index lacks,
/// each once.
pub proof fn law_load_counts_new_keys(
    values: Map<PrimaryKey, PageSlot>,
    list: Seq<(PrimaryKey, PageSlot)>,
)
    ensures
        ({
            let new = list.map_values(|e: (PrimaryKey, PageSlot)| e.0).to_set().difference(
                values.dom(),
            );
            &&& new.finite()
            &&& loaded_count(values, list) == new.len()
        }),
    decreases list.len(),
{
    let f = |e: (PrimaryKey, PageSlot)| e.0;
    let keys = list.map_values(f);
    let new = keys.to_set().difference(values.dom());
    if list.len() == 0 {
        assert(new =~= Set::<PrimaryKey>::empty());
    } else {
        let front = list.drop_last();
        let n = list.len() - 1;
        let last = list.last().0;
        law_load_counts_new_keys(values, front);
        law_load(values, front, last);
        let before = front.map_values(f);
        let old = before.to_set().difference(values.dom());
        assert(keys =~= before.push(last));
        assert forall|k: PrimaryKey| #[trigger] keys.to_set().contains(k) <==> before.to_set().contains(
            k,
        ) || k == last by {
            if before.contains(k) {
                let i = choose|i: int| 0 <= i < before.len() && before[i] == k;
                assert(keys[i] == k);
            }
            if keys.contains(k) {
                let i = choose|i: int| 0 <= i < keys.len() && keys[i] == k;
                if i < n {
                    assert(before[i] == k);
                }
            }
            assert(keys[n] == last);
        }
        assert(before.contains(last) <==> exists|i: int|
            0 <= i < front.len() && (#[trigger] front[i]).0 == last) by {
            if before.contains(last) {
                let i = choose|i: int| 0 <= i < before.len() && before[i] == last;
                assert(front[i].0 == last);
            }
            if exists|i: int| 0 <= i < front.len() && (#[trigger] front[i]).0 == last {
                let i = choose|i: int| 0 <= i < front.len() && (#[trigger] front[i]).0 == last;
                assert(before[i] == last);
            }
        }
        if loaded(values, front).contains_key(last) {
            assert(new =~= old);
        } else {
            assert(new =~= old.insert(last));
            assert(!old.contains(last));
        }
    }
}

// ---- what is kept and logged ----------------------------------------------

/// The system record of the root: its tenant is the system, its key is one, its
/// value is the number of the page in eight bytes, and it is read back from there.
/// A value of another length, or zero, names no page.
pub proof fn law_root_record(root: u64, value: Option<Seq<u8>>)
    ensures
        root_write(root).0 == 0,
        root_write(root).1 == 1,
        root_write(root).2 matches Some(b) && b.len() == 8 && u64_at(b, 0) == root,
        root != 0 ==> kept_root(root_write(root).2) == Some(PageId(root)),
        kept_root(root_write(0).2) is None,
        value matches Some(b) ==> (kept_root(value) is Some <==> b.len() == 8 && u64_at(b, 0) != 0),
        kept_root(value) is Some ==> kept_root(value) == Some(PageId(u64_at(value->Some_0, 0))),
        value is None ==> kept_root(value) is None,
{
    broadcast use group_codec;

    assert forall|j: int| 0 <= j < 8 implies #[trigger] le64(root)[0 + j] == le64(root)[j] by {}
    lemma_u64_read_back(le64(root), 0, root);
    lemma_u64_read_back(le64(0), 0, 0);
}

/// The bytes that log a page, and which bytes are read as a logged page.
pub proof fn law_logged_page(page_id: u64, tenant: u64, page: Seq<u8>, b: Seq<u8>)
    requires
        page.len() == 8192,
    ensures
        ({
            let c = index_payload(page_id, tenant, page);
            &&& c.len() == 8208
            &&& u64_at(c, 0) == page_id
            &&& u64_at(c, 8) == tenant
            &&& c.subrange(16, 8208) == page
        }),
        payload_result(b) is Ok <==> b.len() == 8208,
        payload_result(b) matches Ok((id, t, p)) ==> id == u64_at(b, 0) && t == u64_at(b, 8) && p
            == b.subrange(16, 8208),
        payload_result(b) matches Err(e) ==> e == (IndexError::CorruptPage {
            page_id: PageId(0),
            reason: IndexFault::PayloadLength { len: b.len() as usize },
        }),
{
    broadcast use group_codec;

    law_payload_round_trip(page_id, tenant, page);
    let c = index_payload(page_id, tenant, page);
    assert(c.subrange(16, 8208) =~= page);
    if b.len() == 8208 {
        assert(b.skip(16) =~= b.subrange(16, 8208));
    }
}

/// What lists of logged pages and of system writes say.
pub proof fn law_staged_lists(s: Seq<StagedEmit>, w: Seq<SideChannelWrite>, i: int, j: int)
    requires
        0 <= i < s.len(),
        0 <= j < w.len(),
    ensures
        emits(s).len() == s.len(),
        emits(s)[i].0 == s[i].page_id.0 && emits(s)[i].1 == s[i].bytes@,
        writes(w).len() == w.len(),
        writes(w)[j].0 == w[j].tenant_id.0 && writes(w)[j].1 == w[j].key,
        writes(w)[j].2 is Some <==> w[j].value is Some,
        w[j].value matches Some(v) ==> writes(w)[j].2 == Some(v@),
{
}

// ---- steps of a write -----------------------------------------------------

/// A page that is changed is logged behind the others, and no other page changes; a
/// page that is noted is noted as it is.
pub proof fn law_changed_page(s: TreeState, id: u64, b: Seq<u8>, other: u64)
    ensures
        ({
            let t = changed(s, id, b);
            &&& t.pages == s.pages.insert(id, b)
            &&& t.staged == s.staged.push((id, b))
            &&& t.next == s.next
            &&& t.log == s.log
        }),
        ({
            let t = noted(s, id);
            &&& t.pages == s.pages
            &&& t.staged == s.staged
            &&& t.next == s.next
            &&& captured(t.log, PageStoreKind::Primary, id)
        }),
{
    law_capture(s.log, PageStoreKind::Primary, id, s.pages[id]);
}

/// A page that is split keeps its number; the new page takes the next number, is
/// noted as new, and is logged before the old one.
pub proof fn law_divided_page(s: TreeState, id: u64, low: Seq<u8>, high: Seq<u8>)
    requires
        s.next < u64::MAX,
        id != s.next,
    ensures
        ({
            let t = divided(s, id, low, high);
            &&& t.pages[id] == low
            &&& t.pages[s.next] == high
            &&& forall|m: u64|
                m != id && m != s.next ==> (#[trigger] t.pages.contains_key(m)
                    <==> s.pages.contains_key(m)) && t.pages[m] == s.pages[m]
            &&& t.next == s.next + 1
            &&& t.staged == s.staged.push((s.next, high)).push((id, low))
            &&& t.log.fresh == s.log.fresh.push((PageStoreKind::Primary, s.next))
            &&& t.log.captures == s.log.captures
            &&& t.log.roots == s.log.roots
        }),
{
}

/// A new root takes the next number, is noted as new behind the old root, and is
/// logged behind the other pages.
pub proof fn law_new_root(s: TreeState, root: u64, split: SplitInfo)
    requires
        s.next < u64::MAX,
    ensures
        ({
            let t = root_step(s, root, split);
            &&& t.next == s.next + 1
            &&& t.pages == s.pages.insert(s.next, root_page(s.next, root, split))
            &&& t.staged == s.staged.push((s.next, root_page(s.next, root, split)))
            &&& t.log.roots == s.log.roots.push((IndexHandle(0), root))
            &&& t.log.fresh == s.log.fresh.push((PageStoreKind::Primary, s.next))
            &&& t.log.captures == s.log.captures
        }),
{
}

/// A write is reported as it was made: the index says afterwards what the write
/// makes of the map; the pages that are to be logged turn the pages before it into
/// those after it; the notes lead back; and a system write is added for a new root,
/// and only for one.
pub proof fn law_reported_write(
    before: PrimaryIndex,
    log_before: LogModel,
    writes_before: Seq<(u64, u64, Option<Seq<u8>>)>,
    key: PrimaryKey,
    op: WriteOp,
    after: PrimaryIndex,
    log_after: LogModel,
    writes_after: Seq<(u64, u64, Option<Seq<u8>>)>,
    r: Result<(Option<PageSlot>, Seq<(u64, Seq<u8>)>), IndexError>,
)
    requires
        before.wf(),
        before.has_room(),
        undoes(PageStoreKind::Primary, before.pages(), before.pages(), log_before),
        index_wrote(
            before,
            log_before,
            writes_before,
            key,
            op,
            after,
            log_after,
            writes_after,
            r,
        ),
    ensures
        r is Err <==> op is Insert && before.values().contains_key(key),
        r is Err ==> after.pages() == before.pages() && after.values() == before.values(),
        r matches Ok((previous, staged)) ==> {
            &&& previous == value_of(before.values(), key)
            &&& after.values() == values_after(before.values(), key, op)
            &&& redone(before.pages(), staged) == after.pages()
        },
        rolled_back(after.pages(), PageStoreKind::Primary, log_after) == before.pages(),
        after.root_page() == before.root_page() ==> writes_after == writes_before
            && log_after.roots == log_before.roots,
        after.root_page() != before.root_page() ==> {
            &&& writes_after.len() == writes_before.len() + 1
            &&& writes_after.drop_last() == writes_before
            &&& writes_after.last().0 == 0
            &&& writes_after.last().1 == 1
            &&& writes_after.last().2 == Some(le64(after.root_page()))
            &&& log_after.roots == log_before.roots.push((IndexHandle(0), before.root_page()))
        },
{
    let s = before.state(Seq::empty(), log_before);
    let h = before.height();
    let root = before.root_page();
    law_write_is_a_map_update(s, before.levels(), root, h, key, op);
    law_logged_pages_redo_a_write(s, before.levels(), root, h, key, op);
    law_notes_undo_a_write(before.pages(), s, before.levels(), root, h, key, op);
    law_rollback(PageStoreKind::Primary, before.pages(), after.pages(), log_after);
    if after.root_page() != root {
        assert(writes_after.drop_last() =~= writes_before);
    }
    if r is Err {
        assert(after.values() =~= before.values());
    }
}

/// Of several logged versions of a page the last one counts, and a page that was
/// not logged stays as it was.
pub proof fn law_redone_pages(
    pages: Map<u64, Seq<u8>>,
    logged: Seq<(u64, Seq<u8>)>,
    i: int,
    page: u64,
)
    requires
        0 <= i < logged.len(),
        forall|j: int| i < j < logged.len() ==> (#[trigger] logged[j]).0 != logged[i].0,
    ensures
        redone(pages, logged).contains_pair(logged[i].0, logged[i].1),
        (forall|j: int| 0 <= j < logged.len() ==> (#[trigger] logged[j]).0 != page) ==> (redone(
            pages,
            logged,
        ).contains_key(page) <==> pages.contains_key(page)) && redone(pages, logged)[page]
            == pages[page],
    decreases logged.len(),
{
    let front = logged.drop_last();
    if i < front.len() {
        assert forall|j: int| i < j < front.len() implies (#[trigger] front[j]).0 != front[i].0 by {
            assert(front[j] == logged[j]);
        }
        assert(logged[logged.len() - 1].0 != logged[i].0);
        law_redone_pages(pages, front, i, page);
    }
    if forall|j: int| 0 <= j < logged.len() ==> (#[trigger] logged[j]).0 != page {
        lemma_not_logged(pages, logged, page);
    }
}

proof fn lemma_not_logged(pages: Map<u64, Seq<u8>>, logged: Seq<(u64, Seq<u8>)>, page: u64)
    requires
        forall|j: int| 0 <= j < logged.len() ==> (#[trigger] logged[j]).0 != page,
    ensures
        redone(pages, logged).contains_key(page) <==> pages.contains_key(page),
        redone(pages, logged)[page] == pages[page],
    decreases logged.len(),
{
    if logged.len() > 0 {
        let front = logged.drop_last();
        assert forall|j: int| 0 <= j < front.len() implies (#[trigger] front[j]).0 != page by {
            assert(front[j] == logged[j]);
        }
        assert(logged[logged.len() - 1].0 != page);
        lemma_not_logged(pages, front, page);
    }
}

// ---- faults ---------------------------------------------------------------

/// When a root is missing: its number is zero, or there is no page under it.
pub proof fn law_root_faults(index: PrimaryIndex)
    ensures
        root_fault(index) is None <==> index.root_page() != 0 && index.pages().contains_key(
            index.root_page(),
        ),
        index.root_page() == 0 ==> root_fault(index) == Some(
            IndexError::CorruptPage { page_id: PageId(0), reason: IndexFault::NoRoot },
        ),
        index.root_page() != 0 && root_fault(index) is Some ==> root_fault(index) == Some(
            IndexError::MissingPage(PageId(index.root_page())),
        ),
{
}

/// Why a write is refused before it changes anything: the root is not known, or the
/// way from it to the leaf ends at a fault, which is the one reported.
pub proof fn law_write_faults(index: PrimaryIndex, key: PrimaryKey, fuel: nat)
    ensures
        index.root_page() == 0 ==> write_fault(index, key) == Some(
            IndexError::CorruptPage { page_id: PageId(0), reason: IndexFault::NoRoot },
        ),
        index.root_page() != 0 ==> (way_down(index.pages(), index.root_page(), key, fuel)
            matches Some(Err(e)) ==> write_fault(index, key) == Some(e)),
        index.root_page() != 0 && way_down(index.pages(), index.root_page(), key, fuel) == Some(
            Ok::<(), IndexError>(()),
        ) ==> write_fault(index, key) is None,
{
    if index.root_page() != 0 && way_down(index.pages(), index.root_page(), key, fuel) is Some {
        let chosen = choose|f: nat| #[trigger]
            way_down(index.pages(), index.root_page(), key, f) is Some;
        if chosen <= fuel {
            lemma_way_fuel(index.pages(), index.root_page(), key, chosen, fuel);
        } else {
            lemma_way_fuel(index.pages(), index.root_page(), key, fuel, chosen);
        }
    }
}

// ---- logged loads ---------------------------------------------------------

/// A commit of a load holds what its entry wrote: putting the committed pages in
/// their places turns the pages before the entry into those after it, the key has
/// the entry's value, and a new root comes with its system write.
pub proof fn law_commit_holds_the_write<E>(
    call: CommitCall<E>,
    before: PrimaryIndex,
    entry: (PrimaryKey, PageSlot),
    after: PrimaryIndex,
)
    requires
        before.wf(),
        before.has_room(),
        committed(call, before, entry, after),
    ensures
        redone(before.pages(), call.0) == after.pages(),
        after.values() == before.values().insert(entry.0, entry.1),
        !before.values().contains_key(entry.0),
        after.root_page() == before.root_page() ==> call.1.len() == 0,
        after.root_page() != before.root_page() ==> call.1 == seq![
            (0u64, 1u64, Some(le64(after.root_page()))),
        ],
{
    let notes = choose|notes: LogModel| #[trigger]
        index_wrote(
            before,
            empty_log(),
            Seq::empty(),
            entry.0,
            WriteOp::Upsert(entry.1),
            after,
            notes,
            call.1,
            Ok((None, call.0)),
        );
    law_nothing_to_undo(PageStoreKind::Primary, before.pages());
    law_reported_write(
        before,
        empty_log(),
        Seq::empty(),
        entry.0,
        WriteOp::Upsert(entry.1),
        after,
        notes,
        call.1,
        Ok((None, call.0)),
    );
    if after.root_page() != before.root_page() {
        assert(call.1 =~= seq![(0u64, 1u64, Some(le64(after.root_page())))]);
    }
}

/// A load goes from entry to entry: an entry whose key is there changes nothing, and
/// every other one has its own commit, in the order of the entries.
pub proof fn law_load_goes_entry_by_entry<E>(
    start: PrimaryIndex,
    list: Seq<(PrimaryKey, PageSlot)>,
    log: Seq<CommitCall<E>>,
    states: Seq<PrimaryIndex>,
    i: int,
)
    requires
        load_states(start, list, log, states),
        0 <= i < states.len() - 1,
    ensures
        states[0] == start,
        states.len() <= list.len() + 1,
        log.len() == loaded_count(start.values(), list.take(states.len() - 1)),
        states[i + 1].values() == loaded(start.values(), list.take(i + 1)),
        states[i].values().contains_key(list[i].0) ==> states[i + 1] == states[i],
        !states[i].values().contains_key(list[i].0) ==> {
            let n = loaded_count(start.values(), list.take(i));
            &&& 0 <= n < log.len()
            &&& committed(log[n], states[i], list[i], states[i + 1])
        },
{
    assert(states[i + 1].values() == loaded(start.values(), list.take(i + 1)));
    assert(load_entry(
        log,
        loaded_count(start.values(), list.take(i)),
        states[i],
        list[i],
        states[i + 1],
    ));
}

/// Commits that were all taken were taken one by one.
pub proof fn law_commits_taken<E>(log: Seq<CommitCall<E>>, n: int, i: int)
    requires
        all_taken(log, n),
        0 <= i < n,
    ensures
        log[i].2 is Ok,
{
}

// ---- one step of a write --------------------------------------------------

/// A new entry goes into its leaf. The leaf is split where it holds 203 entries
/// already, and nowhere else: the upper half goes to the next page number, its first
/// key goes up, and the entry goes to the half on its side of that key. The pages
/// that changed are logged as they are afterwards, the new one first.
pub proof fn law_leaf_takes_in(s: TreeState, id: u64, key: PrimaryKey, value: PageSlot)
    requires
        leaf_sorted(s.pages[id]),
        forall|i: int|
            0 <= i < entries(s.pages[id]).len() ==> (#[trigger] entries(s.pages[id])[i]).key != key,
        s.next < u64::MAX,
        id != s.next,
    ensures
        ({
            let b = s.pages[id];
            let n = u16_at(b, 36) as int;
            let (t, split) = put_in_leaf(s, id, key, value);
            &&& split is None <==> n < 203
            &&& split is None ==> {
                &&& t.pages == s.pages.insert(id, t.pages[id])
                &&& u16_at(t.pages[id], 36) == n + 1
                &&& t.staged == s.staged.push((id, t.pages[id]))
                &&& t.next == s.next
                &&& t.log == s.log
            }
            &&& split matches Some(sp) ==> {
                &&& sp.promoted_key == entries(b)[n / 2].key
                &&& sp.new_right_page.0 == s.next
                &&& t.next == s.next + 1
                &&& t.pages == s.pages.insert(id, t.pages[id]).insert(s.next, t.pages[s.next])
                &&& t.staged == s.staged.push((s.next, t.pages[s.next])).push((id, t.pages[id]))
                &&& key_lt(key, entries(b)[n / 2].key) ==> u16_at(t.pages[id], 36) == n / 2 + 1
                    && u16_at(t.pages[s.next], 36) == n - n / 2
                &&& !key_lt(key, entries(b)[n / 2].key) ==> u16_at(t.pages[id], 36) == n / 2
                    && u16_at(t.pages[s.next], 36) == n - n / 2 + 1
            }
        }),
{
    let b = s.pages[id];
    let n = u16_at(b, 36) as int;
    lemma_entry_for(entries(b), key);
    if n < 203 {
        lemma_leaf_with(b, key, value);
    } else {
        lemma_leaf_halves(b, s.next);
        lemma_entries_halves(entries(b), n / 2);
        lemma_entry_for(entries(leaf_low(b)), key);
        lemma_entry_for(entries(leaf_high(b, s.next)), key);
        lemma_leaf_with(leaf_low(b), key, value);
        lemma_leaf_with(leaf_high(b, s.next), key, value);
    }
}

/// A write to an entry that its leaf holds. An insert over a live value is refused
/// and changes no page. Otherwise the entry is overwritten, the leaf is logged, and
/// the live value that was there is given back; no page is split.
pub proof fn law_entry_is_overwritten(
    s: TreeState,
    id: u64,
    key: PrimaryKey,
    value: PageSlot,
    i: int,
)
    requires
        leaf_sorted(s.pages[id]),
        0 <= i < entries(s.pages[id]).len(),
        entries(s.pages[id])[i].key == key,
    ensures
        ({
            let list = entries(s.pages[id]);
            let live = if list[i].dead {
                None
            } else {
                Some(list[i].value)
            };
            let (t, r) = leaf_step(s, id, key, WriteOp::Insert(value));
            let (u, q) = leaf_step(s, id, key, WriteOp::Upsert(value));
            let (v, p) = leaf_step(s, id, key, WriteOp::Remove);
            let put = LeafEntry { key, value, dead: false };
            let buried = LeafEntry { key, value: list[i].value, dead: true };
            &&& t.next == s.next && u.next == s.next && v.next == s.next
            &&& live is Some ==> r == Err::<(Option<PageSlot>, Option<SplitInfo>), IndexError>(
                IndexError::DuplicateKey { key },
            ) && t.pages == s.pages && t.staged == s.staged
            &&& live is None ==> r == Ok::<(Option<PageSlot>, Option<SplitInfo>), IndexError>(
                (None, None),
            ) && t.pages == s.pages.insert(id, t.pages[id]) && t.staged == s.staged.push(
                (id, t.pages[id]),
            ) && entries(t.pages[id]) == list.update(i, put)
            &&& q == Ok::<(Option<PageSlot>, Option<SplitInfo>), IndexError>((live, None))
            &&& u.pages == s.pages.insert(id, u.pages[id])
            &&& u.staged == s.staged.push((id, u.pages[id]))
            &&& entries(u.pages[id]) == list.update(i, put)
            &&& p == Ok::<(Option<PageSlot>, Option<SplitInfo>), IndexError>((live, None))
            &&& v.pages == s.pages.insert(id, v.pages[id])
            &&& v.staged == s.staged.push((id, v.pages[id]))
            &&& live is Some ==> entries(v.pages[id]) == list.update(i, buried)
            &&& live is None ==> v.pages[id] == s.pages[id]
        }),
{
    let b = s.pages[id];
    lemma_entry_for(entries(b), key);
    lemma_leaf_set(b, i, value, false);
    lemma_leaf_set(b, i, entries(b)[i].value, true);
}

/// A write to a key that its leaf does not hold. A removal leaves the pages as they
/// are and logs the leaf; the others put the new entry into the leaf, once it was
/// noted. There is no value to give back.
pub proof fn law_absent_entry_is_put(s: TreeState, id: u64, key: PrimaryKey, value: PageSlot)
    requires
        leaf_sorted(s.pages[id]),
        forall|i: int|
            0 <= i < entries(s.pages[id]).len() ==> (#[trigger] entries(s.pages[id])[i]).key != key,
        s.pages.contains_key(id),
    ensures
        ({
            let (v, p) = leaf_step(s, id, key, WriteOp::Remove);
            let (t, split) = put_in_leaf(noted(s, id), id, key, value);
            let put = (t, Ok::<(Option<PageSlot>, Option<SplitInfo>), IndexError>((None, split)));
            &&& p == Ok::<(Option<PageSlot>, Option<SplitInfo>), IndexError>((None, None))
            &&& v.pages == s.pages
            &&& v.next == s.next
            &&& v.staged == s.staged.push((id, s.pages[id]))
            &&& leaf_step(s, id, key, WriteOp::Insert(value)) == put
            &&& leaf_step(s, id, key, WriteOp::Upsert(value)) == put
        }),
{
    lemma_entry_for(entries(s.pages[id]), key);
    assert(s.pages.insert(id, s.pages[id]) =~= s.pages);
}

/// An inner page takes in the split of a child. It is split itself where it holds
/// 254 pairs already, and nowhere else: the key in the middle goes up, and the new
/// pair goes to the half on its side of that key.
pub proof fn law_inner_page_takes_in(s: TreeState, id: u64, split: SplitInfo)
    requires
        node_sorted(s.pages[id]),
        s.next < u64::MAX,
        id != s.next,
    ensures
        ({
            let b = s.pages[id];
            let n = u16_at(b, 36) as int;
            let pair = (split.promoted_key, split.new_right_page.0);
            let (t, up) = node_step(s, id, split);
            &&& up is None <==> n < 254
            &&& up is None ==> {
                &&& t.pages == s.pages.insert(id, t.pages[id])
                &&& pairs(t.pages[id]).len() == n + 1
                &&& pairs(t.pages[id]).contains(pair)
                &&& t.staged == s.staged.push((id, t.pages[id]))
                &&& t.next == s.next
            }
            &&& up matches Some(sp) ==> {
                &&& sp.promoted_key == pairs(b)[n / 2].0
                &&& sp.new_right_page.0 == s.next
                &&& t.next == s.next + 1
                &&& t.pages == s.pages.insert(id, t.pages[id]).insert(s.next, t.pages[s.next])
                &&& t.staged == s.staged.push((s.next, t.pages[s.next])).push((id, t.pages[id]))
                &&& key_lt(split.promoted_key, sp.promoted_key) ==> pairs(t.pages[id]).contains(
                    pair,
                ) && pairs(t.pages[id]).len() == n / 2 + 1
                &&& !key_lt(split.promoted_key, sp.promoted_key) ==> pairs(
                    t.pages[s.next],
                ).contains(pair) && pairs(t.pages[s.next]).len() == n - n / 2
            }
        }),
{
    let b = s.pages[id];
    let n = u16_at(b, 36) as int;
    let pair = (split.promoted_key, split.new_right_page.0);
    if n < 254 {
        lemma_taken_in(b, split);
    } else {
        lemma_node_halves(b, s.next);
        let low = node_low(b);
        let high = node_high(b, s.next);
        assert(ascending_keys(seps_of(pairs(low)))) by {
            assert forall|i: int, j: int| 0 <= i < j < seps_of(pairs(low)).len() implies key_lt(
                #[trigger] seps_of(pairs(low))[i],
                #[trigger] seps_of(pairs(low))[j],
            ) by {
                assert(key_lt(seps_of(pairs(b))[i], seps_of(pairs(b))[j]));
            }
        }
        assert(ascending_keys(seps_of(pairs(high)))) by {
            assert forall|i: int, j: int| 0 <= i < j < seps_of(pairs(high)).len() implies key_lt(
                #[trigger] seps_of(pairs(high))[i],
                #[trigger] seps_of(pairs(high))[j],
            ) by {
                assert(key_lt(seps_of(pairs(b))[i + n / 2 + 1], seps_of(pairs(b))[j + n / 2 + 1]));
            }
        }
        lemma_taken_in(low, split);
        lemma_taken_in(high, split);
    }
}

proof fn lemma_taken_in(b: Seq<u8>, split: SplitInfo)
    requires
        node_sorted(b),
        u16_at(b, 36) < 254,
    ensures
        pairs(node_with(b, split)).len() == u16_at(b, 36) + 1,
        pairs(node_with(b, split)).contains((split.promoted_key, split.new_right_page.0)),
{
    lemma_node_with(b, split);
    let p = rank(seps_of(pairs(b)), split.promoted_key);
    assert(pairs(node_with(b, split))[p] == (split.promoted_key, split.new_right_page.0));
}

/// A write goes down to the child of its key, and a page takes in what its child was
/// split into. A page whose child was not split stays as it is.
pub proof fn law_write_goes_down(
    s: TreeState,
    id: u64,
    h: nat,
    key: PrimaryKey,
    op: WriteOp,
    i: int,
)
    requires
        node_sorted(s.pages[id]),
        0 <= i <= u16_at(s.pages[id], 36),
        i > 0 ==> !key_lt(key, pairs(s.pages[id])[i - 1].0),
        i < u16_at(s.pages[id], 36) ==> key_lt(key, pairs(s.pages[id])[i].0),
    ensures
        ({
            let child = if i == 0 {
                u64_at(s.pages[id], 40)
            } else {
                pairs(s.pages[id])[i - 1].1
            };
            let (t, r) = write_step(s, child, h, key, op);
            let (u, q) = write_step(s, id, h + 1, key, op);
            &&& write_step(s, id, 0, key, op) == leaf_step(s, id, key, op)
            &&& r is Err ==> u == t && q == r
            &&& r matches Ok((previous, split)) ==> {
                &&& q is Ok
                &&& q->Ok_0.0 == previous
                &&& split is None ==> u == t && q->Ok_0.1 is None
                &&& split matches Some(sp) ==> (u, q->Ok_0.1) == node_step(t, id, sp)
            }
        }),
{
    let seps = seps_of(pairs(s.pages[id]));
    if i > 0 {
        assert(seps[i - 1] == pairs(s.pages[id])[i - 1].0);
    }
    if i < seps.len() {
        assert(seps[i] == pairs(s.pages[id])[i].0);
    }
    lemma_rank_le_is(seps, key, i);
}

/// A write to the tree is the write below its root; where that splits the root, a
/// new root takes the next page number, and no other write moves the root.
pub proof fn law_root_moves_for_a_split(
    s: TreeState,
    root: u64,
    h: nat,
    key: PrimaryKey,
    op: WriteOp,
)
    ensures
        ({
            let (t, r) = write_step(s, root, h, key, op);
            let (u, top, out) = index_step(s, root, h, key, op);
            &&& r matches Err(e) ==> u == t && top == root && out == Err::<
                Option<PageSlot>,
                IndexError,
            >(e)
            &&& r matches Ok((previous, split)) ==> {
                &&& out == Ok::<Option<PageSlot>, IndexError>(previous)
                &&& split is None ==> u == t && top == root
                &&& split matches Some(sp) ==> u == root_step(t, root, sp) && top == t.next
            }
        }),
{
}

} // verus!
