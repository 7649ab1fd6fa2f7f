//! What holds of redo as a whole: an operation takes effect once.
use vstd::prelude::*;

use crate::checksum::crc32c_of;
use crate::codec::{
    group_codec, le16, le64, lemma_u16_at_same, lemma_u32_at_same, lemma_u64_at_same, splice,
    u16_at, u64_at, zeroed,
};
use crate::delta::{
    alloc_header, alloc_result, delta_fits, delta_outcome, delta_result, empty_body, present_lsn,
    recovery_fault, recovery_fits, recovery_result, target_fault, unwritten, zeros_only, DeltaFault,
    DeltaOp, DeltaOpKind, OwnerLayout, RecoveryDeltaOutcome, STORE_TEL,
};
use crate::page::{
    decode_header, decode_node, decode_rel, header_bytes, header_of, law_header_round_trip,
    law_node_round_trip, law_rel_round_trip, node_bytes, page_type_byte, rel_bytes, PageHeader,
    PageType, RelRecord, PAGE_HEADER_SIZE, PAGE_SIZE,
};
use crate::slot_laws::{law_fresh_page, law_tombstone};
use crate::slot_model::{
    append_error, appended, buried, bury_error, bury_fits, entry_result, fixed_body, fixed_error,
    fixed_grown, fixed_start, fixed_written, free_space_of, fresh_page, lemma_sealed, max_count,
    open_result, overwritten, page_ok, put_error, put_page, read_rel_result, record_area, revived,
    sealed, slot_at, slot_count_of, slot_len, slot_off, sparse_extended, tombstone_body,
    tombstone_result, with_counts, with_slot, PageError, MAX_SLOTS, PAGE_BODY_BYTES,
    PERMANENT_TOMBSTONE_LEN, SLOT_SIZE,
};

verus! {

broadcast use group_codec;

/// `c` is the page `b` with other contents: it opens, and its header names
/// the same page, tenant, type and LSN.
pub open spec fn same_page(b: Seq<u8>, c: Seq<u8>) -> bool {
    &&& c.len() == PAGE_SIZE
    &&& forall|i: int| 0 <= i < 32 ==> #[trigger] c[i] == b[i]
    &&& open_result(c) is Ok
}

proof fn lemma_sealed_same(b: Seq<u8>, c: Seq<u8>)
    requires
        page_ok(b),
        c.len() == PAGE_SIZE,
        forall|i: int| 0 <= i < 32 ==> #[trigger] c[i] == b[i],
        u16_at(c, 36) <= MAX_SLOTS,
    ensures
        same_page(b, sealed(c)),
{
    lemma_sealed(c);
    let s = sealed(c);
    lemma_u32_at_same(s, 0, b, 0);
    assert(forall|i: int| 0 <= i < 32 ==> #[trigger] s[i] == c[i]);
}

proof fn lemma_appended(b: Seq<u8>, rec: Seq<u8>)
    requires
        page_ok(b),
        append_error(b, rec.len() as int) is None,
    ensures
        same_page(b, appended(b, rec)),
{
    let count = slot_count_of(b);
    let start = record_area(b) - rec.len();
    let c = with_counts(
        with_slot(splice(b, start, rec), count as int, start as u16, rec.len() as u16),
        (count + 1) as u16,
        (free_space_of(b) - rec.len() - SLOT_SIZE) as u16,
    );
    lemma_sealed_same(b, c);
}

proof fn lemma_revived(b: Seq<u8>, slot: u16, rec: Seq<u8>)
    requires
        page_ok(b),
        slot < slot_count_of(b),
        free_space_of(b) >= rec.len(),
        free_space_of(b) + SLOT_SIZE * slot_count_of(b) <= PAGE_BODY_BYTES,
    ensures
        same_page(b, revived(b, slot, rec)),
{
    let start = record_area(b) - rec.len();
    let c = splice(
        with_slot(splice(b, start, rec), slot as int, start as u16, rec.len() as u16),
        38,
        le16((free_space_of(b) - rec.len()) as u16),
    );
    lemma_sealed_same(b, c);
}

proof fn lemma_overwritten(b: Seq<u8>, slot: u16, rec: Seq<u8>)
    requires
        page_ok(b),
        entry_result(b, slot) matches Ok(Some((_, len))) && len == rec.len(),
    ensures
        same_page(b, overwritten(b, slot, rec)),
{
    lemma_sealed_same(b, splice(b, slot_off(b, slot as int) as int, rec));
}

proof fn lemma_put_page(b: Seq<u8>, slot: u16, rec: Seq<u8>)
    requires
        page_ok(b),
        rec.len() <= 0xFFFF,
        put_error(b, slot, rec.len() as u16) is None,
    ensures
        same_page(b, put_page(b, slot, rec)),
{
    let count = slot_count_of(b);
    if slot == count {
        lemma_appended(b, rec);
    } else if slot > count {
        let c = sparse_extended(b, slot);
        assert(forall|i: int| 0 <= i < 32 ==> #[trigger] c[i] == b[i]);
        lemma_u32_at_same(c, 0, b, 0);
        lemma_appended(c, rec);
    } else if entry_result(b, slot) == Ok::<Option<(u16, u16)>, PageError>(None) {
        lemma_revived(b, slot, rec);
    } else {
        lemma_overwritten(b, slot, rec);
    }
}

proof fn lemma_fixed_written(b: Seq<u8>, slot: u16, rec: Seq<u8>, len: u16, capacity: u16)
    requires
        page_ok(b),
        rec.len() == len,
        fixed_error(b, slot, rec.len() as int, len, capacity) is None,
    ensures
        same_page(b, fixed_written(b, slot, rec, len)),
        slot < MAX_SLOTS,
{
    let count = slot_count_of(b);
    let to = max_count(slot + 1, count as int);
    let start = fixed_start(slot as int, len as int);
    assert(to * (len + SLOT_SIZE) <= PAGE_BODY_BYTES);
    assert(4 * to <= to * (len + 4)) by (nonlinear_arith)
        requires
            0 <= to,
            0 <= len,
    ;
    assert(0 <= (slot + 1) * len <= to * len) by (nonlinear_arith)
        requires
            slot + 1 <= to,
            0 <= len,
            0 <= slot,
    ;
    assert(0 <= count * len <= to * len) by (nonlinear_arith)
        requires
            0 <= count <= to,
            0 <= len,
    ;
    assert(to * (len + 4) == to * len + 4 * to) by (nonlinear_arith);
    assert(len <= (slot + 1) * len) by (nonlinear_arith)
        requires
            0 <= len,
            0 <= slot,
    ;
    let g = fixed_grown(b, count as int, to, len as int);
    assert(g.len() == PAGE_SIZE);
    assert(forall|i: int| 0 <= i < 40 ==> #[trigger] g[i] == b[i]);
    let c = fixed_body(b, slot, rec, len);
    assert(forall|i: int| 0 <= i < 32 ==> #[trigger] c[i] == b[i]);
    assert(u16_at(c, 36) == to);
    lemma_sealed_same(b, c);
}

proof fn lemma_buried(b: Seq<u8>, slot: u16, lsn: u64, len: u16, capacity: u16)
    requires
        page_ok(b),
        open_result(b) is Ok,
        len >= 8,
        bury_error(b, slot, len, capacity) is None,
        bury_fits(b, slot, lsn, len),
    ensures
        same_page(b, buried(b, slot, lsn, len)),
{
    let start = fixed_start(slot as int, len as int);
    if slot < slot_count_of(b) && tombstone_result(b, slot) == Ok::<bool, PageError>(true) {
        if lsn > u64_at(b, start) {
            assert(len <= (slot + 1) * len) by (nonlinear_arith)
                requires
                    0 <= len,
                    0 <= slot,
            ;
            lemma_sealed_same(b, splice(b, start, tombstone_body(lsn, len)));
        }
    } else {
        let body = tombstone_body(lsn, len);
        assert(body.len() == len);
        lemma_fixed_written(b, slot, body, len, capacity);
        let w = fixed_written(b, slot, body, len);
        let c = with_slot(w, slot as int, 0, PERMANENT_TOMBSTONE_LEN);
        lemma_u32_at_same(w, 0, b, 0);
        assert(page_ok(w));
        lemma_sealed_same(w, c);
    }
}

/// An operation that succeeds leaves a page that opens and that names the
/// same page, tenant and type.
proof fn lemma_outcome(b: Seq<u8>, op: DeltaOp, commit_lsn: u64, owner: OwnerLayout)
    requires
        open_result(b) is Ok,
        owner.wf(),
        delta_fits(b, op, owner),
        delta_outcome(b, op, commit_lsn, owner).1 is None,
    ensures
        same_page(b, delta_outcome(b, op, commit_lsn, owner).0),
{
    assert(page_ok(b));
    let p = op.payload@;
    match op.kind {
        DeltaOpKind::PutRecord => {
            if b[5] == page_type_byte(PageType::Node) {
                let rec = decode_node(p)->Ok_0;
                law_node_round_trip(rec);
                lemma_put_page(b, op.slot, node_bytes(rec));
            } else {
                let rec = decode_rel(p)->Ok_0;
                law_rel_round_trip(rec);
                lemma_put_page(b, op.slot, rel_bytes(rec));
            }
        },
        DeltaOpKind::PutPropBlock => {
            lemma_put_page(b, op.slot, p);
        },
        DeltaOpKind::InternBind | DeltaOpKind::AclGrant => {
            if op.retires_owner_row {
                lemma_buried(b, op.slot, op.op_lsn.0, owner.row_bytes, owner.rows_per_page);
            } else {
                lemma_fixed_written(b, op.slot, p, p.len() as u16, owner.rows_per_page);
            }
        },
        DeltaOpKind::TombstoneRecord => {
            if b[5] == page_type_byte(PageType::Node) {
                lemma_sealed_same(b, with_slot(b, op.slot as int, 0, 0));
            } else {
                let rec = read_rel_result(b, op.slot)->Ok_0->Some_0;
                let ended = RelRecord { expired_lsn: commit_lsn, ..rec };
                law_rel_round_trip(ended);
                lemma_overwritten(b, op.slot, rel_bytes(ended));
            }
        },
        _ => {},
    }
}

/// A page that opens still does after it was stamped.
proof fn lemma_stamped(b: Seq<u8>, c: Seq<u8>, lsn: u64)
    requires
        same_page(b, c),
    ensures
        ({
            let s = splice(c, 16, le64(lsn));
            &&& s.len() == PAGE_SIZE
            &&& open_result(s) is Ok
            &&& u64_at(s, 16) == lsn
            &&& header_of(s).page_id == header_of(b).page_id
            &&& header_of(s).tenant_id == header_of(b).tenant_id
            &&& header_of(s).page_type == header_of(b).page_type
            &&& header_of(s).flags == header_of(b).flags
        }),
{
    let s = splice(c, 16, le64(lsn));
    assert(s.skip(PAGE_HEADER_SIZE as int) =~= c.skip(PAGE_HEADER_SIZE as int));
    lemma_u32_at_same(s, 0, c, 0);
    lemma_u64_at_same(s, 8, b, 8);
    lemma_u64_at_same(s, 24, b, 24);
    lemma_u16_at_same(s, 6, b, 6);
    assert(s[5] == b[5]);
}

/// An operation takes effect once: where it was applied, the page carries its
/// LSN, and applying it again succeeds, says that it was not applied, and
/// leaves the page as it is.
pub proof fn law_redo_takes_effect_once(
    b: Seq<u8>,
    op: DeltaOp,
    commit_lsn: u64,
    owner: OwnerLayout,
)
    requires
        owner.wf(),
        delta_fits(b, op, owner),
        delta_result(b, op, commit_lsn, owner).1 == Ok::<bool, DeltaFault>(true),
    ensures
        ({
            let c = delta_result(b, op, commit_lsn, owner).0;
            &&& u64_at(c, 16) == op.op_lsn.0
            &&& delta_result(c, op, commit_lsn, owner) == (c, Ok::<bool, DeltaFault>(false))
        }),
{
    lemma_outcome(b, op, commit_lsn, owner);
    let c = delta_outcome(b, op, commit_lsn, owner).0;
    lemma_stamped(b, c, op.op_lsn.0);
}

/// An operation changes its page exactly where it was applied, and it is applied
/// only where its LSN is above the page's: one that the page has, or that fails,
/// leaves every byte.
pub proof fn law_redo_skips_what_the_page_has(
    b: Seq<u8>,
    op: DeltaOp,
    commit_lsn: u64,
    owner: OwnerLayout,
)
    ensures
        delta_result(b, op, commit_lsn, owner).1 matches Ok(applied) ==> applied == (op.op_lsn.0
            > u64_at(b, 16)),
        delta_result(b, op, commit_lsn, owner).1 != Ok::<bool, DeltaFault>(true) ==> delta_result(
            b,
            op,
            commit_lsn,
            owner,
        ).0 == b,
        target_fault(b, op, commit_lsn) is None && op.op_lsn.0 <= u64_at(b, 16) ==> delta_result(
            b,
            op,
            commit_lsn,
            owner,
        ).1 == Ok::<bool, DeltaFault>(false),
{
}

/// The directory entry of a slot is the same in both pages, and the slot is in
/// both directories.
spec fn keeps_entry(b: Seq<u8>, c: Seq<u8>, slot: u16) -> bool {
    &&& slot_count_of(b) <= slot_count_of(c)
    &&& slot_off(c, slot as int) == slot_off(b, slot as int)
    &&& slot_len(c, slot as int) == slot_len(b, slot as int)
}

proof fn lemma_appended_keeps(b: Seq<u8>, rec: Seq<u8>, slot: u16)
    requires
        page_ok(b),
        append_error(b, rec.len() as int) is None,
        slot < slot_count_of(b),
    ensures
        keeps_entry(b, appended(b, rec), slot),
{
    let count = slot_count_of(b);
    let start = record_area(b) - rec.len();
    let a = splice(b, start, rec);
    assert(slot_at(slot as int) + 4 <= slot_at(count as int) <= start);
    assert(slot_off(a, slot as int) == slot_off(b, slot as int));
    assert(slot_len(a, slot as int) == slot_len(b, slot as int));
    let c = with_counts(
        with_slot(a, count as int, start as u16, rec.len() as u16),
        (count + 1) as u16,
        (free_space_of(b) - rec.len() - SLOT_SIZE) as u16,
    );
    lemma_sealed(c);
}

proof fn lemma_put_keeps(b: Seq<u8>, at: u16, rec: Seq<u8>, slot: u16)
    requires
        page_ok(b),
        rec.len() <= 0xFFFF,
        put_error(b, at, rec.len() as u16) is None,
        tombstone_result(b, slot) == Ok::<bool, PageError>(true),
    ensures
        keeps_entry(b, put_page(b, at, rec), slot),
{
    let count = slot_count_of(b);
    if at == count {
        lemma_appended_keeps(b, rec, slot);
    } else if at > count {
        let c = sparse_extended(b, at);
        lemma_u32_at_same(c, 0, b, 0);
        assert(slot_at(slot as int) + 4 <= slot_at(count as int));
        assert(keeps_entry(b, c, slot));
        lemma_appended_keeps(c, rec, slot);
    } else if entry_result(b, at) == Ok::<Option<(u16, u16)>, PageError>(None) {
        let start = record_area(b) - rec.len();
        let a = splice(b, start, rec);
        assert(slot_at(slot as int) + 4 <= slot_at(count as int) <= start);
        assert(keeps_entry(b, a, slot));
        let c = splice(
            with_slot(a, at as int, start as u16, rec.len() as u16),
            38,
            le16((free_space_of(b) - rec.len()) as u16),
        );
        lemma_sealed(c);
    } else {
        let c = splice(b, slot_off(b, at as int) as int, rec);
        lemma_sealed(c);
    }
}

proof fn lemma_fixed_keeps(
    b: Seq<u8>,
    at: u16,
    rec: Seq<u8>,
    len: u16,
    capacity: u16,
    slot: u16,
)
    requires
        page_ok(b),
        rec.len() == len,
        fixed_error(b, at, rec.len() as int, len, capacity) is None,
        slot < slot_count_of(b),
        at != slot,
    ensures
        keeps_entry(b, fixed_written(b, at, rec, len), slot),
{
    let count = slot_count_of(b);
    let to = max_count(at + 1, count as int);
    let start = fixed_start(at as int, len as int);
    assert(to * (len + 4) == to * len + 4 * to) by (nonlinear_arith);
    assert(0 <= (at + 1) * len <= to * len) by (nonlinear_arith)
        requires
            at + 1 <= to,
            0 <= len,
            0 <= at,
    ;
    assert(0 <= count * len <= to * len) by (nonlinear_arith)
        requires
            0 <= count <= to,
            0 <= len,
    ;
    assert(len <= (at + 1) * len) by (nonlinear_arith)
        requires
            0 <= len,
            0 <= at,
    ;
    let k = slot as int;
    assert(slot_at(k) + 4 <= slot_at(count as int) <= slot_at(to) <= start);
    let g = fixed_grown(b, count as int, to, len as int);
    assert(g.len() == PAGE_SIZE);
    assert(slot_off(g, k) == slot_off(b, k) && slot_len(g, k) == slot_len(b, k));
    let a = splice(g, start, rec);
    assert(slot_off(a, k) == slot_off(g, k) && slot_len(a, k) == slot_len(g, k));
    lemma_sealed(fixed_body(b, at, rec, len));
}

proof fn lemma_buried_keeps(b: Seq<u8>, at: u16, lsn: u64, len: u16, capacity: u16, slot: u16)
    requires
        page_ok(b),
        len >= 8,
        bury_error(b, at, len, capacity) is None,
        tombstone_result(b, at) == Ok::<bool, PageError>(true) && lsn > u64_at(
            b,
            fixed_start(at as int, len as int),
        ) ==> clear_of_entry(at, len, slot),
        tombstone_result(b, slot) == Ok::<bool, PageError>(true),
    ensures
        keeps_entry(b, buried(b, at, lsn, len), slot),
{
    let count = slot_count_of(b);
    let start = fixed_start(at as int, len as int);
    let body = tombstone_body(lsn, len);
    assert(body.len() == len);
    if at < count && tombstone_result(b, at) == Ok::<bool, PageError>(true) {
        assert(len <= (at + 1) * len) by (nonlinear_arith)
            requires
                0 <= len,
                0 <= at,
        ;
        assert(slot_at(slot as int) + 4 <= PAGE_SIZE);
        lemma_sealed(splice(b, start, body));
    } else {
        lemma_fixed_keeps(b, at, body, len, capacity, slot);
        lemma_fixed_written(b, at, body, len, capacity);
        let w = fixed_written(b, at, body, len);
        lemma_sealed(with_slot(w, at as int, 0, PERMANENT_TOMBSTONE_LEN));
    }
}

/// The body of row `at` lies outside the page, or in the page's body and not on
/// the directory entry of `slot`.
pub open spec fn clear_of_entry(at: u16, len: u16, slot: u16) -> bool {
    let start = fixed_start(at as int, len as int);
    start < 0 || (start >= PAGE_HEADER_SIZE && (start + len <= slot_at(slot as int) || slot_at(
        slot as int,
    ) + SLOT_SIZE <= start))
}

/// The operation gives a row that was retired already a newer LSN.
pub open spec fn retires_again(b: Seq<u8>, op: DeltaOp, owner: OwnerLayout) -> bool {
    &&& op.kind is InternBind || op.kind is AclGrant
    &&& op.retires_owner_row
    &&& tombstone_result(b, op.slot) == Ok::<bool, PageError>(true)
    &&& op.op_lsn.0 > u64_at(b, fixed_start(op.slot as int, owner.row_bytes as int))
}

/// A durable tombstone outlives every redo operation, whatever slot the
/// operation names and whether it succeeds. The one condition is on a row that
/// is retired again: its body, where the newer LSN goes, must not lie on the
/// directory, as it does on no page whose rows all fit.
pub proof fn law_tombstone_outlives_redo(
    b: Seq<u8>,
    op: DeltaOp,
    commit_lsn: u64,
    owner: OwnerLayout,
    slot: u16,
)
    requires
        b.len() == PAGE_SIZE,
        owner.wf(),
        retires_again(b, op, owner) ==> clear_of_entry(op.slot, owner.row_bytes, slot),
        tombstone_result(b, slot) == Ok::<bool, PageError>(true),
    ensures
        tombstone_result(delta_result(b, op, commit_lsn, owner).0, slot) == Ok::<bool, PageError>(
            true,
        ),
        recovery_result(Some(b), op, commit_lsn, owner) matches Ok((Some(page), _))
            ==> tombstone_result(page, slot) == Ok::<bool, PageError>(true),
{
    let (page, r) = delta_result(b, op, commit_lsn, owner);
    if r == Ok::<bool, DeltaFault>(true) {
        assert(page_ok(b));
        let p = op.payload@;
        let c = delta_outcome(b, op, commit_lsn, owner).0;
        match op.kind {
            DeltaOpKind::PutRecord => {
                if b[5] == page_type_byte(PageType::Node) {
                    let rec = decode_node(p)->Ok_0;
                    law_node_round_trip(rec);
                    lemma_put_keeps(b, op.slot, node_bytes(rec), slot);
                } else {
                    let rec = decode_rel(p)->Ok_0;
                    law_rel_round_trip(rec);
                    lemma_put_keeps(b, op.slot, rel_bytes(rec), slot);
                }
            },
            DeltaOpKind::PutPropBlock => {
                lemma_put_keeps(b, op.slot, p, slot);
            },
            DeltaOpKind::InternBind | DeltaOpKind::AclGrant => {
                if op.retires_owner_row {
                    lemma_buried_keeps(
                        b,
                        op.slot,
                        op.op_lsn.0,
                        owner.row_bytes,
                        owner.rows_per_page,
                        slot,
                    );
                } else {
                    lemma_fixed_keeps(b, op.slot, p, p.len() as u16, owner.rows_per_page, slot);
                }
            },
            DeltaOpKind::TombstoneRecord => {
                if b[5] == page_type_byte(PageType::Node) {
                    law_tombstone(b, op.slot);
                    assert(tombstone_result(c, slot) == tombstone_result(b, slot));
                } else {
                    let rec = read_rel_result(b, op.slot)->Ok_0->Some_0;
                    let ended = RelRecord { expired_lsn: commit_lsn, ..rec };
                    law_rel_round_trip(ended);
                    lemma_sealed(splice(b, slot_off(b, op.slot as int) as int, rel_bytes(ended)));
                }
            },
            _ => {},
        }
        assert(tombstone_result(c, slot) == Ok::<bool, PageError>(true));
        assert(c.len() == PAGE_SIZE);
    }
    if zeros_only(b) {
        assert(zeroed(b, 36, 38) =~= b);
        assert(u16_at(zeroed(b, 36, 38), 36) == 0);
    }
}

/// Recovery may be run again: where an operation was replayed, replaying it
/// over the page that it installed finds nothing to do.
pub proof fn law_recovery_can_be_repeated(
    present: Option<Seq<u8>>,
    op: DeltaOp,
    commit_lsn: u64,
    owner: OwnerLayout,
)
    requires
        owner.wf(),
        recovery_fault(op) is None,
        recovery_fits(present, op, commit_lsn, owner),
        recovery_result(present, op, commit_lsn, owner) matches Ok((Some(_), _)),
        op.kind is PageAlloc && op.store_id == STORE_TEL ==> op.payload@[0] == page_type_byte(
            PageType::Tel,
        ),
    ensures
        ({
            let page = recovery_result(present, op, commit_lsn, owner)->Ok_0.0->Some_0;
            recovery_result(Some(page), op, commit_lsn, owner) == Ok::<
                (Option<Seq<u8>>, RecoveryDeltaOutcome),
                DeltaFault,
            >((None, RecoveryDeltaOutcome::Idempotent))
        }),
{
    let page = recovery_result(present, op, commit_lsn, owner)->Ok_0.0->Some_0;
    if unwritten(present) {
        lemma_alloc(op);
    } else {
        let b = present->Some_0;
        law_redo_takes_effect_once(b, op, commit_lsn, owner);
        assert(open_result(page) is Ok) by {
            assert(target_fault(page, op, commit_lsn) is None);
        }
    }
    lemma_written(page);
}

/// A page whose header decodes was written.
proof fn lemma_written(b: Seq<u8>)
    requires
        b.len() == PAGE_SIZE,
        decode_header(b) is Ok,
    ensures
        !unwritten(Some(b)),
{
    assert(b[4] != 0);
}

proof fn lemma_alloc(op: DeltaOp)
    requires
        op.kind is PageAlloc,
        alloc_result(op) is Ok,
        op.store_id == STORE_TEL ==> op.payload@[0] == page_type_byte(PageType::Tel),
    ensures
        ({
            let page = alloc_result(op)->Ok_0;
            &&& page.len() == PAGE_SIZE
            &&& decode_header(page) is Ok
            &&& present_lsn(page, op) == Ok::<u64, DeltaFault>(op.op_lsn.0)
        }),
{
    let t = op.payload@[0];
    let h = alloc_header(op, t);
    let page = alloc_result(op)->Ok_0;
    if t == page_type_byte(PageType::Tel) {
        let body = empty_body();
        let g = PageHeader {
            lsn: op.op_lsn.0,
            free_space: PAGE_BODY_BYTES as u16,
            checksum: crc32c_of(body),
            ..h
        };
        law_header_round_trip(g);
        let hb = header_bytes(g);
        lemma_header_prefix(hb, page);
        assert(page.skip(PAGE_HEADER_SIZE as int) =~= body);
    } else {
        let f = fresh_page(h);
        law_header_round_trip(h);
        law_fresh_page(h);
        let g = PageHeader { slot_count: 0, free_space: PAGE_BODY_BYTES as u16, ..h };
        law_header_round_trip(g);
        let b = header_bytes(g) + empty_body();
        lemma_u64_at_same(b, 16, header_bytes(g), 16);
        lemma_u64_at_same(f, 16, b, 16);
        lemma_stamped(f, f, op.op_lsn.0);
    }
}

proof fn lemma_header_prefix(h: Seq<u8>, b: Seq<u8>)
    requires
        h.len() == PAGE_HEADER_SIZE,
        b.len() == PAGE_SIZE,
        forall|i: int| 0 <= i < PAGE_HEADER_SIZE ==> #[trigger] b[i] == h[i],
    ensures
        header_of(b) == header_of(h),
{
    lemma_u32_at_same(b, 0, h, 0);
    lemma_u16_at_same(b, 6, h, 6);
    lemma_u64_at_same(b, 8, h, 8);
    lemma_u64_at_same(b, 16, h, 16);
    lemma_u64_at_same(b, 24, h, 24);
    lemma_u32_at_same(b, 32, h, 32);
    lemma_u16_at_same(b, 36, h, 36);
    lemma_u16_at_same(b, 38, h, 38);
}

} // verus!
