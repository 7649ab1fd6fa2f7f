//! What redo leaves on a page, said of the operation's payload and of what the
//! page reads as afterwards.
use vstd::prelude::*;

use crate::checksum::crc32c_of;
use crate::codec::{
    group_codec, le64, lemma_u16_at_same, lemma_u32_at_same, lemma_u64_at_same,
    lemma_u64_read_back, splice, u16_at,
    u32_at, u64_at,
};
use crate::dash::RowKey;
use crate::delta::{
    alloc_header, alloc_result, delta_fits, delta_outcome, delta_result, empty_body, op_key, op_page,
    recovery_fault, recovery_fits, recovery_result, replayed, slot_shows, store_fault, target_fault, zeros_only, DeltaError,
    DeltaFault, DeltaOp, DeltaPageStore, OwnerLayout, RecoveryDeltaOutcome,
};
use crate::dirty::{row_key, DirtyPageTable};
use crate::page::{
    decode_header, decode_node, decode_rel, header_bytes, law_header_round_trip,
    law_node_round_trip, law_rel_round_trip, node_bytes, rel_bytes, NodeRecord, PageHeader,
    RelRecord,
};
use crate::page_laws::law_header_layout;
use crate::slot_laws::{
    canonical, law_bury, law_every_slot_reads, law_fixed_holds, law_fixed_write, law_fresh_page,
    law_held_bag_reads, law_held_node_reads, law_held_rel_reads, law_overwrite,
    law_overwrite_holds, law_put, law_put_holds, law_tombstone, layout_ok, slot_bytes,
};
use crate::slot_model::{
    append_error, buried, buried_error, bury_error, entry_result, fixed_error, fixed_start,
    free_space_of, fresh_page, lemma_sealed, open_result, overwrite_error, page_ok, put_error,
    put_page, read_bag_result, read_node_result, read_rel_result, sealed, slot_count_of, slot_len,
    slot_off, tombstone_body, tombstone_lsn_result, tombstone_result, PageError,
};

verus! {

broadcast use group_codec;

// ---- room -----------------------------------------------------------------

/// Which records fit on a page: a new one needs its bytes and a directory entry,
/// and an entry more for each slot that is skipped; a hole needs the bytes alone;
/// a slot that is taken needs the same length.
pub proof fn law_room(b: Seq<u8>, slot: u16, len: u16)
    requires
        page_ok(b),
        0 < len <= 8148,
    ensures
        ({
            let count = u16_at(b, 36);
            let free = u16_at(b, 38);
            let sane = free + 4 * count <= 8152;
            let off = u16_at(b, 40 + 4 * slot);
            let size = u16_at(b, 42 + 4 * slot);
            &&& append_error(b, len as int) is None <==> len + 4 <= free && sane
            &&& sane && slot >= count ==> (put_error(b, slot, len) is None <==> 4 * (slot - count)
                + len + 4 <= free)
            &&& slot < count && off == 0 && size == 0 && sane ==> (put_error(b, slot, len) is None
                <==> len <= free)
            &&& slot < count && off == 0 && size == 0xFFFF ==> put_error(b, slot, len) == Some(
                PageError::SlotTombstoned(slot),
            )
            &&& slot < count && off >= 40 + 4 * count && off + size <= 8192 ==> (put_error(
                b,
                slot,
                len,
            ) is None <==> size == len)
            &&& overwrite_error(b, slot, len) is None <==> slot < count && off >= 40 + 4 * count
                && off + size <= 8192 && size == len
        }),
{
}

/// Which pages open: one page of bytes whose header decodes, whose body has the
/// checksum in the header, and whose directory lies inside.
pub proof fn law_opening(b: Seq<u8>)
    ensures
        open_result(b) is Ok <==> b.len() == 8192 && decode_header(b) is Ok && u32_at(b, 32)
            == crc32c_of(b.skip(40)) && u16_at(b, 36) <= 2038,
{
}

// ---- targets --------------------------------------------------------------

/// Which page an operation may touch: the one that it names by number and
/// tenant, of a type that its store holds, once the commit has reached the
/// operation.
pub proof fn law_redo_target(b: Seq<u8>, op: DeltaOp, commit_lsn: u64)
    ensures
        target_fault(b, op, commit_lsn) is None <==> {
            &&& !(op.kind is PageAlloc) && !(op.kind is Logical)
            &&& op.op_lsn.0 <= commit_lsn
            &&& open_result(b) is Ok
            &&& u64_at(b, 8) == op.page_no
            &&& u64_at(b, 24) == op.tenant_id.0
            &&& {
                ||| op.store_id == 1 && b[5] == 7
                ||| op.store_id == 2 && (b[5] == 1 || b[5] == 2)
                ||| op.store_id == 4 && b[5] == 2
                ||| 6 <= op.store_id <= 9 && b[5] == 7 && u16_at(b, 6) == op.store_id
            }
        },
{
}

/// Which operations recovery replays at all.
pub proof fn law_recovery_takes(op: DeltaOp)
    ensures
        recovery_fault(op) is None <==> {
            &&& !(op.kind is Logical)
            &&& op.kind is PageAlloc ==> op.payload@.len() == 1
            &&& op.store_id == 1 || op.store_id == 2 || op.store_id == 3 || op.store_id == 4 || 6
                <= op.store_id <= 9
        },
{
}

// ---- stamping -------------------------------------------------------------

/// The LSN is no part of what a page reads as.
proof fn lemma_stamp(c: Seq<u8>, lsn: u64)
    requires
        page_ok(c),
    ensures
        ({
            let d = splice(c, 16, le64(lsn));
            &&& page_ok(d)
            &&& d[5] == c[5]
            &&& u64_at(d, 16) == lsn
            &&& u64_at(d, 8) == u64_at(c, 8)
            &&& u64_at(d, 24) == u64_at(c, 24)
            &&& u16_at(d, 6) == u16_at(c, 6)
            &&& slot_count_of(d) == slot_count_of(c)
            &&& free_space_of(d) == free_space_of(c)
            &&& forall|s: u16| #[trigger] entry_result(d, s) == entry_result(c, s)
            &&& forall|s: u16| #[trigger] tombstone_result(d, s) == tombstone_result(c, s)
            &&& forall|s: u16| #[trigger] read_node_result(d, s) == read_node_result(c, s)
            &&& forall|s: u16| #[trigger] read_rel_result(d, s) == read_rel_result(c, s)
            &&& forall|s: u16| #[trigger] read_bag_result(d, s) == read_bag_result(c, s)
            &&& forall|s: u16|
                entry_result(c, s) is Ok ==> #[trigger] slot_bytes(d, s as int) == slot_bytes(
                    c,
                    s as int,
                )
        }),
{
    let d = splice(c, 16, le64(lsn));
    lemma_u32_at_same(d, 0, c, 0);
    lemma_u64_at_same(d, 8, c, 8);
    lemma_u64_at_same(d, 24, c, 24);
    lemma_u16_at_same(d, 6, c, 6);
    assert forall|s: u16| #[trigger] entry_result(d, s) == entry_result(c, s) by {}
    assert forall|s: u16|
        entry_result(c, s) matches Ok(Some(_)) implies #[trigger] slot_bytes(d, s as int)
        == slot_bytes(c, s as int) && d.subrange(
        slot_off(d, s as int) as int,
        slot_off(d, s as int) + slot_len(d, s as int),
    ) == c.subrange(
        slot_off(c, s as int) as int,
        slot_off(c, s as int) + slot_len(c, s as int),
    ) by {
        let k = s as int;
        assert(d.subrange(slot_off(d, k) as int, slot_off(d, k) + slot_len(d, k)) =~= c.subrange(
            slot_off(c, k) as int,
            slot_off(c, k) + slot_len(c, k),
        ));
    }
    assert forall|s: u16| #[trigger] read_node_result(d, s) == read_node_result(c, s) by {
        assert(slot_bytes(d, s as int) == slot_bytes(d, s as int));
    }
    assert forall|s: u16| #[trigger] read_rel_result(d, s) == read_rel_result(c, s) by {
        assert(slot_bytes(d, s as int) == slot_bytes(d, s as int));
    }
    assert forall|s: u16| #[trigger] read_bag_result(d, s) == read_bag_result(c, s) by {
        assert(slot_bytes(d, s as int) == slot_bytes(d, s as int));
    }
}

// ---- puts -----------------------------------------------------------------

/// The record in a payload is the one that its slot reads as, field by field.
pub proof fn law_replayed_node_is_the_payload(
    b: Seq<u8>,
    op: DeltaOp,
    commit_lsn: u64,
    owner: OwnerLayout,
)
    requires
        op.kind is PutRecord,
        b[5] == 1,
        delta_result(b, op, commit_lsn, owner).1 == Ok::<bool, DeltaFault>(true),
    ensures
        ({
            let p = op.payload@;
            let c = delta_result(b, op, commit_lsn, owner).0;
            &&& p.len() == 64
            &&& u64_at(c, 16) == op.op_lsn.0
            &&& read_node_result(c, op.slot) == Ok::<Option<NodeRecord>, PageError>(
                Some(
                    NodeRecord {
                        id: u64_at(p, 8),
                        label_id: u32_at(p, 16),
                        flags: u32_at(p, 4),
                        created_lsn: u64_at(p, 24),
                        expired_lsn: u64_at(p, 32),
                        property_ref: u64_at(p, 40),
                        inline_u32a: u32_at(p, 48),
                        inline_u32b: u32_at(p, 52),
                    },
                ),
            )
        }),
{
    let rec = decode_node(op.payload@)->Ok_0;
    law_node_round_trip(rec);
    law_put_holds(b, op.slot, node_bytes(rec));
    let c = put_page(b, op.slot, node_bytes(rec));
    law_held_node_reads(c, op.slot, rec);
    lemma_stamp(c, op.op_lsn.0);
    assert(read_node_result(splice(c, 16, le64(op.op_lsn.0)), op.slot) == read_node_result(
        c,
        op.slot,
    ));
}

/// The relationship in a payload is the one that its slot reads as, field by
/// field.
pub proof fn law_replayed_rel_is_the_payload(
    b: Seq<u8>,
    op: DeltaOp,
    commit_lsn: u64,
    owner: OwnerLayout,
)
    requires
        op.kind is PutRecord,
        b[5] == 2,
        delta_result(b, op, commit_lsn, owner).1 == Ok::<bool, DeltaFault>(true),
    ensures
        ({
            let p = op.payload@;
            let c = delta_result(b, op, commit_lsn, owner).0;
            &&& p.len() == 96
            &&& u64_at(c, 16) == op.op_lsn.0
            &&& read_rel_result(c, op.slot) == Ok::<Option<RelRecord>, PageError>(
                Some(
                    RelRecord {
                        id: u64_at(p, 8),
                        type_id: u32_at(p, 16),
                        flags: u32_at(p, 4),
                        src_id: u64_at(p, 24),
                        dst_id: u64_at(p, 32),
                        created_lsn: u64_at(p, 40),
                        expired_lsn: u64_at(p, 48),
                        property_ref: u64_at(p, 56),
                        inline_u32a: u32_at(p, 64),
                        inline_u32b: u32_at(p, 68),
                    },
                ),
            )
        }),
{
    let rec = decode_rel(op.payload@)->Ok_0;
    law_rel_round_trip(rec);
    law_put_holds(b, op.slot, rel_bytes(rec));
    let c = put_page(b, op.slot, rel_bytes(rec));
    law_held_rel_reads(c, op.slot, rec);
    lemma_stamp(c, op.op_lsn.0);
    assert(read_rel_result(splice(c, 16, le64(op.op_lsn.0)), op.slot) == read_rel_result(
        c,
        op.slot,
    ));
}

/// The payload of a property block, or of an owner row, is what its slot reads
/// as, byte for byte.
pub proof fn law_replayed_bag_is_the_payload(
    b: Seq<u8>,
    op: DeltaOp,
    commit_lsn: u64,
    owner: OwnerLayout,
)
    requires
        op.kind is PutPropBlock || ((op.kind is InternBind || op.kind is AclGrant)
            && !op.retires_owner_row),
        delta_result(b, op, commit_lsn, owner).1 == Ok::<bool, DeltaFault>(true),
    ensures
        ({
            let c = delta_result(b, op, commit_lsn, owner).0;
            &&& b[5] == 7
            &&& u64_at(c, 16) == op.op_lsn.0
            &&& read_bag_result(c, op.slot) == Ok::<Option<Seq<u8>>, PageError>(Some(op.payload@))
        }),
{
    let p = op.payload@;
    let c = delta_outcome(b, op, commit_lsn, owner).0;
    if op.kind is PutPropBlock {
        law_put_holds(b, op.slot, p);
    } else {
        law_fixed_holds(b, op.slot, p, p.len() as u16, owner.rows_per_page);
    }
    law_held_bag_reads(c, op.slot, p);
    lemma_stamp(c, op.op_lsn.0);
    assert(read_bag_result(splice(c, 16, le64(op.op_lsn.0)), op.slot) == read_bag_result(
        c,
        op.slot,
    ));
}

/// Which puts succeed: those of a whole record of the page's type, or of a bag
/// of a fitting length, for which the page has room.
pub proof fn law_put_is_replayed(b: Seq<u8>, op: DeltaOp, commit_lsn: u64, owner: OwnerLayout)
    requires
        target_fault(b, op, commit_lsn) is None,
        op.op_lsn.0 > u64_at(b, 16),
    ensures
        ({
            let p = op.payload@;
            let done = delta_result(b, op, commit_lsn, owner).1 == Ok::<bool, DeltaFault>(true);
            &&& op.kind is PutRecord && b[5] == 1 ==> (done <==> p.len() == 64 && u16_at(p, 0)
                == 0x4E41 && p[2] == 1 && put_error(b, op.slot, 64) is None)
            &&& op.kind is PutRecord && b[5] == 2 ==> (done <==> p.len() == 96 && u16_at(p, 0)
                == 0x5241 && p[2] == 1 && put_error(b, op.slot, 96) is None)
            &&& op.kind is PutRecord && b[5] == 7 ==> !done
            &&& op.kind is PutPropBlock ==> (done <==> b[5] == 7 && 0 < p.len() <= 8148
                && put_error(b, op.slot, p.len() as u16) is None)
        }),
{
}

// ---- ends -----------------------------------------------------------------

/// A node that was ended is absent.
pub proof fn law_ended_node_is_absent(b: Seq<u8>, op: DeltaOp, commit_lsn: u64, owner: OwnerLayout)
    requires
        op.kind is TombstoneRecord,
        b[5] == 1,
        delta_result(b, op, commit_lsn, owner).1 == Ok::<bool, DeltaFault>(true),
    ensures
        read_node_result(delta_result(b, op, commit_lsn, owner).0, op.slot) == Ok::<
            Option<NodeRecord>,
            PageError,
        >(None),
        u64_at(delta_result(b, op, commit_lsn, owner).0, 16) == op.op_lsn.0,
{
    law_tombstone(b, op.slot);
    let c = delta_outcome(b, op, commit_lsn, owner).0;
    lemma_stamp(c, op.op_lsn.0);
    assert(read_node_result(splice(c, 16, le64(op.op_lsn.0)), op.slot) == read_node_result(
        c,
        op.slot,
    ));
}

/// A relationship that was ended notes the commit that ended it, and keeps every
/// other field.
pub proof fn law_ended_rel_notes_its_end(
    b: Seq<u8>,
    op: DeltaOp,
    commit_lsn: u64,
    owner: OwnerLayout,
)
    requires
        op.kind is TombstoneRecord,
        b[5] == 2,
        delta_result(b, op, commit_lsn, owner).1 == Ok::<bool, DeltaFault>(true),
    ensures
        ({
            let c = delta_result(b, op, commit_lsn, owner).0;
            &&& u64_at(c, 16) == op.op_lsn.0
            &&& read_rel_result(b, op.slot) matches Ok(Some(old)) && read_rel_result(c, op.slot)
                == Ok::<Option<RelRecord>, PageError>(
                Some(
                    RelRecord {
                        id: old.id,
                        type_id: old.type_id,
                        flags: old.flags,
                        src_id: old.src_id,
                        dst_id: old.dst_id,
                        created_lsn: old.created_lsn,
                        expired_lsn: commit_lsn,
                        property_ref: old.property_ref,
                        inline_u32a: old.inline_u32a,
                        inline_u32b: old.inline_u32b,
                    },
                ),
            )
        }),
{
    let old = read_rel_result(b, op.slot)->Ok_0->Some_0;
    let ended = RelRecord { expired_lsn: commit_lsn, ..old };
    law_rel_round_trip(ended);
    law_overwrite_holds(b, op.slot, rel_bytes(ended));
    let c = delta_outcome(b, op, commit_lsn, owner).0;
    law_held_rel_reads(c, op.slot, ended);
    lemma_stamp(c, op.op_lsn.0);
    assert(read_rel_result(splice(c, 16, le64(op.op_lsn.0)), op.slot) == read_rel_result(
        c,
        op.slot,
    ));
}

/// Which records can be ended: on a page of nodes every slot of the directory, on
/// a page of relationships every slot that reads as a record, and nothing on a page
/// of bags.
pub proof fn law_end_is_replayed(b: Seq<u8>, op: DeltaOp, commit_lsn: u64, owner: OwnerLayout)
    requires
        op.kind is TombstoneRecord,
        target_fault(b, op, commit_lsn) is None,
        op.op_lsn.0 > u64_at(b, 16),
    ensures
        delta_result(b, op, commit_lsn, owner).1 == Ok::<bool, DeltaFault>(true) <==> {
            ||| b[5] == 1 && op.slot < u16_at(b, 36)
            ||| b[5] == 2 && (read_rel_result(b, op.slot) matches Ok(Some(_)))
        },
{
}

// ---- owner rows -----------------------------------------------------------

/// A row that was retired is a durable tombstone with the operation's LSN.
pub proof fn law_retired_row_is_a_tombstone(
    b: Seq<u8>,
    op: DeltaOp,
    commit_lsn: u64,
    owner: OwnerLayout,
)
    requires
        op.kind is InternBind || op.kind is AclGrant,
        op.retires_owner_row,
        owner.row_bytes >= 8,
        canonical(b, owner.row_bytes as int),
        delta_result(b, op, commit_lsn, owner).1 == Ok::<bool, DeltaFault>(true),
    ensures
        ({
            let c = delta_result(b, op, commit_lsn, owner).0;
            &&& b[5] == 7
            &&& u64_at(c, 16) == op.op_lsn.0
            &&& tombstone_result(c, op.slot) == Ok::<bool, PageError>(true)
            &&& read_bag_result(c, op.slot) == Ok::<Option<Seq<u8>>, PageError>(None)
            &&& tombstone_result(b, op.slot) != Ok::<bool, PageError>(true) ==> u64_at(
                c,
                8192 - (op.slot + 1) * owner.row_bytes,
            ) == op.op_lsn.0
            &&& tombstone_result(b, op.slot) == Ok::<bool, PageError>(true) ==> {
                let at = 8192 - (op.slot + 1) * owner.row_bytes;
                u64_at(c, at) == if u64_at(b, at) < op.op_lsn.0 {
                    op.op_lsn.0
                } else {
                    u64_at(b, at)
                }
            }
        }),
{
    let c = delta_outcome(b, op, commit_lsn, owner).0;
    law_bury(b, op.slot, op.op_lsn.0, owner.row_bytes, owner.rows_per_page);
    lemma_stamp(c, op.op_lsn.0);
    let d = splice(c, 16, le64(op.op_lsn.0));
    assert(read_bag_result(d, op.slot) == read_bag_result(c, op.slot));
    assert(tombstone_result(d, op.slot) == tombstone_result(c, op.slot));
    lemma_bury_type(b, op.slot, op.op_lsn.0, owner.row_bytes, owner.rows_per_page);
    let start = fixed_start(op.slot as int, owner.row_bytes as int);
    assert(owner.row_bytes <= (op.slot + 1) * owner.row_bytes) by (nonlinear_arith)
        requires
            0 <= op.slot,
            0 <= owner.row_bytes,
    ;
    assert(u64_at(d, start) == u64_at(c, start));
    assert(tombstone_lsn_result(c, op.slot, owner.row_bytes) == Ok::<Option<u64>, PageError>(
        Some(u64_at(c, start)),
    ));
}

proof fn lemma_bury_type(b: Seq<u8>, slot: u16, lsn: u64, len: u16, capacity: u16)
    requires
        canonical(b, len as int),
        len >= 8,
        bury_error(b, slot, len, capacity) is None,
    ensures
        buried(b, slot, lsn, len)[5] == b[5],
        page_ok(buried(b, slot, lsn, len)),
        fixed_start(slot as int, len as int) >= 40,
{
    let body = tombstone_body(lsn, len);
    assert(body.len() == len);
    law_bury(b, slot, lsn, len, capacity);
    let n = slot_count_of(b) as int;
    assert(fixed_start(slot as int, len as int) >= 40) by {
        let to = if slot + 1 > n { slot + 1 } else { n };
        assert(to * (len + 4) == to * len + 4 * to) by (nonlinear_arith);
        assert((slot + 1) * len <= to * len) by (nonlinear_arith)
            requires
                slot + 1 <= to,
                0 <= len,
        ;
    }
    if slot < n && tombstone_result(b, slot) == Ok::<bool, PageError>(true) {
        lemma_sealed(splice(b, fixed_start(slot as int, len as int), body));
    } else {
        law_fixed_holds(b, slot, body, len, capacity);
    }
}

// ---- every other slot -----------------------------------------------------

/// An operation touches its own slot alone: every other slot of a well laid out
/// page holds what it held, and slots that were added before the target are
/// absent.
pub proof fn law_redo_spares_other_slots(
    b: Seq<u8>,
    op: DeltaOp,
    commit_lsn: u64,
    owner: OwnerLayout,
    i: u16,
)
    requires
        layout_ok(b),
        op.kind is PutRecord || op.kind is PutPropBlock || op.kind is TombstoneRecord,
        delta_result(b, op, commit_lsn, owner).1 == Ok::<bool, DeltaFault>(true),
        i != op.slot,
    ensures
        ({
            let c = delta_result(b, op, commit_lsn, owner).0;
            &&& i < slot_count_of(b) ==> slot_bytes(c, i as int) == slot_bytes(b, i as int)
            &&& slot_count_of(b) <= i < slot_count_of(c) ==> slot_bytes(c, i as int) is None
            &&& slot_count_of(b) <= slot_count_of(c)
        }),
{
    let p = op.payload@;
    let c = delta_outcome(b, op, commit_lsn, owner).0;
    if op.kind is PutRecord {
        if b[5] == 1 {
            let rec = decode_node(p)->Ok_0;
            law_node_round_trip(rec);
            law_put(b, op.slot, node_bytes(rec));
        } else {
            let rec = decode_rel(p)->Ok_0;
            law_rel_round_trip(rec);
            law_put(b, op.slot, rel_bytes(rec));
        }
    } else if op.kind is PutPropBlock {
        law_put(b, op.slot, p);
    } else if b[5] == 1 {
        law_tombstone(b, op.slot);
        if i < slot_count_of(b) {
            assert(entry_result(b, i) is Ok) by {
                law_every_slot_reads(b, i);
            }
            assert(slot_bytes(c, i as int) == slot_bytes(b, i as int));
        }
    } else {
        let old = read_rel_result(b, op.slot)->Ok_0->Some_0;
        let ended = RelRecord { expired_lsn: commit_lsn, ..old };
        law_rel_round_trip(ended);
        law_overwrite(b, op.slot, rel_bytes(ended));
        if i < slot_count_of(b) {
            assert(slot_bytes(c, i as int) == slot_bytes(b, i as int));
        }
    }
    lemma_stamp(c, op.op_lsn.0);
    let d = splice(c, 16, le64(op.op_lsn.0));
    if i < slot_count_of(c) {
        law_every_slot_reads(c, i);
        assert(slot_bytes(d, i as int) == slot_bytes(c, i as int));
    }
}

// ---- allocation -----------------------------------------------------------

/// A page that recovery formats is empty, names what the operation names, and
/// carries its LSN.
pub proof fn law_allocated_page(op: DeltaOp)
    requires
        op.payload@.len() == 1,
    ensures
        alloc_result(op) is Ok <==> op.payload@[0] == 1 || op.payload@[0] == 2 || op.payload@[0] == 3
            || op.payload@[0] == 7,
        alloc_result(op) matches Ok(page) ==> {
            &&& page.len() == 8192
            &&& decode_header(page) is Ok
            &&& page[5] == op.payload@[0]
            &&& u64_at(page, 8) == op.page_no
            &&& u64_at(page, 16) == op.op_lsn.0
            &&& u64_at(page, 24) == op.tenant_id.0
            &&& u16_at(page, 6) == if 6 <= op.store_id <= 9 && op.payload@[0] != 3 {
                op.store_id
            } else {
                0
            }
            &&& u16_at(page, 36) == 0
            &&& u16_at(page, 38) == 8152
            &&& u32_at(page, 32) == crc32c_of(page.skip(40))
            &&& forall|k: int| 40 <= k < 8192 ==> #[trigger] page[k] == 0
        },
{
    let t = op.payload@[0];
    if t == 1 || t == 2 || t == 3 || t == 7 {
        let h = alloc_header(op, t);
        let page = alloc_result(op)->Ok_0;
        if t == 3 {
            let g = PageHeader {
                lsn: op.op_lsn.0,
                free_space: 8152,
                checksum: crc32c_of(empty_body()),
                ..h
            };
            law_header_layout(g);
            let hb = header_bytes(g);
            assert forall|k: int| 0 <= k < 40 implies #[trigger] page[k] == hb[k] by {}
            lemma_header_same(page, hb);
            assert(page.skip(40) =~= empty_body());
        } else {
            law_header_round_trip(h);
            law_fresh_page(h);
            let g = PageHeader { slot_count: 0, free_space: 8152, ..h };
            law_header_layout(g);
            let hb = header_bytes(g);
            let f = fresh_page(h);
            let u = hb + Seq::new(8152, |i: int| 0u8);
            assert(f == sealed(u));
            assert forall|k: int| 0 <= k < 40 implies #[trigger] u[k] == hb[k] by {}
            lemma_header_same(u, hb);
            lemma_sealed(u);
            assert forall|k: int| 0 <= k < 32 implies #[trigger] f[k] == u[k] by {}
            lemma_u32_at_same(f, 0, u, 0);
            lemma_u16_at_same(f, 6, u, 6);
            lemma_u64_at_same(f, 8, u, 8);
            lemma_u64_at_same(f, 16, u, 16);
            lemma_u64_at_same(f, 24, u, 24);
            lemma_stamp(f, op.op_lsn.0);
            let d = splice(f, 16, le64(op.op_lsn.0));
            assert(d.skip(40) =~= f.skip(40));
        }
    }
}

pub proof fn lemma_header_same(a: Seq<u8>, b: Seq<u8>)
    requires
        forall|k: int| 0 <= k < 40 ==> #[trigger] a[k] == b[k],
    ensures
        u32_at(a, 0) == u32_at(b, 0),
        a[4] == b[4] && a[5] == b[5],
        u16_at(a, 6) == u16_at(b, 6),
        u64_at(a, 8) == u64_at(b, 8),
        u64_at(a, 16) == u64_at(b, 16),
        u64_at(a, 24) == u64_at(b, 24),
        u32_at(a, 32) == u32_at(b, 32),
        u16_at(a, 36) == u16_at(b, 36),
        u16_at(a, 38) == u16_at(b, 38),
{
    lemma_u32_at_same(a, 0, b, 0);
    lemma_u16_at_same(a, 6, b, 6);
    lemma_u64_at_same(a, 8, b, 8);
    lemma_u64_at_same(a, 16, b, 16);
    lemma_u64_at_same(a, 24, b, 24);
    lemma_u32_at_same(a, 32, b, 32);
    lemma_u16_at_same(a, 36, b, 36);
    lemma_u16_at_same(a, 38, b, 38);
}

/// What recovery does with an operation: a page that was never written is formed
/// by an allocation alone; a page that has the operation's LSN is left; else the
/// page that redo gives is installed.
pub proof fn law_recovery_step(
    present: Option<Seq<u8>>,
    op: DeltaOp,
    commit_lsn: u64,
    owner: OwnerLayout,
)
    ensures
        ({
            let blank = match present {
                None => true,
                Some(b) => forall|k: int| 0 <= k < b.len() ==> #[trigger] b[k] == 0,
            };
            let r = recovery_result(present, op, commit_lsn, owner);
            &&& blank && !(op.kind is PageAlloc) ==> r is Err
            &&& blank && op.kind is PageAlloc ==> match alloc_result(op) {
                Ok(page) => r == Ok::<(Option<Seq<u8>>, RecoveryDeltaOutcome), DeltaFault>(
                    (Some(page), RecoveryDeltaOutcome::Formatted),
                ),
                Err(_) => r is Err,
            }
            &&& !blank && !(op.kind is PageAlloc) && open_result(present->Some_0) is Ok
                ==> match delta_result(present->Some_0, op, commit_lsn, owner) {
                (page, Ok(true)) => r == Ok::<
                    (Option<Seq<u8>>, RecoveryDeltaOutcome),
                    DeltaFault,
                >((Some(page), RecoveryDeltaOutcome::Applied)),
                (_, Ok(false)) => r == Ok::<(Option<Seq<u8>>, RecoveryDeltaOutcome), DeltaFault>(
                    (None, RecoveryDeltaOutcome::Idempotent),
                ),
                (_, Err(f)) => r == Err::<(Option<Seq<u8>>, RecoveryDeltaOutcome), DeltaFault>(f),
            }
            &&& !blank && op.kind is PageAlloc && op.store_id != 3 && open_result(present->Some_0)
                is Ok ==> if op.op_lsn.0 <= u64_at(present->Some_0, 16) {
                r == Ok::<(Option<Seq<u8>>, RecoveryDeltaOutcome), DeltaFault>(
                    (None, RecoveryDeltaOutcome::Idempotent),
                )
            } else {
                r is Err
            }
            &&& !blank && op.store_id != 3 && open_result(present->Some_0) is Err ==> r is Err
        }),
{
    if let Some(b) = present {
        assert(zeros_only(b) <==> forall|k: int|
            0 <= k < b.len() ==> #[trigger] b[k] == 0);
    }
}

/// An operation that was applied shows in its slot, and one that was not leaves the
/// page.
pub proof fn law_applied_operation_shows(
    b: Seq<u8>,
    op: DeltaOp,
    commit_lsn: u64,
    owner: OwnerLayout,
)
    ensures
        delta_result(b, op, commit_lsn, owner).1 == Ok::<bool, DeltaFault>(true) ==> slot_shows(
            b,
            op,
            commit_lsn,
            delta_result(b, op, commit_lsn, owner).0,
        ),
        delta_result(b, op, commit_lsn, owner).1 != Ok::<bool, DeltaFault>(true) ==> delta_result(
            b,
            op,
            commit_lsn,
            owner,
        ).0 == b,
{
    let p = op.payload@;
    let (c, r) = delta_result(b, op, commit_lsn, owner);
    if r == Ok::<bool, DeltaFault>(true) {
        if op.kind is PutRecord && b[5] == 1 {
            law_replayed_node_is_the_payload(b, op, commit_lsn, owner);
        } else if op.kind is PutRecord {
            law_replayed_rel_is_the_payload(b, op, commit_lsn, owner);
        } else if op.kind is TombstoneRecord && b[5] == 1 {
            law_ended_node_is_absent(b, op, commit_lsn, owner);
        } else if op.kind is TombstoneRecord {
            law_ended_rel_notes_its_end(b, op, commit_lsn, owner);
        } else if op.kind is PutPropBlock || !op.retires_owner_row {
            law_replayed_bag_is_the_payload(b, op, commit_lsn, owner);
        } else {
            let d = delta_outcome(b, op, commit_lsn, owner).0;
            assert forall|j: int| 0 <= j < 8 implies #[trigger] c[16 + j] == le64(
                op.op_lsn.0,
            )[j] by {}
            lemma_u64_read_back(c, 16, op.op_lsn.0);
        }
    }
}

// ---- owner rows and their neighbours --------------------------------------

/// An operation on an owner row touches its own slot alone: every other slot of a
/// page that is laid out in rows holds what it held, and slots that were added
/// before the target are absent.
pub proof fn law_owner_row_spares_other_slots(
    b: Seq<u8>,
    op: DeltaOp,
    commit_lsn: u64,
    owner: OwnerLayout,
    i: u16,
)
    requires
        op.kind is InternBind || op.kind is AclGrant,
        op.retires_owner_row ==> owner.row_bytes >= 8 && canonical(b, owner.row_bytes as int),
        !op.retires_owner_row ==> canonical(b, op.payload@.len() as int),
        delta_result(b, op, commit_lsn, owner).1 == Ok::<bool, DeltaFault>(true),
        i != op.slot,
    ensures
        ({
            let c = delta_result(b, op, commit_lsn, owner).0;
            &&& i < slot_count_of(b) ==> slot_bytes(c, i as int) == slot_bytes(b, i as int)
            &&& slot_count_of(b) <= i < op.slot ==> slot_bytes(c, i as int) is None
            &&& slot_count_of(c) >= slot_count_of(b)
            &&& slot_count_of(c) > op.slot
        }),
{
    let p = op.payload@;
    let c = delta_outcome(b, op, commit_lsn, owner).0;
    let len = if op.retires_owner_row {
        owner.row_bytes as int
    } else {
        p.len() as int
    };
    if op.retires_owner_row {
        law_bury(b, op.slot, op.op_lsn.0, owner.row_bytes, owner.rows_per_page);
    } else {
        law_fixed_write(b, op.slot, p, p.len() as u16, owner.rows_per_page);
    }
    lemma_stamp(c, op.op_lsn.0);
    let d = splice(c, 16, le64(op.op_lsn.0));
    if i < slot_count_of(c) {
        assert(slot_bytes(c, i as int) == slot_bytes(c, i as int));
        assert(canonical(c, len));
        lemma_row_reads(c, i, len);
        assert(slot_bytes(d, i as int) == slot_bytes(c, i as int));
    }
}

proof fn lemma_row_reads(c: Seq<u8>, i: u16, len: int)
    requires
        canonical(c, len),
        i < slot_count_of(c),
    ensures
        entry_result(c, i) is Ok,
{
    let n = slot_count_of(c) as int;
    assert(slot_off(c, i as int) == slot_off(c, i as int));
    assert((i + 1) * len <= n * len) by (nonlinear_arith)
        requires
            i + 1 <= n,
            len > 0,
    ;
    assert((i + 1) * len == i * len + len && i * len >= 0) by (nonlinear_arith)
        requires
            i >= 0,
            len > 0,
    ;
    assert(n * (len + 4) == n * len + 4 * n) by (nonlinear_arith);
}

/// Which owner rows are put: those of a fitting length whose slot is not retired
/// and can be written.
pub proof fn law_owner_row_is_replayed(
    b: Seq<u8>,
    op: DeltaOp,
    commit_lsn: u64,
    owner: OwnerLayout,
)
    requires
        op.kind is InternBind || op.kind is AclGrant,
        target_fault(b, op, commit_lsn) is None,
        op.op_lsn.0 > u64_at(b, 16),
    ensures
        ({
            let p = op.payload@;
            let done = delta_result(b, op, commit_lsn, owner).1 == Ok::<bool, DeltaFault>(true);
            &&& b[5] != 7 ==> !done
            &&& b[5] == 7 && op.retires_owner_row ==> (done <==> bury_error(
                b,
                op.slot,
                owner.row_bytes,
                owner.rows_per_page,
            ) is None)
            &&& b[5] == 7 && !op.retires_owner_row ==> (done <==> 1 <= p.len() <= 8148
                && buried_error(b, op.slot) is None && fixed_error(
                b,
                op.slot,
                p.len() as int,
                p.len() as u16,
                owner.rows_per_page,
            ) is None)
        }),
{
}

// ---- refusals -------------------------------------------------------------

/// An operation that is refused or that the page has already leaves the page.
pub proof fn law_page_is_left(b: Seq<u8>, op: DeltaOp, commit_lsn: u64, owner: OwnerLayout)
    ensures
        ({
            let (c, r) = delta_result(b, op, commit_lsn, owner);
            &&& r is Err ==> c == b
            &&& r == Ok::<bool, DeltaFault>(false) ==> c == b
            &&& r == Ok::<bool, DeltaFault>(false) <==> target_fault(b, op, commit_lsn) is None
                && op.op_lsn.0 <= u64_at(b, 16)
        }),
{
}

/// What is said of an operation that may not touch a page: its shape comes first,
/// then its kind, then the commit, then the page, then the target, then the store.
pub proof fn law_target_refusals(b: Seq<u8>, op: DeltaOp, commit_lsn: u64)
    ensures
        ({
            let r = target_fault(b, op, commit_lsn);
            let alloc = op.kind is PageAlloc;
            let data = !alloc && !(op.kind is Logical);
            let due = data && op.op_lsn.0 <= commit_lsn;
            let named = u64_at(b, 8) == op.page_no && u64_at(b, 24) == op.tenant_id.0;
            &&& alloc && op.payload@.len() != 1 ==> r == Some(
                DeltaFault::AllocPayload { len: op.payload@.len() as usize },
            )
            &&& (alloc && op.payload@.len() == 1) || op.kind is Logical ==> r == Some(
                DeltaFault::NotPageData { kind: op.kind },
            )
            &&& data && op.op_lsn.0 > commit_lsn ==> r == Some(
                DeltaFault::CommitBeforeOp { commit_lsn, op_lsn: op.op_lsn.0 },
            )
            &&& due && open_result(b) is Err ==> r == Some(
                DeltaFault::Open(open_result(b)->Err_0),
            )
            &&& due && open_result(b) is Ok && !named ==> r == Some(
                DeltaFault::WrongTarget { tenant_id: u64_at(b, 24), page_id: u64_at(b, 8) },
            )
            &&& due && open_result(b) is Ok && named ==> r == store_fault(
                op.store_id,
                b[5],
                u16_at(b, 6),
            )
        }),
{
}

/// What is said of a page that the store does not hold.
pub proof fn law_store_refusals(store_id: u16, page_type: u8, flags: u16)
    ensures
        ({
            let known = store_id == 1 || store_id == 2 || store_id == 4 || 6 <= store_id <= 9;
            let r = store_fault(store_id, page_type, flags);
            &&& !known ==> r == Some(DeltaFault::UngovernedStore { store_id })
            &&& known && r is Some ==> r == Some(DeltaFault::WrongStore { store_id, page_type })
        }),
{
}

/// What is said of an operation that has no place in recovery.
pub proof fn law_recovery_refusals(op: DeltaOp)
    ensures
        ({
            let r = recovery_fault(op);
            let shaped = op.kind is PageAlloc ==> op.payload@.len() == 1;
            &&& !shaped ==> r == Some(DeltaFault::AllocPayload { len: op.payload@.len() as usize })
            &&& shaped && op.store_id == 5 ==> r == Some(DeltaFault::BlobOverflow)
            &&& shaped && op.store_id != 5 && op.kind is Logical ==> r == Some(
                DeltaFault::LogicalOp,
            )
            &&& shaped && !(op.kind is Logical) && (op.store_id == 0 || op.store_id > 9) ==> r
                == Some(DeltaFault::UnknownStore { store_id: op.store_id })
            &&& op.kind.physical() <==> !(op.kind is Logical)
        }),
{
}

/// What is said of a put whose payload is no record of the page, and of an end of
/// nothing.
pub proof fn law_payload_refusals(b: Seq<u8>, op: DeltaOp, commit_lsn: u64, owner: OwnerLayout)
    ensures
        ({
            let p = op.payload@;
            let r = delta_outcome(b, op, commit_lsn, owner).1;
            let bags = b[5] == 7;
            &&& op.kind is PutRecord && b[5] == 1 && p.len() != 64 ==> r == Some(
                DeltaFault::NodeLength { len: p.len() as usize },
            )
            &&& op.kind is PutRecord && b[5] == 1 && p.len() == 64 && decode_node(p) is Err ==> r
                == Some(DeltaFault::NodePayload(decode_node(p)->Err_0))
            &&& op.kind is PutRecord && b[5] == 2 && p.len() != 96 ==> r == Some(
                DeltaFault::RelLength { len: p.len() as usize },
            )
            &&& op.kind is PutRecord && b[5] == 2 && p.len() == 96 && decode_rel(p) is Err ==> r
                == Some(DeltaFault::RelPayload(decode_rel(p)->Err_0))
            &&& (op.kind is PutRecord || op.kind is TombstoneRecord) && b[5] != 1 && b[5] != 2
                ==> r == Some(DeltaFault::WrongPageType { kind: op.kind, page_type: b[5] })
            &&& (op.kind is PutPropBlock || op.kind is InternBind || op.kind is AclGrant) && !bags
                ==> r == Some(DeltaFault::WrongPageType { kind: op.kind, page_type: b[5] })
            &&& op.kind is TombstoneRecord && b[5] == 2 && read_rel_result(b, op.slot) is Err ==> r
                == Some(DeltaFault::TombstoneRead(read_rel_result(b, op.slot)->Err_0))
            &&& op.kind is TombstoneRecord && b[5] == 2 && read_rel_result(b, op.slot) == Ok::<
                Option<RelRecord>,
                PageError,
            >(None) ==> r == Some(DeltaFault::TombstoneEmpty)
            &&& op.kind is TombstoneRecord && b[5] == 1 && op.slot >= u16_at(b, 36) ==> r == Some(
                DeltaFault::Apply {
                    kind: op.kind,
                    error: PageError::SlotOutOfRange { slot: op.slot, count: u16_at(b, 36) },
                },
            )
        }),
{
}

/// What is said of an allocation that formats nothing, of a page that is missing,
/// and of one that is damaged.
pub proof fn law_recovery_step_refusals(
    present: Option<Seq<u8>>,
    op: DeltaOp,
    commit_lsn: u64,
    owner: OwnerLayout,
)
    requires
        op.kind is PageAlloc ==> op.payload@.len() == 1,
    ensures
        ({
            let blank = match present {
                None => true,
                Some(b) => forall|k: int| 0 <= k < b.len() ==> #[trigger] b[k] == 0,
            };
            let b = present->Some_0;
            let t = op.payload@[0];
            let r = recovery_result(present, op, commit_lsn, owner);
            let alloc = op.kind is PageAlloc;
            let tel = op.store_id == 3 && alloc;
            &&& blank && !alloc ==> r == Err::<
                (Option<Seq<u8>>, RecoveryDeltaOutcome),
                DeltaFault,
            >(DeltaFault::AbsentPage { kind: op.kind })
            &&& blank && alloc && (t == 0 || t > 7) ==> r == Err::<
                (Option<Seq<u8>>, RecoveryDeltaOutcome),
                DeltaFault,
            >(DeltaFault::AllocType { got: t })
            &&& blank && alloc && 4 <= t <= 6 ==> r == Err::<
                (Option<Seq<u8>>, RecoveryDeltaOutcome),
                DeltaFault,
            >(DeltaFault::AllocFormat(PageError::WrongPageType { got: t, expected: 1 }))
            &&& !blank && !tel && open_result(b) is Err ==> r == Err::<
                (Option<Seq<u8>>, RecoveryDeltaOutcome),
                DeltaFault,
            >(DeltaFault::TornPage(open_result(b)->Err_0))
            &&& !blank && !tel && alloc && open_result(b) is Ok && op.op_lsn.0 > u64_at(b, 16) ==> r
                == Err::<(Option<Seq<u8>>, RecoveryDeltaOutcome), DeltaFault>(
                DeltaFault::AllocOnOlderPage,
            )
            &&& !blank && tel && decode_header(b) is Err ==> r == Err::<
                (Option<Seq<u8>>, RecoveryDeltaOutcome),
                DeltaFault,
            >(DeltaFault::TelHeader(decode_header(b)->Err_0))
            &&& !blank && tel && decode_header(b) is Ok ==> {
                let sound = u64_at(b, 8) == op.page_no && u64_at(b, 24) == op.tenant_id.0 && b[5]
                    == 3 && u32_at(b, 32) == crc32c_of(b.skip(40));
                &&& !sound ==> r == Err::<(Option<Seq<u8>>, RecoveryDeltaOutcome), DeltaFault>(
                    DeltaFault::TelPage,
                )
                &&& sound && op.op_lsn.0 > u64_at(b, 16) ==> r == Err::<
                    (Option<Seq<u8>>, RecoveryDeltaOutcome),
                    DeltaFault,
                >(DeltaFault::AllocOnOlderPage)
                &&& sound && op.op_lsn.0 <= u64_at(b, 16) ==> r == Ok::<
                    (Option<Seq<u8>>, RecoveryDeltaOutcome),
                    DeltaFault,
                >((None, RecoveryDeltaOutcome::Idempotent))
            }
        }),
{
    if let Some(b) = present {
        assert(zeros_only(b) <==> forall|k: int| 0 <= k < b.len() ==> #[trigger] b[k] == 0);
    }
}

// ---- stores ---------------------------------------------------------------

/// What a replayed operation leaves: where it succeeded and a page was formed, the
/// store holds that page, its row in the table of dirty pages has the LSN of the
/// first operation that dirtied it and a new generation, and every other page and
/// row is as it was; where it failed, or the page had it already, all is as it was.
pub proof fn law_replayed_operation<S: DeltaPageStore>(
    before: S,
    after: S,
    dirty_before: DirtyPageTable,
    dirty_after: DirtyPageTable,
    op: DeltaOp,
    commit_lsn: u64,
    owner: OwnerLayout,
    r: Result<RecoveryDeltaOutcome, DeltaError>,
    tenant: u64,
    page_no: u64,
    key: RowKey,
)
    requires
        dirty_before.clock() < u64::MAX,
        replayed(before, after, dirty_before, dirty_after, op, commit_lsn, owner, r),
    ensures
        ({
            let own = (op.tenant_id.0, op.store_id, op.page_no);
            let present = before.page(op.tenant_id.0, op.page_no);
            let step = recovery_result(present, op, commit_lsn, owner);
            let formed = r is Ok && !(r->Ok_0 is Idempotent);
            &&& page_no != op.page_no || !formed ==> after.page(tenant, page_no) == before.page(
                tenant,
                page_no,
            )
            &&& !formed ==> dirty_after.rows() == dirty_before.rows()
            &&& r matches Err(e) ==> e.lsn == op.op_lsn
            &&& key != own ==> (dirty_after.rows().contains_key(key)
                <==> dirty_before.rows().contains_key(key)) && dirty_after.rows()[key]
                == dirty_before.rows()[key]
            &&& formed ==> {
                &&& step matches Ok((Some(page), out)) && after.page(op.tenant_id.0, op.page_no)
                    == Some(page) && r == Ok::<RecoveryDeltaOutcome, DeltaError>(out)
                &&& dirty_after.rows().contains_key(own)
                &&& dirty_after.rows()[own].1 == dirty_before.clock() + 1
                &&& dirty_after.rows()[own].0 == if dirty_before.rows().contains_key(own) {
                    dirty_before.rows()[own].0
                } else {
                    op.op_lsn.0
                }
            }
        }),
{
    let step = recovery_result(op_page(before, op), op, commit_lsn, owner);
    assert(step matches Ok((page, out)) ==> (page is Some <==> !(out is Idempotent)));
    assert(row_key(op_key(op)) == (op.tenant_id.0, op.store_id, op.page_no));
}

/// Which operations stay inside their page: all of them, but for a row that is
/// retired again with a newer LSN and that lies in the header. On a page that is laid
/// out in rows every operation does.
pub proof fn law_operations_stay_inside(b: Seq<u8>, op: DeltaOp, owner: OwnerLayout)
    requires
        page_ok(b),
    ensures
        ({
            let rows = op.kind is InternBind || op.kind is AclGrant;
            let retired = op.slot < u16_at(b, 36) && u16_at(b, 40 + 4 * op.slot) == 0 && u16_at(
                b,
                42 + 4 * op.slot,
            ) == 0xFFFF;
            let at = 8192 - (op.slot + 1) * owner.row_bytes;
            &&& delta_fits(b, op, owner) <==> !(rows && op.retires_owner_row && retired && 0 <= at
                && at < 40 && op.op_lsn.0 > u64_at(b, at))
            &&& canonical(b, owner.row_bytes as int) ==> delta_fits(b, op, owner)
        }),
{
    if canonical(b, owner.row_bytes as int) && op.slot < u16_at(b, 36) {
        let n = u16_at(b, 36) as int;
        let len = owner.row_bytes as int;
        assert((op.slot + 1) * len <= n * len) by (nonlinear_arith)
            requires
                op.slot + 1 <= n,
                len > 0,
        ;
        assert(n * (len + 4) == n * len + 4 * n) by (nonlinear_arith);
    }
}

/// What recovery asks of the page that is there is asked of the operation alone where
/// it is to be applied.
pub proof fn law_recovery_stays_inside(
    present: Option<Seq<u8>>,
    op: DeltaOp,
    commit_lsn: u64,
    owner: OwnerLayout,
)
    ensures
        present is None ==> recovery_fits(present, op, commit_lsn, owner),
        present matches Some(b) ==> (recovery_fits(present, op, commit_lsn, owner) <==> target_fault(
            b,
            op,
            commit_lsn,
        ) is Some || op.op_lsn.0 <= u64_at(b, 16) || delta_fits(b, op, owner)),
{
}

} // verus!
