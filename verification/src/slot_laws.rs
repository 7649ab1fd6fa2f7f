//! What the operations of a slotted page promise together.

use vstd::prelude::*;
use crate::checksum::{crc32c_of, law_one_byte_changes_the_checksum};
use crate::codec::{
    group_codec, le16, le64, lemma_u16_at_same, lemma_u32_at_same, lemma_u32_bytes_same,
    lemma_u64_read_back, splice, u32_at, u64_at, zeroed,
};
use crate::page::{
    decode_header, header_bytes, header_of, law_header_round_trip, law_node_round_trip,
    law_rel_round_trip, node_bytes, page_type_byte, rel_bytes, NodeRecord, PageHeader, PageType,
    RelRecord, NODE_RECORD_SIZE, PAGE_HEADER_SIZE, PAGE_SIZE, REL_RECORD_SIZE,
};
use crate::slot_model::{
    append_error, appended, buried, buried_error, bury_error, entry_result, fixed_body, fixed_error,
    fixed_grown, fixed_start, fixed_written, free_space_of, fresh_page, hole_error, holed,
    insert_error, lemma_sealed, max_count, open_result, overwrite_error, overwritten, page_ok,
    publish_error, publish_node_error, publish_rel_error, put_error, put_page, read_bag_result, read_node_result,
    read_rel_result, record_area, revived, sealed, slot_at, slot_count_of, slot_len, slot_off,
    sparse_extended, tombstone_body, tombstone_lsn_result, tombstone_result, with_counts, with_slot,
    PageError, MAX_SLOTS, NODE_CAPACITY, REL_CAPACITY, PAGE_BODY_BYTES, PERMANENT_TOMBSTONE_LEN, SLOT_SIZE,
};

verus! {

broadcast use group_codec;

// ---- the layout that the operations keep ----------------------------------

/// A directory entry that stands for no record.
pub open spec fn vacant(b: Seq<u8>, i: int) -> bool {
    slot_off(b, i) == 0 && (slot_len(b, i) == 0 || slot_len(b, i) == PERMANENT_TOMBSTONE_LEN)
}

/// Two entries share no byte.
pub open spec fn apart(b: Seq<u8>, i: int, j: int) -> bool {
    slot_off(b, i) + slot_len(b, i) <= slot_off(b, j) || slot_off(b, j) + slot_len(b, j)
        <= slot_off(b, i)
}

/// A page as its own operations leave it: free space and directory fit in the
/// body, every record lies in the record area, and no two records overlap.
pub open spec fn layout_ok(b: Seq<u8>) -> bool {
    &&& page_ok(b)
    &&& record_area(b) <= PAGE_SIZE
    &&& forall|i: int|
        #![trigger slot_off(b, i)]
        0 <= i < slot_count_of(b) && !vacant(b, i) ==> record_area(b) <= slot_off(b, i) && slot_off(
            b,
            i,
        ) + slot_len(b, i) <= PAGE_SIZE
    &&& forall|i: int, j: int|
        #![trigger slot_off(b, i), slot_off(b, j)]
        0 <= i < slot_count_of(b) && 0 <= j < slot_count_of(b) && i != j && !vacant(b, i)
            && !vacant(b, j) ==> apart(b, i, j)
}

/// What a slot holds: `None` for a vacant one.
pub open spec fn slot_bytes(b: Seq<u8>, i: int) -> Option<Seq<u8>> {
    if vacant(b, i) {
        None
    } else {
        Some(b.subrange(slot_off(b, i) as int, slot_off(b, i) + slot_len(b, i)))
    }
}

/// On a well laid out page every slot in the directory is readable: it is
/// vacant or yields its bytes.
pub proof fn law_every_slot_reads(b: Seq<u8>, slot: u16)
    requires
        layout_ok(b),
        slot < slot_count_of(b),
    ensures
        entry_result(b, slot) == Ok::<Option<(u16, u16)>, PageError>(
            if vacant(b, slot as int) {
                None
            } else {
                Some((slot_off(b, slot as int), slot_len(b, slot as int)))
            },
        ),
{
    assert(slot_off(b, slot as int) == slot_off(b, slot as int));
}

// ---- checksums ------------------------------------------------------------

/// A page whose checksum was set by the last mutation opens again.
pub proof fn law_sealed_page_opens(b: Seq<u8>)
    requires
        page_ok(b),
    ensures
        open_result(sealed(b)) is Ok,
        page_ok(sealed(b)),
{
    lemma_sealed(b);
}

/// A page whose body changed under an unchanged checksum opens only if the
/// checksums of both bodies agree.
pub proof fn law_body_change_is_noticed(a: Seq<u8>, b: Seq<u8>)
    requires
        open_result(a) is Ok,
        b.len() == PAGE_SIZE,
        b.take(PAGE_HEADER_SIZE as int) == a.take(PAGE_HEADER_SIZE as int),
        crc32c_of(b.skip(PAGE_HEADER_SIZE as int)) != crc32c_of(a.skip(PAGE_HEADER_SIZE as int)),
    ensures
        open_result(b) == Err::<(), PageError>(
            PageError::ChecksumMismatch {
                stored: u32_at(a, 32),
                computed: crc32c_of(b.skip(PAGE_HEADER_SIZE as int)),
            },
        ),
{
    assert(a.len() == PAGE_SIZE);
    assert forall|i: int| 0 <= i < PAGE_HEADER_SIZE implies a[i] == b[i] by {
        assert(a.take(PAGE_HEADER_SIZE as int)[i] == a[i]);
        assert(b.take(PAGE_HEADER_SIZE as int)[i] == b[i]);
    }
    lemma_u32_at_same(a, 0, b, 0);
    lemma_u32_at_same(a, 32, b, 32);
}

/// One changed byte of the body is always noticed.
pub proof fn law_body_byte_change_is_noticed(a: Seq<u8>, b: Seq<u8>, k: int)
    requires
        open_result(a) is Ok,
        b.len() == a.len(),
        PAGE_HEADER_SIZE <= k < a.len(),
        b[k] != a[k],
        forall|i: int| 0 <= i < a.len() && i != k ==> a[i] == b[i],
    ensures
        open_result(b) == Err::<(), PageError>(
            PageError::ChecksumMismatch {
                stored: u32_at(a, 32),
                computed: crc32c_of(b.skip(PAGE_HEADER_SIZE as int)),
            },
        ),
{
    let h = PAGE_HEADER_SIZE as int;
    law_one_byte_changes_the_checksum(0, a.skip(h), b.skip(h), k - h);
    assert(a.take(h) =~= b.take(h));
    law_body_change_is_noticed(a, b);
}

/// A change of the checksum field alone is always noticed.
pub proof fn law_checksum_field_change_is_noticed(a: Seq<u8>, b: Seq<u8>)
    requires
        open_result(a) is Ok,
        b.len() == a.len(),
        b != a,
        forall|i: int| 0 <= i < a.len() && !(32 <= i < 36) ==> a[i] == b[i],
    ensures
        open_result(b) == Err::<(), PageError>(
            PageError::ChecksumMismatch { stored: u32_at(b, 32), computed: u32_at(a, 32) },
        ),
{
    assert(a.skip(PAGE_HEADER_SIZE as int) =~= b.skip(PAGE_HEADER_SIZE as int));
    lemma_u32_at_same(a, 0, b, 0);
    if u32_at(a, 32) == u32_at(b, 32) {
        lemma_u32_bytes_same(a, 32, b, 32);
        assert forall|i: int| 0 <= i < a.len() implies a[i] == b[i] by {
            if 32 <= i < 36 {
                assert(a[32 + (i - 32)] == b[32 + (i - 32)]);
            }
        }
        assert(a =~= b);
    }
}

// ---- fresh pages ----------------------------------------------------------

/// A fresh page is empty, well laid out, entirely free, and opens.
pub proof fn law_fresh_page(h: PageHeader)
    requires
        decode_header(header_bytes(h)) is Ok,
    ensures
        layout_ok(fresh_page(h)),
        open_result(fresh_page(h)) is Ok,
        slot_count_of(fresh_page(h)) == 0,
        free_space_of(fresh_page(h)) == PAGE_BODY_BYTES,
        fresh_page(h).len() == PAGE_SIZE,
        forall|i: int| PAGE_HEADER_SIZE <= i < PAGE_SIZE ==> fresh_page(h)[i] == 0,
{
    let g = PageHeader { slot_count: 0, free_space: PAGE_BODY_BYTES as u16, ..h };
    let body = Seq::new(PAGE_BODY_BYTES as nat, |i: int| 0u8);
    let b = header_bytes(g) + body;
    law_header_round_trip(h);
    law_header_round_trip(g);
    assert forall|k: int| 0 <= k < PAGE_HEADER_SIZE implies b[k] == header_bytes(g)[k] by {}
    lemma_u32_at_same(b, 0, header_bytes(g), 0);
    lemma_u16_at_same(b, 36, header_bytes(g), 36);
    lemma_u16_at_same(b, 38, header_bytes(g), 38);
    assert(header_of(header_bytes(g)) == g);
    lemma_sealed(b);
    law_sealed_page_opens(b);
}

// ---- appending ------------------------------------------------------------

/// A record that was appended is read back from its new slot, every other slot
/// holds what it held, and the page stays well laid out.
pub proof fn law_append(b: Seq<u8>, rec: Seq<u8>)
    requires
        layout_ok(b),
        0 < rec.len(),
        append_error(b, rec.len() as int) is None,
    ensures
        layout_ok(appended(b, rec)),
        slot_count_of(appended(b, rec)) == slot_count_of(b) + 1,
        free_space_of(appended(b, rec)) == free_space_of(b) - rec.len() - SLOT_SIZE,
        slot_bytes(appended(b, rec), slot_count_of(b) as int) == Some(rec),
        forall|i: int|
            #![trigger slot_bytes(appended(b, rec), i)]
            0 <= i < slot_count_of(b) ==> slot_bytes(appended(b, rec), i) == slot_bytes(b, i),
        open_result(appended(b, rec)) is Ok,
{
    let n = slot_count_of(b);
    let start = record_area(b) - rec.len();
    let c = with_counts(
        with_slot(splice(b, start, rec), n as int, start as u16, rec.len() as u16),
        (n + 1) as u16,
        (free_space_of(b) - rec.len() - SLOT_SIZE) as u16,
    );
    let d = appended(b, rec);
    lemma_sealed(c);
    law_sealed_page_opens(c);
    assert(record_area(d) == start);
    assert(slot_off(d, n as int) == start && slot_len(d, n as int) == rec.len());
    assert(d.subrange(start, start + rec.len()) =~= rec);
    assert forall|i: int| 0 <= i < n implies slot_off(d, i) == slot_off(b, i) && slot_len(d, i)
        == slot_len(b, i) && slot_bytes(d, i) == slot_bytes(b, i) by {
        assert(slot_off(b, i) == slot_off(b, i));
        if !vacant(b, i) {
            assert(d.subrange(slot_off(d, i) as int, slot_off(d, i) + slot_len(d, i))
                =~= b.subrange(slot_off(b, i) as int, slot_off(b, i) + slot_len(b, i)));
        }
    }
    assert forall|i: int, j: int|
        #![trigger slot_off(d, i), slot_off(d, j)]
        0 <= i < slot_count_of(d) && 0 <= j < slot_count_of(d) && i != j && !vacant(d, i)
            && !vacant(d, j) implies apart(d, i, j) by {
        if i < n {
            assert(slot_off(d, i) == slot_off(b, i));
        }
        if j < n {
            assert(slot_off(d, j) == slot_off(b, j));
        }
    }
    assert forall|i: int|
        #![trigger slot_off(d, i)]
        0 <= i < slot_count_of(d) && !vacant(d, i) implies record_area(d) <= slot_off(d, i)
        && slot_off(d, i) + slot_len(d, i) <= PAGE_SIZE by {
        if i < n {
            assert(slot_off(d, i) == slot_off(b, i));
        }
    }
}

/// A node record that was appended is read back.
pub proof fn law_append_node(b: Seq<u8>, rec: NodeRecord)
    requires
        layout_ok(b),
        append_error(b, NODE_RECORD_SIZE as int) is None,
    ensures
        read_node_result(appended(b, node_bytes(rec)), slot_count_of(b)) == Ok::<
            Option<NodeRecord>,
            PageError,
        >(Some(rec)),
{
    law_node_round_trip(rec);
    law_append(b, node_bytes(rec));
    law_every_slot_reads(appended(b, node_bytes(rec)), slot_count_of(b));
}

/// A relationship record that was appended is read back.
pub proof fn law_append_rel(b: Seq<u8>, rec: RelRecord)
    requires
        layout_ok(b),
        append_error(b, REL_RECORD_SIZE as int) is None,
    ensures
        read_rel_result(appended(b, rel_bytes(rec)), slot_count_of(b)) == Ok::<
            Option<RelRecord>,
            PageError,
        >(Some(rec)),
{
    law_rel_round_trip(rec);
    law_append(b, rel_bytes(rec));
    law_every_slot_reads(appended(b, rel_bytes(rec)), slot_count_of(b));
}

/// A property bag that was appended is read back.
pub proof fn law_append_bag(b: Seq<u8>, bag: Seq<u8>)
    requires
        layout_ok(b),
        b[5] == page_type_byte(PageType::PropSlotted),
        0 < bag.len(),
        append_error(b, bag.len() as int) is None,
    ensures
        read_bag_result(appended(b, bag), slot_count_of(b)) == Ok::<Option<Seq<u8>>, PageError>(
            Some(bag),
        ),
{
    law_append(b, bag);
    law_every_slot_reads(appended(b, bag), slot_count_of(b));
}

// ---- overwriting and holes ------------------------------------------------

/// A record that was overwritten reads as the new one, and every other slot
/// holds what it held.
pub proof fn law_overwrite(b: Seq<u8>, slot: u16, rec: Seq<u8>)
    requires
        layout_ok(b),
        0 < rec.len() <= 0xFFFF,
        overwrite_error(b, slot, rec.len() as u16) is None,
    ensures
        layout_ok(overwritten(b, slot, rec)),
        slot_count_of(overwritten(b, slot, rec)) == slot_count_of(b),
        free_space_of(overwritten(b, slot, rec)) == free_space_of(b),
        slot_bytes(overwritten(b, slot, rec), slot as int) == Some(rec),
        forall|i: int|
            #![trigger slot_bytes(overwritten(b, slot, rec), i)]
            0 <= i < slot_count_of(b) && i != slot ==> slot_bytes(overwritten(b, slot, rec), i)
                == slot_bytes(b, i),
        open_result(overwritten(b, slot, rec)) is Ok,
{
    let off = slot_off(b, slot as int);
    let c = splice(b, off as int, rec);
    let d = overwritten(b, slot, rec);
    lemma_sealed(c);
    assert(page_ok(c)) by {
        assert(slot_at(slot_count_of(b) as int) >= PAGE_HEADER_SIZE);
    }
    law_sealed_page_opens(c);
    assert(d.subrange(off as int, off + rec.len()) =~= rec);
    assert forall|i: int| 0 <= i < slot_count_of(b) implies slot_off(d, i) == slot_off(b, i)
        && slot_len(d, i) == slot_len(b, i) && (i != slot ==> slot_bytes(d, i) == slot_bytes(
        b,
        i,
    )) by {
        if i != slot && !vacant(b, i) {
            assert(apart(b, i, slot as int)) by {
                assert(slot_off(b, i) == slot_off(b, i));
            }
            assert(d.subrange(slot_off(d, i) as int, slot_off(d, i) + slot_len(d, i))
                =~= b.subrange(slot_off(b, i) as int, slot_off(b, i) + slot_len(b, i)));
        }
    }
    assert forall|i: int, j: int|
        #![trigger slot_off(d, i), slot_off(d, j)]
        0 <= i < slot_count_of(d) && 0 <= j < slot_count_of(d) && i != j && !vacant(d, i)
            && !vacant(d, j) implies apart(d, i, j) by {
        assert(slot_off(d, i) == slot_off(b, i));
        assert(slot_off(d, j) == slot_off(b, j));
    }
    assert forall|i: int|
        #![trigger slot_off(d, i)]
        0 <= i < slot_count_of(d) && !vacant(d, i) implies record_area(d) <= slot_off(d, i)
        && slot_off(d, i) + slot_len(d, i) <= PAGE_SIZE by {
        assert(slot_off(d, i) == slot_off(b, i));
    }
}

/// A directory entry that a record may be put into again.
pub open spec fn hole(b: Seq<u8>, i: int) -> bool {
    slot_off(b, i) == 0 && slot_len(b, i) == 0
}

/// A slot that became a hole reads as absent, free space and every other slot
/// stay what they were, and doing it again changes nothing. A durable tombstone
/// stays one.
pub proof fn law_tombstone(b: Seq<u8>, slot: u16)
    requires
        page_ok(b),
        slot < slot_count_of(b),
    ensures
        page_ok(holed(b, slot)),
        slot_count_of(holed(b, slot)) == slot_count_of(b),
        free_space_of(holed(b, slot)) == free_space_of(b),
        entry_result(holed(b, slot), slot) == Ok::<Option<(u16, u16)>, PageError>(None),
        tombstone_result(holed(b, slot), slot) == tombstone_result(b, slot),
        forall|i: u16|
            #![trigger entry_result(holed(b, slot), i)]
            i != slot ==> entry_result(holed(b, slot), i) == entry_result(b, i),
        forall|i: u16|
            #![trigger tombstone_result(holed(b, slot), i)]
            tombstone_result(holed(b, slot), i) == tombstone_result(b, i),
        forall|i: u16|
            #![trigger slot_bytes(holed(b, slot), i as int)]
            i != slot && entry_result(b, i) is Ok ==> slot_bytes(holed(b, slot), i as int)
                == slot_bytes(b, i as int),
        holed(holed(b, slot), slot) == holed(b, slot),
        open_result(b) is Ok || buried_error(b, slot) is None ==> open_result(holed(b, slot)) is Ok,
        layout_ok(b) ==> layout_ok(holed(b, slot)),
{
    let c = with_slot(b, slot as int, 0, 0);
    let d = holed(b, slot);
    lemma_sealed(c);
    law_sealed_page_opens(c);
    if buried_error(b, slot) is None {
        assert forall|i: u16| i < slot_count_of(b) && i != slot implies slot_off(d, i as int)
            == slot_off(b, i as int) && slot_len(d, i as int) == slot_len(b, i as int) && (
        entry_result(b, i) is Ok ==> slot_bytes(d, i as int) == slot_bytes(b, i as int)) by {
            let k = i as int;
            if entry_result(b, i) is Ok && !vacant(b, k) {
                assert(d.subrange(slot_off(d, k) as int, slot_off(d, k) + slot_len(d, k))
                    =~= b.subrange(slot_off(b, k) as int, slot_off(b, k) + slot_len(b, k)));
            }
        }
        assert(hole(d, slot as int));
        let e = with_slot(d, slot as int, 0, 0);
        assert(e =~= d);
        assert(sealed(e) =~= d);
        if layout_ok(b) {
            assert forall|i: int| 0 <= i < slot_count_of(b) && i != slot implies #[trigger] slot_off(
                d,
                i,
            ) == slot_off(b, i) && slot_len(d, i) == slot_len(b, i) by {
                assert(slot_off(d, (i as u16) as int) == slot_off(b, (i as u16) as int));
            }
        }
    }
}

// ---- redo targets ---------------------------------------------------------

/// A hole that was revived reads as the new record, and every other slot holds
/// what it held.
pub proof fn law_revive(b: Seq<u8>, slot: u16, rec: Seq<u8>)
    requires
        layout_ok(b),
        0 < rec.len() <= 0xFFFF,
        slot < slot_count_of(b),
        hole(b, slot as int),
        put_error(b, slot, rec.len() as u16) is None,
    ensures
        put_page(b, slot, rec) == revived(b, slot, rec),
        layout_ok(revived(b, slot, rec)),
        slot_count_of(revived(b, slot, rec)) == slot_count_of(b),
        slot_bytes(revived(b, slot, rec), slot as int) == Some(rec),
        forall|i: int|
            #![trigger slot_bytes(revived(b, slot, rec), i)]
            0 <= i < slot_count_of(b) && i != slot ==> slot_bytes(revived(b, slot, rec), i)
                == slot_bytes(b, i),
        open_result(revived(b, slot, rec)) is Ok,
{
    law_every_slot_reads(b, slot);
    let start = record_area(b) - rec.len();
    let c = splice(
        with_slot(splice(b, start, rec), slot as int, start as u16, rec.len() as u16),
        38,
        le16((free_space_of(b) - rec.len()) as u16),
    );
    let d = revived(b, slot, rec);
    lemma_sealed(c);
    law_sealed_page_opens(c);
    assert(record_area(d) == start);
    assert(d.subrange(start, start + rec.len()) =~= rec);
    assert forall|i: int| 0 <= i < slot_count_of(b) && i != slot implies slot_off(d, i) == slot_off(
        b,
        i,
    ) && slot_len(d, i) == slot_len(b, i) && slot_bytes(d, i) == slot_bytes(b, i) by {
        assert(slot_off(b, i) == slot_off(b, i));
        if !vacant(b, i) {
            assert(d.subrange(slot_off(d, i) as int, slot_off(d, i) + slot_len(d, i))
                =~= b.subrange(slot_off(b, i) as int, slot_off(b, i) + slot_len(b, i)));
        }
    }
    assert forall|i: int, j: int|
        #![trigger slot_off(d, i), slot_off(d, j)]
        0 <= i < slot_count_of(d) && 0 <= j < slot_count_of(d) && i != j && !vacant(d, i)
            && !vacant(d, j) implies apart(d, i, j) by {
        if i != slot {
            assert(slot_off(d, i) == slot_off(b, i));
        }
        if j != slot {
            assert(slot_off(d, j) == slot_off(b, j));
        }
    }
    assert forall|i: int|
        #![trigger slot_off(d, i)]
        0 <= i < slot_count_of(d) && !vacant(d, i) implies record_area(d) <= slot_off(d, i)
        && slot_off(d, i) + slot_len(d, i) <= PAGE_SIZE by {
        if i != slot {
            assert(slot_off(d, i) == slot_off(b, i));
        }
    }
}

/// The directory of a well laid out page can be extended by holes: the new
/// slots are vacant and the old ones hold what they held.
pub proof fn lemma_sparse(b: Seq<u8>, slot: u16)
    requires
        layout_ok(b),
        slot_count_of(b) < slot,
        SLOT_SIZE * (slot - slot_count_of(b)) <= free_space_of(b),
    ensures
        layout_ok(sparse_extended(b, slot)),
        slot_count_of(sparse_extended(b, slot)) == slot,
        record_area(sparse_extended(b, slot)) == record_area(b),
        forall|i: int|
            #![trigger slot_bytes(sparse_extended(b, slot), i)]
            0 <= i < slot ==> slot_bytes(sparse_extended(b, slot), i) == if i < slot_count_of(b) {
                slot_bytes(b, i)
            } else {
                None
            },
{
    let d = sparse_extended(b, slot);
    let n = slot_count_of(b);
    assert forall|i: int| 0 <= i < n implies slot_off(d, i) == slot_off(b, i) && slot_len(d, i)
        == slot_len(b, i) && slot_bytes(d, i) == slot_bytes(b, i) by {
        assert(slot_off(b, i) == slot_off(b, i));
        if !vacant(b, i) {
            assert(d.subrange(slot_off(d, i) as int, slot_off(d, i) + slot_len(d, i))
                =~= b.subrange(slot_off(b, i) as int, slot_off(b, i) + slot_len(b, i)));
        }
    }
    assert forall|i: int| n <= i < slot implies vacant(d, i) by {}
    assert forall|i: int, j: int|
        #![trigger slot_off(d, i), slot_off(d, j)]
        0 <= i < slot_count_of(d) && 0 <= j < slot_count_of(d) && i != j && !vacant(d, i)
            && !vacant(d, j) implies apart(d, i, j) by {
        assert(slot_off(d, i) == slot_off(b, i));
        assert(slot_off(d, j) == slot_off(b, j));
    }
    assert forall|i: int|
        #![trigger slot_off(d, i)]
        0 <= i < slot_count_of(d) && !vacant(d, i) implies record_area(d) <= slot_off(d, i)
        && slot_off(d, i) + slot_len(d, i) <= PAGE_SIZE by {
        assert(slot_off(d, i) == slot_off(b, i));
    }
}

/// A record installed at a redo target is read back from it; slots that the
/// installation created before it are holes, and all others hold what they
/// held. No durable tombstone is such a target.
pub proof fn law_put(b: Seq<u8>, slot: u16, rec: Seq<u8>)
    requires
        layout_ok(b),
        0 < rec.len() <= 0xFFFF,
        put_error(b, slot, rec.len() as u16) is None,
    ensures
        slot < slot_count_of(b) ==> tombstone_result(b, slot) == Ok::<bool, PageError>(false),
        layout_ok(put_page(b, slot, rec)),
        slot_count_of(put_page(b, slot, rec)) == max_count(slot + 1, slot_count_of(b) as int),
        slot_bytes(put_page(b, slot, rec), slot as int) == Some(rec),
        forall|i: int|
            #![trigger slot_bytes(put_page(b, slot, rec), i)]
            0 <= i < slot_count_of(put_page(b, slot, rec)) && i != slot ==> slot_bytes(
                put_page(b, slot, rec),
                i,
            ) == if i < slot_count_of(b) {
                slot_bytes(b, i)
            } else {
                None
            },
        open_result(put_page(b, slot, rec)) is Ok,
{
    let n = slot_count_of(b);
    if slot == n {
        law_append(b, rec);
    } else if slot > n {
        lemma_sparse(b, slot);
        law_append(sparse_extended(b, slot), rec);
    } else {
        law_every_slot_reads(b, slot);
        if vacant(b, slot as int) {
            law_revive(b, slot, rec);
        } else {
            law_overwrite(b, slot, rec);
        }
    }
}

// ---- fixed-size slots -----------------------------------------------------

/// A page of fixed-size slots: free space is what the slot count leaves, and
/// every slot is vacant or has the entry that its index determines.
pub open spec fn canonical(b: Seq<u8>, len: int) -> bool {
    &&& page_ok(b)
    &&& 0 < len <= 0xFFFF
    &&& free_space_of(b) == PAGE_BODY_BYTES - slot_count_of(b) * (len + SLOT_SIZE)
    &&& forall|i: int|
        #![trigger slot_off(b, i)]
        0 <= i < slot_count_of(b) ==> vacant(b, i) || (slot_off(b, i) == fixed_start(i, len)
            && slot_len(b, i) == len)
}

/// The cells of fixed-size slots: where slot `i` of `to` lies.
proof fn lemma_cell(i: int, to: int, len: int)
    requires
        0 <= i < to,
        0 < len,
        to * (len + SLOT_SIZE) <= PAGE_BODY_BYTES,
    ensures
        slot_at(to) <= PAGE_SIZE - to * len <= fixed_start(i, len),
        fixed_start(i, len) + len <= PAGE_SIZE,
        fixed_start(i, len) == PAGE_SIZE - i * len - len,
        i * len >= 0,
        to <= MAX_SLOTS,
{
    assert(to * (len + 4) == to * len + 4 * to) by (nonlinear_arith);
    assert((i + 1) * len == i * len + len) by (nonlinear_arith);
    assert((i + 1) * len <= to * len) by (nonlinear_arith)
        requires
            i + 1 <= to,
            0 < len,
    ;
    assert(i * len >= 0) by (nonlinear_arith)
        requires
            0 <= i,
            0 < len,
    ;
    assert(to * len >= to) by (nonlinear_arith)
        requires
            0 <= to,
            1 <= len,
    ;
}

/// Cells of different slots are apart.
proof fn lemma_cells_apart(i: int, j: int, len: int)
    requires
        0 <= i < j,
        0 < len,
    ensures
        fixed_start(j, len) + len <= fixed_start(i, len),
{
    assert((j + 1) * len == j * len + len) by (nonlinear_arith);
    assert((i + 1) * len <= j * len) by (nonlinear_arith)
        requires
            i + 1 <= j,
            0 < len,
    ;
}

/// The page after a fixed-size write, byte by byte: the header's counts, the
/// new directory entry, the new body, cleared cells between the old and the
/// new high-water mark, and everything else as it was.
proof fn lemma_fixed_bytes(b: Seq<u8>, slot: u16, rec: Seq<u8>, len: u16, capacity: u16)
    requires
        canonical(b, len as int),
        rec.len() == len,
        fixed_error(b, slot, len as int, len, capacity) is None,
    ensures
        page_ok(fixed_body(b, slot, rec, len)),
        slot_count_of(fixed_body(b, slot, rec, len)) == max_count(slot + 1, slot_count_of(b) as int),
        free_space_of(fixed_body(b, slot, rec, len)) == PAGE_BODY_BYTES - max_count(
            slot + 1,
            slot_count_of(b) as int,
        ) * (len + SLOT_SIZE),
        slot_off(fixed_body(b, slot, rec, len), slot as int) == fixed_start(
            slot as int,
            len as int,
        ),
        slot_len(fixed_body(b, slot, rec, len), slot as int) == len,
        forall|i: int|
            #![trigger slot_off(fixed_body(b, slot, rec, len), i)]
            0 <= i < slot_count_of(b) && i != slot ==> slot_off(fixed_body(b, slot, rec, len), i)
                == slot_off(b, i) && slot_len(fixed_body(b, slot, rec, len), i) == slot_len(b, i),
        forall|i: int|
            #![trigger slot_off(fixed_body(b, slot, rec, len), i)]
            slot_count_of(b) <= i < slot ==> slot_off(fixed_body(b, slot, rec, len), i) == 0
                && slot_len(fixed_body(b, slot, rec, len), i) == 0,
        fixed_body(b, slot, rec, len).len() == PAGE_SIZE,
{
    let n = slot_count_of(b) as int;
    let to = max_count(slot + 1, n);
    let l = len as int;
    let start = fixed_start(slot as int, l);
    lemma_cell(slot as int, to, l);
    if n < to {
        assert(PAGE_SIZE - to * l <= PAGE_SIZE - n * l) by (nonlinear_arith)
            requires
                n <= to,
                0 < l,
        ;
    }
    let g = fixed_grown(b, n, to, l);
    let a1 = splice(g, start, rec);
    let a2 = with_slot(a1, slot as int, start as u16, len);
    let d = fixed_body(b, slot, rec, len);
    assert(d == with_counts(a2, to as u16, (PAGE_BODY_BYTES - to * (l + SLOT_SIZE)) as u16));
    assert forall|i: int| 0 <= i < n && i != slot implies #[trigger] slot_off(d, i) == slot_off(b, i)
        && slot_len(d, i) == slot_len(b, i) by {
        assert(slot_at(i) + 4 <= slot_at(n));
        assert(slot_off(g, i) == slot_off(b, i));
        assert(slot_len(g, i) == slot_len(b, i));
        assert(slot_off(a1, i) == slot_off(g, i));
        assert(slot_len(a1, i) == slot_len(g, i));
    }
    assert forall|i: int| n <= i < slot implies #[trigger] slot_off(d, i) == 0 && slot_len(d, i)
        == 0 by {
        let z = zeroed(b, slot_at(n), slot_at(to));
        assert(slot_off(z, i) == 0 && slot_len(z, i) == 0);
        assert(slot_off(g, i) == 0 && slot_len(g, i) == 0);
        assert(slot_off(a1, i) == slot_off(g, i));
        assert(slot_len(a1, i) == slot_len(g, i));
    }
}

/// A record written at its own slot is read back from it; slots between the
/// old and the new high-water mark are vacant, and all others hold what they
/// held.
pub proof fn law_fixed_write(b: Seq<u8>, slot: u16, rec: Seq<u8>, len: u16, capacity: u16)
    requires
        canonical(b, len as int),
        rec.len() == len,
        fixed_error(b, slot, len as int, len, capacity) is None,
    ensures
        canonical(fixed_written(b, slot, rec, len), len as int),
        slot_count_of(fixed_written(b, slot, rec, len)) == max_count(
            slot + 1,
            slot_count_of(b) as int,
        ),
        slot_bytes(fixed_written(b, slot, rec, len), slot as int) == Some(rec),
        forall|i: int|
            #![trigger slot_bytes(fixed_written(b, slot, rec, len), i)]
            0 <= i < slot_count_of(b) && i != slot ==> slot_bytes(
                fixed_written(b, slot, rec, len),
                i,
            ) == slot_bytes(b, i),
        forall|i: int|
            #![trigger slot_bytes(fixed_written(b, slot, rec, len), i)]
            slot_count_of(b) <= i < slot ==> slot_bytes(fixed_written(b, slot, rec, len), i)
                is None,
        open_result(fixed_written(b, slot, rec, len)) is Ok,
{
    let n = slot_count_of(b) as int;
    let to = max_count(slot + 1, n);
    let l = len as int;
    let start = fixed_start(slot as int, l);
    let c = fixed_body(b, slot, rec, len);
    let d = fixed_written(b, slot, rec, len);
    lemma_fixed_bytes(b, slot, rec, len, capacity);
    lemma_sealed(c);
    law_sealed_page_opens(c);
    lemma_cell(slot as int, to, l);
    assert(d.subrange(start, start + l) =~= rec);
    assert forall|i: int| 0 <= i < n && i != slot implies slot_off(d, i) == slot_off(b, i)
        && slot_len(d, i) == slot_len(b, i) && slot_bytes(d, i) == slot_bytes(b, i) by {
        assert(slot_off(c, i) == slot_off(b, i));
        assert(slot_len(c, i) == slot_len(b, i));
        if !vacant(b, i) {
            lemma_cell(i, to, l);
            if i < slot {
                lemma_cells_apart(i, slot as int, l);
            } else {
                lemma_cells_apart(slot as int, i, l);
            }
            if n < to {
                lemma_cell(i, n, l);
            }
            assert(d.subrange(slot_off(d, i) as int, slot_off(d, i) + slot_len(d, i))
                =~= b.subrange(slot_off(b, i) as int, slot_off(b, i) + slot_len(b, i)));
        }
    }
    assert forall|i: int| n <= i < slot implies slot_bytes(d, i) is None by {
        assert(slot_off(c, i) == 0);
    }
    assert forall|i: int| #![trigger slot_off(d, i)] 0 <= i < slot_count_of(d) implies vacant(d, i)
        || (slot_off(d, i) == fixed_start(i, l) && slot_len(d, i) == l) by {
        assert(slot_off(c, i) == slot_off(c, i));
        if i < n && i != slot {
            assert(slot_off(b, i) == slot_off(b, i));
        }
    }
}

/// Two buffers that agree but for the checksum field agree once sealed.
proof fn lemma_sealed_same(a: Seq<u8>, b: Seq<u8>)
    requires
        a.len() == b.len() == PAGE_SIZE,
        forall|x: int| 0 <= x < 32 ==> a[x] == b[x],
        forall|x: int| 36 <= x < PAGE_SIZE ==> a[x] == b[x],
    ensures
        sealed(a) == sealed(b),
{
    assert(a.skip(PAGE_HEADER_SIZE as int) =~= b.skip(PAGE_HEADER_SIZE as int));
    assert(sealed(a) =~= sealed(b));
}

/// Two records that are written at their own slots commute.
proof fn lemma_two_fixed_writes(
    b: Seq<u8>,
    i: u16,
    ri: Seq<u8>,
    j: u16,
    rj: Seq<u8>,
    len: u16,
    capacity: u16,
)
    requires
        canonical(b, len as int),
        i < j,
        ri.len() == len,
        rj.len() == len,
        fixed_error(b, i, len as int, len, capacity) is None,
        fixed_error(b, j, len as int, len, capacity) is None,
    ensures
        fixed_written(fixed_written(b, i, ri, len), j, rj, len) == fixed_written(
            fixed_written(b, j, rj, len),
            i,
            ri,
            len,
        ),
{
    let n = slot_count_of(b) as int;
    let l = len as int;
    let mid = max_count(i + 1, n);
    let to = max_count(j + 1, n);
    let bi = fixed_written(b, i, ri, len);
    let bj = fixed_written(b, j, rj, len);
    law_fixed_write(b, i, ri, len, capacity);
    law_fixed_write(b, j, rj, len, capacity);
    lemma_fixed_bytes(b, i, ri, len, capacity);
    lemma_fixed_bytes(b, j, rj, len, capacity);
    lemma_sealed(fixed_body(b, i, ri, len));
    lemma_sealed(fixed_body(b, j, rj, len));
    lemma_cell(i as int, mid, l);
    lemma_cell(i as int, to, l);
    lemma_cell(j as int, to, l);
    lemma_cells_apart(i as int, j as int, l);
    assert(0 <= n * l <= mid * l && mid * l <= to * l) by (nonlinear_arith)
        requires
            0 <= n <= mid <= to,
            0 < l,
    ;
    let x1 = fixed_body(bi, j, rj, len);
    let x2 = fixed_body(bj, i, ri, len);
    let si = fixed_start(i as int, l);
    let sj = fixed_start(j as int, l);
    if mid < to {
        // slot j lies past the middle high-water mark
        assert(sj + l <= PAGE_SIZE - mid * l) by {
            assert((j + 1) * l == j * l + l) by (nonlinear_arith);
            assert(mid * l <= j * l) by (nonlinear_arith)
                requires
                    mid <= j,
                    0 < l,
            ;
        }
    }
    if n < mid {
        assert(si + l <= PAGE_SIZE - n * l) by {
            assert((i + 1) * l == i * l + l) by (nonlinear_arith);
            assert(n * l <= i * l) by (nonlinear_arith)
                requires
                    n <= i,
                    0 < l,
            ;
        }
        assert(si >= PAGE_SIZE - mid * l);
    }
    assert(max_count(j + 1, mid) == to);
    assert(max_count(i + 1, to) == to);
    assert forall|x: int| 36 <= x < PAGE_SIZE implies x1[x] == x2[x] by {
        let gi = fixed_grown(b, n, mid, l);
        let gj = fixed_grown(b, n, to, l);
        assert(bi[x] == fixed_body(b, i, ri, len)[x]);
        assert(bj[x] == fixed_body(b, j, rj, len)[x]);
    }
    assert forall|x: int| 0 <= x < 32 implies x1[x] == x2[x] by {}
    lemma_sealed_same(x1, x2);
}

/// A record to be written at its own slot.
pub type SlotWrite = (u16, Seq<u8>);

/// The page after records were written at their own slots, one after the
/// other.
pub open spec fn all_written(b: Seq<u8>, list: Seq<SlotWrite>, len: u16) -> Seq<u8>
    decreases list.len(),
{
    if list.len() == 0 {
        b
    } else {
        fixed_written(all_written(b, list.drop_last(), len), list.last().0, list.last().1, len)
    }
}

/// Every record has the length of a slot, every slot is within the capacity and
/// lies in the page, and no slot is written twice.
pub open spec fn writable(list: Seq<SlotWrite>, len: u16, capacity: u16) -> bool {
    &&& forall|i: int|
        #![trigger list[i]]
        0 <= i < list.len() ==> list[i].1.len() == len && list[i].0 < capacity && (list[i].0 + 1)
            * (len + SLOT_SIZE) <= PAGE_BODY_BYTES
    &&& forall|i: int, j: int|
        #![trigger list[i], list[j]]
        0 <= i < j < list.len() ==> list[i].0 != list[j].0
}

/// On a page of fixed-size slots every slot that lies in the page and within
/// the capacity can be written.
proof fn lemma_fixed_allowed(b: Seq<u8>, slot: u16, len: u16, capacity: u16)
    requires
        canonical(b, len as int),
        slot < capacity,
        slot_count_of(b) <= capacity,
        (slot + 1) * (len + SLOT_SIZE) <= PAGE_BODY_BYTES,
    ensures
        fixed_error(b, slot, len as int, len, capacity) is None,
{
    let n = slot_count_of(b) as int;
    if slot < n {
        lemma_cell(slot as int, n, len as int);
        assert(slot_off(b, slot as int) == slot_off(b, slot as int));
    }
}

/// Pages after some of the writes: still a page of fixed-size slots, to which
/// every further one can be made.
proof fn lemma_all_written(b: Seq<u8>, list: Seq<SlotWrite>, len: u16, capacity: u16)
    requires
        canonical(b, len as int),
        slot_count_of(b) <= capacity,
        writable(list, len, capacity),
    ensures
        canonical(all_written(b, list, len), len as int),
        slot_count_of(all_written(b, list, len)) <= capacity,
        forall|slot: u16|
            #![trigger fixed_error(all_written(b, list, len), slot, len as int, len, capacity)]
            slot < capacity && (slot + 1) * (len + SLOT_SIZE) <= PAGE_BODY_BYTES ==> fixed_error(
                all_written(b, list, len),
                slot,
                len as int,
                len,
                capacity,
            ) is None,
    decreases list.len(),
{
    let c = all_written(b, list, len);
    if list.len() > 0 {
        let w = list.last();
        let rest = list.drop_last();
        assert(list[list.len() - 1] == w);
        assert forall|i: int| #![trigger rest[i]] 0 <= i < rest.len() implies rest[i] == list[i] by {}
        lemma_all_written(b, rest, len, capacity);
        lemma_fixed_allowed(all_written(b, rest, len), w.0, len, capacity);
        law_fixed_write(all_written(b, rest, len), w.0, w.1, len, capacity);
    }
    assert forall|slot: u16| slot < capacity && (slot + 1) * (len + SLOT_SIZE)
        <= PAGE_BODY_BYTES implies #[trigger] fixed_error(
        c,
        slot,
        len as int,
        len,
        capacity,
    ) is None by {
        lemma_fixed_allowed(c, slot, len, capacity);
    }
}

/// A write may as well come last.
proof fn lemma_write_last(b: Seq<u8>, list: Seq<SlotWrite>, i: int, len: u16, capacity: u16)
    requires
        canonical(b, len as int),
        slot_count_of(b) <= capacity,
        writable(list, len, capacity),
        0 <= i < list.len(),
    ensures
        writable(list.remove(i), len, capacity),
        all_written(b, list, len) == fixed_written(
            all_written(b, list.remove(i), len),
            list[i].0,
            list[i].1,
            len,
        ),
    decreases list.len(),
{
    let x = list[i];
    let y = list.last();
    let rest = list.drop_last();
    let without = list.remove(i);
    assert(list[list.len() - 1] == y);
    assert forall|k: int| #![trigger without[k]] 0 <= k < without.len() implies without[k] == list[if k
        < i {
        k
    } else {
        k + 1
    }] by {}
    assert(writable(without, len, capacity));
    if i == list.len() - 1 {
        assert(without =~= rest);
    } else {
        assert(rest[i] == x);
        assert forall|k: int| #![trigger rest[k]] 0 <= k < rest.len() implies rest[k] == list[k] by {}
        lemma_write_last(b, rest, i, len, capacity);
        let base = rest.remove(i);
        assert(without.drop_last() =~= base);
        assert(without.last() == y);
        let c = all_written(b, base, len);
        lemma_all_written(b, base, len, capacity);
        assert(fixed_error(c, x.0, len as int, len, capacity) is None);
        assert(fixed_error(c, y.0, len as int, len, capacity) is None);
        if x.0 < y.0 {
            lemma_two_fixed_writes(c, x.0, x.1, y.0, y.1, len, capacity);
        } else {
            lemma_two_fixed_writes(c, y.0, y.1, x.0, x.1, len, capacity);
        }
    }
}

/// Each of the writes succeeds.
proof fn lemma_writes_succeed(b: Seq<u8>, list: Seq<SlotWrite>, k: int, len: u16, capacity: u16)
    requires
        canonical(b, len as int),
        slot_count_of(b) <= capacity,
        writable(list, len, capacity),
        0 <= k < list.len(),
    ensures
        fixed_error(
            all_written(b, list.take(k), len),
            list[k].0,
            len as int,
            len,
            capacity,
        ) is None,
{
    let part = list.take(k);
    assert forall|i: int| #![trigger part[i]] 0 <= i < part.len() implies part[i] == list[i] by {}
    lemma_all_written(b, part, len, capacity);
    lemma_fixed_allowed(all_written(b, part, len), list[k].0, len, capacity);
}

/// No slot is written twice.
spec fn slots_differ(list: Seq<SlotWrite>) -> bool {
    forall|i: int, j: int|
        #![trigger list[i], list[j]]
        0 <= i < j < list.len() ==> list[i].0 != list[j].0
}

/// Without one of its writes a list holds the others.
proof fn lemma_others(list: Seq<SlotWrite>, i: int, w: SlotWrite)
    requires
        slots_differ(list),
        0 <= i < list.len(),
    ensures
        list.remove(i).contains(w) <==> list.contains(w) && w != list[i],
{
    let without = list.remove(i);
    if without.contains(w) {
        let k = choose|k: int| 0 <= k < without.len() && without[k] == w;
        let m = if k < i {
            k
        } else {
            k + 1
        };
        assert(list[m] == w);
    }
    if list.contains(w) && w != list[i] {
        let m = choose|m: int| 0 <= m < list.len() && list[m] == w;
        let k = if m < i {
            m
        } else {
            m - 1
        };
        assert(without[k] == w);
    }
}

proof fn lemma_write_order(
    b: Seq<u8>,
    one: Seq<SlotWrite>,
    other: Seq<SlotWrite>,
    len: u16,
    capacity: u16,
)
    requires
        canonical(b, len as int),
        slot_count_of(b) <= capacity,
        writable(one, len, capacity),
        writable(other, len, capacity),
        forall|w: SlotWrite| one.contains(w) <==> #[trigger] other.contains(w),
    ensures
        all_written(b, one, len) == all_written(b, other, len),
    decreases one.len(),
{
    if one.len() == 0 {
        if other.len() > 0 {
            assert(other.contains(other[0]));
        }
    } else {
        let last = one.len() - 1;
        let x = one[last];
        assert(one.contains(x));
        assert(other.contains(x));
        let i = choose|i: int| 0 <= i < other.len() && other[i] == x;
        lemma_write_last(b, other, i, len, capacity);
        lemma_write_last(b, one, last, len, capacity);
        let rest = one.remove(last);
        let without = other.remove(i);
        assert forall|w: SlotWrite| rest.contains(w) <==> #[trigger] without.contains(w) by {
            lemma_others(one, last, w);
            lemma_others(other, i, w);
            assert(one.contains(w) <==> other.contains(w));
        }
        lemma_write_order(b, rest, without, len, capacity);
    }
}

/// The order in which records are written at their own slots leaves no trace
/// in the page: the same writes in any other order give the same bytes, and
/// each of them succeeds.
pub proof fn law_fixed_write_order(
    b: Seq<u8>,
    one: Seq<SlotWrite>,
    other: Seq<SlotWrite>,
    len: u16,
    capacity: u16,
)
    requires
        canonical(b, len as int),
        slot_count_of(b) <= capacity,
        writable(one, len, capacity),
        writable(other, len, capacity),
        forall|w: SlotWrite| one.contains(w) <==> #[trigger] other.contains(w),
    ensures
        all_written(b, one, len) == all_written(b, other, len),
        forall|k: int|
            #![trigger one.take(k)]
            0 <= k < one.len() ==> fixed_error(
                all_written(b, one.take(k), len),
                one[k].0,
                len as int,
                len,
                capacity,
            ) is None,
{
    lemma_write_order(b, one, other, len, capacity);
    assert forall|k: int| #![trigger one.take(k)] 0 <= k < one.len() implies fixed_error(
        all_written(b, one.take(k), len),
        one[k].0,
        len as int,
        len,
        capacity,
    ) is None by {
        lemma_writes_succeed(b, one, k, len, capacity);
    }
}

/// The page after records were appended, one after the other.
pub open spec fn all_appended(b: Seq<u8>, recs: Seq<Seq<u8>>) -> Seq<u8>
    decreases recs.len(),
{
    if recs.len() == 0 {
        b
    } else {
        appended(all_appended(b, recs.drop_last()), recs.last())
    }
}

/// The records with the slots that appending them to an empty page gives them.
pub open spec fn numbered(recs: Seq<Seq<u8>>) -> Seq<SlotWrite> {
    Seq::new(recs.len(), |i: int| (i as u16, recs[i]))
}

/// The record at the end of a page of fixed-size slots: writing it at the next
/// slot is appending it.
proof fn lemma_next_slot(b: Seq<u8>, rec: Seq<u8>, len: u16)
    requires
        canonical(b, len as int),
        rec.len() == len,
        (slot_count_of(b) + 1) * (len + SLOT_SIZE) <= PAGE_BODY_BYTES,
    ensures
        append_error(b, len as int) is None,
        fixed_written(b, slot_count_of(b), rec, len) == appended(b, rec),
{
    let slot = slot_count_of(b);
    let n = slot as int;
    let l = len as int;
    let start = fixed_start(n, l);
    lemma_cell(n, n + 1, l);
    assert((n + 1) * (l + 4) == n * (l + 4) + l + 4) by (nonlinear_arith);
    assert(n * (l + 4) == n * l + 4 * n) by (nonlinear_arith);
    assert((n + 1) * l == n * l + l) by (nonlinear_arith);
    assert(record_area(b) - l == start);
    let g = fixed_grown(b, n, n + 1, l);
    let x = splice(g, start, rec);
    let y = splice(b, start, rec);
    assert forall|k: int| 0 <= k < PAGE_SIZE && !(slot_at(n) <= k < slot_at(n) + 4) implies x[k]
        == y[k] by {}
    assert(with_slot(x, n, start as u16, len) =~= with_slot(y, n, start as u16, len));
}

/// Writing records at the slots 0, 1, 2, ... of an empty page, in any order,
/// gives the page that appending them gives.
pub proof fn law_fixed_writes_append(
    b: Seq<u8>,
    list: Seq<SlotWrite>,
    recs: Seq<Seq<u8>>,
    len: u16,
    capacity: u16,
)
    requires
        canonical(b, len as int),
        slot_count_of(b) == 0,
        recs.len() <= capacity,
        recs.len() * (len + SLOT_SIZE) <= PAGE_BODY_BYTES,
        forall|i: int| #![trigger recs[i]] 0 <= i < recs.len() ==> recs[i].len() == len,
        writable(list, len, capacity),
        forall|w: SlotWrite| numbered(recs).contains(w) <==> #[trigger] list.contains(w),
    ensures
        all_written(b, list, len) == all_appended(b, recs),
        forall|k: int|
            #![trigger recs.take(k)]
            0 <= k < recs.len() ==> append_error(all_appended(b, recs.take(k)), len as int) is None,
{
    lemma_numbered(recs, len, capacity);
    lemma_write_order(b, numbered(recs), list, len, capacity);
    lemma_dense(b, recs, len, capacity);
    assert forall|k: int| #![trigger recs.take(k)] 0 <= k < recs.len() implies append_error(
        all_appended(b, recs.take(k)),
        len as int,
    ) is None by {
        lemma_appends_succeed(b, recs, k, len, capacity);
    }
}

/// Each of the appends succeeds.
proof fn lemma_appends_succeed(b: Seq<u8>, recs: Seq<Seq<u8>>, k: int, len: u16, capacity: u16)
    requires
        canonical(b, len as int),
        slot_count_of(b) == 0,
        recs.len() <= capacity,
        recs.len() * (len + SLOT_SIZE) <= PAGE_BODY_BYTES,
        forall|i: int| #![trigger recs[i]] 0 <= i < recs.len() ==> recs[i].len() == len,
        0 <= k < recs.len(),
    ensures
        append_error(all_appended(b, recs.take(k)), len as int) is None,
{
    let part = recs.take(k);
    assert forall|i: int| #![trigger part[i]] 0 <= i < part.len() implies part[i] == recs[i] by {}
    assert(k * (len + 4) + (len + 4) == (k + 1) * (len + 4)) by (nonlinear_arith);
    assert((k + 1) * (len + 4) <= recs.len() * (len + 4)) by (nonlinear_arith)
        requires
            k + 1 <= recs.len(),
            0 <= len,
    ;
    lemma_dense(b, part, len, capacity);
    lemma_next_slot(all_appended(b, part), recs[k], len);
}

proof fn lemma_numbered(recs: Seq<Seq<u8>>, len: u16, capacity: u16)
    requires
        recs.len() <= capacity,
        recs.len() * (len + SLOT_SIZE) <= PAGE_BODY_BYTES,
        forall|i: int| #![trigger recs[i]] 0 <= i < recs.len() ==> recs[i].len() == len,
    ensures
        writable(numbered(recs), len, capacity),
{
    let list = numbered(recs);
    assert forall|i: int| #![trigger list[i]] 0 <= i < list.len() implies list[i].1.len() == len
        && list[i].0 < capacity && (list[i].0 + 1) * (len + SLOT_SIZE) <= PAGE_BODY_BYTES by {
        assert(recs[i].len() == len);
        assert((i + 1) * (len + 4) <= recs.len() * (len + 4)) by (nonlinear_arith)
            requires
                i + 1 <= recs.len(),
                0 <= len,
        ;
    }
}

/// Writing records at the slots 0, 1, 2, ... in this order is appending them.
proof fn lemma_dense(b: Seq<u8>, recs: Seq<Seq<u8>>, len: u16, capacity: u16)
    requires
        canonical(b, len as int),
        slot_count_of(b) == 0,
        recs.len() <= capacity,
        recs.len() * (len + SLOT_SIZE) <= PAGE_BODY_BYTES,
        forall|i: int| #![trigger recs[i]] 0 <= i < recs.len() ==> recs[i].len() == len,
    ensures
        all_written(b, numbered(recs), len) == all_appended(b, recs),
        canonical(all_appended(b, recs), len as int),
        slot_count_of(all_appended(b, recs)) == recs.len(),
    decreases recs.len(),
{
    if recs.len() > 0 {
        let rest = recs.drop_last();
        let n = rest.len() as int;
        let x = recs.last();
        assert(recs[recs.len() - 1] == x);
        assert forall|i: int| #![trigger rest[i]] 0 <= i < rest.len() implies rest[i] == recs[i] by {}
        assert(n * (len + 4) + (len + 4) == recs.len() * (len + 4)) by (nonlinear_arith)
            requires
                n + 1 == recs.len(),
        ;
        lemma_dense(b, rest, len, capacity);
        let c = all_appended(b, rest);
        assert(numbered(recs).drop_last() =~= numbered(rest));
        assert(numbered(recs).last() == (n as u16, x));
        lemma_next_slot(c, x, len);
        lemma_fixed_allowed(c, n as u16, len, capacity);
        law_fixed_write(c, n as u16, x, len, capacity);
    }
}

/// Writes leave a page's type, and a slot that none of them named is a hole.
proof fn lemma_unwritten(b: Seq<u8>, list: Seq<SlotWrite>, slot: u16, len: u16, capacity: u16)
    requires
        canonical(b, len as int),
        slot_count_of(b) == 0,
        writable(list, len, capacity),
        forall|i: int| #![trigger list[i]] 0 <= i < list.len() ==> list[i].0 != slot,
    ensures
        all_written(b, list, len)[5] == b[5],
        slot < slot_count_of(all_written(b, list, len)) ==> hole(
            all_written(b, list, len),
            slot as int,
        ),
    decreases list.len(),
{
    if list.len() > 0 {
        let rest = list.drop_last();
        let w = list.last();
        assert(list[list.len() - 1] == w);
        assert forall|i: int| #![trigger rest[i]] 0 <= i < rest.len() implies rest[i] == list[i] by {}
        lemma_unwritten(b, rest, slot, len, capacity);
        lemma_all_written(b, rest, len, capacity);
        let c = all_written(b, rest, len);
        lemma_fixed_allowed(c, w.0, len, capacity);
        lemma_fixed_bytes(c, w.0, w.1, len, capacity);
        let f = fixed_body(c, w.0, w.1, len);
        lemma_sealed(f);
        lemma_cell(w.0 as int, max_count(w.0 + 1, slot_count_of(c) as int), len as int);
        assert(fixed_written(c, w.0, w.1, len)[5] == c[5]);
        if slot < slot_count_of(f) {
            assert(slot_off(f, slot as int) == 0);
        }
    }
}

/// Node records to be written at their own slots, as bytes.
pub open spec fn node_writes(list: Seq<(u16, NodeRecord)>) -> Seq<SlotWrite> {
    Seq::new(list.len(), |i: int| (list[i].0, node_bytes(list[i].1)))
}

/// Node records as bytes.
pub open spec fn node_records(recs: Seq<NodeRecord>) -> Seq<Seq<u8>> {
    Seq::new(recs.len(), |i: int| node_bytes(recs[i]))
}

/// Relationship records to be written at their own slots, as bytes.
pub open spec fn rel_writes(list: Seq<(u16, RelRecord)>) -> Seq<SlotWrite> {
    Seq::new(list.len(), |i: int| (list[i].0, rel_bytes(list[i].1)))
}

/// Every slot is within the capacity, and none is named twice.
pub open spec fn distinct_slots<T>(list: Seq<(u16, T)>, capacity: u16) -> bool {
    &&& forall|i: int| #![trigger list[i]] 0 <= i < list.len() ==> list[i].0 < capacity
    &&& forall|i: int, j: int|
        #![trigger list[i], list[j]]
        0 <= i < j < list.len() ==> list[i].0 != list[j].0
}

proof fn lemma_node_writes(list: Seq<(u16, NodeRecord)>)
    requires
        distinct_slots(list, NODE_CAPACITY),
    ensures
        writable(node_writes(list), 64, NODE_CAPACITY),
{
    let ws = node_writes(list);
    assert forall|i: int| #![trigger ws[i]] 0 <= i < ws.len() implies ws[i].1.len() == 64 && ws[i].0
        < NODE_CAPACITY && (ws[i].0 + 1) * 68 <= PAGE_BODY_BYTES by {
        law_node_round_trip(list[i].1);
    }
    assert forall|i: int, j: int|
        #![trigger ws[i], ws[j]]
        0 <= i < j < ws.len() implies ws[i].0 != ws[j].0 by {
        assert(list[i].0 != list[j].0);
    }
}

proof fn lemma_rel_writes(list: Seq<(u16, RelRecord)>)
    requires
        distinct_slots(list, REL_CAPACITY),
    ensures
        writable(rel_writes(list), 96, REL_CAPACITY),
{
    let ws = rel_writes(list);
    assert forall|i: int| #![trigger ws[i]] 0 <= i < ws.len() implies ws[i].1.len() == 96 && ws[i].0
        < REL_CAPACITY && (ws[i].0 + 1) * 100 <= PAGE_BODY_BYTES by {
        law_rel_round_trip(list[i].1);
    }
    assert forall|i: int, j: int|
        #![trigger ws[i], ws[j]]
        0 <= i < j < ws.len() implies ws[i].0 != ws[j].0 by {
        assert(list[i].0 != list[j].0);
    }
}

/// Before the write `k`, its slot is a hole or past the directory, and the page
/// has the type it had.
proof fn lemma_next_write(b: Seq<u8>, list: Seq<SlotWrite>, k: int, len: u16, capacity: u16)
    requires
        canonical(b, len as int),
        slot_count_of(b) == 0,
        writable(list, len, capacity),
        0 <= k < list.len(),
    ensures
        fixed_error(
            all_written(b, list.take(k), len),
            list[k].0,
            len as int,
            len,
            capacity,
        ) is None,
        page_ok(all_written(b, list.take(k), len)),
        all_written(b, list.take(k), len)[5] == b[5],
        list[k].0 < slot_count_of(all_written(b, list.take(k), len)) ==> hole(
            all_written(b, list.take(k), len),
            list[k].0 as int,
        ),
{
    let part = list.take(k);
    assert forall|i: int| #![trigger part[i]] 0 <= i < part.len() implies part[i] == list[i]
        && part[i].0 != list[k].0 by {
        assert(list[i].0 != list[k].0);
    }
    lemma_writes_succeed(b, list, k, len, capacity);
    lemma_all_written(b, part, len, capacity);
    lemma_unwritten(b, part, list[k].0, len, capacity);
}

/// A fresh page of nodes takes records at distinct slots in any order: each
/// write succeeds, and the page is the same in every byte.
pub proof fn law_node_writes_in_any_order(
    h: PageHeader,
    one: Seq<(u16, NodeRecord)>,
    other: Seq<(u16, NodeRecord)>,
)
    requires
        decode_header(header_bytes(h)) is Ok,
        h.page_type == page_type_byte(PageType::Node),
        distinct_slots(one, NODE_CAPACITY),
        distinct_slots(other, NODE_CAPACITY),
        forall|w: (u16, NodeRecord)| one.contains(w) <==> #[trigger] other.contains(w),
    ensures
        all_written(fresh_page(h), node_writes(one), 64) == all_written(
            fresh_page(h),
            node_writes(other),
            64,
        ),
        forall|k: int|
            #![trigger node_writes(one).take(k)]
            0 <= k < one.len() ==> publish_node_error(
                all_written(fresh_page(h), node_writes(one).take(k), 64),
                one[k].0,
                one[k].1.created_lsn,
            ) is None,
{
    let b = fresh_page(h);
    let ws = node_writes(one);
    let vs = node_writes(other);
    lemma_fresh_fixed(h, 64);
    lemma_node_writes(one);
    lemma_node_writes(other);
    assert forall|w: SlotWrite| ws.contains(w) <==> #[trigger] vs.contains(w) by {
        if ws.contains(w) {
            let i = choose|i: int| 0 <= i < ws.len() && ws[i] == w;
            assert(one.contains(one[i]));
            assert(other.contains(one[i]));
            let j = choose|j: int| 0 <= j < other.len() && other[j] == one[i];
            assert(vs[j] == w);
        }
        if vs.contains(w) {
            let i = choose|i: int| 0 <= i < vs.len() && vs[i] == w;
            assert(other.contains(other[i]));
            assert(one.contains(other[i]));
            let j = choose|j: int| 0 <= j < one.len() && one[j] == other[i];
            assert(ws[j] == w);
        }
    }
    lemma_write_order(b, ws, vs, 64, NODE_CAPACITY);
    assert forall|k: int| #![trigger ws.take(k)] 0 <= k < ws.len() implies publish_node_error(
        all_written(b, ws.take(k), 64),
        one[k].0,
        one[k].1.created_lsn,
    ) is None by {
        lemma_next_write(b, ws, k, 64, NODE_CAPACITY);
        assert(ws[k].0 == one[k].0);
    }
}

/// A fresh page of relationships takes records at distinct slots in any order:
/// each write succeeds, and the page is the same in every byte.
pub proof fn law_rel_writes_in_any_order(
    h: PageHeader,
    one: Seq<(u16, RelRecord)>,
    other: Seq<(u16, RelRecord)>,
)
    requires
        decode_header(header_bytes(h)) is Ok,
        h.page_type == page_type_byte(PageType::Rel),
        distinct_slots(one, REL_CAPACITY),
        distinct_slots(other, REL_CAPACITY),
        forall|w: (u16, RelRecord)| one.contains(w) <==> #[trigger] other.contains(w),
    ensures
        all_written(fresh_page(h), rel_writes(one), 96) == all_written(
            fresh_page(h),
            rel_writes(other),
            96,
        ),
        forall|k: int|
            #![trigger rel_writes(one).take(k)]
            0 <= k < one.len() ==> publish_rel_error(
                all_written(fresh_page(h), rel_writes(one).take(k), 96),
                one[k].0,
                one[k].1.created_lsn,
            ) is None,
{
    let b = fresh_page(h);
    let ws = rel_writes(one);
    let vs = rel_writes(other);
    lemma_fresh_fixed(h, 96);
    lemma_rel_writes(one);
    lemma_rel_writes(other);
    assert forall|w: SlotWrite| ws.contains(w) <==> #[trigger] vs.contains(w) by {
        if ws.contains(w) {
            let i = choose|i: int| 0 <= i < ws.len() && ws[i] == w;
            assert(one.contains(one[i]));
            assert(other.contains(one[i]));
            let j = choose|j: int| 0 <= j < other.len() && other[j] == one[i];
            assert(vs[j] == w);
        }
        if vs.contains(w) {
            let i = choose|i: int| 0 <= i < vs.len() && vs[i] == w;
            assert(other.contains(other[i]));
            assert(one.contains(other[i]));
            let j = choose|j: int| 0 <= j < one.len() && one[j] == other[i];
            assert(ws[j] == w);
        }
    }
    lemma_write_order(b, ws, vs, 96, REL_CAPACITY);
    assert forall|k: int| #![trigger ws.take(k)] 0 <= k < ws.len() implies publish_rel_error(
        all_written(b, ws.take(k), 96),
        one[k].0,
        one[k].1.created_lsn,
    ) is None by {
        lemma_next_write(b, ws, k, 96, REL_CAPACITY);
        assert(ws[k].0 == one[k].0);
    }
}

/// Where the slots are 0, 1, 2, ..., the page that writes in any order give is,
/// byte for byte, the one that inserting the records by their slots gives.
pub proof fn law_node_page_forgets_the_order(
    h: PageHeader,
    list: Seq<(u16, NodeRecord)>,
    recs: Seq<NodeRecord>,
)
    requires
        decode_header(header_bytes(h)) is Ok,
        h.page_type == page_type_byte(PageType::Node),
        recs.len() <= NODE_CAPACITY,
        distinct_slots(list, NODE_CAPACITY),
        forall|slot: u16, rec: NodeRecord| #[trigger]
            list.contains((slot, rec)) <==> slot < recs.len() && rec == recs[slot as int],
    ensures
        all_written(fresh_page(h), node_writes(list), 64) == all_appended(
            fresh_page(h),
            node_records(recs),
        ),
        forall|k: int|
            #![trigger node_records(recs).take(k)]
            0 <= k < recs.len() ==> insert_error(
                all_appended(fresh_page(h), node_records(recs).take(k)),
                PageType::Node,
                64,
            ) is None,
{
    let b = fresh_page(h);
    let ws = node_writes(list);
    let rs = node_records(recs);
    lemma_fresh_fixed(h, 64);
    lemma_node_writes(list);
    assert(recs.len() * 68 <= PAGE_BODY_BYTES);
    assert forall|i: int| #![trigger rs[i]] 0 <= i < rs.len() implies rs[i].len() == 64 by {
        law_node_round_trip(recs[i]);
    }
    assert forall|w: SlotWrite| numbered(rs).contains(w) <==> #[trigger] ws.contains(w) by {
        lemma_same_writes(list, recs, w);
    }
    lemma_numbered(rs, 64, NODE_CAPACITY);
    lemma_write_order(b, numbered(rs), ws, 64, NODE_CAPACITY);
    lemma_dense(b, rs, 64, NODE_CAPACITY);
    assert forall|k: int| #![trigger rs.take(k)] 0 <= k < rs.len() implies insert_error(
        all_appended(b, rs.take(k)),
        PageType::Node,
        64,
    ) is None by {
        lemma_appends_succeed(b, rs, k, 64, NODE_CAPACITY);
        let part = rs.take(k);
        assert forall|i: int| #![trigger part[i]] 0 <= i < part.len() implies part[i] == rs[i] by {}
        assert(k * 68 <= recs.len() * 68);
        lemma_dense(b, part, 64, NODE_CAPACITY);
        lemma_numbered(part, 64, NODE_CAPACITY);
        lemma_unwritten(b, numbered(part), 0xFFFF, 64, NODE_CAPACITY);
    }
}

proof fn lemma_same_writes(list: Seq<(u16, NodeRecord)>, recs: Seq<NodeRecord>, w: SlotWrite)
    requires
        recs.len() <= NODE_CAPACITY,
        forall|slot: u16, rec: NodeRecord| #[trigger]
            list.contains((slot, rec)) <==> slot < recs.len() && rec == recs[slot as int],
    ensures
        numbered(node_records(recs)).contains(w) <==> node_writes(list).contains(w),
{
    let ws = node_writes(list);
    let ns = numbered(node_records(recs));
    if ns.contains(w) {
        let i = choose|i: int| 0 <= i < ns.len() && ns[i] == w;
        assert(list.contains((i as u16, recs[i])));
        let k = choose|k: int| 0 <= k < list.len() && list[k] == (i as u16, recs[i]);
        assert(ws[k] == w);
    }
    if ws.contains(w) {
        let k = choose|k: int| 0 <= k < ws.len() && ws[k] == w;
        assert(list.contains((list[k].0, list[k].1)));
        assert(ns[list[k].0 as int] == w);
    }
}

/// A fresh page is an empty page of fixed-size slots of any length.
proof fn lemma_fresh_fixed(h: PageHeader, len: u16)
    requires
        decode_header(header_bytes(h)) is Ok,
        0 < len,
    ensures
        canonical(fresh_page(h), len as int),
        slot_count_of(fresh_page(h)) == 0,
        fresh_page(h)[5] == h.page_type,
{
    law_fresh_page(h);
    law_header_round_trip(h);
    let g = PageHeader { slot_count: 0, free_space: PAGE_BODY_BYTES as u16, ..h };
    law_header_round_trip(g);
    let b = header_bytes(g) + Seq::new(PAGE_BODY_BYTES as nat, |i: int| 0u8);
    assert(b[5] == header_bytes(g)[5]);
    assert(header_of(header_bytes(g)).page_type == h.page_type);
}

/// The larger of two LSNs.
pub open spec fn max_lsn(a: u64, b: u64) -> u64 {
    if a < b {
        b
    } else {
        a
    }
}

/// A durable tombstone is found at its slot with the latest of the LSNs given
/// for it, hides the record, and refuses every later publish and redo. Free
/// space is that of fixed-size slots up to the high-water mark, and every other
/// slot holds what it held.
pub proof fn law_bury(b: Seq<u8>, slot: u16, lsn: u64, len: u16, capacity: u16)
    requires
        canonical(b, len as int),
        len >= 8,
        bury_error(b, slot, len, capacity) is None,
    ensures
        canonical(buried(b, slot, lsn, len), len as int),
        slot_count_of(buried(b, slot, lsn, len)) == max_count(slot + 1, slot_count_of(b) as int),
        slot < slot_count_of(b) ==> free_space_of(buried(b, slot, lsn, len)) == free_space_of(b),
        entry_result(buried(b, slot, lsn, len), slot) == Ok::<Option<(u16, u16)>, PageError>(None),
        tombstone_lsn_result(buried(b, slot, lsn, len), slot, len) == Ok::<Option<u64>, PageError>(
            Some(
                match tombstone_lsn_result(b, slot, len) {
                    Ok(Some(old)) => max_lsn(old, lsn),
                    _ => lsn,
                },
            ),
        ),
        buried_error(buried(b, slot, lsn, len), slot) == Some(PageError::SlotTombstoned(slot)),
        forall|n: u16|
            #![trigger put_error(buried(b, slot, lsn, len), slot, n)]
            put_error(buried(b, slot, lsn, len), slot, n) == Some(PageError::SlotTombstoned(slot)),
        holed(buried(b, slot, lsn, len), slot) == buried(b, slot, lsn, len),
        forall|i: int|
            #![trigger slot_bytes(buried(b, slot, lsn, len), i)]
            0 <= i < slot_count_of(b) && i != slot ==> slot_bytes(buried(b, slot, lsn, len), i)
                == slot_bytes(b, i),
        forall|i: int|
            #![trigger slot_bytes(buried(b, slot, lsn, len), i)]
            slot_count_of(b) <= i < slot ==> slot_bytes(buried(b, slot, lsn, len), i) is None,
{
    let n = slot_count_of(b) as int;
    let l = len as int;
    let start = fixed_start(slot as int, l);
    let body = tombstone_body(lsn, len);
    let d = buried(b, slot, lsn, len);
    let to = max_count(slot + 1, n);
    assert(body.len() == l);
    if slot < n && tombstone_result(b, slot) == Ok::<bool, PageError>(true) {
        lemma_cell(slot as int, n, l);
        if lsn > u64_at(b, start) {
            let c = splice(b, start, body);
            lemma_sealed(c);
            assert forall|k: int| 0 <= k < 8 implies #[trigger] d[start + k] == le64(lsn)[k] by {}
            lemma_u64_read_back(d, start, lsn);
            assert(slot_at(slot as int) + 4 <= start);
            assert forall|i: int| 0 <= i < n implies #[trigger] slot_off(d, i) == slot_off(b, i)
                && slot_len(d, i) == slot_len(b, i) by {
                assert(slot_at(i) + 4 <= start);
            }
        }
    } else {
        law_fixed_write(b, slot, body, len, capacity);
        let w = fixed_written(b, slot, body, len);
        lemma_cell(slot as int, to, l);
        let c = with_slot(w, slot as int, 0, PERMANENT_TOMBSTONE_LEN);
        lemma_sealed(c);
        assert(slot_bytes(w, slot as int) == Some(body));
        assert forall|k: int| 0 <= k < 8 implies #[trigger] d[start + k] == le64(lsn)[k] by {
            assert(slot_off(w, slot as int) == slot_off(w, slot as int));
            assert(w.subrange(start, start + l)[k] == body[k]);
        }
        lemma_u64_read_back(d, start, lsn);
        assert(slot < MAX_SLOTS);
        assert(slot_off(d, slot as int) == 0);
        assert(slot_len(d, slot as int) == PERMANENT_TOMBSTONE_LEN);
        assert forall|i: int| 0 <= i < to && i != slot implies #[trigger] slot_off(d, i) == slot_off(
            w,
            i,
        ) && slot_len(d, i) == slot_len(w, i) by {}
    }
    let base = if slot < n && tombstone_result(b, slot) == Ok::<bool, PageError>(true) {
        b
    } else {
        fixed_written(b, slot, body, len)
    };
    assert forall|i: int| 0 <= i < to && i != slot implies slot_bytes(d, i) == slot_bytes(
        base,
        i,
    ) by {
        assert(slot_off(d, i) == slot_off(base, i));
        if !vacant(base, i) {
            lemma_cell(i, to, l);
            if i < slot {
                lemma_cells_apart(i, slot as int, l);
            } else {
                lemma_cells_apart(slot as int, i, l);
            }
            assert(d.subrange(slot_off(d, i) as int, slot_off(d, i) + slot_len(d, i))
                =~= base.subrange(slot_off(base, i) as int, slot_off(base, i) + slot_len(base, i)));
        }
    }
    assert forall|i: int| 0 <= i < n && i != slot implies #[trigger] slot_bytes(d, i) == slot_bytes(
        b,
        i,
    ) by {
        assert(slot_bytes(base, i) == slot_bytes(b, i));
    }
    assert forall|i: int| n <= i < slot implies #[trigger] slot_bytes(d, i) is None by {
        assert(slot_bytes(base, i) is None);
    }
    assert forall|i: int| #![trigger slot_off(d, i)] 0 <= i < slot_count_of(d) implies vacant(d, i)
        || (slot_off(d, i) == fixed_start(i, l) && slot_len(d, i) == l) by {
        if i != slot {
            assert(slot_off(base, i) == slot_off(base, i));
        }
    }
}

/// A durable tombstone is final: every publish, update and redo of its slot is
/// refused, and turning the slot into a hole leaves the page.
pub proof fn law_tombstone_is_final(
    b: Seq<u8>,
    slot: u16,
    len: u16,
    lsn: u64,
    current: Result<Option<u64>, PageError>,
)
    requires
        tombstone_result(b, slot) == Ok::<bool, PageError>(true),
    ensures
        entry_result(b, slot) == Ok::<Option<(u16, u16)>, PageError>(None),
        publish_error(b, slot, lsn, current) == Some(PageError::SlotTombstoned(slot)),
        overwrite_error(b, slot, len) == Some(PageError::SlotTombstoned(slot)),
        put_error(b, slot, len) == Some(PageError::SlotTombstoned(slot)),
        buried_error(b, slot) == Some(PageError::SlotTombstoned(slot)),
        hole_error(b, slot) is None,
        holed(b, slot) == b,
{
}

// ---- what a write leaves to be read ---------------------------------------

/// The slot holds exactly these bytes.
pub open spec fn holds_at(b: Seq<u8>, slot: u16, rec: Seq<u8>) -> bool {
    &&& page_ok(b)
    &&& slot < slot_count_of(b)
    &&& entry_result(b, slot) == Ok::<Option<(u16, u16)>, PageError>(
        Some((slot_off(b, slot as int), rec.len() as u16)),
    )
    &&& b.subrange(slot_off(b, slot as int) as int, slot_off(b, slot as int) + rec.len()) == rec
}

/// A record that was appended is what its new slot holds, on every page that
/// opens.
pub proof fn law_append_holds(b: Seq<u8>, rec: Seq<u8>)
    requires
        page_ok(b),
        0 < rec.len() < 0xFFFF,
        append_error(b, rec.len() as int) is None,
    ensures
        holds_at(appended(b, rec), slot_count_of(b), rec),
        appended(b, rec)[5] == b[5],
{
    let n = slot_count_of(b);
    let start = record_area(b) - rec.len();
    let c = with_counts(
        with_slot(splice(b, start, rec), n as int, start as u16, rec.len() as u16),
        (n + 1) as u16,
        (free_space_of(b) - rec.len() - SLOT_SIZE) as u16,
    );
    let d = appended(b, rec);
    lemma_u32_at_same(c, 0, b, 0);
    lemma_sealed(c);
    assert(slot_off(d, n as int) == start && slot_len(d, n as int) == rec.len());
    assert(d.subrange(start, start + rec.len()) =~= rec);
}

/// A record that was put at a redo target is what the target holds, on every page
/// that opens.
pub proof fn law_put_holds(b: Seq<u8>, slot: u16, rec: Seq<u8>)
    requires
        page_ok(b),
        0 < rec.len() < 0xFFFF,
        put_error(b, slot, rec.len() as u16) is None,
    ensures
        holds_at(put_page(b, slot, rec), slot, rec),
        put_page(b, slot, rec)[5] == b[5],
{
    let n = slot_count_of(b);
    if slot == n {
        law_append_holds(b, rec);
    } else if slot > n {
        let c = sparse_extended(b, slot);
        lemma_u32_at_same(c, 0, b, 0);
        law_append_holds(c, rec);
    } else if entry_result(b, slot) == Ok::<Option<(u16, u16)>, PageError>(None) {
        let start = record_area(b) - rec.len();
        let c = splice(
            with_slot(splice(b, start, rec), slot as int, start as u16, rec.len() as u16),
            38,
            le16((free_space_of(b) - rec.len()) as u16),
        );
        let d = revived(b, slot, rec);
        lemma_u32_at_same(c, 0, b, 0);
        lemma_sealed(c);
        assert(d.subrange(start, start + rec.len()) =~= rec);
    } else {
        law_overwrite_holds(b, slot, rec);
    }
}

/// A record that was written over another is what the slot holds.
pub proof fn law_overwrite_holds(b: Seq<u8>, slot: u16, rec: Seq<u8>)
    requires
        page_ok(b),
        0 < rec.len() < 0xFFFF,
        overwrite_error(b, slot, rec.len() as u16) is None,
    ensures
        holds_at(overwritten(b, slot, rec), slot, rec),
        overwritten(b, slot, rec)[5] == b[5],
{
    let off = slot_off(b, slot as int) as int;
    let c = splice(b, off, rec);
    let d = overwritten(b, slot, rec);
    lemma_u32_at_same(c, 0, b, 0);
    lemma_sealed(c);
    assert(d.subrange(off, off + rec.len()) =~= rec);
}

/// A record that was written at its own slot is what the slot holds.
pub proof fn law_fixed_holds(b: Seq<u8>, slot: u16, rec: Seq<u8>, len: u16, capacity: u16)
    requires
        page_ok(b),
        rec.len() == len,
        0 < len < 0xFFFF,
        fixed_error(b, slot, len as int, len, capacity) is None,
    ensures
        holds_at(fixed_written(b, slot, rec, len), slot, rec),
        fixed_written(b, slot, rec, len)[5] == b[5],
{
    let n = slot_count_of(b) as int;
    let to = max_count(slot + 1, n);
    let l = len as int;
    let start = fixed_start(slot as int, l);
    lemma_cell(slot as int, to, l);
    assert(PAGE_SIZE - to * l <= PAGE_SIZE - n * l) by (nonlinear_arith)
        requires
            n <= to,
            0 < l,
    ;
    assert(n * l >= 0) by (nonlinear_arith)
        requires
            0 <= n,
            0 < l,
    ;
    let g = fixed_grown(b, n, to, l);
    assert forall|k: int| 0 <= k < 40 implies #[trigger] g[k] == b[k] by {}
    let c = fixed_body(b, slot, rec, len);
    let d = fixed_written(b, slot, rec, len);
    assert forall|k: int| 0 <= k < 32 implies #[trigger] c[k] == b[k] by {}
    lemma_u32_at_same(c, 0, b, 0);
    lemma_sealed(c);
    assert(slot_off(d, slot as int) == start && slot_len(d, slot as int) == len);
    assert(d.subrange(start, start + l) =~= rec);
}

/// What a slot with a node record's bytes reads as.
pub proof fn law_held_node_reads(b: Seq<u8>, slot: u16, rec: NodeRecord)
    requires
        holds_at(b, slot, node_bytes(rec)),
    ensures
        read_node_result(b, slot) == Ok::<Option<NodeRecord>, PageError>(Some(rec)),
{
    law_node_round_trip(rec);
}

/// What a slot with a relationship record's bytes reads as.
pub proof fn law_held_rel_reads(b: Seq<u8>, slot: u16, rec: RelRecord)
    requires
        holds_at(b, slot, rel_bytes(rec)),
    ensures
        read_rel_result(b, slot) == Ok::<Option<RelRecord>, PageError>(Some(rec)),
{
    law_rel_round_trip(rec);
}

/// What a slot of a page of bags with a bag's bytes reads as.
pub proof fn law_held_bag_reads(b: Seq<u8>, slot: u16, bag: Seq<u8>)
    requires
        holds_at(b, slot, bag),
        bag.len() < 0xFFFF,
        b[5] == page_type_byte(PageType::PropSlotted),
    ensures
        read_bag_result(b, slot) == Ok::<Option<Seq<u8>>, PageError>(Some(bag)),
{
}

} // verus!
