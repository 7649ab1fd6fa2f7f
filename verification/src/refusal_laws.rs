//! Which operations on a page are refused, and with which answer, said by the bytes
//! of the page; and what stays beneath a hole.
use vstd::prelude::*;

use crate::checksum::crc32c_of;
use crate::codec::{group_codec, splice, u16_at, u32_at, u64_at};
use crate::page::{decode_header, decode_node, decode_rel, NodeRecord, PageType, RelRecord};
use crate::page_laws::law_directory;
use crate::records::bag_view;
use crate::slot_laws::{canonical, law_append, law_tombstone, layout_ok};
use crate::slot_model::{
    append_error, appended, bag_length_error, buried_error, bury_error, entry_result, fixed_bag_error,
    fixed_error, free_space_of, hole_error, holed, insert_bag_error, insert_error, lemma_sealed, open_prop_result,
    open_result, overwrite_error, page_ok, preserved_result, put_bag_error, put_error,
    put_record_error, read_node_result, record_area, read_rel_result, recover_node_result, recover_rel_result,
    retire_error, slot_count_of, slot_len, slot_off, tombstone_lsn_result, type_result, update_error, with_counts, with_slot, PageError,
    PageFormat,
};

verus! {

broadcast use group_codec;

// ---- opening --------------------------------------------------------------

/// What is said of a page that does not open: its length comes first, then the
/// header, then the checksum, then the number of slots.
pub proof fn law_open_refusals(b: Seq<u8>)
    ensures
        b.len() != 8192 ==> open_result(b) == Err::<(), PageError>(
            PageError::Format(PageFormat::BufferLength { got: b.len() as usize }),
        ),
        b.len() == 8192 && decode_header(b) is Err ==> open_result(b) == Err::<(), PageError>(
            PageError::Format(PageFormat::Header(decode_header(b)->Err_0)),
        ),
        b.len() == 8192 && decode_header(b) is Ok && u32_at(b, 32) != crc32c_of(b.skip(40))
            ==> open_result(b) == Err::<(), PageError>(
            PageError::ChecksumMismatch {
                stored: u32_at(b, 32),
                computed: crc32c_of(b.skip(40)),
            },
        ),
        b.len() == 8192 && decode_header(b) is Ok && u32_at(b, 32) == crc32c_of(b.skip(40))
            && u16_at(b, 36) > 2038 ==> open_result(b) == Err::<(), PageError>(
            PageError::Format(PageFormat::SlotCount { got: u16_at(b, 36) }),
        ),
{
}

/// Which pages open as pages of bags whose checksum is trusted, and what is said of
/// the others.
pub proof fn law_open_bags(b: Seq<u8>)
    ensures
        open_prop_result(b) is Ok <==> b.len() == 8192 && decode_header(b) is Ok && b[5] == 7
            && u16_at(b, 36) <= 2038,
        b.len() != 8192 ==> open_prop_result(b) == Err::<(), PageError>(
            PageError::Format(PageFormat::BufferLength { got: b.len() as usize }),
        ),
        b.len() == 8192 && decode_header(b) is Err ==> open_prop_result(b) == Err::<
            (),
            PageError,
        >(PageError::Format(PageFormat::Header(decode_header(b)->Err_0))),
        b.len() == 8192 && decode_header(b) is Ok && b[5] != 7 ==> open_prop_result(b) == Err::<
            (),
            PageError,
        >(PageError::WrongPageType { got: b[5], expected: 7 }),
        b.len() == 8192 && decode_header(b) is Ok && b[5] == 7 && u16_at(b, 36) > 2038
            ==> open_prop_result(b) == Err::<(), PageError>(
            PageError::Format(PageFormat::SlotCount { got: u16_at(b, 36) }),
        ),
{
}

// ---- writing --------------------------------------------------------------

/// A page of another type refuses every write, before anything else is looked at.
pub proof fn law_type_comes_first(b: Seq<u8>, t: PageType, slot: u16, len: u16, capacity: u16)
    ensures
        ({
            let byte = crate::page::page_type_byte(t);
            let wrong = PageError::WrongPageType { got: b[5], expected: byte };
            &&& type_result(b, t) is Ok <==> b[5] == byte
            &&& b[5] != byte ==> {
                &&& type_result(b, t) == Err::<(), PageError>(wrong)
                &&& insert_error(b, t, len as int) == Some(wrong)
                &&& update_error(b, t, slot, len) == Some(wrong)
                &&& put_record_error(b, t, slot, len) == Some(wrong)
                &&& retire_error(b, t, slot, len, capacity) == Some(wrong)
            }
            &&& b[5] == byte ==> {
                &&& insert_error(b, t, len as int) == append_error(b, len as int)
                &&& update_error(b, t, slot, len) == overwrite_error(b, slot, len)
                &&& put_record_error(b, t, slot, len) == put_error(b, slot, len)
                &&& retire_error(b, t, slot, len, capacity) == bury_error(b, slot, len, capacity)
            }
        }),
{
}

/// Which bags are taken: none that is empty or longer than a page has room for.
pub proof fn law_bag_refusals(b: Seq<u8>, slot: u16, len: int, capacity: u16)
    requires
        0 <= len,
    ensures
        bag_length_error(len) is None <==> 1 <= len <= 8148,
        bag_length_error(len) is Some ==> bag_length_error(len) == Some(
            PageError::Format(PageFormat::BagLength { len: len as usize }),
        ),
        insert_bag_error(b, len) is None <==> b[5] == 7 && 1 <= len <= 8148 && append_error(b, len)
            is None,
        b[5] == 7 && len == 0 ==> insert_bag_error(b, len) == Some(
            PageError::Format(PageFormat::EmptyBag),
        ),
        b[5] == 7 && len > 8148 ==> insert_bag_error(b, len) == Some(
            PageError::Format(PageFormat::OversizeBag { len: len as usize }),
        ),
        put_bag_error(b, slot, len) is None <==> b[5] == 7 && 1 <= len <= 8148 && put_error(
            b,
            slot,
            len as u16,
        ) is None,
        fixed_bag_error(b, slot, len, capacity) is None <==> b[5] == 7 && 1 <= len <= 8148
            && buried_error(b, slot) is None && fixed_error(b, slot, len, len as u16, capacity)
            is None,
{
}

/// What is said of a page without room, and of a slot that cannot be overwritten.
pub proof fn law_room_refusals(b: Seq<u8>, slot: u16, len: u16)
    requires
        page_ok(b),
        0 < len <= 8148,
    ensures
        u16_at(b, 38) < len + 4 ==> append_error(b, len as int) == Some(
            PageError::Full { needed: (len + 4) as u16, free: u16_at(b, 38) },
        ),
        slot >= u16_at(b, 36) ==> overwrite_error(b, slot, len) == Some(
            PageError::SlotOutOfRange { slot, count: u16_at(b, 36) },
        ),
        entry_result(b, slot) == Ok::<Option<(u16, u16)>, PageError>(None) ==> overwrite_error(
            b,
            slot,
            len,
        ) == Some(PageError::SlotTombstoned(slot)),
        hole_error(b, slot) is None <==> slot < u16_at(b, 36),
        slot >= u16_at(b, 36) ==> hole_error(b, slot) == Some(
            PageError::SlotOutOfRange { slot, count: u16_at(b, 36) },
        ),
        buried_error(b, slot) is Some <==> slot < u16_at(b, 36) && u16_at(b, 40 + 4 * slot) == 0
            && u16_at(b, 42 + 4 * slot) == 0xFFFF,
        buried_error(b, slot) is Some ==> buried_error(b, slot) == Some(
            PageError::SlotTombstoned(slot),
        ),
{
}

/// Which records can be written at their own slot: the slot is one of the page's
/// cells, the record has the length of a cell, the page is laid out in cells, the
/// cells up to the slot fit, and the slot is absent or lies in its own cell.
pub proof fn law_fixed_room(b: Seq<u8>, slot: u16, rec_len: int, len: u16, capacity: u16)
    requires
        page_ok(b),
        0 <= rec_len,
        0 < len,
    ensures
        ({
            let count = u16_at(b, 36);
            let off = u16_at(b, 40 + 4 * slot);
            let size = u16_at(b, 42 + 4 * slot);
            let absent = off == 0 && (size == 0 || size == 0xFFFF);
            let at_home = off == 8192 - (slot + 1) * len && size == len && off >= 40 + 4 * count;
            &&& fixed_error(b, slot, rec_len, len, capacity) is None <==> {
                &&& slot < capacity
                &&& rec_len == len
                &&& count <= capacity
                &&& u16_at(b, 38) == 8152 - count * (len + 4)
                &&& (slot + 1) * (len + 4) <= 8152
                &&& slot < count ==> absent || at_home
            }
            &&& slot >= capacity ==> fixed_error(b, slot, rec_len, len, capacity) == Some(
                PageError::SlotOutOfRange { slot, count: capacity },
            )
        }),
{
    let count = u16_at(b, 36) as int;
    let cell = len as int + 4;
    assert(count * cell >= 0 && (slot + 1) * cell >= 0) by (nonlinear_arith)
        requires
            count >= 0,
            cell >= 0,
            slot >= 0,
    ;
    assert((slot + 1) * len == slot * len + len && slot * len >= 0) by (nonlinear_arith)
        requires
            slot >= 0,
            len >= 0,
    ;
    if slot < count {
        law_directory(b, slot);
        assert((slot + 1) * cell <= count * cell) by (nonlinear_arith)
            requires
                slot + 1 <= count,
                cell >= 0,
        ;
    }
}

/// Which slots can be retired: one that is retired already, where its row lies on
/// the page, and one that could be written.
pub proof fn law_bury_refusals(b: Seq<u8>, slot: u16, len: u16, capacity: u16)
    requires
        page_ok(b),
    ensures
        ({
            let retired = slot < u16_at(b, 36) && u16_at(b, 40 + 4 * slot) == 0 && u16_at(
                b,
                42 + 4 * slot,
            ) == 0xFFFF;
            &&& retired ==> (bury_error(b, slot, len, capacity) is None <==> len >= 8 && (slot + 1)
                * len <= 8192)
            &&& !retired ==> bury_error(b, slot, len, capacity) == fixed_error(
                b,
                slot,
                len as int,
                len,
                capacity,
            )
        }),
{
}

/// The LSN of a retired slot stands at the start of its cell; a slot that is not
/// retired has none.
pub proof fn law_tombstone_lsn(b: Seq<u8>, slot: u16, len: u16)
    requires
        page_ok(b),
    ensures
        ({
            let retired = u16_at(b, 40 + 4 * slot) == 0 && u16_at(b, 42 + 4 * slot) == 0xFFFF;
            let r = tombstone_lsn_result(b, slot, len);
            &&& slot >= u16_at(b, 36) ==> r == Err::<Option<u64>, PageError>(
                PageError::SlotOutOfRange { slot, count: u16_at(b, 36) },
            )
            &&& slot < u16_at(b, 36) && !retired ==> r == Ok::<Option<u64>, PageError>(None)
            &&& slot < u16_at(b, 36) && retired && len < 8 ==> r == Err::<Option<u64>, PageError>(
                PageError::Format(PageFormat::TombstoneTooShort),
            )
            &&& slot < u16_at(b, 36) && retired && len >= 8 && (slot + 1) * len <= 8192 ==> r
                == Ok::<Option<u64>, PageError>(Some(u64_at(b, 8192 - (slot + 1) * len)))
            &&& slot < u16_at(b, 36) && retired && len >= 8 && (slot + 1) * len > 8192 ==> r
                == Err::<Option<u64>, PageError>(
                PageError::Format(PageFormat::TombstoneOffsetUnderflow),
            )
        }),
{
}

// ---- beneath a hole -------------------------------------------------------

/// What is preserved beneath a hole: the bytes of its cell, unless they are all
/// zero. A slot that is live or retired preserves nothing.
pub proof fn law_preserved_bytes(b: Seq<u8>, slot: u16, len: int)
    requires
        page_ok(b),
        0 < len,
        slot < u16_at(b, 36),
        (slot + 1) * len <= 8192,
        entry_result(b, slot) is Ok,
    ensures
        ({
            let hole = u16_at(b, 40 + 4 * slot) == 0 && u16_at(b, 42 + 4 * slot) == 0;
            let at = 8192 - (slot + 1) * len;
            let cell = b.subrange(at, at + len);
            let r = preserved_result(b, slot, len);
            &&& !hole ==> r == Ok::<Option<Seq<u8>>, PageError>(None)
            &&& hole && (forall|k: int| 0 <= k < len ==> #[trigger] cell[k] == 0) ==> r == Ok::<
                Option<Seq<u8>>,
                PageError,
            >(None)
            &&& hole && !(forall|k: int| 0 <= k < len ==> #[trigger] cell[k] == 0) ==> r == Ok::<
                Option<Seq<u8>>,
                PageError,
            >(Some(cell))
        }),
{
}

/// A node whose slot was turned into a hole can still be recovered, as it was.
pub proof fn law_hole_keeps_its_node(b: Seq<u8>, slot: u16, rec: NodeRecord)
    requires
        canonical(b, 64),
        b[5] == 1,
        slot < u16_at(b, 36),
        read_node_result(b, slot) == Ok::<Option<NodeRecord>, PageError>(Some(rec)),
    ensures
        recover_node_result(holed(b, slot), slot) == Ok::<Option<NodeRecord>, PageError>(Some(rec)),
        recover_node_result(b, slot) == Ok::<Option<NodeRecord>, PageError>(None),
{
    lemma_beneath_hole(b, slot, 64);
    let cell = b.subrange(8192 - (slot + 1) * 64, 8192 - (slot + 1) * 64 + 64);
    assert(decode_node(cell) == Ok::<NodeRecord, crate::page::RecordError>(rec));
    crate::page_laws::law_node_reading(cell);
    crate::page_laws::law_numbers_are_little_endian(cell, 0, 0, 0, 0);
    assert(cell[0] != 0 || cell[1] != 0);
}

/// A relationship whose slot was turned into a hole can still be recovered, as it
/// was.
pub proof fn law_hole_keeps_its_rel(b: Seq<u8>, slot: u16, rec: RelRecord)
    requires
        canonical(b, 96),
        b[5] == 2,
        slot < u16_at(b, 36),
        read_rel_result(b, slot) == Ok::<Option<RelRecord>, PageError>(Some(rec)),
    ensures
        recover_rel_result(holed(b, slot), slot) == Ok::<Option<RelRecord>, PageError>(Some(rec)),
        recover_rel_result(b, slot) == Ok::<Option<RelRecord>, PageError>(None),
{
    lemma_beneath_hole(b, slot, 96);
    let cell = b.subrange(8192 - (slot + 1) * 96, 8192 - (slot + 1) * 96 + 96);
    assert(decode_rel(cell) == Ok::<RelRecord, crate::page::RecordError>(rec));
    crate::page_laws::law_rel_reading(cell);
    crate::page_laws::law_numbers_are_little_endian(cell, 0, 0, 0, 0);
    assert(cell[0] != 0 || cell[1] != 0);
}

proof fn lemma_beneath_hole(b: Seq<u8>, slot: u16, len: int)
    requires
        canonical(b, len),
        len == 64 || len == 96,
        slot < u16_at(b, 36),
        entry_result(b, slot) matches Ok(Some(_)),
    ensures
        ({
            let c = holed(b, slot);
            let at = 8192 - (slot + 1) * len;
            &&& at >= 40 + 4 * u16_at(b, 36)
            &&& slot_off(b, slot as int) == at
            &&& entry_result(b, slot) == Ok::<Option<(u16, u16)>, PageError>(
                Some((at as u16, len as u16)),
            )
            &&& c[5] == b[5]
            &&& c.len() == 8192
            &&& entry_result(c, slot) == Ok::<Option<(u16, u16)>, PageError>(None)
            &&& u16_at(c, 42 + 4 * slot) == 0
            &&& c.subrange(at, at + len) == b.subrange(at, at + len)
        }),
{
    law_directory(b, slot);
    assert(slot_off(b, slot as int) == slot_off(b, slot as int));
    law_tombstone(b, slot);
    let c = holed(b, slot);
    let d = with_slot(b, slot as int, 0, 0);
    lemma_sealed(d);
    let at = 8192 - (slot + 1) * len;
    assert(c.subrange(at, at + len) =~= b.subrange(at, at + len));
}

// ---- where records go -----------------------------------------------------

/// Where an appended record goes: right below the records that are there, with the
/// next entry of the directory.
pub proof fn law_appended_place(b: Seq<u8>, rec: Seq<u8>)
    requires
        layout_ok(b),
        0 < rec.len(),
        append_error(b, rec.len() as int) is None,
    ensures
        ({
            let count = u16_at(b, 36);
            let free = u16_at(b, 38);
            let c = appended(b, rec);
            &&& u16_at(c, 36) == count + 1
            &&& u16_at(c, 38) == free - rec.len() - 4
            &&& u16_at(c, 40 + 4 * count) == 40 + 4 * count + free - rec.len()
            &&& u16_at(c, 42 + 4 * count) == rec.len()
        }),
{
    law_append(b, rec);
    let n = slot_count_of(b);
    let start = record_area(b) - rec.len();
    let c = with_counts(
        with_slot(splice(b, start, rec), n as int, start as u16, rec.len() as u16),
        (n + 1) as u16,
        (free_space_of(b) - rec.len() - 4) as u16,
    );
    lemma_sealed(c);
    let d = appended(b, rec);
    assert(slot_off(d, n as int) == start && slot_len(d, n as int) == rec.len());
}

/// What is said of a redo target past the directory that the page has no room for.
pub proof fn law_sparse_refusals(b: Seq<u8>, slot: u16, len: u16)
    requires
        page_ok(b),
        0 < len <= 8148,
        slot > u16_at(b, 36),
    ensures
        ({
            let gap = slot - u16_at(b, 36);
            let need = 4 * gap + len + 4;
            &&& 4 * gap <= 0xFFFF && need <= 0xFFFF && need > u16_at(b, 38) ==> put_error(
                b,
                slot,
                len,
            ) == Some(PageError::Full { needed: need as u16, free: u16_at(b, 38) })
            &&& 4 * gap > 0xFFFF ==> put_error(b, slot, len) == Some(
                PageError::Format(PageFormat::SparseDirectoryOverflow),
            )
        }),
{
}

/// What a slice that was read stands for.
pub proof fn law_bag_views(r: Result<Option<&[u8]>, PageError>)
    ensures
        r matches Err(e) ==> bag_view(r) == Err::<Option<Seq<u8>>, PageError>(e),
        r matches Ok(None) ==> bag_view(r) == Ok::<Option<Seq<u8>>, PageError>(None),
        r matches Ok(Some(s)) ==> bag_view(r) == Ok::<Option<Seq<u8>>, PageError>(Some(s@)),
{
}

} // verus!
