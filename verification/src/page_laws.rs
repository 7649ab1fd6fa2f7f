//! Where the fields of a page and of its records lie, and what reading a page
//! gives, said of the bytes themselves.
use vstd::prelude::*;

use crate::codec::{
    group_codec, le16, le32, le64, lemma_u16_at_same, lemma_u32_at_same, lemma_u32_read_back,
    lemma_u64_at_same, lemma_u64_read_back, u16_at, u32_at, u64_at,
};
use crate::page::{
    decode_header, decode_node, decode_rel, header_bytes, law_header_round_trip,
    law_node_round_trip, law_rel_round_trip, node_bytes, page_type_byte, rel_bytes, HeaderError,
    NodeRecord, PageHeader, PageType, RecordError, RelRecord,
};
use crate::slot_laws::canonical;
use crate::slot_model::{
    entry_result, live_nodes, live_rels, page_ok, publish_node_error, publish_rel_error,
    read_bag_result, read_node_result, read_rel_result, slot_count_of, slot_off, tombstone_result,
    PageError, SlotId,
};

verus! {

broadcast use group_codec;

// ---- numbers --------------------------------------------------------------

/// Numbers are written with the low byte first, and read so.
pub proof fn law_numbers_are_little_endian(b: Seq<u8>, at: int, x: u16, y: u32, z: u64)
    ensures
        u16_at(b, at) == b[at] + 256 * b[at + 1],
        u32_at(b, at) == b[at] + 256 * b[at + 1] + 65536 * b[at + 2] + 16777216 * b[at + 3],
        u64_at(b, at) == u32_at(b, at) + 4294967296 * u32_at(b, at + 4),
        le16(x).len() == 2 && le32(y).len() == 4 && le64(z).len() == 8,
        le16(x)[0] == x % 256 && le16(x)[1] == x / 256,
        le32(y)[0] == y % 256 && le32(y)[1] == y / 256 % 256 && le32(y)[2] == y / 65536 % 256
            && le32(y)[3] == y / 16777216,
        u64_at(le64(z), 0) == z,
{
    reveal(u16_at);
    reveal(u32_at);
    reveal(u64_at);
    reveal(le16);
    reveal(le32);
    lemma_u64_read_back(le64(z), 0, z);
}

// ---- headers --------------------------------------------------------------

/// Every type of page has its own byte.
pub proof fn law_page_type_bytes()
    ensures
        page_type_byte(PageType::Node) == 1,
        page_type_byte(PageType::Rel) == 2,
        page_type_byte(PageType::Tel) == 3,
        page_type_byte(PageType::Blob) == 4,
        page_type_byte(PageType::IndexLeaf) == 5,
        page_type_byte(PageType::IndexInternal) == 6,
        page_type_byte(PageType::PropSlotted) == 7,
{
}

/// Where the fields of a header lie.
pub proof fn law_header_layout(h: PageHeader)
    ensures
        ({
            let b = header_bytes(h);
            &&& b.len() == 40
            &&& u32_at(b, 0) == h.magic
            &&& b[4] == h.version
            &&& b[5] == h.page_type
            &&& u16_at(b, 6) == h.flags
            &&& u64_at(b, 8) == h.page_id
            &&& u64_at(b, 16) == h.lsn
            &&& u64_at(b, 24) == h.tenant_id
            &&& u32_at(b, 32) == h.checksum
            &&& u16_at(b, 36) == h.slot_count
            &&& u16_at(b, 38) == h.free_space
        }),
{
    law_header_round_trip(h);
}

/// Which bytes are a header, what it says, and which fault is reported first.
pub proof fn law_header_reading(b: Seq<u8>)
    ensures
        decode_header(b) is Ok <==> u32_at(b, 0) == 0x4743_5241 && b[4] == 1 && 1 <= b[5] <= 7,
        decode_header(b) matches Ok(h) ==> {
            &&& h.magic == u32_at(b, 0) && h.version == b[4] && h.page_type == b[5]
            &&& h.flags == u16_at(b, 6) && h.page_id == u64_at(b, 8) && h.lsn == u64_at(b, 16)
            &&& h.tenant_id == u64_at(b, 24) && h.checksum == u32_at(b, 32)
            &&& h.slot_count == u16_at(b, 36) && h.free_space == u16_at(b, 38)
        },
        u32_at(b, 0) != 0x4743_5241 ==> decode_header(b) == Err::<PageHeader, HeaderError>(
            HeaderError::BadMagic { got: u32_at(b, 0) },
        ),
        u32_at(b, 0) == 0x4743_5241 && b[4] != 1 ==> decode_header(b) == Err::<
            PageHeader,
            HeaderError,
        >(HeaderError::UnsupportedVersion { got: b[4] }),
        u32_at(b, 0) == 0x4743_5241 && b[4] == 1 && !(1 <= b[5] <= 7) ==> decode_header(b) == Err::<
            PageHeader,
            HeaderError,
        >(HeaderError::UnknownPageType { got: b[5] }),
{
}

// ---- records --------------------------------------------------------------

/// Where the fields of a node record lie. Bytes that belong to none are zero.
pub proof fn law_node_layout(r: NodeRecord)
    ensures
        ({
            let b = node_bytes(r);
            &&& b.len() == 64
            &&& u16_at(b, 0) == 0x4E41
            &&& b[2] == 1 && b[3] == 0
            &&& u32_at(b, 4) == r.flags
            &&& u64_at(b, 8) == r.id
            &&& u32_at(b, 16) == r.label_id
            &&& u32_at(b, 20) == 0
            &&& u64_at(b, 24) == r.created_lsn
            &&& u64_at(b, 32) == r.expired_lsn
            &&& u64_at(b, 40) == r.property_ref
            &&& u32_at(b, 48) == r.inline_u32a
            &&& u32_at(b, 52) == r.inline_u32b
            &&& u64_at(b, 56) == 0
        }),
{
    law_node_round_trip(r);
    let b = node_bytes(r);
    assert forall|k: int| 0 <= k < 4 implies #[trigger] b[20 + k] == le32(0)[k] by {}
    lemma_u32_read_back(b, 20, 0);
    assert forall|k: int| 0 <= k < 8 implies #[trigger] b[56 + k] == le64(0)[k] by {}
    lemma_u64_read_back(b, 56, 0);
}

/// Where the fields of a relationship record lie. Bytes that belong to none are
/// zero.
pub proof fn law_rel_layout(r: RelRecord)
    ensures
        ({
            let b = rel_bytes(r);
            &&& b.len() == 96
            &&& u16_at(b, 0) == 0x5241
            &&& b[2] == 1 && b[3] == 0
            &&& u32_at(b, 4) == r.flags
            &&& u64_at(b, 8) == r.id
            &&& u32_at(b, 16) == r.type_id
            &&& u32_at(b, 20) == 0
            &&& u64_at(b, 24) == r.src_id
            &&& u64_at(b, 32) == r.dst_id
            &&& u64_at(b, 40) == r.created_lsn
            &&& u64_at(b, 48) == r.expired_lsn
            &&& u64_at(b, 56) == r.property_ref
            &&& u32_at(b, 64) == r.inline_u32a
            &&& u32_at(b, 68) == r.inline_u32b
            &&& u64_at(b, 72) == 0 && u64_at(b, 80) == 0 && u64_at(b, 88) == 0
        }),
{
    law_rel_round_trip(r);
    let b = rel_bytes(r);
    assert forall|k: int| 0 <= k < 4 implies #[trigger] b[20 + k] == le32(0)[k] by {}
    lemma_u32_read_back(b, 20, 0);
    assert forall|k: int| 0 <= k < 8 implies #[trigger] b[72 + k] == le64(0)[k] by {}
    lemma_u64_read_back(b, 72, 0);
    assert forall|k: int| 0 <= k < 8 implies #[trigger] b[80 + k] == le64(0)[k] by {}
    lemma_u64_read_back(b, 80, 0);
    assert forall|k: int| 0 <= k < 8 implies #[trigger] b[88 + k] == le64(0)[k] by {}
    lemma_u64_read_back(b, 88, 0);
}

/// The node record that lies at `at`, field by field.
spec fn node_fields(b: Seq<u8>, at: int, r: NodeRecord) -> bool {
    &&& r.flags == u32_at(b, at + 4)
    &&& r.id == u64_at(b, at + 8)
    &&& r.label_id == u32_at(b, at + 16)
    &&& r.created_lsn == u64_at(b, at + 24)
    &&& r.expired_lsn == u64_at(b, at + 32)
    &&& r.property_ref == u64_at(b, at + 40)
    &&& r.inline_u32a == u32_at(b, at + 48)
    &&& r.inline_u32b == u32_at(b, at + 52)
}

/// The relationship record that lies at `at`, field by field.
spec fn rel_fields(b: Seq<u8>, at: int, r: RelRecord) -> bool {
    &&& r.flags == u32_at(b, at + 4)
    &&& r.id == u64_at(b, at + 8)
    &&& r.type_id == u32_at(b, at + 16)
    &&& r.src_id == u64_at(b, at + 24)
    &&& r.dst_id == u64_at(b, at + 32)
    &&& r.created_lsn == u64_at(b, at + 40)
    &&& r.expired_lsn == u64_at(b, at + 48)
    &&& r.property_ref == u64_at(b, at + 56)
    &&& r.inline_u32a == u32_at(b, at + 64)
    &&& r.inline_u32b == u32_at(b, at + 68)
}

/// Which bytes are a node record: the magic number and the version decide. Every
/// field is read from its own bytes, whatever it holds.
pub proof fn law_node_reading(b: Seq<u8>)
    ensures
        decode_node(b) is Ok <==> u16_at(b, 0) == 0x4E41 && b[2] == 1,
        decode_node(b) matches Ok(r) ==> {
            &&& r.flags == u32_at(b, 4)
            &&& r.id == u64_at(b, 8)
            &&& r.label_id == u32_at(b, 16)
            &&& r.created_lsn == u64_at(b, 24)
            &&& r.expired_lsn == u64_at(b, 32)
            &&& r.property_ref == u64_at(b, 40)
            &&& r.inline_u32a == u32_at(b, 48)
            &&& r.inline_u32b == u32_at(b, 52)
        },
        u16_at(b, 0) != 0x4E41 ==> decode_node(b) == Err::<NodeRecord, RecordError>(
            RecordError::BadMagic { got: u16_at(b, 0) },
        ),
        u16_at(b, 0) == 0x4E41 && b[2] != 1 ==> decode_node(b) == Err::<NodeRecord, RecordError>(
            RecordError::UnsupportedVersion { got: b[2] },
        ),
{
}

/// Which bytes are a relationship record: the magic number and the version
/// decide. Every field is read from its own bytes, whatever it holds.
pub proof fn law_rel_reading(b: Seq<u8>)
    ensures
        decode_rel(b) is Ok <==> u16_at(b, 0) == 0x5241 && b[2] == 1,
        decode_rel(b) matches Ok(r) ==> {
            &&& r.flags == u32_at(b, 4)
            &&& r.id == u64_at(b, 8)
            &&& r.type_id == u32_at(b, 16)
            &&& r.src_id == u64_at(b, 24)
            &&& r.dst_id == u64_at(b, 32)
            &&& r.created_lsn == u64_at(b, 40)
            &&& r.expired_lsn == u64_at(b, 48)
            &&& r.property_ref == u64_at(b, 56)
            &&& r.inline_u32a == u32_at(b, 64)
            &&& r.inline_u32b == u32_at(b, 68)
        },
        u16_at(b, 0) != 0x5241 ==> decode_rel(b) == Err::<RelRecord, RecordError>(
            RecordError::BadMagic { got: u16_at(b, 0) },
        ),
        u16_at(b, 0) == 0x5241 && b[2] != 1 ==> decode_rel(b) == Err::<RelRecord, RecordError>(
            RecordError::UnsupportedVersion { got: b[2] },
        ),
{
}

// ---- slots ----------------------------------------------------------------

/// Where the record of a slot lies: the directory's entry says it, four bytes
/// per slot behind the header. A slot is absent exactly where its entry is a hole
/// or the mark of a durable tombstone, and unreadable exactly where its entry
/// leaves the record area.
pub proof fn law_directory(b: Seq<u8>, slot: u16)
    requires
        page_ok(b),
    ensures
        ({
            let count = u16_at(b, 36);
            let off = u16_at(b, 40 + 4 * slot);
            let len = u16_at(b, 42 + 4 * slot);
            let absent = off == 0 && (len == 0 || len == 0xFFFF);
            let outside = off < 40 + 4 * count || off + len > 8192;
            &&& slot >= count <==> entry_result(b, slot) == Err::<Option<(u16, u16)>, PageError>(
                PageError::SlotOutOfRange { slot, count },
            )
            &&& slot < count && absent <==> entry_result(b, slot) == Ok::<
                Option<(u16, u16)>,
                PageError,
            >(None)
            &&& slot < count && !absent && !outside <==> entry_result(b, slot) == Ok::<
                Option<(u16, u16)>,
                PageError,
            >(Some((off, len)))
            &&& slot < count && !absent && outside ==> entry_result(b, slot) is Err
            &&& slot < count ==> tombstone_result(b, slot) == Ok::<bool, PageError>(
                off == 0 && len == 0xFFFF,
            )
        }),
{
}

/// Reading a node gives the record that lies where the directory says, field by
/// field, and nothing where the slot is absent.
pub proof fn law_read_node(b: Seq<u8>, slot: u16)
    requires
        page_ok(b),
    ensures
        ({
            let off = u16_at(b, 40 + 4 * slot) as int;
            let found = entry_result(b, slot);
            let whole = found == Ok::<Option<(u16, u16)>, PageError>(Some((off as u16, 64)));
            &&& found is Err ==> read_node_result(b, slot) is Err
            &&& read_node_result(b, slot) == Ok::<Option<NodeRecord>, PageError>(None) <==> found
                == Ok::<Option<(u16, u16)>, PageError>(None)
            &&& (read_node_result(b, slot) matches Ok(Some(_))) <==> whole && u16_at(b, off) == 0x4E41
                && b[off + 2] == 1
            &&& read_node_result(b, slot) matches Ok(Some(r)) ==> {
                &&& r.flags == u32_at(b, off + 4)
                &&& r.id == u64_at(b, off + 8)
                &&& r.label_id == u32_at(b, off + 16)
                &&& r.created_lsn == u64_at(b, off + 24)
                &&& r.expired_lsn == u64_at(b, off + 32)
                &&& r.property_ref == u64_at(b, off + 40)
                &&& r.inline_u32a == u32_at(b, off + 48)
                &&& r.inline_u32b == u32_at(b, off + 52)
            }
        }),
{
    let off = u16_at(b, 40 + 4 * slot) as int;
    if entry_result(b, slot) == Ok::<Option<(u16, u16)>, PageError>(Some((off as u16, 64))) {
        lemma_node_at(b, off);
    }
}

proof fn lemma_node_at(b: Seq<u8>, off: int)
    requires
        0 <= off,
        off + 64 <= b.len(),
    ensures
        ({
            let p = b.subrange(off, off + 64);
            &&& u16_at(p, 0) == u16_at(b, off)
            &&& p[2] == b[off + 2]
            &&& decode_node(p) matches Ok(r) ==> node_fields(b, off, r)
        }),
{
    let p = b.subrange(off, off + 64);
    assert forall|k: int| 0 <= k < 64 implies #[trigger] p[k] == b[off + k] by {}
    lemma_u16_at_same(p, 0, b, off);
    lemma_u32_at_same(p, 4, b, off + 4);
    lemma_u64_at_same(p, 8, b, off + 8);
    lemma_u32_at_same(p, 16, b, off + 16);
    lemma_u64_at_same(p, 24, b, off + 24);
    lemma_u64_at_same(p, 32, b, off + 32);
    lemma_u64_at_same(p, 40, b, off + 40);
    lemma_u32_at_same(p, 48, b, off + 48);
    lemma_u32_at_same(p, 52, b, off + 52);
}

/// Reading a relationship gives the record that lies where the directory says,
/// field by field, and nothing where the slot is absent.
pub proof fn law_read_rel(b: Seq<u8>, slot: u16)
    requires
        page_ok(b),
    ensures
        ({
            let off = u16_at(b, 40 + 4 * slot) as int;
            let found = entry_result(b, slot);
            let whole = found == Ok::<Option<(u16, u16)>, PageError>(Some((off as u16, 96)));
            &&& found is Err ==> read_rel_result(b, slot) is Err
            &&& read_rel_result(b, slot) == Ok::<Option<RelRecord>, PageError>(None) <==> found
                == Ok::<Option<(u16, u16)>, PageError>(None)
            &&& (read_rel_result(b, slot) matches Ok(Some(_))) <==> whole && u16_at(b, off) == 0x5241
                && b[off + 2] == 1
            &&& read_rel_result(b, slot) matches Ok(Some(r)) ==> {
                &&& r.flags == u32_at(b, off + 4)
                &&& r.id == u64_at(b, off + 8)
                &&& r.type_id == u32_at(b, off + 16)
                &&& r.src_id == u64_at(b, off + 24)
                &&& r.dst_id == u64_at(b, off + 32)
                &&& r.created_lsn == u64_at(b, off + 40)
                &&& r.expired_lsn == u64_at(b, off + 48)
                &&& r.property_ref == u64_at(b, off + 56)
                &&& r.inline_u32a == u32_at(b, off + 64)
                &&& r.inline_u32b == u32_at(b, off + 68)
            }
        }),
{
    let off = u16_at(b, 40 + 4 * slot) as int;
    if entry_result(b, slot) == Ok::<Option<(u16, u16)>, PageError>(Some((off as u16, 96))) {
        lemma_rel_at(b, off);
    }
}

proof fn lemma_rel_at(b: Seq<u8>, off: int)
    requires
        0 <= off,
        off + 96 <= b.len(),
    ensures
        ({
            let p = b.subrange(off, off + 96);
            &&& u16_at(p, 0) == u16_at(b, off)
            &&& p[2] == b[off + 2]
            &&& decode_rel(p) matches Ok(r) ==> rel_fields(b, off, r)
        }),
{
    let p = b.subrange(off, off + 96);
    assert forall|k: int| 0 <= k < 96 implies #[trigger] p[k] == b[off + k] by {}
    lemma_u16_at_same(p, 0, b, off);
    lemma_u32_at_same(p, 4, b, off + 4);
    lemma_u64_at_same(p, 8, b, off + 8);
    lemma_u32_at_same(p, 16, b, off + 16);
    lemma_u64_at_same(p, 24, b, off + 24);
    lemma_u64_at_same(p, 32, b, off + 32);
    lemma_u64_at_same(p, 40, b, off + 40);
    lemma_u64_at_same(p, 48, b, off + 48);
    lemma_u64_at_same(p, 56, b, off + 56);
    lemma_u32_at_same(p, 64, b, off + 64);
    lemma_u32_at_same(p, 68, b, off + 68);
}

/// Reading a bag gives, of a page of bags, the bytes that the directory's entry
/// spans, and nothing where the slot is absent.
pub proof fn law_read_bag(b: Seq<u8>, slot: u16)
    requires
        page_ok(b),
    ensures
        b[5] != 7 ==> read_bag_result(b, slot) == Err::<Option<Seq<u8>>, PageError>(
            PageError::WrongPageType { got: b[5], expected: 7 },
        ),
        b[5] == 7 ==> match entry_result(b, slot) {
            Err(e) => read_bag_result(b, slot) == Err::<Option<Seq<u8>>, PageError>(e),
            Ok(None) => read_bag_result(b, slot) == Ok::<Option<Seq<u8>>, PageError>(None),
            Ok(Some((off, len))) => read_bag_result(b, slot) matches Ok(Some(bag)) && bag.len()
                == len && forall|k: int| 0 <= k < len ==> #[trigger] bag[k] == b[off + k],
        },
{
}

// ---- listings -------------------------------------------------------------

/// The listing of the nodes of the first `n` slots is complete and exact: a
/// slot is in it, with its record, exactly where reading the slot gives a record,
/// and the slots ascend.
pub proof fn law_nodes_are_all_listed(b: Seq<u8>, n: int)
    requires
        0 <= n <= 0x1_0000,
    ensures
        forall|s: u16, r: NodeRecord|
            #[trigger] live_nodes(b, n).contains((SlotId(s), r)) <==> s < n && read_node_result(b, s)
                == Ok::<Option<NodeRecord>, PageError>(Some(r)),
        forall|i: int, j: int|
            0 <= i < j < live_nodes(b, n).len() ==> (#[trigger] live_nodes(b, n)[i]).0.0 < (
            #[trigger] live_nodes(b, n)[j]).0.0,
    decreases n,
{
    let all = live_nodes(b, n);
    if n > 0 {
        let front = live_nodes(b, n - 1);
        law_nodes_are_all_listed(b, n - 1);
        assert forall|s: u16, r: NodeRecord|
            #[trigger] all.contains((SlotId(s), r)) <==> s < n && read_node_result(b, s) == Ok::<
                Option<NodeRecord>,
                PageError,
            >(Some(r)) by {
            if all.contains((SlotId(s), r)) {
                let i = choose|i: int| 0 <= i < all.len() && all[i] == (SlotId(s), r);
                if i < front.len() {
                    assert(front[i] == (SlotId(s), r));
                    assert(front.contains((SlotId(s), r)));
                }
            }
            if s < n && read_node_result(b, s) == Ok::<Option<NodeRecord>, PageError>(Some(r)) {
                if s < n - 1 {
                    assert(front.contains((SlotId(s), r)));
                    let i = choose|i: int| 0 <= i < front.len() && front[i] == (SlotId(s), r);
                    assert(all[i] == (SlotId(s), r));
                } else {
                    assert(all.last() == (SlotId(s), r));
                }
            }
        }
        assert forall|i: int, j: int| 0 <= i < j < all.len() implies (#[trigger] all[i]).0.0 < (
        #[trigger] all[j]).0.0 by {
            assert(front[i] == all[i]);
            assert(front.contains((SlotId(all[i].0.0), all[i].1)));
            if j < front.len() {
                assert(front[j] == all[j]);
            }
        }
    }
}

/// The listing of the relationships of the first `n` slots is complete and
/// exact: a slot is in it, with its record, exactly where reading the slot gives a
/// record, and the slots ascend.
pub proof fn law_rels_are_all_listed(b: Seq<u8>, n: int)
    requires
        0 <= n <= 0x1_0000,
    ensures
        forall|s: u16, r: RelRecord|
            #[trigger] live_rels(b, n).contains((SlotId(s), r)) <==> s < n && read_rel_result(b, s)
                == Ok::<Option<RelRecord>, PageError>(Some(r)),
        forall|i: int, j: int|
            0 <= i < j < live_rels(b, n).len() ==> (#[trigger] live_rels(b, n)[i]).0.0 < (
            #[trigger] live_rels(b, n)[j]).0.0,
    decreases n,
{
    let all = live_rels(b, n);
    if n > 0 {
        let front = live_rels(b, n - 1);
        law_rels_are_all_listed(b, n - 1);
        assert forall|s: u16, r: RelRecord|
            #[trigger] all.contains((SlotId(s), r)) <==> s < n && read_rel_result(b, s) == Ok::<
                Option<RelRecord>,
                PageError,
            >(Some(r)) by {
            if all.contains((SlotId(s), r)) {
                let i = choose|i: int| 0 <= i < all.len() && all[i] == (SlotId(s), r);
                if i < front.len() {
                    assert(front[i] == (SlotId(s), r));
                    assert(front.contains((SlotId(s), r)));
                }
            }
            if s < n && read_rel_result(b, s) == Ok::<Option<RelRecord>, PageError>(Some(r)) {
                if s < n - 1 {
                    assert(front.contains((SlotId(s), r)));
                    let i = choose|i: int| 0 <= i < front.len() && front[i] == (SlotId(s), r);
                    assert(all[i] == (SlotId(s), r));
                } else {
                    assert(all.last() == (SlotId(s), r));
                }
            }
        }
        assert forall|i: int, j: int| 0 <= i < j < all.len() implies (#[trigger] all[i]).0.0 < (
        #[trigger] all[j]).0.0 by {
            assert(front[i] == all[i]);
            assert(front.contains((SlotId(all[i].0.0), all[i].1)));
            if j < front.len() {
                assert(front[j] == all[j]);
            }
        }
    }
}

// ---- publishing and recovering --------------------------------------------

/// A version may be published at a slot of a node page exactly where the slot is
/// new or holds no durable tombstone and no newer version, and the slot is a cell
/// of the page. Versions of the same LSN replace each other.
pub proof fn law_publish_node(b: Seq<u8>, slot: u16, lsn: u64)
    requires
        page_ok(b),
        canonical(b, 64),
        b[5] == 1,
        slot_count_of(b) <= 119,
    ensures
        publish_node_error(b, slot, lsn) is None <==> slot < 119 && (slot < slot_count_of(b) ==> {
            &&& tombstone_result(b, slot) == Ok::<bool, PageError>(false)
            &&& match read_node_result(b, slot) {
                Ok(Some(r)) => r.created_lsn <= lsn,
                Ok(None) => true,
                Err(_) => false,
            }
        }),
        slot < slot_count_of(b) && tombstone_result(b, slot) == Ok::<bool, PageError>(true)
            ==> publish_node_error(b, slot, lsn) == Some(PageError::SlotTombstoned(slot)),
        slot < slot_count_of(b) ==> (read_node_result(b, slot) matches Ok(Some(r)) ==> lsn
            < r.created_lsn ==> publish_node_error(b, slot, lsn) == Some(
            PageError::StalePublish { slot, current: r.created_lsn, incoming: lsn },
        )),
{
    if slot < slot_count_of(b) {
        assert(slot_off(b, slot as int) == slot_off(b, slot as int));
        assert((slot + 1) * 64 <= slot_count_of(b) * 64);
    }
}

/// A version may be published at a slot of a relationship page exactly where the
/// slot is new or holds no durable tombstone and no newer version, and the slot is
/// a cell of the page. Versions of the same LSN replace each other.
pub proof fn law_publish_rel(b: Seq<u8>, slot: u16, lsn: u64)
    requires
        page_ok(b),
        canonical(b, 96),
        b[5] == 2,
        slot_count_of(b) <= 81,
    ensures
        publish_rel_error(b, slot, lsn) is None <==> slot < 81 && (slot < slot_count_of(b) ==> {
            &&& tombstone_result(b, slot) == Ok::<bool, PageError>(false)
            &&& match read_rel_result(b, slot) {
                Ok(Some(r)) => r.created_lsn <= lsn,
                Ok(None) => true,
                Err(_) => false,
            }
        }),
        slot < slot_count_of(b) && tombstone_result(b, slot) == Ok::<bool, PageError>(true)
            ==> publish_rel_error(b, slot, lsn) == Some(PageError::SlotTombstoned(slot)),
        slot < slot_count_of(b) ==> (read_rel_result(b, slot) matches Ok(Some(r)) ==> lsn
            < r.created_lsn ==> publish_rel_error(b, slot, lsn) == Some(
            PageError::StalePublish { slot, current: r.created_lsn, incoming: lsn },
        )),
{
    if slot < slot_count_of(b) {
        assert(slot_off(b, slot as int) == slot_off(b, slot as int));
        assert((slot + 1) * 96 <= slot_count_of(b) * 96);
    }
}

} // verus!
