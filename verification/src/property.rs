//! Where a record's properties live.
//!
//! The top bit of a record's `property_ref` tells the two cases apart. Clear:
//! the two inline words are the payload and `property_ref` is zero. Set: the
//! low 63 bits name a blob, 48 bits of page and 15 bits of slot, and the inline
//! words are zero. The record flag `FLAG_HAS_EXTENDED` mirrors the top bit.

use vstd::prelude::*;
use crate::page::{NodeRecord, RelRecord, FLAG_HAS_EXTENDED};

verus! {

/// Top bit of `property_ref`: the payload is a blob.
pub const OVERFLOW_BIT: u64 = 0x8000_0000_0000_0000;

/// Bits of the slot number in a blob reference.
pub const OVERFLOW_SLOT_BITS: u32 = 15;

/// Bits of the page number in a blob reference.
pub const OVERFLOW_PAGE_BITS: u32 = 48;

/// Largest slot number in a blob reference.
pub const OVERFLOW_SLOT_MASK: u64 = 0x7FFF;

/// Largest page number in a blob reference.
pub const OVERFLOW_PAGE_MASK: u64 = 0xFFFF_FFFF_FFFF;

/// Place of a blob.
#[derive(Clone, Copy, Debug, PartialEq, Eq, Structural)]
pub struct BlobRef {
    /// Head page, 48 bits.
    pub page_id: u64,
    /// Slot in the head page, 15 bits; zero for chained blobs.
    pub slot_id: u16,
}

/// A reference whose numbers fit their fields.
pub open spec fn blob_ok(blob: BlobRef) -> bool {
    blob.page_id <= OVERFLOW_PAGE_MASK && blob.slot_id <= OVERFLOW_SLOT_MASK
}

/// The 64 bits of a blob reference: the top bit, then page, then slot.
pub open spec fn blob_bits(blob: BlobRef) -> u64 {
    (OVERFLOW_BIT + (blob.page_id % 0x1_0000_0000_0000) * 0x8000 + blob.slot_id % 0x8000) as u64
}

/// The blob reference that 64 bits hold; none when the top bit is clear.
pub open spec fn blob_of(raw: u64) -> Option<BlobRef> {
    if raw < OVERFLOW_BIT {
        None
    } else {
        Some(
            BlobRef {
                page_id: ((raw - OVERFLOW_BIT) / 0x8000) as u64,
                slot_id: (raw % 0x8000) as u16,
            },
        )
    }
}

/// A reference whose numbers fit is read back from its bits.
pub proof fn law_blob_round_trip(blob: BlobRef)
    requires
        blob_ok(blob),
    ensures
        blob_of(blob_bits(blob)) == Some(blob),
{
}

/// Bits that hold a reference are the bits of that reference.
pub proof fn law_blob_bits_round_trip(raw: u64)
    ensures
        blob_of(raw) matches Some(blob) ==> blob_ok(blob) && blob_bits(blob) == raw,
{
}

impl BlobRef {
    /// Reference to a page and a slot. Bits that a reference has no room for
    /// are cut off.
    pub fn new(page_id: u64, slot_id: u16) -> (blob: BlobRef)
        ensures
            blob.page_id == page_id % 0x1_0000_0000_0000,
            blob.slot_id == slot_id % 0x8000,
            blob_ok(blob),
            blob_of(blob_bits(blob)) == Some(blob),
    {
        BlobRef { page_id: page_id % 0x1_0000_0000_0000, slot_id: slot_id % 0x8000 }
    }

    /// Pack into a `property_ref`.
    pub fn encode(self) -> (raw: u64)
        ensures
            raw == blob_bits(self),
    {
        OVERFLOW_BIT + (self.page_id % 0x1_0000_0000_0000) * 0x8000 + (self.slot_id % 0x8000) as u64
    }

    /// Unpack a `property_ref`; `None` when the top bit is clear.
    pub fn decode(raw: u64) -> (blob: Option<BlobRef>)
        ensures
            blob == blob_of(raw),
    {
        if raw < OVERFLOW_BIT {
            None
        } else {
            Some(
                BlobRef {
                    page_id: (raw - OVERFLOW_BIT) / 0x8000,
                    slot_id: (raw % 0x8000) as u16,
                },
            )
        }
    }
}

/// The inline payload.
#[derive(Clone, Copy, Debug, PartialEq, Eq, Structural)]
pub enum InlineShape {
    /// The two inline words.
    U32Pair(u32, u32),
}

/// What a record's property fields hold.
#[derive(Clone, Copy, Debug, PartialEq, Eq, Structural)]
pub enum PropertyReadout {
    /// The payload is inline.
    Inline(InlineShape),
    /// The payload is a blob.
    Overflow(BlobRef),
}

/// What `property_ref` and the inline words hold together.
pub open spec fn readout(property_ref: u64, a: u32, b: u32) -> PropertyReadout {
    match blob_of(property_ref) {
        Some(blob) => PropertyReadout::Overflow(blob),
        None => PropertyReadout::Inline(InlineShape::U32Pair(a, b)),
    }
}

/// A node record with an inline payload.
pub open spec fn node_with_inline(rec: NodeRecord, a: u32, b: u32) -> NodeRecord {
    NodeRecord {
        property_ref: 0,
        inline_u32a: a,
        inline_u32b: b,
        flags: rec.flags & !FLAG_HAS_EXTENDED,
        ..rec
    }
}

/// A node record with a blob payload.
pub open spec fn node_with_blob(rec: NodeRecord, blob: BlobRef) -> NodeRecord {
    NodeRecord {
        property_ref: blob_bits(blob),
        inline_u32a: 0,
        inline_u32b: 0,
        flags: rec.flags | FLAG_HAS_EXTENDED,
        ..rec
    }
}

/// A relationship record with an inline payload.
pub open spec fn rel_with_inline(rec: RelRecord, a: u32, b: u32) -> RelRecord {
    RelRecord {
        property_ref: 0,
        inline_u32a: a,
        inline_u32b: b,
        flags: rec.flags & !FLAG_HAS_EXTENDED,
        ..rec
    }
}

/// A relationship record with a blob payload.
pub open spec fn rel_with_blob(rec: RelRecord, blob: BlobRef) -> RelRecord {
    RelRecord {
        property_ref: blob_bits(blob),
        inline_u32a: 0,
        inline_u32b: 0,
        flags: rec.flags | FLAG_HAS_EXTENDED,
        ..rec
    }
}

/// The record flag says what the top bit of `property_ref` says.
pub open spec fn coherent(flags: u32, property_ref: u64) -> bool {
    (flags & FLAG_HAS_EXTENDED != 0) <==> property_ref >= OVERFLOW_BIT
}

/// Whatever a node record held, the payload written last is the one read, and
/// the flag mirrors the top bit.
pub proof fn law_node_payload(rec: NodeRecord, a: u32, b: u32, blob: BlobRef)
    ensures
        ({
            let r = node_with_inline(rec, a, b);
            &&& readout(r.property_ref, r.inline_u32a, r.inline_u32b) == PropertyReadout::Inline(
                InlineShape::U32Pair(a, b),
            )
            &&& coherent(r.flags, r.property_ref)
        }),
        ({
            let r = node_with_blob(rec, blob);
            &&& blob_ok(blob) ==> readout(r.property_ref, r.inline_u32a, r.inline_u32b)
                == PropertyReadout::Overflow(blob)
            &&& coherent(r.flags, r.property_ref)
        }),
{
    lemma_flag(rec.flags);
}

/// Whatever a relationship record held, the payload written last is the one
/// read, and the flag mirrors the top bit.
pub proof fn law_rel_payload(rec: RelRecord, a: u32, b: u32, blob: BlobRef)
    ensures
        ({
            let r = rel_with_inline(rec, a, b);
            &&& readout(r.property_ref, r.inline_u32a, r.inline_u32b) == PropertyReadout::Inline(
                InlineShape::U32Pair(a, b),
            )
            &&& coherent(r.flags, r.property_ref)
        }),
        ({
            let r = rel_with_blob(rec, blob);
            &&& blob_ok(blob) ==> readout(r.property_ref, r.inline_u32a, r.inline_u32b)
                == PropertyReadout::Overflow(blob)
            &&& coherent(r.flags, r.property_ref)
        }),
{
    lemma_flag(rec.flags);
}

/// Setting and clearing the lowest flag bit.
proof fn lemma_flag(f: u32)
    ensures
        (f & !1u32) & 1u32 == 0,
        (f | 1u32) & 1u32 != 0,
{
    assert((f & !1u32) & 1u32 == 0) by (bit_vector);
    assert((f | 1u32) & 1u32 != 0) by (bit_vector);
}

/// Write an inline payload onto a node record.
pub fn encode_inline_node(shape: InlineShape, rec: &mut NodeRecord)
    ensures
        *final(rec) == node_with_inline(*old(rec), shape->U32Pair_0, shape->U32Pair_1),
{
    let InlineShape::U32Pair(a, b) = shape;
    rec.property_ref = 0;
    rec.inline_u32a = a;
    rec.inline_u32b = b;
    rec.flags = rec.flags & !FLAG_HAS_EXTENDED;
}

/// Write a blob reference onto a node record.
pub fn encode_overflow_node(blob: BlobRef, rec: &mut NodeRecord)
    ensures
        *final(rec) == node_with_blob(*old(rec), blob),
{
    rec.property_ref = blob.encode();
    rec.inline_u32a = 0;
    rec.inline_u32b = 0;
    rec.flags = rec.flags | FLAG_HAS_EXTENDED;
}

/// Read the payload of a node record.
pub fn decode_node(rec: &NodeRecord) -> (r: PropertyReadout)
    ensures
        r == readout(rec.property_ref, rec.inline_u32a, rec.inline_u32b),
{
    match BlobRef::decode(rec.property_ref) {
        Some(blob) => PropertyReadout::Overflow(blob),
        None => PropertyReadout::Inline(InlineShape::U32Pair(rec.inline_u32a, rec.inline_u32b)),
    }
}

/// Write an inline payload onto a relationship record.
pub fn encode_inline_rel(shape: InlineShape, rec: &mut RelRecord)
    ensures
        *final(rec) == rel_with_inline(*old(rec), shape->U32Pair_0, shape->U32Pair_1),
{
    let InlineShape::U32Pair(a, b) = shape;
    rec.property_ref = 0;
    rec.inline_u32a = a;
    rec.inline_u32b = b;
    rec.flags = rec.flags & !FLAG_HAS_EXTENDED;
}

/// Write a blob reference onto a relationship record.
pub fn encode_overflow_rel(blob: BlobRef, rec: &mut RelRecord)
    ensures
        *final(rec) == rel_with_blob(*old(rec), blob),
{
    rec.property_ref = blob.encode();
    rec.inline_u32a = 0;
    rec.inline_u32b = 0;
    rec.flags = rec.flags | FLAG_HAS_EXTENDED;
}

/// Read the payload of a relationship record.
pub fn decode_rel(rec: &RelRecord) -> (r: PropertyReadout)
    ensures
        r == readout(rec.property_ref, rec.inline_u32a, rec.inline_u32b),
{
    match BlobRef::decode(rec.property_ref) {
        Some(blob) => PropertyReadout::Overflow(blob),
        None => PropertyReadout::Inline(InlineShape::U32Pair(rec.inline_u32a, rec.inline_u32b)),
    }
}

/// Where page and slot stand in the bits of a reference, and what the bits of a
/// record say.
pub proof fn law_blob_layout(blob: BlobRef, raw: u64, a: u32, b: u32)
    requires
        blob.page_id < 0x1_0000_0000_0000,
        blob.slot_id < 0x8000,
    ensures
        blob_ok(blob),
        blob_bits(blob) == 0x8000_0000_0000_0000 + blob.page_id * 32768 + blob.slot_id,
        raw < 0x8000_0000_0000_0000 ==> readout(raw, a, b) == PropertyReadout::Inline(
            InlineShape::U32Pair(a, b),
        ),
        readout(blob_bits(blob), a, b) == PropertyReadout::Overflow(blob),
{
    law_blob_round_trip(blob);
}

/// A payload changes the property fields of a node and the flag that mirrors them,
/// and nothing else.
pub proof fn law_node_payload_alone_changes(rec: NodeRecord, a: u32, b: u32, blob: BlobRef)
    ensures
        ({
            let r = node_with_inline(rec, a, b);
            &&& r.property_ref == 0 && r.inline_u32a == a && r.inline_u32b == b
            &&& r.flags & 1 == 0 && r.flags | 1 == rec.flags | 1
            &&& r.id == rec.id && r.label_id == rec.label_id
            &&& r.created_lsn == rec.created_lsn && r.expired_lsn == rec.expired_lsn
        }),
        ({
            let r = node_with_blob(rec, blob);
            &&& r.property_ref == blob_bits(blob) && r.inline_u32a == 0 && r.inline_u32b == 0
            &&& r.flags == rec.flags | 1
            &&& r.id == rec.id && r.label_id == rec.label_id
            &&& r.created_lsn == rec.created_lsn && r.expired_lsn == rec.expired_lsn
        }),
{
    lemma_flag(rec.flags);
    let f = rec.flags;
    assert((f & !1u32) | 1u32 == f | 1u32) by (bit_vector);
}

/// A payload changes the property fields of a relationship and the flag that
/// mirrors them, and nothing else.
pub proof fn law_rel_payload_alone_changes(rec: RelRecord, a: u32, b: u32, blob: BlobRef)
    ensures
        ({
            let r = rel_with_inline(rec, a, b);
            &&& r.property_ref == 0 && r.inline_u32a == a && r.inline_u32b == b
            &&& r.flags & 1 == 0 && r.flags | 1 == rec.flags | 1
            &&& r.id == rec.id && r.type_id == rec.type_id
            &&& r.src_id == rec.src_id && r.dst_id == rec.dst_id
            &&& r.created_lsn == rec.created_lsn && r.expired_lsn == rec.expired_lsn
        }),
        ({
            let r = rel_with_blob(rec, blob);
            &&& r.property_ref == blob_bits(blob) && r.inline_u32a == 0 && r.inline_u32b == 0
            &&& r.flags == rec.flags | 1
            &&& r.id == rec.id && r.type_id == rec.type_id
            &&& r.src_id == rec.src_id && r.dst_id == rec.dst_id
            &&& r.created_lsn == rec.created_lsn && r.expired_lsn == rec.expired_lsn
        }),
{
    lemma_flag(rec.flags);
    let f = rec.flags;
    assert((f & !1u32) | 1u32 == f | 1u32) by (bit_vector);
}

} // verus!
