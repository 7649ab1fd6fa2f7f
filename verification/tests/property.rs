use arcgraph_storage::ids::{LabelId, Lsn, NodeId, RelId, TypeId};
use arcgraph_storage::page::{NodeRecord, RelRecord, FLAG_HAS_EXTENDED};
use arcgraph_storage::property::{
    decode_node, decode_rel, encode_inline_node, encode_inline_rel, encode_overflow_node,
    encode_overflow_rel, BlobRef, InlineShape, PropertyReadout, OVERFLOW_BIT, OVERFLOW_PAGE_MASK,
    OVERFLOW_SLOT_BITS, OVERFLOW_SLOT_MASK,
};

fn fresh_node() -> NodeRecord {
    NodeRecord::new(NodeId::new(1), LabelId::new(0), Lsn::new(1))
}

fn fresh_rel() -> RelRecord {
    RelRecord::new(
        RelId::new(1),
        TypeId::new(0),
        NodeId::new(2),
        NodeId::new(3),
        Lsn::new(1),
    )
}

#[test]
fn overflow_bit_is_top_bit() {
    assert_eq!(OVERFLOW_BIT, 0x8000_0000_0000_0000);
}

#[test]
fn slot_and_page_masks_are_disjoint() {
    let shifted_page = OVERFLOW_PAGE_MASK << OVERFLOW_SLOT_BITS;
    assert_eq!(shifted_page & OVERFLOW_SLOT_MASK, 0);
    assert_eq!(shifted_page & OVERFLOW_BIT, 0);
}

#[test]
fn inline_encode_decode_node_roundtrip() {
    let mut rec = fresh_node();
    encode_inline_node(InlineShape::U32Pair(11, 22), &mut rec);
    assert_eq!(rec.property_ref, 0);
    assert_eq!(rec.inline_u32a, 11);
    assert_eq!(rec.inline_u32b, 22);
    assert_eq!(rec.flags & FLAG_HAS_EXTENDED, 0);
    match decode_node(&rec) {
        PropertyReadout::Inline(InlineShape::U32Pair(a, b)) => {
            assert_eq!((a, b), (11, 22));
        }
        other => panic!("expected inline, got {other:?}"),
    }
}

#[test]
fn inline_encode_decode_rel_roundtrip() {
    let mut rec = fresh_rel();
    encode_inline_rel(InlineShape::U32Pair(0xDEAD_BEEF, 0xCAFE_F00D), &mut rec);
    assert_eq!(rec.property_ref, 0);
    match decode_rel(&rec) {
        PropertyReadout::Inline(InlineShape::U32Pair(a, b)) => {
            assert_eq!((a, b), (0xDEAD_BEEF, 0xCAFE_F00D));
        }
        other => panic!("expected inline, got {other:?}"),
    }
}

#[test]
fn transition_from_empty_to_inline_sets_discriminator_bit_0() {
    let mut rec = fresh_node();
    assert_eq!(rec.property_ref & OVERFLOW_BIT, 0);
    encode_inline_node(InlineShape::U32Pair(1, 2), &mut rec);
    assert_eq!(rec.property_ref & OVERFLOW_BIT, 0);
}

#[test]
fn blob_ref_encode_decode_roundtrip() {
    let blob = BlobRef::new(0x1234_5678_9ABC, 0x3FFF);
    let raw = blob.encode();
    assert_eq!(raw & OVERFLOW_BIT, OVERFLOW_BIT);
    let back = BlobRef::decode(raw).unwrap();
    assert_eq!(back, blob);
}

#[test]
fn blob_ref_decode_rejects_inline() {
    assert!(BlobRef::decode(0).is_none());
    assert!(BlobRef::decode(0x7FFF_FFFF_FFFF_FFFF).is_none());
}

#[test]
fn overflow_encode_decode_node_roundtrip() {
    let mut rec = fresh_node();
    let blob = BlobRef::new(0xABCD, 7);
    encode_overflow_node(blob, &mut rec);
    assert!(rec.property_ref & OVERFLOW_BIT != 0);
    assert_eq!(rec.inline_u32a, 0);
    assert_eq!(rec.inline_u32b, 0);
    assert_ne!(rec.flags & FLAG_HAS_EXTENDED, 0);
    match decode_node(&rec) {
        PropertyReadout::Overflow(b) => assert_eq!(b, blob),
        other => panic!("expected overflow, got {other:?}"),
    }
}

#[test]
fn overflow_encode_decode_rel_roundtrip() {
    let mut rec = fresh_rel();
    let blob = BlobRef::new(42, 3);
    encode_overflow_rel(blob, &mut rec);
    match decode_rel(&rec) {
        PropertyReadout::Overflow(b) => assert_eq!(b, blob),
        other => panic!("expected overflow, got {other:?}"),
    }
}

#[test]
fn overflow_bit_and_has_extended_flag_are_coherent() {
    let mut rec = fresh_node();
    encode_overflow_node(BlobRef::new(1, 0), &mut rec);
    let overflow_set = rec.property_ref & OVERFLOW_BIT != 0;
    let extended_set = rec.flags & FLAG_HAS_EXTENDED != 0;
    assert_eq!(overflow_set, extended_set);

    encode_inline_node(InlineShape::U32Pair(5, 6), &mut rec);
    let overflow_set = rec.property_ref & OVERFLOW_BIT != 0;
    let extended_set = rec.flags & FLAG_HAS_EXTENDED != 0;
    assert_eq!(overflow_set, extended_set);
    assert!(!overflow_set);
}

#[test]
fn a_reference_keeps_its_widest_parts() {
    for (page, slot) in [(0, 0), (1, 1), (OVERFLOW_PAGE_MASK, OVERFLOW_SLOT_MASK as u16)] {
        let blob = BlobRef::new(page, slot);
        assert_eq!(BlobRef::decode(blob.encode()), Some(blob));
    }
    assert_eq!(BlobRef::new(5, 3).encode(), OVERFLOW_BIT | (5 << OVERFLOW_SLOT_BITS) | 3);
}

#[test]
fn a_blob_reference_is_cut_to_its_width() {
    let blob = BlobRef::new(1 << 48, 0x8000);
    assert_eq!(blob, BlobRef { page_id: 0, slot_id: 0 });
    assert_eq!(blob.encode(), OVERFLOW_BIT);
    let blob = BlobRef::new((1 << 48) + 7, 0x8003);
    assert_eq!(blob, BlobRef { page_id: 7, slot_id: 3 });
    assert_eq!(BlobRef::decode(blob.encode()), Some(blob));
    assert_eq!(BlobRef::new(u64::MAX, u16::MAX).page_id, OVERFLOW_PAGE_MASK);
    assert_eq!(BlobRef::new(u64::MAX, u16::MAX).slot_id, 0x7FFF);
}
