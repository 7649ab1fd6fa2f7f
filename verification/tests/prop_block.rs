use std::collections::BTreeMap;

use arcgraph_storage::prop_block::{
    compute_block_meta_checksum, compute_overflow_meta_checksum, patch_overflow_tail,
    stamp_block_meta_checksum, OverflowView, PrimaryLookup, PropBlockBuilder, PropBlockEncodeError,
    PropBlockError, PropBlockView, PropValue, ReservedKind,
};
use arcgraph_storage::prop_model::{
    PropTag, BLOCK_HEADER_SIZE, HEADER_ENTRY_SIZE, MAX_INLINE_LEN, MAX_PRIMARY_ENTRIES,
    OVERFLOW_HEADER_SIZE, OVERFLOW_TAIL_SIZE,
};
use arcgraph_storage::property::BlobRef;

/// Encode a bag with no overflow expected; panics if one appears.
fn encode_inline_only(pairs: Vec<(u32, PropValue)>) -> Vec<u8> {
    let mut b = PropBlockBuilder::new();
    for (k, v) in pairs {
        b.put(k, v);
    }
    let enc = b.build().expect("encode");
    assert!(
        enc.overflow_payload().is_none(),
        "unexpected overflow payload"
    );
    enc.into_block_bytes(None).expect("finalize")
}

/// Encode a bag, staging any overflow at a made-up reference.
fn encode_with_overflow(pairs: Vec<(u32, PropValue)>) -> (Vec<u8>, Option<Vec<u8>>) {
    let mut b = PropBlockBuilder::new();
    for (k, v) in pairs {
        b.put(k, v);
    }
    let enc = b.build().expect("encode");
    let overflow = enc.overflow_payload().map(<[u8]>::to_vec);
    let bref = overflow.as_ref().map(|_| BlobRef::new(42, 7));
    let block = enc.into_block_bytes(bref).expect("finalize");
    (block, overflow)
}

/// The whole bag, read through both views.
fn materialize_all(block: &[u8], overflow: Option<&[u8]>) -> BTreeMap<u32, PropValue> {
    let view = PropBlockView::parse(block).expect("parse block");
    let oview = overflow
        .map(|b| OverflowView::parse(b, view.max_primary_key_id()).expect("parse overflow"));
    let mut out = BTreeMap::new();
    for key_id in view.key_ids() {
        match view.get(key_id).expect("get") {
            PrimaryLookup::Found(v) => {
                out.insert(key_id, v.to_owned_value());
            }
            PrimaryLookup::InOverflow { tag, off, len } => {
                let ov = oview.as_ref().expect("locator without overflow payload");
                out.insert(
                    key_id,
                    ov.resolve_locator(tag, off, len)
                        .expect("resolve locator")
                        .to_owned_value(),
                );
            }
            other => panic!("primary key {key_id} resolved to {other:?}"),
        }
    }
    if let Some(ov) = &oview {
        for key_id in ov.key_ids() {
            let v = ov.get(key_id).expect("get").expect("present");
            out.insert(key_id, v.to_owned_value());
        }
    }
    out
}

#[test]
fn empty_block_roundtrips() {
    let block = encode_inline_only(vec![]);
    assert_eq!(block.len(), BLOCK_HEADER_SIZE);
    let view = PropBlockView::parse(&block).expect("parse");
    assert_eq!(view.prop_count(), 0);
    assert!(!view.has_overflow());
    assert_eq!(view.get(1).expect("get"), PrimaryLookup::Absent);
}

#[test]
fn scalar_types_roundtrip() {
    let pairs = vec![
        (1, PropValue::Int(i64::MIN)),
        (2, PropValue::Int(-1)),
        (3, PropValue::Int(i64::MAX)),
        (4, PropValue::Float(2.5f64.to_bits())),
        (5, PropValue::Float((-0.0f64).to_bits())),
        (6, PropValue::Bool(true)),
        (7, PropValue::Bool(false)),
        (8, PropValue::Null),
        (9, PropValue::Str("hello".into())),
        (10, PropValue::Str(String::new())),
    ];
    let block = encode_inline_only(pairs.clone());
    let got = materialize_all(&block, None);
    for (k, v) in pairs {
        assert_eq!(got.get(&k), Some(&v), "key {k}");
    }
}

#[test]
fn nonfinite_floats_normalize_to_null_matching_the_m1_json_bridge() {
    for f in [f64::NAN, f64::INFINITY, f64::NEG_INFINITY] {
        let block = encode_inline_only(vec![(1, PropValue::Float(f.to_bits()))]);
        let got = materialize_all(&block, None);
        assert_eq!(got.get(&1), Some(&PropValue::Null), "float {f}");
    }
}

#[test]
fn boundary_string_lengths_roundtrip() {
    for len in [1usize, 8, 254, 255, 256, 257, 8148, 20_000] {
        let s: String = "x".repeat(len);
        let (block, overflow) = encode_with_overflow(vec![(9, PropValue::Str(s.clone()))]);
        assert_eq!(
            overflow.is_some(),
            len > MAX_INLINE_LEN,
            "overflow presence at len {len}"
        );
        let got = materialize_all(&block, overflow.as_deref());
        assert_eq!(got.get(&9), Some(&PropValue::Str(s)), "len {len}");
    }
}

#[test]
fn nested_opaque_inline_and_overflow_roundtrip() {
    let small_list = br#"[1,2,3]"#.to_vec();
    let big_list = format!("[{}]", "9,".repeat(300)).into_bytes();
    let small_map = br#"{"a":1}"#.to_vec();
    let big_map = format!(r#"{{"k":"{}"}}"#, "v".repeat(400)).into_bytes();
    let pairs = vec![
        (1, PropValue::ListOpaque(small_list.clone())),
        (2, PropValue::ListOpaque(big_list.clone())),
        (3, PropValue::MapOpaque(small_map.clone())),
        (4, PropValue::MapOpaque(big_map.clone())),
    ];
    let (block, overflow) = encode_with_overflow(pairs);
    assert!(overflow.is_some(), "big nested values must spill");
    let got = materialize_all(&block, overflow.as_deref());
    assert_eq!(got.get(&1), Some(&PropValue::ListOpaque(small_list)));
    assert_eq!(got.get(&2), Some(&PropValue::ListOpaque(big_list)));
    assert_eq!(got.get(&3), Some(&PropValue::MapOpaque(small_map)));
    assert_eq!(got.get(&4), Some(&PropValue::MapOpaque(big_map)));
}

#[test]
fn prop_count_boundaries_0_1_64_65_roundtrip() {
    for n in [0usize, 1, 64, 65, 200] {
        let pairs: Vec<(u32, PropValue)> = (0..n)
            .map(|i| (i as u32 * 3 + 1, PropValue::Int(i as i64 - 7)))
            .collect();
        let (block, overflow) = encode_with_overflow(pairs.clone());
        let view = PropBlockView::parse(&block).expect("parse");
        assert_eq!(view.prop_count(), n.min(MAX_PRIMARY_ENTRIES), "n={n}");
        assert_eq!(overflow.is_some(), n > MAX_PRIMARY_ENTRIES, "n={n}");
        let got = materialize_all(&block, overflow.as_deref());
        assert_eq!(got.len(), n, "n={n}");
        for (k, v) in pairs {
            assert_eq!(got.get(&k), Some(&v), "n={n} key {k}");
        }
    }
}

#[test]
fn wide_bag_absent_key_below_primary_max_needs_no_overflow_fetch() {
    let pairs: Vec<(u32, PropValue)> = (0..130)
        .map(|i| (i * 2, PropValue::Int(i64::from(i))))
        .collect();
    let (block, _overflow) = encode_with_overflow(pairs);
    let view = PropBlockView::parse(&block).expect("parse");
    assert_eq!(view.get(1).expect("get"), PrimaryLookup::Absent);
    assert_eq!(
        view.get(1_000_003).expect("get"),
        PrimaryLookup::MaybeInOverflow
    );
}

#[test]
fn reserved_bytes_and_temporal_roundtrip_inline_and_reject_oversize() {
    let pairs = vec![
        (1, PropValue::Bytes(vec![0xAB; 255])),
        (2, PropValue::Temporal(b"2026-07-10T00:00:00Z".to_vec())),
        (3, PropValue::Bytes(Vec::new())),
    ];
    let block = encode_inline_only(pairs.clone());
    let got = materialize_all(&block, None);
    for (k, v) in pairs {
        assert_eq!(got.get(&k), Some(&v), "key {k}");
    }
    let mut b = PropBlockBuilder::new();
    b.put(1, PropValue::Bytes(vec![0u8; 256]));
    assert!(matches!(
        b.build(),
        Err(PropBlockEncodeError::ReservedValueTooLarge { kind: ReservedKind::Bytes, .. })
    ));
}

#[test]
fn duplicate_key_resolves_last_wins() {
    let mut b = PropBlockBuilder::new();
    b.put(5, PropValue::Int(1));
    b.put(5, PropValue::Int(2));
    let block = b
        .build()
        .expect("encode")
        .into_block_bytes(None)
        .expect("finalize");
    let got = materialize_all(&block, None);
    assert_eq!(got.get(&5), Some(&PropValue::Int(2)));
    assert_eq!(got.len(), 1);
}

#[test]
fn overflow_ref_tail_roundtrips_blobref() {
    let (block, overflow) = encode_with_overflow(vec![(1, PropValue::Str("y".repeat(300)))]);
    assert!(overflow.is_some());
    let view = PropBlockView::parse(&block).expect("parse");
    let bref = view.overflow_ref().expect("tail").expect("present");
    assert_eq!(bref.page_id, 42);
    assert_eq!(bref.slot_id, 7);
}

#[test]
fn encode_is_byte_deterministic() {
    let pairs = || {
        vec![
            (7, PropValue::Str("det".into())),
            (1, PropValue::Int(4)),
            (99, PropValue::ListOpaque(br#"[true]"#.to_vec())),
            (3, PropValue::Str("z".repeat(400))),
        ]
    };
    let (a_block, a_of) = encode_with_overflow(pairs());
    let (b_block, b_of) = encode_with_overflow(pairs());
    assert_eq!(a_block, b_block);
    assert_eq!(a_of, b_of);
}

#[test]
fn corrupt_type_tag_rejects_loud() {
    let block = encode_inline_only(vec![(1, PropValue::Int(5))]);
    for bad in [0u8, 11, 0x7F, 0xFF] {
        let mut c = block.clone();
        c[BLOCK_HEADER_SIZE + 4] = bad;
        let err = PropBlockView::parse(&c).expect_err("must reject");
        assert!(
            matches!(err, PropBlockError::Corrupt { ref reason } if reason.message().contains("type_tag")),
            "tag {bad:#04x}: {err:?}"
        );
    }
}

#[test]
fn corrupt_version_rejects_loud() {
    let mut block = encode_inline_only(vec![(1, PropValue::Bool(true))]);
    block[0] = 2;
    assert!(matches!(
        PropBlockView::parse(&block),
        Err(PropBlockError::Corrupt { .. })
    ));
}

#[test]
fn corrupt_offset_and_length_reject_loud() {
    let block = encode_inline_only(vec![(1, PropValue::Str("abcdef".into()))]);
    let mut c = block.clone();
    c[BLOCK_HEADER_SIZE + 6..BLOCK_HEADER_SIZE + 8].copy_from_slice(&u16::MAX.to_le_bytes());
    assert!(matches!(
        PropBlockView::parse(&c),
        Err(PropBlockError::Corrupt { .. })
    ));
    let mut c = block.clone();
    c[BLOCK_HEADER_SIZE + 5] = 255;
    assert!(matches!(
        PropBlockView::parse(&c),
        Err(PropBlockError::Corrupt { .. })
    ));
    let mut b = PropBlockBuilder::new();
    b.put(1, PropValue::Int(1));
    b.put(2, PropValue::Int(2));
    let block2 = b
        .build()
        .expect("encode")
        .into_block_bytes(None)
        .expect("finalize");
    let mut c = block2;
    let e1 = BLOCK_HEADER_SIZE + HEADER_ENTRY_SIZE;
    c[e1..e1 + 4].copy_from_slice(&1u32.to_le_bytes());
    assert!(matches!(
        PropBlockView::parse(&c),
        Err(PropBlockError::Corrupt { .. })
    ));
}

#[test]
fn corrupt_bool_payload_rejects_loud_on_access() {
    let block = encode_inline_only(vec![(1, PropValue::Bool(true))]);
    let mut c = block.clone();
    let view = PropBlockView::parse(&block).expect("parse");
    let (_, _, _, offset) = view.entry(0).expect("entry");
    c[usize::from(offset)] = 3;
    let cview = PropBlockView::parse(&c).expect("structural parse still passes");
    assert!(matches!(cview.get(1), Err(PropBlockError::Corrupt { .. })));
}

#[test]
fn corrupt_utf8_rejects_loud_on_access() {
    let block = encode_inline_only(vec![(1, PropValue::Str("ab".into()))]);
    let view = PropBlockView::parse(&block).expect("parse");
    let (_, _, _, offset) = view.entry(0).expect("entry");
    let mut c = block.clone();
    c[usize::from(offset)] = 0xFF;
    let cview = PropBlockView::parse(&c).expect("structural parse still passes");
    assert!(matches!(cview.get(1), Err(PropBlockError::Corrupt { .. })));
}

#[test]
fn corrupt_overflow_magic_and_pads_reject_loud() {
    let (_, overflow) =
        encode_with_overflow((0..70).map(|i| (i, PropValue::Int(i64::from(i)))).collect());
    let overflow = overflow.expect("wide bag has overflow");
    let mut c = overflow.clone();
    c[0] = 0x00;
    assert!(matches!(
        OverflowView::parse(&c, None),
        Err(PropBlockError::Corrupt { .. })
    ));
    let mut c = overflow.clone();
    c[OVERFLOW_HEADER_SIZE + 5] = 1;
    let recomputed = compute_overflow_meta_checksum(&c);
    c[4..8].copy_from_slice(&recomputed.to_le_bytes());
    let err = OverflowView::parse(&c, None).expect_err("pad byte must reject");
    assert!(
        matches!(err, PropBlockError::Corrupt { ref reason } if reason.message().contains("pad")),
        "{err:?}"
    );
    let mut c = overflow.clone();
    c[4] ^= 0xFF;
    assert!(matches!(
        OverflowView::parse(&c, None),
        Err(PropBlockError::Corrupt { .. })
    ));
}

#[test]
fn locator_without_overflow_tail_rejects_loud() {
    let (block, _) = encode_with_overflow(vec![(1, PropValue::Str("q".repeat(300)))]);
    let mut c = block.clone();
    c[2..4].copy_from_slice(&0u16.to_le_bytes());
    c.truncate(c.len() - OVERFLOW_TAIL_SIZE);
    assert!(matches!(
        PropBlockView::parse(&c),
        Err(PropBlockError::Corrupt { .. })
    ));
}

#[test]
fn a_mixed_bag_is_read_back_whole() {
    for n in [3usize, 64, 66, 150] {
        let mut pairs = Vec::new();
        for i in 0..n {
            let value = match i % 8 {
                0 => PropValue::Int(i as i64 * -31),
                1 => PropValue::Float((i as f64 / 3.0).to_bits()),
                2 => PropValue::Bool(i % 3 == 0),
                3 => PropValue::Null,
                4 => PropValue::Str("ä".repeat(i)),
                5 => PropValue::Str("s".repeat(250 + i)),
                6 => PropValue::ListOpaque(vec![i as u8; 240 + i]),
                _ => PropValue::MapOpaque(vec![i as u8; i]),
            };
            pairs.push((i as u32 * 7 + 2, value));
        }
        let (block, overflow) = encode_with_overflow(pairs.clone());
        let got = materialize_all(&block, overflow.as_deref());
        assert_eq!(got, pairs.into_iter().collect::<BTreeMap<u32, PropValue>>());
    }
}

#[test]
fn the_order_of_the_puts_does_not_matter() {
    let pairs: Vec<(u32, PropValue)> = (0..90).map(|i| (i * 5, PropValue::Int(i as i64))).collect();
    let mut back = pairs.clone();
    back.reverse();
    assert_eq!(encode_with_overflow(pairs), encode_with_overflow(back));
}

#[test]
fn a_damaged_block_never_panics() {
    let (block, overflow) = encode_with_overflow(
        (0..70)
            .map(|i| (i, if i % 2 == 0 { PropValue::Int(1) } else { PropValue::Str("t".repeat(300)) }))
            .collect(),
    );
    let overflow = overflow.unwrap();
    for at in (0..block.len()).step_by(3) {
        for mask in [0x01u8, 0x80, 0xFF] {
            let mut c = block.clone();
            c[at] ^= mask;
            if let Ok(view) = PropBlockView::parse(&c) {
                for key in view.key_ids() {
                    let _ = view.get(key);
                }
                let _ = view.overflow_ref();
            }
        }
    }
    for at in (0..overflow.len()).step_by(7) {
        let mut c = overflow.clone();
        c[at] ^= 0xFF;
        if let Ok(view) = OverflowView::parse(&c, None) {
            for key in view.key_ids() {
                let _ = view.get(key);
            }
            let _ = view.resolve_locator(PropTag::StrRef, 0, 20);
        }
    }
    for n in 0..block.len() {
        let _ = PropBlockView::parse(&block[..n]);
    }
    for n in 0..overflow.len().min(600) {
        assert!(OverflowView::parse(&overflow[..n], None).is_err());
    }
}

#[test]
fn the_tail_may_be_written_later() {
    let mut b = PropBlockBuilder::new();
    b.put(1, PropValue::Str("y".repeat(300)));
    let enc = b.build().unwrap();
    let mut block = enc.into_block_bytes_deferred().unwrap();
    patch_overflow_tail(&mut block, BlobRef::new(9, 4)).unwrap();
    let view = PropBlockView::parse(&block).unwrap();
    assert_eq!(view.overflow_ref().unwrap(), Some(BlobRef::new(9, 4)));
    let mut plain = encode_inline_only(vec![(1, PropValue::Int(1))]);
    assert!(matches!(
        patch_overflow_tail(&mut plain, BlobRef::new(9, 4)),
        Err(PropBlockEncodeError::LayoutOverflow { .. })
    ));
}

#[test]
fn a_reference_and_an_overflow_go_together() {
    let mut b = PropBlockBuilder::new();
    b.put(1, PropValue::Int(1));
    assert!(matches!(
        b.build().unwrap().into_block_bytes(Some(BlobRef::new(1, 1))),
        Err(PropBlockEncodeError::LayoutOverflow { .. })
    ));
    let mut b = PropBlockBuilder::new();
    b.put(1, PropValue::Str("y".repeat(300)));
    assert!(matches!(
        b.build().unwrap().into_block_bytes(None),
        Err(PropBlockEncodeError::LayoutOverflow { .. })
    ));
}

#[test]
fn the_checksum_of_a_block_is_over_its_directory() {
    let mut block = encode_inline_only(vec![(1, PropValue::Int(5)), (9, PropValue::Bool(true))]);
    let stored = u32::from_le_bytes([block[4], block[5], block[6], block[7]]);
    assert_eq!(stored, compute_block_meta_checksum(&block));
    assert_ne!(stored, 0);
    block[BLOCK_HEADER_SIZE] ^= 0x10;
    assert_ne!(compute_block_meta_checksum(&block), stored);
    assert!(PropBlockView::parse(&block).is_err());
    block[BLOCK_HEADER_SIZE] ^= 0x10;
    block[4] ^= 0xFF;
    stamp_block_meta_checksum(&mut block);
    assert!(PropBlockView::parse(&block).is_ok());
}

#[test]
fn a_builder_counts_its_keys() {
    let mut b = PropBlockBuilder::new();
    assert!(b.is_empty());
    b.put(3, PropValue::Null).put(4, PropValue::Null).put(3, PropValue::Int(1));
    assert_eq!(b.len(), 2);
}

#[test]
fn parsing_does_not_read_the_values() {
    let block = encode_inline_only(vec![
        (1, PropValue::Str("abc".to_string())),
        (2, PropValue::Bool(true)),
        (3, PropValue::Int(7)),
    ]);
    let data = BLOCK_HEADER_SIZE + 3 * HEADER_ENTRY_SIZE;
    for at in data..block.len() {
        let mut c = block.clone();
        c[at] = 0xFF;
        assert!(PropBlockView::parse(&c).is_ok());
    }
    let mut c = block.clone();
    c[data] = 0xFF;
    let view = PropBlockView::parse(&c).unwrap();
    assert!(view.get(1).is_err());
    assert!(matches!(view.get(2), Ok(PrimaryLookup::Found(_))));
    for at in 0..data {
        let mut c = block.clone();
        c[at] ^= 0x04;
        assert!(PropBlockView::parse(&c).is_err());
    }
}

#[test]
fn every_flipped_bit_of_the_metadata_is_noticed() {
    let wide: Vec<(u32, PropValue)> =
        (0..70).map(|i| (3 * i, if i % 5 == 0 { PropValue::Null } else { PropValue::Int(i as i64) })).collect();
    let (block, overflow) = encode_with_overflow(wide);
    let nulls = encode_inline_only(vec![(1, PropValue::Null), (2, PropValue::Null)]);
    let small = encode_inline_only(vec![(7, PropValue::Bool(true)), (9, PropValue::Str("ab".to_string()))]);
    let empty = encode_inline_only(Vec::new());
    for good in [block, nulls, small, empty] {
        let head = BLOCK_HEADER_SIZE + HEADER_ENTRY_SIZE * good[1] as usize;
        let tail = if good[2] == 1 { good.len() - OVERFLOW_TAIL_SIZE } else { good.len() };
        for at in (0..head).chain(tail..good.len()) {
            for bit in 0..8 {
                let mut bad = good.clone();
                bad[at] ^= 1 << bit;
                assert!(
                    matches!(PropBlockView::parse(&bad), Err(PropBlockError::Corrupt { .. })),
                    "byte {at}, bit {bit}"
                );
            }
        }
    }
    let payload = overflow.unwrap();
    for bit in 0..8 {
        for at in 4..8 {
            let mut bad = payload.clone();
            bad[at] ^= 1 << bit;
            assert!(OverflowView::parse(&bad, None).is_err());
        }
    }
}
