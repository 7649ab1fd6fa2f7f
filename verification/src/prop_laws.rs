//! What the property block codec promises as a whole: a bag that was encoded
//! reads back as the same bag.

use vstd::prelude::*;
use vstd::utf8::{encode_utf8_decode_utf8, encode_utf8_valid_utf8};
use crate::checksum::{
    crc32c_of, crc32c_update, law_checksum_carries_on, law_one_byte_changes_the_checksum,
};
use crate::codec::{
    group_codec, le16, le32, le64, lemma_u16_at_same, lemma_u16_read_back, lemma_u32_at_same,
    lemma_u32_bytes_same, lemma_u32_read_back, lemma_u64_read_back, splice, u16_at, u32_at, u64_at,
};
use crate::prop_block::{build_error, with_tail};
use crate::prop_model::{
    align4, ascending, block_bytes, block_check, block_result, data_end, dir_check, entries_bytes,
    entry_at, entry_count, entry_key, entry_len, entry_off, entry_payload, entry_result,
    entry_sweep, entry_tag, extent_result, extra_fault, extra_of, extra_off, extra_values,
    first_oversize, has_tail, is_locator, layout_fault, locator_result, min_int, miss_result, normal, normal_bag,
    overflow_base, overflow_bytes, overflow_result, overflows, oversize, payload_off,
    payload_result, place, primary_of, region, spill_fault, spill_off, spilled, spills, stamped,
    stored_len, stored_payload, stored_payloads, stored_tag, tag_byte, tag_of, tail_result,
    value_bytes, value_result, value_tag, xentries_bytes, xentry_at, xentry_count, xentry_key,
    xentry_len, xentry_off, xentry_result, xentry_step, xentry_sweep, xentry_tag, xlen_ok, Bag,
    BlockFault, LookupView, PropTag, ValueView, BLOCK_HEADER_SIZE, FLAG_HAS_OVERFLOW,
    HEADER_ENTRY_SIZE, MAX_PRIMARY_ENTRIES, OVERFLOW_MAGIC, OVERFLOW_TAIL_SIZE, PROP_BLOCK_VERSION, XENTRY_SIZE,
};
use crate::property::{blob_bits, blob_ok, law_blob_round_trip, BlobRef};

verus! {

broadcast use group_codec;

// ---- regions --------------------------------------------------------------

/// A region starts with the region of each shorter run of payloads.
proof fn lemma_region_prefix(at: int, ps: Seq<Seq<u8>>, i: int)
    requires
        0 <= i <= ps.len(),
    ensures
        region(at, ps.take(i)).len() <= region(at, ps).len(),
        forall|k: int|
            #![trigger region(at, ps)[k]]
            0 <= k < region(at, ps.take(i)).len() ==> region(at, ps)[k] == region(at, ps.take(i))[k],
    decreases ps.len() - i,
{
    if i == ps.len() {
        assert(ps.take(i) =~= ps);
    } else {
        lemma_region_prefix(at, ps, i + 1);
        assert(ps.take(i + 1).drop_last() =~= ps.take(i));
        let a = region(at, ps.take(i));
        let b = region(at, ps.take(i + 1));
        assert forall|k: int| #![trigger region(at, ps)[k]] 0 <= k < a.len() implies region(at, ps)[k]
            == a[k] by {
            assert(b[k] == a[k]);
        }
    }
}

/// Each payload stands in the region where it was placed.
proof fn lemma_region_at(at: int, ps: Seq<Seq<u8>>, i: int)
    requires
        0 <= at,
        0 <= i < ps.len(),
        ps[i].len() > 0,
    ensures
        at + region(at, ps.take(i)).len() <= place(at, ps.take(i), ps[i]),
        place(at, ps.take(i), ps[i]) + ps[i].len() == at + region(at, ps.take(i + 1)).len(),
        at + region(at, ps.take(i + 1)).len() <= at + region(at, ps).len(),
        region(at, ps).subrange(
            place(at, ps.take(i), ps[i]) - at,
            place(at, ps.take(i), ps[i]) - at + ps[i].len(),
        ) == ps[i],
{
    assert(ps.take(i + 1).drop_last() =~= ps.take(i));
    lemma_region_prefix(at, ps, i + 1);
    let off = place(at, ps.take(i), ps[i]) - at;
    let b = region(at, ps.take(i + 1));
    assert forall|k: int| 0 <= k < ps[i].len() implies region(at, ps)[off + k] == ps[i][k] by {
        assert(b[off + k] == ps[i][k]);
    }
    assert(region(at, ps).subrange(off, off + ps[i].len()) =~= ps[i]);
}

/// An empty payload adds nothing.
proof fn lemma_region_skip(at: int, ps: Seq<Seq<u8>>, i: int)
    requires
        0 <= i < ps.len(),
        ps[i].len() == 0,
    ensures
        region(at, ps.take(i + 1)) == region(at, ps.take(i)),
{
    assert(ps.take(i + 1).drop_last() =~= ps.take(i));
}

// ---- values ---------------------------------------------------------------

/// Casting to an unsigned number and back.
proof fn lemma_cast(i: i64)
    ensures
        (i as u64) as i64 == i,
{
    assert((i as u64) as i64 == i) by (bit_vector);
}

/// The bytes of a value, under its own tag, are the value.
pub proof fn law_value_round_trip(v: ValueView)
    ensures
        value_result(value_tag(v), value_bytes(v)) == Ok::<ValueView, BlockFault>(v),
{
    match v {
        ValueView::Int(i) => {
            lemma_u64_read_back(le64(i as u64), 0, i as u64);
            lemma_cast(i);
        },
        ValueView::Float(bits) => {
            lemma_u64_read_back(le64(bits), 0, bits);
        },
        ValueView::Str(s) => {
            encode_utf8_valid_utf8(s);
            encode_utf8_decode_utf8(s);
        },
        _ => {},
    }
}

/// Every tag is read back from its byte.
proof fn lemma_tag(t: PropTag)
    ensures
        tag_of(tag_byte(t)) == Some(t),
{
}

/// What an entry of the block says, given its payload.
proof fn lemma_payload(v: ValueView, off: u32)
    requires
        !oversize(v),
        value_bytes(v).len() <= u32::MAX,
    ensures
        !spills(v) ==> {
            &&& payload_result(stored_tag(v), stored_len(v), value_bytes(v)) == Ok::<
                LookupView,
                BlockFault,
            >(LookupView::Found(v))
            &&& extent_result(stored_tag(v), stored_len(v)) == Ok::<int, BlockFault>(
                value_bytes(v).len() as int,
            )
            &&& !is_locator(stored_tag(v), stored_len(v))
        },
        spills(v) ==> {
            &&& payload_result(
                stored_tag(v),
                stored_len(v),
                le32(off) + le32(value_bytes(v).len() as u32),
            ) == Ok::<LookupView, BlockFault>(
                LookupView::InOverflow {
                    tag: value_tag(v),
                    off,
                    len: value_bytes(v).len() as u32,
                },
            )
            &&& extent_result(stored_tag(v), stored_len(v)) == Ok::<int, BlockFault>(8)
            &&& is_locator(stored_tag(v), stored_len(v))
        },
{
    law_value_round_trip(v);
    let len = value_bytes(v).len() as u32;
    let p = le32(off) + le32(len);
    assert forall|k: int| 0 <= k < 4 implies #[trigger] p[0 + k] == le32(off)[k] by {}
    lemma_u32_read_back(p, 0, off);
    assert forall|k: int| 0 <= k < 4 implies #[trigger] p[4 + k] == le32(len)[k] by {}
    lemma_u32_read_back(p, 4, len);
}

// ---- the block ------------------------------------------------------------

/// The bytes of one entry.
pub open spec fn entry_cell(primary: Bag, x: int, i: int) -> Seq<u8> {
    let v = primary[i].1;
    le32(primary[i].0) + seq![tag_byte(stored_tag(v)), stored_len(v)] + le16(
        payload_off(primary, x, i) as u16,
    )
}

/// The entries, one cell after another.
proof fn lemma_entries(primary: Bag, x: int, k: int)
    requires
        0 <= k,
    ensures
        entries_bytes(primary, x, k).len() == HEADER_ENTRY_SIZE * k,
        forall|i: int, c: int|
            #![trigger entry_cell(primary, x, i)[c]]
            0 <= i < k && 0 <= c < 8 ==> entries_bytes(primary, x, k)[8 * i + c] == entry_cell(
                primary,
                x,
                i,
            )[c],
    decreases k,
{
    if k > 0 {
        lemma_entries(primary, x, k - 1);
        let a = entries_bytes(primary, x, k - 1);
        let b = entries_bytes(primary, x, k);
        assert(b =~= a + entry_cell(primary, x, k - 1));
        assert forall|i: int, c: int|
            #![trigger entry_cell(primary, x, i)[c]]
            0 <= i < k && 0 <= c < 8 implies b[8 * i + c] == entry_cell(primary, x, i)[c] by {
            if i < k - 1 {
                assert(a[8 * i + c] == entry_cell(primary, x, i)[c]);
            }
        }
    }
}

/// A cell holds its key, tag, length and offset.
proof fn lemma_cell_fields(b: Seq<u8>, at: int, primary: Bag, x: int, i: int)
    requires
        forall|c: int| 0 <= c < 8 ==> #[trigger] b[at + c] == entry_cell(primary, x, i)[c],
    ensures
        u32_at(b, at) == primary[i].0,
        b[at + 4] == tag_byte(stored_tag(primary[i].1)),
        b[at + 5] == stored_len(primary[i].1),
        u16_at(b, at + 6) == payload_off(primary, x, i) as u16,
{
    let cell = entry_cell(primary, x, i);
    assert forall|k: int| 0 <= k < 4 implies #[trigger] b[at + k] == le32(primary[i].0)[k] by {
        assert(b[at + k] == cell[k]);
    }
    lemma_u32_read_back(b, at, primary[i].0);
    assert(b[at + 4] == cell[4]);
    assert(b[at + 5] == cell[5]);
    assert forall|k: int| 0 <= k < 2 implies #[trigger] b[at + 6 + k] == le16(
        payload_off(primary, x, i) as u16,
    )[k] by {
        assert(b[at + (6 + k)] == cell[6 + k]);
    }
    lemma_u16_read_back(b, at + 6, payload_off(primary, x, i) as u16);
}

/// The block before its checksum is set.
pub open spec fn raw_block(bag: Bag, tail: u64) -> Seq<u8> {
    let primary = primary_of(bag);
    let n = primary.len() as int;
    let x = extra_of(bag).len() as int;
    seq![PROP_BLOCK_VERSION, n as u8] + le16(
        if overflows(bag) {
            FLAG_HAS_OVERFLOW
        } else {
            0
        },
    ) + seq![0u8, 0, 0, 0] + entries_bytes(primary, x, n) + region(
        entry_at(n),
        stored_payloads(primary, x, n),
    ) + if overflows(bag) {
        le64(tail)
    } else {
        seq![]
    }
}

/// The parts of a block.
proof fn lemma_block_parts(bag: Bag, tail: u64)
    ensures
        ({
            let b = block_bytes(bag, tail);
            let raw = raw_block(bag, tail);
            let primary = primary_of(bag);
            let n = primary.len() as int;
            let x = extra_of(bag).len() as int;
            let data = region(entry_at(n), stored_payloads(primary, x, n));
            &&& b == stamped(raw)
            &&& b.len() == raw.len()
            &&& n <= 64
            &&& b[0] == PROP_BLOCK_VERSION
            &&& b[1] == n
            &&& u16_at(b, 2) == if overflows(bag) {
                FLAG_HAS_OVERFLOW
            } else {
                0
            }
            &&& data_end(b) == entry_at(n) + data.len()
            &&& forall|i: int, c: int|
                #![trigger entry_cell(primary, x, i)[c]]
                0 <= i < n && 0 <= c < 8 ==> b[entry_at(i) + c] == entry_cell(primary, x, i)[c]
            &&& forall|k: int|
                #![trigger data[k]]
                0 <= k < data.len() ==> b[entry_at(n) + k] == data[k]
            &&& overflows(bag) ==> u64_at(b, data_end(b)) == tail
            &&& u32_at(b, 4) == block_check(b)
        }),
{
    let b = block_bytes(bag, tail);
    let raw = raw_block(bag, tail);
    let primary = primary_of(bag);
    let n = primary.len() as int;
    let x = extra_of(bag).len() as int;
    let data = region(entry_at(n), stored_payloads(primary, x, n));
    let flags: u16 = if overflows(bag) {
        FLAG_HAS_OVERFLOW
    } else {
        0
    };
    lemma_entries(primary, x, n);
    assert(b == stamped(raw));
    assert forall|k: int| 0 <= k < 2 implies #[trigger] b[2 + k] == le16(flags)[k] by {}
    lemma_u16_read_back(b, 2, flags);
    assert forall|i: int, c: int|
        #![trigger entry_cell(primary, x, i)[c]]
        0 <= i < n && 0 <= c < 8 implies b[entry_at(i) + c] == entry_cell(primary, x, i)[c] by {
        assert(entries_bytes(primary, x, n)[8 * i + c] == entry_cell(primary, x, i)[c]);
        assert(raw[8 + (8 * i + c)] == entries_bytes(primary, x, n)[8 * i + c]);
    }
    assert forall|k: int| #![trigger data[k]] 0 <= k < data.len() implies b[entry_at(n) + k]
        == data[k] by {
        assert(raw[8 + 8 * n + k] == data[k]);
    }
    if overflows(bag) {
        let at = data_end(b);
        assert forall|k: int| 0 <= k < 8 implies #[trigger] b[at + k] == le64(tail)[k] by {
            assert(raw[at + k] == le64(tail)[k]);
        }
        lemma_u64_read_back(b, at, tail);
    }
    assert(raw[2] == le16(flags)[0]);
    assert(le16(0)[0] == 0) by {
        reveal(le16);
    }
    lemma_stamped_check(raw);
}

/// A stamped block carries the checksum it should carry.
proof fn lemma_stamped_check(raw: Seq<u8>)
    requires
        raw.len() >= BLOCK_HEADER_SIZE,
        raw[2] % 2 == 1 ==> raw.len() >= BLOCK_HEADER_SIZE + OVERFLOW_TAIL_SIZE,
    ensures
        u32_at(stamped(raw), 4) == block_check(stamped(raw)),
        block_check(stamped(raw)) == block_check(raw),
{
    let b = stamped(raw);
    let end = min_int(BLOCK_HEADER_SIZE + HEADER_ENTRY_SIZE * raw[1], raw.len() as int);
    assert(b.subrange(0, 4) =~= raw.subrange(0, 4));
    assert(b.subrange(8, end) =~= raw.subrange(8, end));
    if raw[2] % 2 == 1 {
        assert(b.subrange(b.len() - 8, b.len() as int) =~= raw.subrange(
            raw.len() - 8,
            raw.len() as int,
        ));
    }
}

/// The payloads of a block stay within the reach of its offsets.
proof fn lemma_payload_bounds(primary: Bag, x: int, k: int)
    requires
        0 <= k <= primary.len() <= 64,
        first_oversize(primary, primary.len() as int) is None,
    ensures
        region(entry_at(primary.len() as int), stored_payloads(primary, x, k)).len() <= 258 * k,
        forall|i: int|
            #![trigger stored_payload(primary, x, i)]
            0 <= i < primary.len() ==> stored_payload(primary, x, i).len() <= 255,
    decreases k,
{
    assert forall|i: int| #![trigger stored_payload(primary, x, i)] 0 <= i < primary.len() implies
        stored_payload(primary, x, i).len() <= 255 by {
        lemma_no_oversize(primary, i, primary.len() as int);
    }
    if k > 0 {
        lemma_payload_bounds(primary, x, k - 1);
        assert(stored_payloads(primary, x, k).drop_last() =~= stored_payloads(primary, x, k - 1));
        assert(stored_payloads(primary, x, k).last() == stored_payload(primary, x, k - 1));
    }
}

/// No oversize value among the first `k`.
proof fn lemma_no_oversize(primary: Bag, i: int, k: int)
    requires
        0 <= i < k <= primary.len(),
        first_oversize(primary, k) is None,
    ensures
        !oversize(primary[i].1),
        !spills(primary[i].1) ==> value_bytes(primary[i].1).len() <= 255,
    decreases k - i,
{
    if i + 1 < k {
        lemma_no_oversize(primary, i, k - 1);
    }
}

/// No misplaced value among the first `k` entries.
proof fn lemma_no_spill_fault(primary: Bag, x: int, i: int, k: int)
    requires
        0 <= i < k <= primary.len(),
        spill_fault(primary, x, k) is None,
    ensures
        spills(primary[i].1) ==> spill_off(primary, x, i) <= u32::MAX && value_bytes(
            primary[i].1,
        ).len() <= u32::MAX,
    decreases k - i,
{
    if i + 1 < k {
        lemma_no_spill_fault(primary, x, i, k - 1);
    }
}

/// An encoded bag has a spilled value for each entry with a locator.
proof fn lemma_spilled_some(primary: Bag, i: int)
    requires
        0 <= i < primary.len(),
        spills(primary[i].1),
    ensures
        spilled(primary).len() > 0,
    decreases primary.len(),
{
    if i < primary.len() - 1 {
        lemma_spilled_some(primary.drop_last(), i);
    }
}

/// A bag that can be encoded.
pub open spec fn encodable(bag: Bag) -> bool {
    ascending(bag) && build_error(bag) is None
}

/// What each entry of an encoded block holds.
proof fn lemma_block_entry(bag: Bag, tail: u64, i: int)
    requires
        encodable(bag),
        0 <= i < primary_of(bag).len(),
    ensures
        ({
            let b = block_bytes(bag, tail);
            let primary = primary_of(bag);
            let n = primary.len() as int;
            let x = extra_of(bag).len() as int;
            let v = primary[i].1;
            &&& entry_key(b, i) == primary[i].0
            &&& tag_of(entry_tag(b, i)) == Some(stored_tag(v))
            &&& entry_len(b, i) == stored_len(v)
            &&& entry_off(b, i) == payload_off(primary, x, i)
            &&& extent_result(stored_tag(v), stored_len(v)) == Ok::<int, BlockFault>(
                stored_payload(primary, x, i).len() as int,
            )
            &&& is_locator(stored_tag(v), stored_len(v)) ==> overflows(bag)
        }),
{
    let b = block_bytes(bag, tail);
    let primary = primary_of(bag);
    let n = primary.len() as int;
    let x = extra_of(bag).len() as int;
    let v = primary[i].1;
    lemma_block_parts(bag, tail);
    assert forall|c: int| 0 <= c < 8 implies #[trigger] b[entry_at(i) + c] == entry_cell(
        primary,
        x,
        i,
    )[c] by {}
    lemma_cell_fields(b, entry_at(i), primary, x, i);
    lemma_tag(stored_tag(v));
    lemma_no_oversize(primary, i, n);
    lemma_no_spill_fault(primary, x, i, n);
    lemma_payload_bounds(primary, x, i);
    lemma_payload(v, spill_off(primary, x, i) as u32);
    if spills(v) {
        lemma_spilled_some(primary, i);
    }
}

/// Parsing an encoded block follows its layout.
proof fn lemma_block_sweep(bag: Bag, tail: u64, k: int)
    requires
        encodable(bag),
        0 <= k <= primary_of(bag).len(),
    ensures
        ({
            let primary = primary_of(bag);
            let n = primary.len() as int;
            let x = extra_of(bag).len() as int;
            entry_sweep(block_bytes(bag, tail), k) == Ok::<int, BlockFault>(
                entry_at(n) + region(entry_at(n), stored_payloads(primary, x, k)).len(),
            )
        }),
    decreases k,
{
    let b = block_bytes(bag, tail);
    let primary = primary_of(bag);
    let n = primary.len() as int;
    let x = extra_of(bag).len() as int;
    lemma_block_parts(bag, tail);
    if k == 0 {
        assert(stored_payloads(primary, x, 0).len() == 0);
    } else {
        lemma_block_sweep(bag, tail, k - 1);
        lemma_block_entry(bag, tail, k - 1);
        if k - 1 > 0 {
            lemma_block_entry(bag, tail, k - 2);
            assert(bag[k - 2].0 < bag[k - 1].0);
        }
        let ps = stored_payloads(primary, x, n);
        assert(ps.take(k - 1) =~= stored_payloads(primary, x, k - 1));
        assert(ps.take(k) =~= stored_payloads(primary, x, k));
        assert(ps[k - 1] == stored_payload(primary, x, k - 1));
        if ps[k - 1].len() == 0 {
            lemma_region_skip(entry_at(n), ps, k - 1);
        } else {
            lemma_region_at(entry_at(n), ps, k - 1);
        }
    }
}

/// An encoded block parses; its entries are the first properties of the bag,
/// and each holds its property's value or a locator for it.
pub proof fn law_block_parses(bag: Bag, tail: u64)
    requires
        encodable(bag),
    ensures
        block_result(block_bytes(bag, tail)) is Ok,
        entry_count(block_bytes(bag, tail)) == primary_of(bag).len(),
        has_tail(block_bytes(bag, tail)) == overflows(bag),
        forall|i: int|
            #![trigger entry_key(block_bytes(bag, tail), i)]
            0 <= i < primary_of(bag).len() ==> entry_key(block_bytes(bag, tail), i) == bag[i].0,
        forall|i: int|
            #![trigger entry_result(block_bytes(bag, tail), i)]
            0 <= i < primary_of(bag).len() ==> entry_result(block_bytes(bag, tail), i) == Ok::<
                LookupView,
                BlockFault,
            >(
                if spills(bag[i].1) {
                    LookupView::InOverflow {
                        tag: value_tag(bag[i].1),
                        off: spill_off(primary_of(bag), extra_of(bag).len() as int, i) as u32,
                        len: value_bytes(bag[i].1).len() as u32,
                    }
                } else {
                    LookupView::Found(bag[i].1)
                },
            ),
{
    let b = block_bytes(bag, tail);
    let primary = primary_of(bag);
    let n = primary.len() as int;
    let x = extra_of(bag).len() as int;
    let ps = stored_payloads(primary, x, n);
    let data = region(entry_at(n), ps);
    lemma_block_parts(bag, tail);
    lemma_block_sweep(bag, tail, n);
    assert forall|i: int| #![trigger entry_key(b, i)] 0 <= i < n implies entry_key(b, i) == bag[i].0 by {
        lemma_block_entry(bag, tail, i);
    }
    assert forall|i: int| #![trigger entry_result(b, i)] 0 <= i < n implies entry_result(b, i) == Ok::<
        LookupView,
        BlockFault,
    >(
        if spills(bag[i].1) {
            LookupView::InOverflow {
                tag: value_tag(bag[i].1),
                off: spill_off(primary, x, i) as u32,
                len: value_bytes(bag[i].1).len() as u32,
            }
        } else {
            LookupView::Found(bag[i].1)
        },
    ) by {
        let v = primary[i].1;
        lemma_block_entry(bag, tail, i);
        lemma_no_oversize(primary, i, n);
        lemma_no_spill_fault(primary, x, i, n);
        lemma_payload(v, spill_off(primary, x, i) as u32);
        let p = stored_payload(primary, x, i);
        assert(ps[i] == p);
        assert(ps.take(i) =~= stored_payloads(primary, x, i));
        if p.len() > 0 {
            lemma_region_at(entry_at(n), ps, i);
            let off = payload_off(primary, x, i);
            assert forall|k: int| 0 <= k < p.len() implies b[off + k] == p[k] by {
                assert(data.subrange(off - entry_at(n), off - entry_at(n) + p.len())[k] == p[k]);
                assert(data[off - entry_at(n) + k] == p[k]);
            }
            assert(b.subrange(off, off + p.len()) =~= p);
        }
        assert(entry_payload(b, i) =~= p);
    }
}

// ---- the overflow payload -------------------------------------------------

/// The bytes of one xentry.
pub open spec fn xentry_cell(primary: Bag, extra: Bag, i: int) -> Seq<u8> {
    let v = extra[i].1;
    le32(extra[i].0) + seq![tag_byte(value_tag(v)), 0u8, 0, 0] + le32(
        extra_off(primary, extra, i) as u32,
    ) + le32(value_bytes(v).len() as u32)
}

/// The directory, one cell after another.
proof fn lemma_xentries(primary: Bag, extra: Bag, k: int)
    requires
        0 <= k,
    ensures
        xentries_bytes(primary, extra, k).len() == XENTRY_SIZE * k,
        forall|i: int, c: int|
            #![trigger xentry_cell(primary, extra, i)[c]]
            0 <= i < k && 0 <= c < 16 ==> xentries_bytes(primary, extra, k)[16 * i + c]
                == xentry_cell(primary, extra, i)[c],
    decreases k,
{
    if k > 0 {
        lemma_xentries(primary, extra, k - 1);
        let a = xentries_bytes(primary, extra, k - 1);
        let b = xentries_bytes(primary, extra, k);
        assert(b =~= a + xentry_cell(primary, extra, k - 1));
        assert forall|i: int, c: int|
            #![trigger xentry_cell(primary, extra, i)[c]]
            0 <= i < k && 0 <= c < 16 implies b[16 * i + c] == xentry_cell(primary, extra, i)[c] by {
            if i < k - 1 {
                assert(a[16 * i + c] == xentry_cell(primary, extra, i)[c]);
            }
        }
    }
}

/// A cell holds its key, tag, offset and length.
proof fn lemma_xcell_fields(b: Seq<u8>, at: int, primary: Bag, extra: Bag, i: int)
    requires
        forall|c: int| 0 <= c < 16 ==> #[trigger] b[at + c] == xentry_cell(primary, extra, i)[c],
    ensures
        u32_at(b, at) == extra[i].0,
        b[at + 4] == tag_byte(value_tag(extra[i].1)),
        b[at + 5] == 0,
        b[at + 6] == 0,
        b[at + 7] == 0,
        u32_at(b, at + 8) == extra_off(primary, extra, i) as u32,
        u32_at(b, at + 12) == value_bytes(extra[i].1).len() as u32,
{
    let cell = xentry_cell(primary, extra, i);
    assert forall|k: int| 0 <= k < 4 implies #[trigger] b[at + k] == le32(extra[i].0)[k] by {
        assert(b[at + k] == cell[k]);
    }
    lemma_u32_read_back(b, at, extra[i].0);
    assert(b[at + 4] == cell[4]);
    assert(b[at + 5] == cell[5]);
    assert(b[at + 6] == cell[6]);
    assert(b[at + 7] == cell[7]);
    let off = extra_off(primary, extra, i) as u32;
    let len = value_bytes(extra[i].1).len() as u32;
    assert forall|k: int| 0 <= k < 4 implies #[trigger] b[at + 8 + k] == le32(off)[k] by {
        assert(b[at + (8 + k)] == cell[8 + k]);
    }
    lemma_u32_read_back(b, at + 8, off);
    assert forall|k: int| 0 <= k < 4 implies #[trigger] b[at + 12 + k] == le32(len)[k] by {
        assert(b[at + (12 + k)] == cell[12 + k]);
    }
    lemma_u32_read_back(b, at + 12, len);
}

/// All values of the overflow payload, in order.
pub open spec fn overflow_values(bag: Bag) -> Seq<Seq<u8>> {
    spilled(primary_of(bag)) + extra_values(extra_of(bag))
}

/// The parts of an overflow payload.
proof fn lemma_overflow_parts(bag: Bag)
    requires
        extra_of(bag).len() <= u16::MAX,
    ensures
        ({
            let b = overflow_bytes(bag);
            let primary = primary_of(bag);
            let extra = extra_of(bag);
            let x = extra.len() as int;
            let data = region(overflow_base(x), overflow_values(bag));
            &&& u16_at(b, 0) == OVERFLOW_MAGIC
            &&& xentry_count(b) == x
            &&& b.len() == overflow_base(x) + data.len()
            &&& forall|i: int, c: int|
                #![trigger xentry_cell(primary, extra, i)[c]]
                0 <= i < x && 0 <= c < 16 ==> b[xentry_at(i) + c] == xentry_cell(
                    primary,
                    extra,
                    i,
                )[c]
            &&& forall|k: int|
                #![trigger data[k]]
                0 <= k < data.len() ==> b[overflow_base(x) + k] == data[k]
            &&& u32_at(b, 4) == dir_check(b)
        }),
{
    let b = overflow_bytes(bag);
    let primary = primary_of(bag);
    let extra = extra_of(bag);
    let x = extra.len() as int;
    let data = region(overflow_base(x), overflow_values(bag));
    let dir = xentries_bytes(primary, extra, x);
    let head = le16(OVERFLOW_MAGIC) + le16(x as u16);
    let crc = crc32c_update(crc32c_of(head), dir);
    lemma_xentries(primary, extra, x);
    assert(b == head + le32(crc) + dir + data);
    assert forall|k: int| 0 <= k < 2 implies #[trigger] b[0 + k] == le16(OVERFLOW_MAGIC)[k] by {}
    lemma_u16_read_back(b, 0, OVERFLOW_MAGIC);
    assert forall|k: int| 0 <= k < 2 implies #[trigger] b[2 + k] == le16(x as u16)[k] by {}
    lemma_u16_read_back(b, 2, x as u16);
    assert forall|k: int| 0 <= k < 4 implies #[trigger] b[4 + k] == le32(crc)[k] by {}
    lemma_u32_read_back(b, 4, crc);
    assert(b.subrange(0, 4) =~= head);
    assert(b.subrange(8, overflow_base(x)) =~= dir);
    assert forall|i: int, c: int|
        #![trigger xentry_cell(primary, extra, i)[c]]
        0 <= i < x && 0 <= c < 16 implies b[xentry_at(i) + c] == xentry_cell(primary, extra, i)[c] by {
        assert(dir[16 * i + c] == xentry_cell(primary, extra, i)[c]);
        assert(b[8 + (16 * i + c)] == dir[16 * i + c]);
    }
    assert forall|k: int| #![trigger data[k]] 0 <= k < data.len() implies b[overflow_base(x) + k]
        == data[k] by {
        assert(b[8 + 16 * x + k] == data[k]);
    }
}

/// No misplaced value among the first `k` xentries.
proof fn lemma_no_extra_fault(primary: Bag, extra: Bag, i: int, k: int)
    requires
        0 <= i < k <= extra.len(),
        extra_fault(primary, extra, k) is None,
    ensures
        extra_off(primary, extra, i) <= u32::MAX,
        value_bytes(extra[i].1).len() <= u32::MAX,
    decreases k - i,
{
    if i + 1 < k {
        lemma_no_extra_fault(primary, extra, i, k - 1);
    }
}

/// What each xentry of an encoded payload holds.
proof fn lemma_overflow_xentry(bag: Bag, i: int)
    requires
        encodable(bag),
        0 <= i < extra_of(bag).len(),
    ensures
        ({
            let b = overflow_bytes(bag);
            let primary = primary_of(bag);
            let extra = extra_of(bag);
            let v = extra[i].1;
            &&& xentry_key(b, i) == extra[i].0
            &&& tag_of(xentry_tag(b, i)) == Some(value_tag(v))
            &&& b[xentry_at(i) + 5] == 0
            &&& b[xentry_at(i) + 6] == 0
            &&& b[xentry_at(i) + 7] == 0
            &&& xentry_off(b, i) == extra_off(primary, extra, i)
            &&& xentry_len(b, i) == value_bytes(v).len()
            &&& xlen_ok(value_tag(v), xentry_len(b, i))
            &&& value_tag(v) !is StrRef
        }),
{
    let b = overflow_bytes(bag);
    let primary = primary_of(bag);
    let extra = extra_of(bag);
    lemma_overflow_parts(bag);
    assert forall|c: int| 0 <= c < 16 implies #[trigger] b[xentry_at(i) + c] == xentry_cell(
        primary,
        extra,
        i,
    )[c] by {}
    lemma_xcell_fields(b, xentry_at(i), primary, extra, i);
    lemma_tag(value_tag(extra[i].1));
    lemma_no_extra_fault(primary, extra, i, extra.len() as int);
}

/// Where the values of the spilled entries and of the first `k` xentries end.
pub open spec fn values_end(bag: Bag, k: int) -> int {
    overflow_base(extra_of(bag).len() as int) + region(
        overflow_base(extra_of(bag).len() as int),
        overflow_values(bag).take(spilled(primary_of(bag)).len() + k),
    ).len()
}

/// The value of xentry `i` among all values.
proof fn lemma_extra_value(bag: Bag, i: int)
    requires
        0 <= i < extra_of(bag).len(),
    ensures
        ({
            let s = spilled(primary_of(bag)).len() as int;
            &&& overflow_values(bag)[s + i] == value_bytes(extra_of(bag)[i].1)
            &&& overflow_values(bag).take(s + i) == spilled(primary_of(bag)) + extra_values(
                extra_of(bag),
            ).take(i)
            &&& extra_off(primary_of(bag), extra_of(bag), i) == place(
                overflow_base(extra_of(bag).len() as int),
                overflow_values(bag).take(s + i),
                overflow_values(bag)[s + i],
            )
        }),
{
    let s = spilled(primary_of(bag)).len() as int;
    assert(overflow_values(bag).take(s + i) =~= spilled(primary_of(bag)) + extra_values(
        extra_of(bag),
    ).take(i));
}

/// The values end with the payload.
proof fn lemma_values_full(bag: Bag)
    ensures
        values_end(bag, extra_of(bag).len() as int) == overflow_base(extra_of(bag).len() as int)
            + region(overflow_base(extra_of(bag).len() as int), overflow_values(bag)).len(),
{
    let s = spilled(primary_of(bag)).len() as int;
    assert(overflow_values(bag).take(s + extra_of(bag).len()) =~= overflow_values(bag));
}

/// Where the value of xentry `i` starts and ends.
proof fn lemma_values_step(bag: Bag, i: int)
    requires
        0 <= i < extra_of(bag).len(),
    ensures
        ({
            let len = value_bytes(extra_of(bag)[i].1).len();
            let off = extra_off(primary_of(bag), extra_of(bag), i);
            &&& len == 0 ==> off == 0 && values_end(bag, i + 1) == values_end(bag, i)
            &&& len > 0 ==> {
                &&& off == align4(values_end(bag, i))
                &&& off % 4 == 0
                &&& off >= overflow_base(extra_of(bag).len() as int)
                &&& off + len == values_end(bag, i + 1)
                &&& values_end(bag, i + 1) <= values_end(bag, extra_of(bag).len() as int)
            }
        }),
{
    let s = spilled(primary_of(bag)).len() as int;
    let x = extra_of(bag).len() as int;
    let at = overflow_base(x);
    let vs = overflow_values(bag);
    lemma_extra_value(bag, i);
    let e0 = values_end(bag, i);
    let e1 = values_end(bag, i + 1);
    assert(s + (i + 1) == (s + i) + 1);
    if vs[s + i].len() == 0 {
        lemma_region_skip(at, vs, s + i);
    } else {
        lemma_region_at(at, vs, s + i);
        lemma_align4(e0);
        lemma_values_full(bag);
    }
}

/// What rounding up to a multiple of four yields.
proof fn lemma_align4(n: int)
    requires
        0 <= n,
    ensures
        align4(n) % 4 == 0,
        n <= align4(n) < n + 4,
{
}

/// The keys of the xentries ascend, past the block's.
proof fn lemma_extra_keys(bag: Bag, primary_max: Option<u32>, i: int)
    requires
        ascending(bag),
        0 <= i < extra_of(bag).len(),
        primary_max is Some ==> primary_max->0 < extra_of(bag)[0].0,
    ensures
        i > 0 ==> extra_of(bag)[i - 1].0 < extra_of(bag)[i].0,
        primary_max is Some ==> primary_max->0 < extra_of(bag)[i].0,
{
    let extra = extra_of(bag);
    assert(extra[0] == bag[64]);
    assert(extra[i] == bag[64 + i]);
    if i > 0 {
        assert(extra[i - 1] == bag[64 + (i - 1)]);
        assert(bag[64 + (i - 1)].0 < bag[64 + i].0);
        assert(bag[64].0 < bag[64 + i].0);
    }
}

/// Checking xentry `i` of an encoded payload.
proof fn lemma_overflow_step(bag: Bag, primary_max: Option<u32>, i: int, prev: Option<int>)
    requires
        encodable(bag),
        0 <= i < extra_of(bag).len(),
        primary_max is Some ==> primary_max->0 < extra_of(bag)[0].0,
        prev is Some ==> prev->0 == values_end(bag, i),
    ensures
        xentry_step(overflow_bytes(bag), primary_max, i, prev) == Ok::<Option<int>, BlockFault>(
            if value_bytes(extra_of(bag)[i].1).len() == 0 {
                prev
            } else {
                Some(values_end(bag, i + 1))
            },
        ),
{
    let b = overflow_bytes(bag);
    lemma_overflow_parts(bag);
    lemma_overflow_xentry(bag, i);
    lemma_values_step(bag, i);
    lemma_extra_keys(bag, primary_max, i);
    lemma_values_full(bag);
    if i > 0 {
        lemma_overflow_xentry(bag, i - 1);
    }
}

/// Parsing an encoded overflow payload follows its layout.
proof fn lemma_overflow_sweep(bag: Bag, primary_max: Option<u32>, k: int)
    requires
        encodable(bag),
        0 <= k <= extra_of(bag).len(),
        primary_max is Some && extra_of(bag).len() > 0 ==> primary_max->0 < extra_of(bag)[0].0,
    ensures
        match xentry_sweep(overflow_bytes(bag), primary_max, k) {
            Ok(Some(end)) => end == values_end(bag, k),
            Ok(None) => true,
            Err(_) => false,
        },
    decreases k,
{
    if k > 0 {
        lemma_overflow_sweep(bag, primary_max, k - 1);
        let prev = xentry_sweep(overflow_bytes(bag), primary_max, k - 1)->Ok_0;
        lemma_overflow_step(bag, primary_max, k - 1, prev);
        lemma_values_step(bag, k - 1);
    }
}

/// An encoded overflow payload parses against any bound that its xentries'
/// keys exceed; its xentries are the remaining properties of the bag, each with
/// its value.
pub proof fn law_overflow_parses(bag: Bag, primary_max: Option<u32>)
    requires
        encodable(bag),
        primary_max is Some && extra_of(bag).len() > 0 ==> primary_max->0 < extra_of(bag)[0].0,
    ensures
        overflow_result(overflow_bytes(bag), primary_max) is Ok,
        xentry_count(overflow_bytes(bag)) == extra_of(bag).len(),
        forall|i: int|
            #![trigger xentry_key(overflow_bytes(bag), i)]
            0 <= i < extra_of(bag).len() ==> xentry_key(overflow_bytes(bag), i) == extra_of(
                bag,
            )[i].0,
        forall|i: int|
            #![trigger xentry_result(overflow_bytes(bag), i)]
            0 <= i < extra_of(bag).len() ==> xentry_result(overflow_bytes(bag), i) == Ok::<
                ValueView,
                BlockFault,
            >(extra_of(bag)[i].1),
{
    let b = overflow_bytes(bag);
    let primary = primary_of(bag);
    let extra = extra_of(bag);
    let x = extra.len() as int;
    let s = spilled(primary).len() as int;
    let at = overflow_base(x);
    let vs = overflow_values(bag);
    let data = region(at, vs);
    lemma_overflow_parts(bag);
    lemma_overflow_sweep(bag, primary_max, x);
    lemma_values_full(bag);
    assert forall|i: int| #![trigger xentry_key(b, i)] 0 <= i < x implies xentry_key(b, i)
        == extra[i].0 by {
        lemma_overflow_xentry(bag, i);
    }
    assert forall|i: int| #![trigger xentry_result(b, i)] 0 <= i < x implies xentry_result(b, i)
        == Ok::<ValueView, BlockFault>(extra[i].1) by {
        lemma_overflow_xentry(bag, i);
        lemma_extra_value(bag, i);
        let p = vs[s + i];
        let off = extra_off(primary, extra, i);
        if p.len() > 0 {
            lemma_region_at(at, vs, s + i);
            assert forall|k: int| 0 <= k < p.len() implies b[off + k] == p[k] by {
                assert(data.subrange(off - at, off - at + p.len())[k] == p[k]);
                assert(data[off - at + k] == p[k]);
            }
        }
        assert(b.subrange(off, off + p.len()) =~= p);
        law_value_round_trip(extra[i].1);
    }
}

/// Where the value of a spilled entry stands among all spilled values.
proof fn lemma_spilled_at(primary: Bag, i: int, k: int)
    requires
        0 <= i < k <= primary.len(),
        spills(primary[i].1),
    ensures
        ({
            let r = spilled(primary.take(i)).len() as int;
            &&& r < spilled(primary.take(k)).len()
            &&& spilled(primary.take(k))[r] == value_bytes(primary[i].1)
            &&& spilled(primary.take(k)).take(r) == spilled(primary.take(i))
        }),
    decreases k - i,
{
    assert(primary.take(k).drop_last() =~= primary.take(k - 1));
    if i + 1 < k {
        lemma_spilled_at(primary, i, k - 1);
        let r = spilled(primary.take(i)).len() as int;
        assert(spilled(primary.take(k)).take(r) =~= spilled(primary.take(k - 1)).take(r));
    } else {
        let r = spilled(primary.take(i)).len() as int;
        assert(spilled(primary.take(k)).take(r) =~= spilled(primary.take(i)));
    }
}

/// The locator of a spilled entry leads to its value.
pub proof fn law_locator_resolves(bag: Bag, i: int)
    requires
        encodable(bag),
        0 <= i < primary_of(bag).len(),
        spills(bag[i].1),
    ensures
        locator_result(
            overflow_bytes(bag),
            value_tag(bag[i].1),
            spill_off(primary_of(bag), extra_of(bag).len() as int, i) as u32,
            value_bytes(bag[i].1).len() as u32,
        ) == Ok::<ValueView, BlockFault>(bag[i].1),
{
    let b = overflow_bytes(bag);
    let primary = primary_of(bag);
    let extra = extra_of(bag);
    let x = extra.len() as int;
    let n = primary.len() as int;
    let at = overflow_base(x);
    let vs = overflow_values(bag);
    let data = region(at, vs);
    let v = primary[i].1;
    let p = value_bytes(v);
    let off = spill_off(primary, x, i);
    lemma_overflow_parts(bag);
    lemma_no_spill_fault(primary, x, i, n);
    law_value_round_trip(v);
    lemma_spilled_at(primary, i, n);
    assert(primary.take(n) =~= primary);
    let r = spilled(primary.take(i)).len() as int;
    assert(vs[r] == p);
    assert(vs.take(r) =~= spilled(primary.take(i)));
    if p.len() == 0 {
        assert(p =~= seq![]);
    } else {
        lemma_region_at(at, vs, r);
        assert forall|k: int| 0 <= k < p.len() implies b[off + k] == p[k] by {
            assert(data.subrange(off - at, off - at + p.len())[k] == p[k]);
            assert(data[off - at + k] == p[k]);
        }
        assert(b.subrange(off, off + p.len()) =~= p);
    }
}

/// The length of a value that spills is that of its locator.
pub proof fn lemma_spill_len(bag: Bag, i: int)
    requires
        encodable(bag),
        0 <= i < primary_of(bag).len(),
    ensures
        spills(bag[i].1) ==> value_bytes(bag[i].1).len() <= u32::MAX,
{
    let primary = primary_of(bag);
    lemma_no_spill_fault(primary, extra_of(bag).len() as int, i, primary.len() as int);
}

/// A payload ends inside the region that holds it.
proof fn lemma_place_fits(at: int, ps: Seq<Seq<u8>>, i: int)
    requires
        0 <= at,
        0 <= i < ps.len(),
    ensures
        ps[i].len() > 0 ==> place(at, ps.take(i), ps[i]) + ps[i].len() <= at + region(
            at,
            ps,
        ).len(),
        ps[i].len() == 0 ==> place(at, ps.take(i), ps[i]) == 0,
{
    lemma_region_prefix(at, ps, i + 1);
    assert(ps.take(i + 1).drop_last() =~= ps.take(i));
    assert(ps.take(i + 1).last() == ps[i]);
}

/// A bag whose overflow payload stays within 32 bits can be laid out.
pub proof fn lemma_layout_fits(bag: Bag)
    requires
        bag.len() <= 64 + 65535,
        overflow_bytes(bag).len() <= u32::MAX,
    ensures
        layout_fault(bag) is None,
{
    let primary = primary_of(bag);
    let extra = extra_of(bag);
    let x = extra.len() as int;
    let at = overflow_base(x);
    let all = spilled(primary) + extra_values(extra);
    lemma_xentries(primary, extra, x);
    assert(overflow_bytes(bag).len() == at + region(at, all).len());
    assert(all.take(spilled(primary).len() as int) =~= spilled(primary));
    lemma_spills_fit(primary, all, x, primary.len() as int);
    lemma_extras_fit(primary, extra, x);
}

proof fn lemma_spills_fit(primary: Bag, all: Seq<Seq<u8>>, x: int, k: int)
    requires
        0 <= k <= primary.len(),
        0 <= x,
        spilled(primary).len() <= all.len(),
        all.take(spilled(primary).len() as int) == spilled(primary),
        overflow_base(x) + region(overflow_base(x), all).len() <= u32::MAX,
    ensures
        spill_fault(primary, x, k) is None,
    decreases k,
{
    if k > 0 {
        lemma_spills_fit(primary, all, x, k - 1);
        let i = k - 1;
        if spills(primary[i].1) {
            lemma_spilled_at(primary, i, primary.len() as int);
            assert(primary.take(primary.len() as int) =~= primary);
            let r = spilled(primary.take(i)).len() as int;
            assert(all[r] == all.take(spilled(primary).len() as int)[r]);
            assert(all.take(r) =~= spilled(primary).take(r));
            lemma_place_fits(overflow_base(x), all, r);
        }
    }
}

proof fn lemma_extras_fit(primary: Bag, extra: Bag, k: int)
    requires
        0 <= k <= extra.len(),
        overflow_base(extra.len() as int) + region(
            overflow_base(extra.len() as int),
            spilled(primary) + extra_values(extra),
        ).len() <= u32::MAX,
    ensures
        extra_fault(primary, extra, k) is None,
    decreases k,
{
    if k > 0 {
        lemma_extras_fit(primary, extra, k - 1);
        let all = spilled(primary) + extra_values(extra);
        let r = spilled(primary).len() + k - 1;
        assert(all.take(r) =~= spilled(primary) + extra_values(extra).take(k - 1));
        assert(all[r] == value_bytes(extra[k - 1].1));
        lemma_place_fits(overflow_base(extra.len() as int), all, r);
    }
}

// ---- the bag --------------------------------------------------------------

/// What a reader finds under a key in a block and its overflow payload.
pub open spec fn read_property(block: Seq<u8>, overflow: Seq<u8>, key: u32) -> Result<
    Option<ValueView>,
    BlockFault,
> {
    if exists|i: int| 0 <= i < entry_count(block) && #[trigger] entry_key(block, i) == key {
        let i = choose|i: int| 0 <= i < entry_count(block) && #[trigger] entry_key(block, i) == key;
        match entry_result(block, i) {
            Err(e) => Err(e),
            Ok(LookupView::Found(v)) => Ok(Some(v)),
            Ok(LookupView::InOverflow { tag, off, len }) => match locator_result(
                overflow,
                tag,
                off,
                len,
            ) {
                Err(e) => Err(e),
                Ok(v) => Ok(Some(v)),
            },
            Ok(_) => Ok(None),
        }
    } else if miss_result(block, key) is Absent {
        Ok(None)
    } else if exists|i: int| 0 <= i < xentry_count(overflow) && #[trigger] xentry_key(overflow, i)
        == key {
        let i = choose|i: int|
            0 <= i < xentry_count(overflow) && #[trigger] xentry_key(overflow, i) == key;
        match xentry_result(overflow, i) {
            Err(e) => Err(e),
            Ok(v) => Ok(Some(v)),
        }
    } else {
        Ok(None)
    }
}

/// A bag that was encoded reads back as the same bag: each of its keys yields
/// its value, and no other key yields any.
pub proof fn law_bag_round_trip(bag: Bag, tail: u64, key: u32)
    requires
        encodable(bag),
    ensures
        forall|j: int|
            #![trigger bag[j]]
            0 <= j < bag.len() && bag[j].0 == key ==> read_property(
                block_bytes(bag, tail),
                overflow_bytes(bag),
                key,
            ) == Ok::<Option<ValueView>, BlockFault>(Some(bag[j].1)),
        (forall|j: int| #![trigger bag[j]] 0 <= j < bag.len() ==> bag[j].0 != key)
            ==> read_property(block_bytes(bag, tail), overflow_bytes(bag), key) == Ok::<
            Option<ValueView>,
            BlockFault,
        >(None),
{
    let b = block_bytes(bag, tail);
    let o = overflow_bytes(bag);
    let primary = primary_of(bag);
    let extra = extra_of(bag);
    let n = primary.len() as int;
    let x = extra.len() as int;
    law_block_parses(bag, tail);
    law_overflow_parses(bag, None);
    if exists|i: int| 0 <= i < n && #[trigger] entry_key(b, i) == key {
        let i = choose|i: int| 0 <= i < n && #[trigger] entry_key(b, i) == key;
        assert(bag[i].0 == key);
        if spills(bag[i].1) {
            law_locator_resolves(bag, i);
        }
        assert forall|j: int| #![trigger bag[j]] 0 <= j < bag.len() && bag[j].0 == key implies j
            == i by {
            if j < i {
                assert(bag[j].0 < bag[i].0);
            } else if i < j {
                assert(bag[i].0 < bag[j].0);
            }
        }
        assert(entry_result(b, i) == entry_result(b, i));
    } else {
        assert forall|j: int| #![trigger bag[j]] 0 <= j < bag.len() && bag[j].0 == key implies j
            >= n by {
            if j < n {
                assert(entry_key(b, j) == bag[j].0);
            }
        }
        if exists|j: int| n <= j < bag.len() && #[trigger] bag[j].0 == key {
            let j = choose|j: int| n <= j < bag.len() && #[trigger] bag[j].0 == key;
            assert(n == 64);
            assert(extra[j - 64] == bag[j]);
            assert(entry_key(b, n - 1) == bag[n - 1].0);
            assert(bag[n - 1].0 < bag[j].0);
            assert(xentry_key(o, j - 64) == key);
            let i = choose|i: int| 0 <= i < xentry_count(o) && #[trigger] xentry_key(o, i) == key;
            assert(extra[i] == bag[64 + i]);
            if 64 + i < j {
                assert(bag[64 + i].0 < bag[j].0);
            } else if j < 64 + i {
                assert(bag[j].0 < bag[64 + i].0);
            }
            assert(xentry_result(o, i) == xentry_result(o, i));
            assert forall|k: int| #![trigger bag[k]] 0 <= k < bag.len() && bag[k].0 == key implies k
                == j by {
                if k < j {
                    assert(bag[k].0 < bag[j].0);
                } else if j < k {
                    assert(bag[j].0 < bag[k].0);
                }
            }
        } else {
            assert forall|i: int| 0 <= i < xentry_count(o) implies #[trigger] xentry_key(o, i)
                != key by {
                assert(extra[i] == bag[64 + i]);
            }
        }
    }
}

/// What was put into a builder is read back from what it builds: each key
/// yields the value it was given last, in its stored form, and no other key
/// yields any.
pub proof fn law_built_bag_reads_back(put: Bag, tail: u64, key: u32)
    requires
        ascending(put),
        build_error(normal_bag(put)) is None,
    ensures
        ({
            let bag = normal_bag(put);
            let read = read_property(block_bytes(bag, tail), overflow_bytes(bag), key);
            &&& forall|v: ValueView| #[trigger]
                put.contains((key, v)) ==> read == Ok::<Option<ValueView>, BlockFault>(
                    Some(normal(v)),
                )
            &&& (forall|v: ValueView| !#[trigger] put.contains((key, v))) ==> read == Ok::<
                Option<ValueView>,
                BlockFault,
            >(None)
        }),
{
    let bag = normal_bag(put);
    assert forall|i: int, j: int|
        #![trigger bag[i], bag[j]]
        0 <= i < j < bag.len() implies bag[i].0 < bag[j].0 by {
        assert(put[i].0 < put[j].0);
    }
    law_bag_round_trip(bag, tail, key);
    let read = read_property(block_bytes(bag, tail), overflow_bytes(bag), key);
    assert forall|v: ValueView| #[trigger] put.contains((key, v)) implies read == Ok::<
        Option<ValueView>,
        BlockFault,
    >(Some(normal(v))) by {
        let j = choose|j: int| 0 <= j < put.len() && put[j] == (key, v);
        assert(bag[j] == (key, normal(v)));
    }
    if forall|v: ValueView| !#[trigger] put.contains((key, v)) {
        assert forall|j: int| #![trigger bag[j]] 0 <= j < bag.len() implies bag[j].0 != key by {
            assert(bag[j].0 == put[j].0);
            assert(put.contains(put[j]));
            if put[j].0 == key {
                assert(put.contains((key, put[j].1)));
            }
        }
    }
}

/// Builders that hold the same properties build the same bytes, in whatever
/// order the properties were put in.
pub proof fn law_order_of_puts(a: Bag, b: Bag)
    requires
        ascending(a) && ascending(b),
        forall|k: u32, v: ValueView| #[trigger] a.contains((k, v)) <==> b.contains((k, v)),
    ensures
        a == b,
    decreases a.len() + b.len(),
{
    if a.len() == 0 || b.len() == 0 {
        if a.len() > 0 {
            assert(a.contains((a[0].0, a[0].1)));
        }
        if b.len() > 0 {
            assert(b.contains((b[0].0, b[0].1)));
            assert(a.contains((b[0].0, b[0].1)));
        }
        assert(a =~= b);
    } else {
        let x = a.last();
        let y = b.last();
        assert(a.contains((x.0, x.1))) by {
            assert(a[a.len() - 1] == (x.0, x.1));
        }
        assert(b.contains((x.0, x.1)));
        assert(b.contains((y.0, y.1))) by {
            assert(b[b.len() - 1] == (y.0, y.1));
        }
        assert(a.contains((y.0, y.1)));
        let i = choose|i: int| 0 <= i < b.len() && b[i] == x;
        let j = choose|j: int| 0 <= j < a.len() && a[j] == y;
        if i < b.len() - 1 {
            assert(b[i].0 < b[b.len() - 1].0);
            if j < a.len() - 1 {
                assert(a[j].0 < a[a.len() - 1].0);
            }
            assert(false);
        }
        assert(x == y);
        let c = a.drop_last();
        let d = b.drop_last();
        assert forall|k: u32, v: ValueView| #[trigger] c.contains((k, v)) <==> d.contains((k, v)) by {
            lemma_without_last(a, k, v);
            lemma_without_last(b, k, v);
            assert(a.contains((k, v)) <==> b.contains((k, v)));
        }
        assert(ascending(c)) by {
            assert forall|p: int, q: int| #![trigger c[p], c[q]] 0 <= p < q < c.len() implies c[p].0
                < c[q].0 by {
                assert(a[p].0 < a[q].0);
            }
        }
        assert(ascending(d)) by {
            assert forall|p: int, q: int| #![trigger d[p], d[q]] 0 <= p < q < d.len() implies d[p].0
                < d[q].0 by {
                assert(b[p].0 < b[q].0);
            }
        }
        law_order_of_puts(c, d);
        assert(a =~= c.push(x) && b =~= d.push(x));
    }
}

proof fn lemma_without_last(a: Bag, k: u32, v: ValueView)
    requires
        ascending(a),
        a.len() > 0,
    ensures
        a.drop_last().contains((k, v)) <==> a.contains((k, v)) && (k, v) != a.last(),
{
    let c = a.drop_last();
    if c.contains((k, v)) {
        let i = choose|i: int| 0 <= i < c.len() && c[i] == (k, v);
        assert(a[i] == (k, v));
        assert(a[i].0 < a[a.len() - 1].0);
    }
    if a.contains((k, v)) && (k, v) != a.last() {
        let i = choose|i: int| 0 <= i < a.len() && a[i] == (k, v);
        assert(c[i] == (k, v));
    }
}

/// The keys of an encoded overflow payload are past those of its block.
pub proof fn law_directories_partition(bag: Bag, tail: u64)
    requires
        encodable(bag),
        primary_of(bag).len() > 0,
    ensures
        overflow_result(
            overflow_bytes(bag),
            Some(entry_key(block_bytes(bag, tail), primary_of(bag).len() - 1)),
        ) is Ok,
{
    law_block_parses(bag, tail);
    let n = primary_of(bag).len() as int;
    assert(entry_key(block_bytes(bag, tail), n - 1) == bag[n - 1].0);
    if extra_of(bag).len() > 0 {
        assert(extra_of(bag)[0] == bag[64]);
        assert(bag[63].0 < bag[64].0);
    }
    law_overflow_parses(bag, Some(bag[n - 1].0));
}

/// Setting the tail of an encoded block yields the block with that tail, and
/// the reference set is the one read.
pub proof fn law_tail(bag: Bag, blob: BlobRef)
    requires
        encodable(bag),
        overflows(bag),
        blob_ok(blob),
    ensures
        with_tail(block_bytes(bag, 0), blob_bits(blob)) == block_bytes(bag, blob_bits(blob)),
        tail_result(block_bytes(bag, blob_bits(blob))) == Ok::<Option<BlobRef>, BlockFault>(
            Some(blob),
        ),
{
    let t = blob_bits(blob);
    let a = block_bytes(bag, 0);
    let ra = raw_block(bag, 0);
    let rb = raw_block(bag, t);
    lemma_block_parts(bag, 0);
    lemma_block_parts(bag, t);
    law_block_parses(bag, t);
    law_blob_round_trip(blob);
    let s = splice(a, a.len() - 8, le64(t));
    // `s` and `rb` differ in the checksum field alone, which neither the
    // checksum nor the stamp reads.
    assert(ra.len() == rb.len());
    assert forall|i: int| 0 <= i < rb.len() && !(4 <= i < 8) implies s[i] == rb[i] by {
        if i < rb.len() - 8 {
            assert(ra[i] == rb[i]);
        }
    }
    lemma_stamp_same(s, rb);
}

/// Whether a block parses does not depend on the bytes of its values: the
/// header, the directory and, where there is one, the tail decide.
pub proof fn law_parsing_skips_values(a: Seq<u8>, b: Seq<u8>)
    requires
        a.len() == b.len(),
        forall|i: int|
            #![trigger a[i]]
            #![trigger b[i]]
            0 <= i < a.len() && (i < BLOCK_HEADER_SIZE || i < entry_at(entry_count(a)) || (has_tail(
                a,
            ) && i >= a.len() - OVERFLOW_TAIL_SIZE)) ==> a[i] == b[i],
    ensures
        block_result(a) == block_result(b),
{
    if a.len() >= BLOCK_HEADER_SIZE {
        let n = entry_count(a);
        lemma_u16_at_same(a, 2, b, 2);
        lemma_u32_at_same(a, 4, b, 4);
        if data_end(a) >= entry_at(n) {
            lemma_same_sweep(a, b, n);
            assert(a.subrange(0, 4) =~= b.subrange(0, 4));
            let end = min_int(entry_at(n), a.len() as int);
            assert(a.subrange(8, end) =~= b.subrange(8, end));
            if has_tail(a) {
                assert(a.subrange(a.len() - 8, a.len() as int) =~= b.subrange(
                    b.len() - 8,
                    b.len() as int,
                ));
            } else if u16_at(a, 2) <= 1 {
                reveal(u16_at);
                assert(a[2] == 0);
            }
        }
    }
}

proof fn lemma_same_sweep(a: Seq<u8>, b: Seq<u8>, k: int)
    requires
        a.len() == b.len(),
        a.len() >= BLOCK_HEADER_SIZE,
        entry_at(entry_count(a)) <= a.len(),
        entry_count(a) == entry_count(b),
        u16_at(a, 2) == u16_at(b, 2),
        k <= entry_count(a),
        forall|i: int|
            #![trigger a[i]]
            #![trigger b[i]]
            0 <= i < entry_at(entry_count(a)) ==> a[i] == b[i],
    ensures
        entry_sweep(a, k) == entry_sweep(b, k),
    decreases k,
{
    if k > 0 {
        lemma_same_sweep(a, b, k - 1);
        lemma_same_entry(a, b, k - 1);
        if k > 1 {
            lemma_same_entry(a, b, k - 2);
        }
    }
}

proof fn lemma_same_entry(a: Seq<u8>, b: Seq<u8>, i: int)
    requires
        a.len() == b.len(),
        0 <= i < entry_count(a),
        entry_at(entry_count(a)) <= a.len(),
        forall|j: int|
            #![trigger a[j]]
            #![trigger b[j]]
            0 <= j < entry_at(entry_count(a)) ==> a[j] == b[j],
    ensures
        entry_key(a, i) == entry_key(b, i),
        entry_tag(a, i) == entry_tag(b, i),
        entry_len(a, i) == entry_len(b, i),
        entry_off(a, i) == entry_off(b, i),
{
    lemma_u32_at_same(a, entry_at(i), b, entry_at(i));
    lemma_u16_at_same(a, entry_at(i) + 6, b, entry_at(i) + 6);
}

/// A change of a block's directory is noticed wherever it changes the
/// checksum.
pub proof fn law_directory_change_is_noticed(a: Seq<u8>, b: Seq<u8>)
    requires
        block_result(a) is Ok,
        b.len() == a.len(),
        b.subrange(4, 8) == a.subrange(4, 8),
        block_check(b) != block_check(a),
    ensures
        block_result(b) is Err,
{
    assert forall|k: int| 0 <= k < 4 implies #[trigger] a[4 + k] == b[4 + k] by {
        assert(a.len() >= 8);
        assert(a.subrange(4, 8)[k] == a[k + 4]);
        assert(b.subrange(4, 8)[k] == b[k + 4]);
    }
    lemma_u32_at_same(a, 4, b, 4);
}

/// A change of the checksum field alone is always noticed, in a block and in an
/// overflow payload.
pub proof fn law_checksum_change_is_noticed(a: Seq<u8>, b: Seq<u8>, primary_max: Option<u32>)
    requires
        b.len() == a.len(),
        b != a,
        forall|i: int| 0 <= i < a.len() && !(4 <= i < 8) ==> a[i] == b[i],
    ensures
        block_result(a) is Ok ==> block_result(b) is Err,
        overflow_result(a, primary_max) is Ok ==> overflow_result(b, primary_max) is Err,
{
    if a.len() >= 8 {
        assert(u32_at(a, 4) != u32_at(b, 4)) by {
            if u32_at(a, 4) == u32_at(b, 4) {
                lemma_u32_bytes_same(a, 4, b, 4);
                assert forall|i: int| 0 <= i < a.len() implies a[i] == b[i] by {
                    if 4 <= i < 8 {
                        assert(a[4 + (i - 4)] == b[4 + (i - 4)]);
                    }
                }
                assert(a =~= b);
            }
        }
        assert(a.subrange(0, 4) =~= b.subrange(0, 4));
        let end = min_int(BLOCK_HEADER_SIZE + HEADER_ENTRY_SIZE * a[1], a.len() as int);
        assert(a.subrange(8, end) =~= b.subrange(8, end));
        if a.len() >= 16 {
            assert(a.subrange(a.len() - 8, a.len() as int) =~= b.subrange(
                b.len() - 8,
                b.len() as int,
            ));
        }
        lemma_u16_at_same(a, 2, b, 2);
        let xend = min_int(xentry_at(xentry_count(a)), a.len() as int);
        assert(a.subrange(8, xend) =~= b.subrange(8, xend));
        if block_result(a) is Ok {
            if has_tail(a) {
                assert(a.len() >= 16);
            } else {
                reveal(u16_at);
                assert(a[2] == 0);
            }
            assert(block_check(a) == block_check(b));
        }
        if overflow_result(a, primary_max) is Ok {
            assert(dir_check(a) == dir_check(b));
        }
    }
}

/// A change of one byte of a block's header is always noticed, whatever the
/// checksum says: of the version, the count, the flags or the checksum itself.
pub proof fn law_header_change_is_noticed(a: Seq<u8>, b: Seq<u8>, k: int)
    requires
        block_result(a) is Ok,
        b.len() == a.len(),
        0 <= k < BLOCK_HEADER_SIZE,
        b[k] != a[k],
        forall|i: int| 0 <= i < a.len() && i != k ==> a[i] == b[i],
    ensures
        block_result(b) is Err,
{
    let n = entry_count(a);
    let m = entry_count(b);
    if k >= 4 {
        law_checksum_change_is_noticed(a, b, None);
    } else if k >= 2 {
        reveal(u16_at);
        if u16_at(b, 2) <= 1 {
            assert(has_tail(a) != has_tail(b));
            if data_end(b) >= entry_at(n) {
                lemma_flag_sweep(a, b, n);
            }
        }
    } else if k == 1 && m <= MAX_PRIMARY_ENTRIES {
        lemma_u16_at_same(a, 2, b, 2);
        let least = min_int(n, m);
        if entry_sweep(a, least) is Err {
            lemma_sweep_error_stays(a, least, n);
        }
        lemma_count_sweep(a, b, least);
        if entry_sweep(b, least) is Err {
            lemma_sweep_error_stays(b, least, m);
        }
    }
}

/// One changed byte of a block's metadata is always noticed: of the header, of
/// the directory or, where there is one, of the tail.
pub proof fn law_metadata_change_is_noticed(a: Seq<u8>, b: Seq<u8>, k: int)
    requires
        block_result(a) is Ok,
        b.len() == a.len(),
        0 <= k < a.len(),
        k < entry_at(entry_count(a)) || (has_tail(a) && k >= a.len() - OVERFLOW_TAIL_SIZE),
        b[k] != a[k],
        forall|i: int| 0 <= i < a.len() && i != k ==> a[i] == b[i],
    ensures
        block_result(b) is Err,
{
    if k < BLOCK_HEADER_SIZE {
        law_header_change_is_noticed(a, b, k);
    } else {
        let end = entry_at(entry_count(a));
        let n = a.len() as int;
        lemma_u16_at_same(a, 2, b, 2);
        lemma_u32_at_same(a, 4, b, 4);
        assert(a.subrange(0, 4) =~= b.subrange(0, 4));
        let c = crc32c_update(crc32c_of(a.subrange(0, 4)), seq![0u8, 0, 0, 0]);
        let da = a.subrange(8, end);
        let db = b.subrange(8, end);
        assert(a[2] % 2 == 1 <==> has_tail(a)) by {
            reveal(u16_at);
        }
        if k < end {
            law_one_byte_changes_the_checksum(c, da, db, k - 8);
            if has_tail(a) {
                let t = a.subrange(n - 8, n);
                assert(t =~= b.subrange(n - 8, n));
                law_checksum_carries_on(crc32c_update(c, da), crc32c_update(c, db), t);
            }
        } else {
            assert(da =~= db);
            law_one_byte_changes_the_checksum(
                crc32c_update(c, da),
                a.subrange(n - 8, n),
                b.subrange(n - 8, n),
                k - (n - 8),
            );
        }
        assert(block_check(a) != block_check(b));
    }
}

/// One changed byte of an overflow payload's directory, of its magic number or of
/// its checksum is always noticed.
pub proof fn law_overflow_change_is_noticed(
    a: Seq<u8>,
    b: Seq<u8>,
    k: int,
    primary_max: Option<u32>,
)
    requires
        overflow_result(a, primary_max) is Ok,
        b.len() == a.len(),
        0 <= k < xentry_at(xentry_count(a)),
        k != 2 && k != 3,
        b[k] != a[k],
        forall|i: int| 0 <= i < a.len() && i != k ==> a[i] == b[i],
    ensures
        overflow_result(b, primary_max) is Err,
{
    lemma_u16_at_same(a, 2, b, 2);
    if k < 2 {
        reveal(u16_at);
    } else if k < 8 {
        law_checksum_change_is_noticed(a, b, primary_max);
    } else {
        let end = xentry_at(xentry_count(a));
        lemma_u32_at_same(a, 4, b, 4);
        assert(a.subrange(0, 4) =~= b.subrange(0, 4));
        law_one_byte_changes_the_checksum(
            crc32c_of(a.subrange(0, 4)),
            a.subrange(8, end),
            b.subrange(8, end),
            k - 8,
        );
        assert(dir_check(a) != dir_check(b));
    }
}

/// Under another flag the entries of a block end where they did, or are
/// refused.
proof fn lemma_flag_sweep(a: Seq<u8>, b: Seq<u8>, k: int)
    requires
        b.len() == a.len(),
        0 <= k <= entry_count(a),
        entry_count(a) == entry_count(b),
        entry_at(entry_count(a)) <= a.len(),
        forall|i: int| 4 <= i < a.len() ==> a[i] == b[i],
        entry_sweep(a, k) is Ok,
    ensures
        entry_sweep(b, k) is Err || entry_sweep(b, k) == entry_sweep(a, k),
    decreases k,
{
    if k > 0 {
        lemma_flag_sweep(a, b, k - 1);
        lemma_entry_bytes_same(a, b, k - 1);
        if k > 1 {
            lemma_entry_bytes_same(a, b, k - 2);
        }
    }
}

/// Under another count the entries of a block are refused, or none of them has
/// a payload.
proof fn lemma_count_sweep(a: Seq<u8>, b: Seq<u8>, k: int)
    requires
        b.len() == a.len(),
        0 <= k <= entry_count(a),
        k <= entry_count(b),
        entry_count(a) != entry_count(b),
        entry_at(entry_count(a)) <= a.len(),
        u16_at(a, 2) == u16_at(b, 2),
        forall|i: int| 4 <= i < a.len() ==> a[i] == b[i],
        entry_sweep(a, k) is Ok,
    ensures
        entry_sweep(b, k) is Err || (entry_sweep(a, k) == Ok::<int, BlockFault>(
            entry_at(entry_count(a)),
        ) && entry_sweep(b, k) == Ok::<int, BlockFault>(entry_at(entry_count(b)))),
    decreases k,
{
    if k > 0 {
        lemma_count_sweep(a, b, k - 1);
        lemma_entry_bytes_same(a, b, k - 1);
        if k > 1 {
            lemma_entry_bytes_same(a, b, k - 2);
        }
    }
}

proof fn lemma_entry_bytes_same(a: Seq<u8>, b: Seq<u8>, i: int)
    requires
        0 <= i < entry_count(a),
        entry_at(entry_count(a)) <= a.len(),
        a.len() == b.len(),
        forall|j: int| 4 <= j < a.len() ==> a[j] == b[j],
    ensures
        entry_key(a, i) == entry_key(b, i),
        entry_tag(a, i) == entry_tag(b, i),
        entry_len(a, i) == entry_len(b, i),
        entry_off(a, i) == entry_off(b, i),
{
    lemma_u32_at_same(a, entry_at(i), b, entry_at(i));
    lemma_u16_at_same(a, entry_at(i) + 6, b, entry_at(i) + 6);
}

proof fn lemma_sweep_error_stays(b: Seq<u8>, k: int, n: int)
    requires
        0 <= k <= n,
        entry_sweep(b, k) is Err,
    ensures
        entry_sweep(b, n) is Err,
    decreases n,
{
    if k < n {
        lemma_sweep_error_stays(b, k, n - 1);
    }
}

/// Blocks that differ in the checksum field alone are equal once stamped.
proof fn lemma_stamp_same(a: Seq<u8>, b: Seq<u8>)
    requires
        a.len() == b.len(),
        a.len() >= 16,
        forall|i: int| 0 <= i < a.len() && !(4 <= i < 8) ==> a[i] == b[i],
    ensures
        stamped(a) == stamped(b),
{
    let end = min_int(BLOCK_HEADER_SIZE + HEADER_ENTRY_SIZE * a[1], a.len() as int);
    assert(a.subrange(0, 4) =~= b.subrange(0, 4));
    assert(a.subrange(8, end) =~= b.subrange(8, end));
    assert(a.subrange(a.len() - 8, a.len() as int) =~= b.subrange(b.len() - 8, b.len() as int));
    assert(stamped(a) =~= stamped(b));
}

} // verus!
