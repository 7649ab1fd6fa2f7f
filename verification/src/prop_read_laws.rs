//! How the bytes of a property block and of its overflow payload are read, which of
//! them are refused, and what their checksums cover.
use vstd::prelude::*;
use vstd::utf8::{decode_utf8, valid_utf8};

use crate::checksum::{crc32c_of, law_checksum_of_parts};
use crate::codec::{group_codec, lemma_u32_read_back, lemma_u64_read_back, u16_at, u32_at, u64_at};
use crate::prop_block::{build_error, patch_fault, with_tail, PropBlockEncodeError};
use crate::prop_model::{
    block_check, block_result, dir_check, entry_payload, entry_result, entry_step, entry_sweep,
    extent_result, extra_of, is_locator, locator_result, overflow_result, payload_result,
    primary_of, stamped, tag_of, tail_result, value_result, xentry_count, xentry_result,
    xentry_step, xentry_sweep, Bag, BlockFault, LayoutFault, LookupView, PropTag, ValueView,
};
use crate::prop_value_laws::{lemma_none_before, oversized};
use crate::property::BlobRef;

verus! {

broadcast use group_codec;

// ---- values ---------------------------------------------------------------

/// How the payload of an entry is read.
pub proof fn law_payload_reading(len: u8, p: Seq<u8>)
    ensures
        payload_result(PropTag::Null, len, p) == Ok::<LookupView, BlockFault>(
            LookupView::Found(ValueView::Null),
        ),
        payload_result(PropTag::Int64, len, p) == Ok::<LookupView, BlockFault>(
            LookupView::Found(ValueView::Int(#[verifier::truncate] (u64_at(p, 0) as i64))),
        ),
        payload_result(PropTag::Float64, len, p) == Ok::<LookupView, BlockFault>(
            LookupView::Found(ValueView::Float(u64_at(p, 0))),
        ),
        p[0] == 0 ==> payload_result(PropTag::Bool, len, p) == Ok::<LookupView, BlockFault>(
            LookupView::Found(ValueView::Bool(false)),
        ),
        p[0] == 1 ==> payload_result(PropTag::Bool, len, p) == Ok::<LookupView, BlockFault>(
            LookupView::Found(ValueView::Bool(true)),
        ),
        p[0] > 1 ==> payload_result(PropTag::Bool, len, p) == Err::<LookupView, BlockFault>(
            BlockFault::BoolByte { got: p[0] },
        ),
        valid_utf8(p) ==> payload_result(PropTag::StrInline, len, p) == Ok::<
            LookupView,
            BlockFault,
        >(LookupView::Found(ValueView::Str(decode_utf8(p)))),
        !valid_utf8(p) ==> payload_result(PropTag::StrInline, len, p) == Err::<
            LookupView,
            BlockFault,
        >(BlockFault::Utf8),
        payload_result(PropTag::Bytes, len, p) == Ok::<LookupView, BlockFault>(
            LookupView::Found(ValueView::Bytes(p)),
        ),
        payload_result(PropTag::Temporal, len, p) == Ok::<LookupView, BlockFault>(
            LookupView::Found(ValueView::Temporal(p)),
        ),
        payload_result(PropTag::StrRef, len, p) == Ok::<LookupView, BlockFault>(
            LookupView::InOverflow {
                tag: PropTag::StrInline,
                off: u32_at(p, 0),
                len: u32_at(p, 4),
            },
        ),
        len > 0 ==> payload_result(PropTag::ListRef, len, p) == Ok::<LookupView, BlockFault>(
            LookupView::Found(ValueView::ListOpaque(p)),
        ) && payload_result(PropTag::MapRef, len, p) == Ok::<LookupView, BlockFault>(
            LookupView::Found(ValueView::MapOpaque(p)),
        ),
        len == 0 ==> payload_result(PropTag::ListRef, len, p) == Ok::<LookupView, BlockFault>(
            LookupView::InOverflow { tag: PropTag::ListRef, off: u32_at(p, 0), len: u32_at(p, 4) },
        ) && payload_result(PropTag::MapRef, len, p) == Ok::<LookupView, BlockFault>(
            LookupView::InOverflow { tag: PropTag::MapRef, off: u32_at(p, 0), len: u32_at(p, 4) },
        ),
{
}

/// How a value of the overflow payload is read.
pub proof fn law_overflow_value_reading(raw: Seq<u8>)
    ensures
        value_result(PropTag::Null, raw) == Ok::<ValueView, BlockFault>(ValueView::Null),
        raw.len() == 8 ==> value_result(PropTag::Int64, raw) == Ok::<ValueView, BlockFault>(
            ValueView::Int(#[verifier::truncate] (u64_at(raw, 0) as i64)),
        ) && value_result(PropTag::Float64, raw) == Ok::<ValueView, BlockFault>(
            ValueView::Float(u64_at(raw, 0)),
        ),
        raw.len() != 8 ==> value_result(PropTag::Int64, raw) == Err::<ValueView, BlockFault>(
            BlockFault::ScalarLen { tag: PropTag::Int64 },
        ) && value_result(PropTag::Float64, raw) == Err::<ValueView, BlockFault>(
            BlockFault::ScalarLen { tag: PropTag::Float64 },
        ),
        raw.len() == 1 && raw[0] <= 1 ==> value_result(PropTag::Bool, raw) == Ok::<
            ValueView,
            BlockFault,
        >(ValueView::Bool(raw[0] == 1)),
        raw.len() != 1 || raw[0] > 1 ==> value_result(PropTag::Bool, raw) == Err::<
            ValueView,
            BlockFault,
        >(BlockFault::ScalarLen { tag: PropTag::Bool }),
        valid_utf8(raw) ==> value_result(PropTag::StrInline, raw) == Ok::<ValueView, BlockFault>(
            ValueView::Str(decode_utf8(raw)),
        ),
        !valid_utf8(raw) ==> value_result(PropTag::StrInline, raw) == Err::<ValueView, BlockFault>(
            BlockFault::Utf8,
        ),
        value_result(PropTag::Bytes, raw) == Ok::<ValueView, BlockFault>(ValueView::Bytes(raw)),
        value_result(PropTag::Temporal, raw) == Ok::<ValueView, BlockFault>(
            ValueView::Temporal(raw),
        ),
        value_result(PropTag::ListRef, raw) == Ok::<ValueView, BlockFault>(
            ValueView::ListOpaque(raw),
        ),
        value_result(PropTag::MapRef, raw) == Ok::<ValueView, BlockFault>(
            ValueView::MapOpaque(raw),
        ),
        value_result(PropTag::StrRef, raw) == Err::<ValueView, BlockFault>(
            BlockFault::OverflowStrRef,
        ),
{
}

/// How many bytes an entry's payload takes, and which lengths a type cannot have.
pub proof fn law_extents(len: u8)
    ensures
        extent_result(PropTag::Null, len) is Ok <==> len == 0,
        extent_result(PropTag::Int64, len) is Ok <==> len == 8,
        extent_result(PropTag::Float64, len) is Ok <==> len == 8,
        extent_result(PropTag::StrRef, len) is Ok <==> len == 8,
        extent_result(PropTag::Bool, len) is Ok <==> len == 1,
        extent_result(PropTag::Null, 0) == Ok::<int, BlockFault>(0),
        extent_result(PropTag::Int64, 8) == Ok::<int, BlockFault>(8),
        extent_result(PropTag::Float64, 8) == Ok::<int, BlockFault>(8),
        extent_result(PropTag::StrRef, 8) == Ok::<int, BlockFault>(8),
        extent_result(PropTag::Bool, 1) == Ok::<int, BlockFault>(1),
        extent_result(PropTag::StrInline, len) == Ok::<int, BlockFault>(len as int),
        extent_result(PropTag::Bytes, len) == Ok::<int, BlockFault>(len as int),
        extent_result(PropTag::Temporal, len) == Ok::<int, BlockFault>(len as int),
        extent_result(PropTag::ListRef, len) == Ok::<int, BlockFault>(
            if len == 0 {
                8
            } else {
                len as int
            },
        ),
        extent_result(PropTag::MapRef, len) == extent_result(PropTag::ListRef, len),
        is_locator(PropTag::StrRef, len),
        is_locator(PropTag::ListRef, len) <==> len == 0,
        is_locator(PropTag::MapRef, len) <==> len == 0,
        !is_locator(PropTag::Null, len) && !is_locator(PropTag::Int64, len) && !is_locator(
            PropTag::Float64,
            len,
        ) && !is_locator(PropTag::Bool, len) && !is_locator(PropTag::StrInline, len)
            && !is_locator(PropTag::Bytes, len) && !is_locator(PropTag::Temporal, len),
{
}

/// Where the payload of an entry and the value of an xentry lie: the directory says
/// it, and they are read from there.
pub proof fn law_where_values_lie(b: Seq<u8>, i: int, tag: PropTag)
    requires
        0 <= i,
    ensures
        tag_of(b[12 + 8 * i]) == Some(tag) ==> {
            let len = b[13 + 8 * i];
            let off = u16_at(b, 14 + 8 * i) as int;
            &&& entry_result(b, i) == payload_result(tag, len, entry_payload(b, i))
            &&& extent_result(tag, len) matches Ok(n) ==> n > 0 ==> entry_payload(b, i)
                == b.subrange(off, off + n)
            &&& extent_result(tag, len) == Ok::<int, BlockFault>(0) ==> entry_payload(b, i).len()
                == 0
        },
        tag_of(b[12 + 16 * i]) == Some(tag) ==> {
            let off = u32_at(b, 16 + 16 * i) as int;
            let len = u32_at(b, 20 + 16 * i) as int;
            xentry_result(b, i) == value_result(tag, b.subrange(off, off + len))
        },
{
}

/// What a locator points at: bytes behind the directory of the overflow payload, or
/// nothing at offset zero.
pub proof fn law_locators(b: Seq<u8>, tag: PropTag, off: u32, len: u32)
    ensures
        ({
            let r = locator_result(b, tag, off, len);
            let inside = 8 + 16 * u16_at(b, 2) <= off && off + len <= b.len();
            &&& len == 0 && off == 0 ==> r == value_result(tag, Seq::<u8>::empty())
            &&& len == 0 && off != 0 ==> r == Err::<ValueView, BlockFault>(
                BlockFault::LocatorZeroOffset { off },
            )
            &&& len > 0 && inside ==> r == value_result(tag, b.subrange(off as int, off + len))
            &&& len > 0 && !inside ==> r == Err::<ValueView, BlockFault>(
                BlockFault::LocatorEscapes { off, len },
            )
        }),
{
    assert(Seq::<u8>::empty() =~= seq![]);
}

/// The reference in the tail of a block: its last eight bytes, where the flag says
/// that there is one.
pub proof fn law_tail_reading(b: Seq<u8>)
    ensures
        ({
            let raw = u64_at(b, b.len() - 8);
            &&& u16_at(b, 2) != 1 ==> tail_result(b) == Ok::<Option<BlobRef>, BlockFault>(None)
            &&& u16_at(b, 2) == 1 && raw < 0x8000_0000_0000_0000 ==> tail_result(b) == Err::<
                Option<BlobRef>,
                BlockFault,
            >(BlockFault::TailRef { raw })
            &&& u16_at(b, 2) == 1 && raw >= 0x8000_0000_0000_0000 ==> (tail_result(b) matches Ok(
                Some(blob),
            ) && blob.page_id == (raw - 0x8000_0000_0000_0000) / 32768 && blob.slot_id == raw
                % 32768)
        }),
{
}

// ---- refusals -------------------------------------------------------------

/// What is said of a block that is refused before its entries are looked at.
pub proof fn law_block_refusals(b: Seq<u8>)
    ensures
        ({
            let tail: int = if u16_at(b, 2) == 1 {
                8
            } else {
                0
            };
            let r = block_result(b);
            &&& b.len() < 8 ==> r == Err::<(), BlockFault>(
                BlockFault::TooShort { len: b.len() as usize },
            )
            &&& b.len() >= 8 && b[0] != 1 ==> r == Err::<(), BlockFault>(
                BlockFault::Version { got: b[0] },
            )
            &&& b.len() >= 8 && b[0] == 1 && b[1] > 64 ==> r == Err::<(), BlockFault>(
                BlockFault::PropCount { got: b[1] },
            )
            &&& b.len() >= 8 && b[0] == 1 && b[1] <= 64 && u16_at(b, 2) > 1 ==> r == Err::<
                (),
                BlockFault,
            >(BlockFault::ReservedFlags { got: u16_at(b, 2) })
            &&& b.len() >= 8 && b[0] == 1 && b[1] <= 64 && u16_at(b, 2) <= 1 && b.len() - tail < 8
                + 8 * b[1] ==> r == Err::<(), BlockFault>(
                BlockFault::Length { len: b.len() as usize, count: b[1] },
            )
            &&& r is Ok ==> u32_at(b, 4) == block_check(b)
            &&& r is Ok && b[1] == 0 ==> b.len() == 8 + tail
        }),
{
}

/// In a block that parses the payloads follow each other without a gap of four bytes
/// or more, the first of them directly behind the directory, and the last one ends
/// where the data ends.
pub proof fn law_payloads_are_packed(b: Seq<u8>, i: int)
    requires
        block_result(b) is Ok,
        0 <= i < b[1],
    ensures
        ({
            let n = b[1] as int;
            let before = entry_sweep(b, i)->Ok_0;
            let after = entry_sweep(b, i + 1)->Ok_0;
            let off = u16_at(b, 14 + 8 * i) as int;
            let end = b.len() - if u16_at(b, 2) == 1 {
                8int
            } else {
                0int
            };
            &&& entry_sweep(b, 0)->Ok_0 == 8 + 8 * n
            &&& entry_sweep(b, n)->Ok_0 == end
            &&& tag_of(b[12 + 8 * i]) matches Some(tag) && (extent_result(tag, b[13 + 8 * i])
                matches Ok(extent) && {
                &&& extent == 0 ==> off == 0 && after == before
                &&& extent > 0 ==> before <= off < before + 4 && off % 4 == 0 && after == off
                    + extent && after <= end
                &&& is_locator(tag, b[13 + 8 * i]) ==> u16_at(b, 2) == 1
            })
        }),
{
    lemma_sweep_ok(b, i + 1, b[1] as int);
    lemma_sweep_ok(b, i, b[1] as int);
    assert(entry_step(b, i, entry_sweep(b, i)->Ok_0) == entry_sweep(b, i + 1));
}

proof fn lemma_sweep_ok(b: Seq<u8>, j: int, k: int)
    requires
        0 <= j <= k,
        entry_sweep(b, k) is Ok,
    ensures
        entry_sweep(b, j) is Ok,
    decreases k,
{
    if j < k {
        lemma_sweep_ok(b, j, k - 1);
    }
}

/// What is said of an overflow payload that is refused before its xentries are
/// looked at.
pub proof fn law_overflow_refusals(b: Seq<u8>, primary_max: Option<u32>)
    ensures
        ({
            let r = overflow_result(b, primary_max);
            &&& b.len() < 8 ==> r == Err::<(), BlockFault>(
                BlockFault::OverflowTooShort { len: b.len() as usize },
            )
            &&& b.len() >= 8 && u16_at(b, 0) != 0x564F ==> r == Err::<(), BlockFault>(
                BlockFault::OverflowMagic { got: u16_at(b, 0) },
            )
            &&& b.len() >= 8 && u16_at(b, 0) == 0x564F && b.len() < 8 + 16 * u16_at(b, 2) ==> r
                == Err::<(), BlockFault>(
                BlockFault::OverflowLength { len: b.len() as usize, count: u16_at(b, 2) },
            )
            &&& r is Ok ==> u32_at(b, 4) == dir_check(b)
        }),
{
}

/// In an overflow payload that parses an xentry is padded with zeros, has a length
/// that suits its type, and its value starts at a multiple of four behind the
/// directory, or nowhere where it is empty.
pub proof fn law_xentries(b: Seq<u8>, primary_max: Option<u32>, i: int)
    requires
        overflow_result(b, primary_max) is Ok,
        0 <= i < u16_at(b, 2),
    ensures
        ({
            let at = 8 + 16 * i;
            let off = u32_at(b, at + 8) as int;
            let len = u32_at(b, at + 12) as int;
            &&& b[at + 5] == 0 && b[at + 6] == 0 && b[at + 7] == 0
            &&& b[at + 4] == 1 ==> len == 0
            &&& b[at + 4] == 2 || b[at + 4] == 3 ==> len == 8
            &&& b[at + 4] == 4 ==> len == 1
            &&& len == 0 ==> off == 0
            &&& len > 0 ==> off % 4 == 0 && 8 + 16 * u16_at(b, 2) <= off && off + len <= b.len()
        }),
{
    lemma_xsweep_ok(b, primary_max, i + 1, xentry_count(b));
    lemma_xsweep_ok(b, primary_max, i, xentry_count(b));
    assert(xentry_step(b, primary_max, i, xentry_sweep(b, primary_max, i)->Ok_0) is Ok);
}

proof fn lemma_xsweep_ok(b: Seq<u8>, m: Option<u32>, j: int, k: int)
    requires
        0 <= j <= k,
        xentry_sweep(b, m, k) is Ok,
    ensures
        xentry_sweep(b, m, j) is Ok,
    decreases k,
{
    if j < k {
        lemma_xsweep_ok(b, m, j, k - 1);
    }
}

/// A bag with more properties behind the first 64 than the directory can count is
/// refused, unless a value has no form.
pub proof fn law_too_many_properties(bag: Bag)
    requires
        bag.len() > 64 + 65535,
        forall|j: int| 0 <= j < 64 ==> !oversized(#[trigger] bag[j].1),
    ensures
        build_error(bag) == Some(
            PropBlockEncodeError::LayoutOverflow {
                reason: LayoutFault::XentryCount { count: (bag.len() - 64) as usize },
            },
        ),
{
    let primary = primary_of(bag);
    assert forall|j: int| 0 <= j < primary.len() implies !oversized(#[trigger] primary[j].1) by {
        assert(primary[j] == bag[j]);
        assert(!oversized(bag[j].1));
    }
    lemma_none_before(primary, primary.len() as int);
    assert(extra_of(bag).len() == bag.len() - 64);
}

/// What is said of bytes whose tail cannot be set.
pub proof fn law_tail_refusals(b: Seq<u8>)
    ensures
        b.len() < 16 ==> patch_fault(b) == Some(
            LayoutFault::NoRoomForTail { len: b.len() as usize },
        ),
        b.len() >= 16 && b[0] != 1 ==> patch_fault(b) == Some(
            LayoutFault::NotTyped { first: b[0] },
        ),
        b.len() >= 16 && b[0] == 1 && b[2] % 2 == 0 ==> patch_fault(b) == Some(
            LayoutFault::NoOverflowFlag,
        ),
{
}

// ---- checksums ------------------------------------------------------------

/// The checksum of a block covers its first four bytes, four zeros in the place of
/// the checksum, its directory, and its tail where it has one; the values are not
/// covered.
pub proof fn law_block_checksum(b: Seq<u8>)
    requires
        b.len() >= 8 + 8 * b[1] + 8,
    ensures
        block_check(b) == crc32c_of(
            b.subrange(0, 4) + seq![0u8, 0, 0, 0] + b.subrange(8, 8 + 8 * b[1]) + if b[2] % 2 == 1 {
                b.subrange(b.len() - 8, b.len() as int)
            } else {
                Seq::<u8>::empty()
            },
        ),
{
    let head = b.subrange(0, 4);
    let zeros = seq![0u8, 0, 0, 0];
    let dir = b.subrange(8, 8 + 8 * b[1]);
    law_checksum_of_parts(head, zeros);
    law_checksum_of_parts(head + zeros, dir);
    if b[2] % 2 == 1 {
        law_checksum_of_parts(head + zeros + dir, b.subrange(b.len() - 8, b.len() as int));
    } else {
        assert(head + zeros + dir + Seq::<u8>::empty() =~= head + zeros + dir);
    }
}

/// The checksum of an overflow payload covers its first four bytes and its
/// directory.
pub proof fn law_overflow_checksum(b: Seq<u8>)
    requires
        b.len() >= 8 + 16 * u16_at(b, 2),
    ensures
        dir_check(b) == crc32c_of(b.subrange(0, 4) + b.subrange(8, 8 + 16 * u16_at(b, 2))),
{
    law_checksum_of_parts(b.subrange(0, 4), b.subrange(8, 8 + 16 * u16_at(b, 2)));
}

/// A block whose tail is set has the reference in its last eight bytes and its
/// checksum anew, and is otherwise as it was.
pub proof fn law_set_tail(b: Seq<u8>, raw: u64, k: int)
    requires
        b.len() >= 16,
    ensures
        ({
            let c = with_tail(b, raw);
            &&& c.len() == b.len()
            &&& u64_at(c, b.len() - 8) == raw
            &&& (0 <= k < 4 || 8 <= k < b.len() - 8) ==> c[k] == b[k]
            &&& u32_at(c, 4) == block_check(c)
        }),
{
    let s = crate::codec::splice(b, b.len() - 8, crate::codec::le64(raw));
    let c = with_tail(b, raw);
    assert(c == stamped(s));
    assert forall|j: int| 0 <= j < 8 implies #[trigger] c[(b.len() - 8) + j]
        == crate::codec::le64(raw)[j] by {}
    lemma_u64_read_back(c, b.len() - 8, raw);
    assert forall|j: int| 0 <= j < 4 implies #[trigger] c[4 + j] == crate::codec::le32(
        block_check(s),
    )[j] by {}
    lemma_u32_read_back(c, 4, block_check(s));
    assert(c.subrange(0, 4) =~= s.subrange(0, 4));
    let end = crate::prop_model::min_int(8 + 8 * s[1], s.len() as int);
    assert(c.subrange(8, end) =~= s.subrange(8, end));
    assert(c.subrange(c.len() - 8, c.len() as int) =~= s.subrange(s.len() - 8, s.len() as int));
}

} // verus!
