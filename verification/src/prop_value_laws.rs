//! What is stored of a property value, where it goes, and what a block that
//! parses is, said of the values and of the bytes themselves.
use vstd::prelude::*;
use vstd::utf8::encode_utf8;

use crate::codec::{group_codec, lemma_u64_read_back, u16_at, u32_at, u64_at};
use crate::prop_block::{
    build_error, decoded_view, lookup_view, patch_fault, PrimaryLookup, PropBlockEncodeError,
    PropBlockError, PropValue, PropValueRef, ReservedKind,
};
use crate::prop_laws::{encodable, law_block_parses, law_built_bag_reads_back, read_property};
use crate::prop_model::{
    ascending, block_bytes, block_result, data_end, entry_at, entry_count, entry_key, entry_off,
    entry_result, entry_sweep, entry_tag, first_oversize, miss_result, normal, normal_bag,
    overflow_bytes, overflow_result, overflows, primary_of, spilled, spills, tag_byte, tag_of,
    value_bytes, value_tag, xentry_count, xentry_key, xentry_len, xentry_off, xentry_sweep,
    xentry_tag, Bag, BlockFault, LookupView, PropTag, ValueView,
};

verus! {

broadcast use group_codec;

// ---- values ---------------------------------------------------------------

/// A value is stored as itself, but for a float whose eleven exponent bits are
/// all ones, an infinity or a NaN, which is stored as null. The sign has no say.
pub proof fn law_stored_form(v: ValueView, bits: u64)
    ensures
        !(v is Float) ==> normal(v) == v,
        (bits >> 52) & 0x7FF != 0x7FF ==> normal(ValueView::Float(bits)) == ValueView::Float(bits),
        (bits >> 52) & 0x7FF == 0x7FF ==> normal(ValueView::Float(bits)) == ValueView::Null,
        normal(ValueView::Float(bits ^ 0x8000_0000_0000_0000)) is Null <==> normal(
            ValueView::Float(bits),
        ) is Null,
{
    let flipped = bits ^ 0x8000_0000_0000_0000;
    assert((bits / 0x10_0000_0000_0000) % 0x800 == (bits >> 52) & 0x7FF) by (bit_vector);
    assert((flipped / 0x10_0000_0000_0000) % 0x800 == (flipped >> 52) & 0x7FF) by (bit_vector);
    assert((flipped >> 52) & 0x7FF == (bits >> 52) & 0x7FF) by (bit_vector)
        requires
            flipped == bits ^ 0x8000_0000_0000_0000,
    ;
}

/// Each key of a built bag reads back the value that was put, unchanged, unless
/// it was an infinity or a NaN.
pub proof fn law_value_put_is_read(put: Bag, tail: u64, key: u32, v: ValueView)
    requires
        ascending(put),
        build_error(normal_bag(put)) is None,
        put.contains((key, v)),
        v matches ValueView::Float(bits) ==> (bits >> 52) & 0x7FF != 0x7FF,
    ensures
        read_property(
            block_bytes(normal_bag(put), tail),
            overflow_bytes(normal_bag(put)),
            key,
        ) == Ok::<Option<ValueView>, BlockFault>(Some(v)),
{
    law_built_bag_reads_back(put, tail, key);
    match v {
        ValueView::Float(bits) => {
            law_stored_form(v, bits);
        },
        _ => {
            law_stored_form(v, 0);
        },
    }
}

/// Every type has its own byte, and no other byte is a type.
pub proof fn law_tag_bytes(b: u8)
    ensures
        tag_byte(PropTag::Null) == 1,
        tag_byte(PropTag::Int64) == 2,
        tag_byte(PropTag::Float64) == 3,
        tag_byte(PropTag::Bool) == 4,
        tag_byte(PropTag::StrInline) == 5,
        tag_byte(PropTag::StrRef) == 6,
        tag_byte(PropTag::Bytes) == 7,
        tag_byte(PropTag::Temporal) == 8,
        tag_byte(PropTag::ListRef) == 9,
        tag_byte(PropTag::MapRef) == 10,
        tag_of(b) is Some <==> 1 <= b <= 10,
        tag_of(b) matches Some(t) ==> tag_byte(t) == b,
{
}

/// The bytes of a value: numbers take eight, the low byte first and negative
/// ones in two's complement; a boolean takes one; a string is in UTF-8; all else
/// is as it was given.
pub proof fn law_value_bytes(i: i64, bits: u64, b: bool, s: Seq<char>, raw: Seq<u8>)
    ensures
        value_bytes(ValueView::Null).len() == 0,
        value_bytes(ValueView::Int(i)).len() == 8,
        u64_at(value_bytes(ValueView::Int(i)), 0) == #[verifier::truncate] (i as u64),
        i >= 0 ==> u64_at(value_bytes(ValueView::Int(i)), 0) == i,
        value_bytes(ValueView::Float(bits)).len() == 8,
        u64_at(value_bytes(ValueView::Float(bits)), 0) == bits,
        value_bytes(ValueView::Bool(b)) == seq![if b { 1u8 } else { 0u8 }],
        value_bytes(ValueView::Str(s)) == encode_utf8(s),
        value_bytes(ValueView::Bytes(raw)) == raw,
        value_bytes(ValueView::Temporal(raw)) == raw,
        value_bytes(ValueView::ListOpaque(raw)) == raw,
        value_bytes(ValueView::MapOpaque(raw)) == raw,
        value_tag(ValueView::Null) is Null && value_tag(ValueView::Int(i)) is Int64,
        value_tag(ValueView::Float(bits)) is Float64 && value_tag(ValueView::Bool(b)) is Bool,
        value_tag(ValueView::Str(s)) is StrInline && value_tag(ValueView::Bytes(raw)) is Bytes,
        value_tag(ValueView::Temporal(raw)) is Temporal,
        value_tag(ValueView::ListOpaque(raw)) is ListRef,
        value_tag(ValueView::MapOpaque(raw)) is MapRef,
{
    lemma_u64_read_back(value_bytes(ValueView::Int(i)), 0, #[verifier::truncate] (i as u64));
    lemma_u64_read_back(value_bytes(ValueView::Float(bits)), 0, bits);
}

// ---- where a value goes ---------------------------------------------------

/// The first 64 properties have an entry in the block. A value of at most 255
/// bytes stands there itself; a longer string, and a list or map that is longer or
/// empty, stands in the overflow payload. There is such a payload exactly where
/// something has to go there.
pub proof fn law_where_a_value_goes(bag: Bag, tail: u64, i: int)
    requires
        encodable(bag),
        0 <= i < bag.len(),
        i < 64,
    ensures
        ({
            let b = block_bytes(bag, tail);
            let v = bag[i].1;
            let n = value_bytes(v).len();
            &&& entry_count(b) == if bag.len() <= 64 {
                bag.len() as int
            } else {
                64
            }
            &&& u32_at(b, 8 + 8 * i) == bag[i].0
            &&& n <= 255 && !((v is ListOpaque || v is MapOpaque) && n == 0) ==> entry_result(b, i)
                == Ok::<LookupView, BlockFault>(LookupView::Found(v))
            &&& (v is Str || v is ListOpaque || v is MapOpaque) && n > 255 ==> (entry_result(b, i)
                matches Ok(LookupView::InOverflow { tag, len, .. }) && tag == value_tag(v) && len
                == n)
            &&& (v is ListOpaque || v is MapOpaque) && n == 0 ==> (entry_result(b, i) matches Ok(
                LookupView::InOverflow { tag, len, .. },
            ) && tag == value_tag(v) && len == 0)
            &&& u16_at(b, 2) == 1 <==> overflows(bag)
        }),
{
    law_block_parses(bag, tail);
    let b = block_bytes(bag, tail);
    assert(entry_key(b, i) == bag[i].0);
    assert(entry_result(b, i) == entry_result(b, i));
    crate::prop_laws::lemma_spill_len(bag, i);
}

/// A bag overflows exactly where it has more than 64 properties, or one of its
/// first 64 is too long, or an empty list or map.
pub proof fn law_when_a_bag_overflows(bag: Bag)
    ensures
        overflows(bag) <==> bag.len() > 64 || exists|i: int|
            0 <= i < bag.len() && i < 64 && too_long(#[trigger] bag[i].1),
{
    lemma_spilled_len(primary_of(bag));
    if exists|i: int| 0 <= i < bag.len() && i < 64 && too_long(#[trigger] bag[i].1) {
        let i = choose|i: int| 0 <= i < bag.len() && i < 64 && too_long(#[trigger] bag[i].1);
        assert(primary_of(bag)[i] == bag[i]);
    }
    if exists|i: int| 0 <= i < primary_of(bag).len() && too_long(#[trigger] primary_of(bag)[i].1) {
        let i = choose|i: int|
            0 <= i < primary_of(bag).len() && too_long(#[trigger] primary_of(bag)[i].1);
        assert(primary_of(bag)[i] == bag[i]);
    }
}

/// The value cannot stand in the block: a string of more than 255 bytes, or a
/// list or map of more or of none.
pub open spec fn too_long(v: ValueView) -> bool {
    match v {
        ValueView::Str(s) => encode_utf8(s).len() > 255,
        ValueView::ListOpaque(b) => b.len() == 0 || b.len() > 255,
        ValueView::MapOpaque(b) => b.len() == 0 || b.len() > 255,
        _ => false,
    }
}

proof fn lemma_spilled_len(primary: Bag)
    ensures
        spilled(primary).len() > 0 <==> exists|i: int|
            0 <= i < primary.len() && too_long(#[trigger] primary[i].1),
    decreases primary.len(),
{
    if primary.len() > 0 {
        let rest = primary.drop_last();
        let n = primary.len() - 1;
        lemma_spilled_len(rest);
        assert(too_long(primary[n].1) <==> spills(primary[n].1));
        if exists|i: int| 0 <= i < rest.len() && too_long(#[trigger] rest[i].1) {
            let i = choose|i: int| 0 <= i < rest.len() && too_long(#[trigger] rest[i].1);
            assert(too_long(primary[i].1));
        }
        if exists|i: int| 0 <= i < primary.len() && too_long(#[trigger] primary[i].1) {
            let i = choose|i: int| 0 <= i < primary.len() && too_long(#[trigger] primary[i].1);
            if i < n {
                assert(too_long(rest[i].1));
            }
        }
    }
}

/// Raw bytes and temporal values of more than 255 bytes have no form among the
/// first 64 properties: the bag cannot be encoded, and the first of them is
/// reported. Without one the layout alone can stand against the bag.
pub proof fn law_oversize_values_are_refused(bag: Bag, i: int)
    requires
        0 <= i < bag.len(),
        i < 64,
        forall|j: int| 0 <= j < i ==> !oversized(#[trigger] bag[j].1),
    ensures
        bag[i].1 matches ValueView::Bytes(raw) ==> raw.len() > 255 ==> build_error(bag) == Some(
            PropBlockEncodeError::ReservedValueTooLarge {
                kind: ReservedKind::Bytes,
                len: raw.len() as usize,
            },
        ),
        bag[i].1 matches ValueView::Temporal(raw) ==> raw.len() > 255 ==> build_error(bag) == Some(
            PropBlockEncodeError::ReservedValueTooLarge {
                kind: ReservedKind::Temporal,
                len: raw.len() as usize,
            },
        ),
{
    let primary = primary_of(bag);
    assert(primary[i] == bag[i]);
    assert forall|j: int| 0 <= j < i implies !oversized(#[trigger] primary[j].1) by {
        assert(primary[j] == bag[j]);
        assert(!oversized(bag[j].1));
    }
    lemma_none_before(primary, i);
    if oversized(bag[i].1) {
        lemma_first_stays(primary, i + 1, primary.len() as int);
    }
}

/// The value has no form in the block.
pub open spec fn oversized(v: ValueView) -> bool {
    match v {
        ValueView::Bytes(raw) => raw.len() > 255,
        ValueView::Temporal(raw) => raw.len() > 255,
        _ => false,
    }
}

pub proof fn lemma_none_before(primary: Bag, k: int)
    requires
        0 <= k <= primary.len(),
        forall|j: int| 0 <= j < k ==> !oversized(#[trigger] primary[j].1),
    ensures
        first_oversize(primary, k) is None,
    decreases k,
{
    if k > 0 {
        lemma_none_before(primary, k - 1);
        assert(!oversized(primary[k - 1].1));
    }
}

proof fn lemma_first_stays(primary: Bag, j: int, k: int)
    requires
        0 <= j <= k,
        first_oversize(primary, j) is Some,
    ensures
        first_oversize(primary, k) == first_oversize(primary, j),
    decreases k,
{
    if j < k {
        lemma_first_stays(primary, j, k - 1);
    }
}

/// A bag without such a value is refused only where its overflow payload would
/// outgrow its directory's counts and offsets.
pub proof fn law_small_bags_are_encoded(bag: Bag)
    requires
        forall|j: int| 0 <= j < bag.len() && j < 64 ==> !oversized(#[trigger] bag[j].1),
        bag.len() <= 64 + 65535,
        overflow_bytes(bag).len() <= 0xFFFF_FFFF,
    ensures
        build_error(bag) is None,
{
    let primary = primary_of(bag);
    assert forall|j: int| 0 <= j < primary.len() implies !oversized(#[trigger] primary[j].1) by {
        assert(primary[j] == bag[j]);
    }
    lemma_none_before(primary, primary.len() as int);
    crate::prop_laws::lemma_layout_fits(bag);
}

// ---- what parses ----------------------------------------------------------

/// A block that parses: its version, its count and its flags are known, its keys
/// ascend, every type is known, and every payload lies behind the directory and
/// before the tail, at a multiple of four.
pub proof fn law_parsed_block(b: Seq<u8>, i: int, j: int)
    requires
        block_result(b) is Ok,
        0 <= i < j < b[1],
    ensures
        b.len() >= 8 + 8 * b[1] + if u16_at(b, 2) == 1 { 8int } else { 0 },
        b[0] == 1 && b[1] <= 64 && u16_at(b, 2) <= 1,
        u32_at(b, 8 + 8 * i) < u32_at(b, 8 + 8 * j),
        1 <= b[8 + 8 * i + 4] <= 10,
        u16_at(b, 8 + 8 * i + 6) == 0 || (u16_at(b, 8 + 8 * i + 6) % 4 == 0 && 8 + 8 * b[1]
            <= u16_at(b, 8 + 8 * i + 6) < b.len()),
{
    let n = entry_count(b);
    crate::prop_block::lemma_swept_keys(b, i, j, n);
    lemma_parsed_entry(b, i, n);
}

proof fn lemma_parsed_entry(b: Seq<u8>, i: int, k: int)
    requires
        0 <= i < k,
        entry_sweep(b, k) is Ok,
        data_end(b) <= b.len(),
    ensures
        tag_of(entry_tag(b, i)) is Some,
        entry_off(b, i) == 0 || (entry_off(b, i) % 4 == 0 && entry_at(entry_count(b)) <= entry_off(
            b,
            i,
        ) < b.len()),
        entry_sweep(b, k)->Ok_0 >= entry_at(entry_count(b)),
    decreases k,
{
    lemma_sweep_from(b, k - 1);
    if i < k - 1 {
        lemma_parsed_entry(b, i, k - 1);
    }
    lemma_sweep_from(b, k);
}

proof fn lemma_sweep_from(b: Seq<u8>, k: int)
    requires
        0 <= k,
    ensures
        entry_sweep(b, k) matches Ok(cursor) ==> cursor >= entry_at(entry_count(b)),
    decreases k,
{
    if k > 0 {
        lemma_sweep_from(b, k - 1);
    }
}

/// An overflow payload that parses: its magic number, its keys, which ascend and
/// lie past those of its block, its types, and its values, which lie inside.
pub proof fn law_parsed_overflow(b: Seq<u8>, primary_max: Option<u32>, i: int, j: int)
    requires
        overflow_result(b, primary_max) is Ok,
        0 <= i < j < u16_at(b, 2),
    ensures
        b.len() >= 8 + 16 * u16_at(b, 2),
        u16_at(b, 0) == 0x564F,
        u32_at(b, 8 + 16 * i) < u32_at(b, 8 + 16 * j),
        primary_max matches Some(m) ==> m < u32_at(b, 8 + 16 * i),
        1 <= b[8 + 16 * i + 4] <= 10 && b[8 + 16 * i + 4] != 6,
        u32_at(b, 8 + 16 * i + 8) + u32_at(b, 8 + 16 * i + 12) <= b.len(),
{
    let n = xentry_count(b);
    crate::prop_block::lemma_swept_xkeys(b, primary_max, i, j, n);
    lemma_parsed_xentry(b, primary_max, i, n);
}

proof fn lemma_parsed_xentry(b: Seq<u8>, m: Option<u32>, i: int, k: int)
    requires
        0 <= i < k,
        xentry_sweep(b, m, k) is Ok,
    ensures
        tag_of(xentry_tag(b, i)) matches Some(t) && !(t is StrRef),
        xentry_off(b, i) + xentry_len(b, i) <= b.len(),
        m is Some ==> m->0 < xentry_key(b, i),
    decreases k,
{
    if i < k - 1 {
        lemma_parsed_xentry(b, m, i, k - 1);
    }
}

/// A key that no entry of a block has is absent, unless the block has an overflow
/// payload and the key is past all of its keys.
pub proof fn law_missing_key(b: Seq<u8>, key: u32)
    ensures
        u16_at(b, 2) != 1 ==> miss_result(b, key) is Absent,
        u16_at(b, 2) == 1 && b[1] > 0 && key <= u32_at(b, 8 * b[1]) ==> miss_result(b, key)
            is Absent,
        u16_at(b, 2) == 1 && b[1] > 0 && key > u32_at(b, 8 * b[1]) ==> miss_result(b, key)
            is MaybeInOverflow,
        u16_at(b, 2) == 1 && b[1] == 0 ==> miss_result(b, key) is MaybeInOverflow,
{
}

/// The tail can be set of a typed block with the overflow flag, and of nothing
/// else.
pub proof fn law_tail_can_be_set(b: Seq<u8>)
    ensures
        patch_fault(b) is None <==> b.len() >= 16 && b[0] == 1 && b[2] % 2 == 1,
{
}

/// What a value is, owned or borrowed.
pub proof fn law_value_views(s: String, raw: Vec<u8>, t: &str, part: &[u8], i: i64, bits: u64, b: bool)
    ensures
        PropValue::Null@ is Null && PropValueRef::Null@ is Null,
        PropValue::Int(i)@ == ValueView::Int(i) && PropValueRef::Int(i)@ == ValueView::Int(i),
        PropValue::Float(bits)@ == ValueView::Float(bits) && PropValueRef::Float(bits)@
            == ValueView::Float(bits),
        PropValue::Bool(b)@ == ValueView::Bool(b) && PropValueRef::Bool(b)@ == ValueView::Bool(b),
        PropValue::Str(s)@ == ValueView::Str(s@) && PropValueRef::Str(t)@ == ValueView::Str(t@),
        PropValue::Bytes(raw)@ == ValueView::Bytes(raw@),
        PropValueRef::Bytes(part)@ == ValueView::Bytes(part@),
        PropValue::Temporal(raw)@ == ValueView::Temporal(raw@),
        PropValueRef::Temporal(part)@ == ValueView::Temporal(part@),
        PropValue::ListOpaque(raw)@ == ValueView::ListOpaque(raw@),
        PropValueRef::ListOpaque(part)@ == ValueView::ListOpaque(part@),
        PropValue::MapOpaque(raw)@ == ValueView::MapOpaque(raw@),
        PropValueRef::MapOpaque(part)@ == ValueView::MapOpaque(part@),
{
}

/// What a lookup and a decoding came to.
pub proof fn law_lookup_views(
    l: Result<PrimaryLookup<'_>, PropBlockError>,
    d: Result<PropValueRef<'_>, PropBlockError>,
)
    ensures
        l is Ok <==> lookup_view(l) is Ok,
        l matches Ok(PrimaryLookup::Found(v)) ==> lookup_view(l) == Ok::<LookupView, BlockFault>(
            LookupView::Found(v@),
        ),
        l matches Ok(PrimaryLookup::InOverflow { tag, off, len }) ==> lookup_view(l) == Ok::<
            LookupView,
            BlockFault,
        >(LookupView::InOverflow { tag, off, len }),
        l matches Ok(PrimaryLookup::Absent) ==> lookup_view(l) == Ok::<LookupView, BlockFault>(
            LookupView::Absent,
        ),
        l matches Ok(PrimaryLookup::MaybeInOverflow) ==> lookup_view(l) == Ok::<
            LookupView,
            BlockFault,
        >(LookupView::MaybeInOverflow),
        l matches Err(e) ==> lookup_view(l) == Err::<LookupView, BlockFault>(e->reason),
        d matches Ok(v) ==> decoded_view(d) == Ok::<ValueView, BlockFault>(v@),
        d matches Err(e) ==> decoded_view(d) == Err::<ValueView, BlockFault>(e->reason),
{
}

} // verus!
