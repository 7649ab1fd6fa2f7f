//! Typed property blocks: encode a bag of properties, look properties up
//! without decoding the rest.
//!
//! The layout is described in [`crate::prop_model`]. A block that violates it
//! in any way is reported as corrupt; nothing is read as absent or as another
//! type because its bytes are damaged.

use std::collections::BTreeMap;

use vstd::prelude::*;
use vstd::std_specs::btree::group_btree_axioms;
use vstd::string::StringSliceAdditionalSpecFns;
use vstd::slice::slice_subrange;
use vstd::utf8::{decode_utf8, encode_utf8_decode_utf8, valid_utf8};
use crate::checksum::{crc32c, crc32c_append};
use crate::codec::{
    get_u16, get_u32, get_u64, group_codec, le16, le64, push_bytes, push_u16, push_u32, push_u64,
    put_u32, put_u64, splice, u16_at,
};
use crate::prop_entries::{
    bag_in, bag_of, lemma_bag_exists, lemma_bag_len, list_entries, lists_map, put_entry,
};
use crate::prop_laws::{law_built_bag_reads_back, law_order_of_puts, read_property};
use crate::prop_model::{
    align4, ascending, block_bytes, block_check, block_result, data_end, dir_check, entries_bytes,
    entry_at, entry_count, entry_key, entry_len, entry_off, entry_payload, entry_result, entry_step,
    entry_sweep, entry_tag, extent_result, extra_fault, extra_of, extra_off, extra_values,
    finite_bits, first_oversize, has_tail, layout_fault, locator_result, miss_result, normal,
    normal_bag, overflow_base, overflow_bytes, overflow_result, overflows, oversize, payload_off,
    place, primary_of, region, spill_fault, spill_off, spilled, spills, stamped, stored_len,
    stored_payload, stored_payloads, stored_tag, tag_byte, tag_of, tail_result, value_bytes,
    value_result, value_tag, xentries_bytes, xentry_at, xentry_count, xentry_key, xentry_len,
    xentry_off, xentry_result, xentry_step, xentry_sweep, xentry_tag, xlen_ok, Bag, LookupView,
    ValueView,
};
use crate::prop_value_laws::law_stored_form;
use crate::property::{blob_bits, BlobRef};

pub use crate::prop_model::{
    BlockFault, LayoutFault, PropTag, BLOCK_HEADER_SIZE, FLAG_HAS_OVERFLOW, HEADER_ENTRY_SIZE,
    LOCATOR_SIZE, MAX_INLINE_LEN, MAX_PRIMARY_ENTRIES, OVERFLOW_HEADER_SIZE, OVERFLOW_MAGIC,
    OVERFLOW_TAIL_SIZE, PROP_BLOCK_DISCRIMINANT, PROP_BLOCK_VERSION, XENTRY_SIZE,
};

verus! {

broadcast use group_codec;

// ---- errors ---------------------------------------------------------------

/// Errors of reading.
#[derive(Clone, Copy, Debug, PartialEq, Eq, Structural)]
#[non_exhaustive]
pub enum PropBlockError {
    /// The bytes violate the layout.
    Corrupt {
        /// How.
        reason: BlockFault,
    },
}

/// Value kinds that have no form outside the block.
#[derive(Clone, Copy, Debug, PartialEq, Eq, Structural)]
pub enum ReservedKind {
    /// Raw bytes.
    Bytes,
    /// Opaque temporal value.
    Temporal,
}

/// Errors of writing.
#[derive(Clone, Copy, Debug, PartialEq, Eq, Structural)]
#[non_exhaustive]
pub enum PropBlockEncodeError {
    /// A value is too long for the block and has no other form.
    ReservedValueTooLarge {
        /// Kind of the value.
        kind: ReservedKind,
        /// Its length.
        len: usize,
    },
    /// A layout limit is exceeded, or block and overflow disagree.
    LayoutOverflow {
        /// How.
        reason: LayoutFault,
    },
}

// ---- tags -----------------------------------------------------------------

impl PropTag {
    /// The tag that a byte stands for.
    pub fn from_byte(b: u8) -> (r: Result<PropTag, PropBlockError>)
        ensures
            r == match tag_of(b) {
                Some(t) => Ok::<PropTag, PropBlockError>(t),
                None => Err(PropBlockError::Corrupt { reason: BlockFault::TypeTag { got: b } }),
            },
    {
        match b {
            1 => Ok(PropTag::Null),
            2 => Ok(PropTag::Int64),
            3 => Ok(PropTag::Float64),
            4 => Ok(PropTag::Bool),
            5 => Ok(PropTag::StrInline),
            6 => Ok(PropTag::StrRef),
            7 => Ok(PropTag::Bytes),
            8 => Ok(PropTag::Temporal),
            9 => Ok(PropTag::ListRef),
            10 => Ok(PropTag::MapRef),
            _ => Err(PropBlockError::Corrupt { reason: BlockFault::TypeTag { got: b } }),
        }
    }

    /// The byte that stands for this tag.
    pub fn as_byte(self) -> (b: u8)
        ensures
            b == tag_byte(self),
            tag_of(b) == Some(self),
    {
        match self {
            PropTag::Null => 1,
            PropTag::Int64 => 2,
            PropTag::Float64 => 3,
            PropTag::Bool => 4,
            PropTag::StrInline => 5,
            PropTag::StrRef => 6,
            PropTag::Bytes => 7,
            PropTag::Temporal => 8,
            PropTag::ListRef => 9,
            PropTag::MapRef => 10,
        }
    }
}

// ---- values ---------------------------------------------------------------

/// A property value.
#[derive(Clone, Debug, PartialEq)]
pub enum PropValue {
    /// Null.
    Null,
    /// 64-bit integer.
    Int(i64),
    /// 64-bit float, by its bit pattern. One that is not finite is stored as
    /// null.
    Float(u64),
    /// Boolean.
    Bool(bool),
    /// String.
    Str(String),
    /// Raw bytes, at most 255 in the block.
    Bytes(Vec<u8>),
    /// Opaque temporal value, at most 255 bytes in the block.
    Temporal(Vec<u8>),
    /// Nested list, encoded by the caller.
    ListOpaque(Vec<u8>),
    /// Nested map, encoded by the caller.
    MapOpaque(Vec<u8>),
}

impl View for PropValue {
    type V = ValueView;

    open spec fn view(&self) -> ValueView {
        match *self {
            PropValue::Null => ValueView::Null,
            PropValue::Int(i) => ValueView::Int(i),
            PropValue::Float(bits) => ValueView::Float(bits),
            PropValue::Bool(b) => ValueView::Bool(b),
            PropValue::Str(s) => ValueView::Str(s@),
            PropValue::Bytes(b) => ValueView::Bytes(b@),
            PropValue::Temporal(b) => ValueView::Temporal(b@),
            PropValue::ListOpaque(b) => ValueView::ListOpaque(b@),
            PropValue::MapOpaque(b) => ValueView::MapOpaque(b@),
        }
    }
}

/// A property value, borrowed from a block or an overflow payload.
#[derive(Clone, Copy, Debug, PartialEq)]
pub enum PropValueRef<'a> {
    /// Null.
    Null,
    /// 64-bit integer.
    Int(i64),
    /// 64-bit float, by its bit pattern.
    Float(u64),
    /// Boolean.
    Bool(bool),
    /// String.
    Str(&'a str),
    /// Raw bytes.
    Bytes(&'a [u8]),
    /// Opaque temporal value.
    Temporal(&'a [u8]),
    /// Nested list.
    ListOpaque(&'a [u8]),
    /// Nested map.
    MapOpaque(&'a [u8]),
}

impl<'a> View for PropValueRef<'a> {
    type V = ValueView;

    open spec fn view(&self) -> ValueView {
        match *self {
            PropValueRef::Null => ValueView::Null,
            PropValueRef::Int(i) => ValueView::Int(i),
            PropValueRef::Float(bits) => ValueView::Float(bits),
            PropValueRef::Bool(b) => ValueView::Bool(b),
            PropValueRef::Str(s) => ValueView::Str(s@),
            PropValueRef::Bytes(b) => ValueView::Bytes(b@),
            PropValueRef::Temporal(b) => ValueView::Temporal(b@),
            PropValueRef::ListOpaque(b) => ValueView::ListOpaque(b@),
            PropValueRef::MapOpaque(b) => ValueView::MapOpaque(b@),
        }
    }
}

/// Copy bytes out of a slice.
fn copied(b: &[u8]) -> (v: Vec<u8>)
    ensures
        v@ == b@,
{
    let mut v: Vec<u8> = Vec::new();
    push_bytes(&mut v, b);
    assert(v@ =~= b@);
    v
}

impl<'a> PropValueRef<'a> {
    /// Copy the value out of the bytes it is borrowed from.
    pub fn to_owned_value(&self) -> (v: PropValue)
        ensures
            v@ == self@,
    {
        match *self {
            PropValueRef::Null => PropValue::Null,
            PropValueRef::Int(i) => PropValue::Int(i),
            PropValueRef::Float(bits) => PropValue::Float(bits),
            PropValueRef::Bool(b) => PropValue::Bool(b),
            PropValueRef::Str(s) => PropValue::Str(s.to_owned()),
            PropValueRef::Bytes(b) => PropValue::Bytes(copied(b)),
            PropValueRef::Temporal(b) => PropValue::Temporal(copied(b)),
            PropValueRef::ListOpaque(b) => PropValue::ListOpaque(copied(b)),
            PropValueRef::MapOpaque(b) => PropValue::MapOpaque(copied(b)),
        }
    }
}

/// `std::str::from_utf8`: by its documentation a string with exactly these
/// bytes, if they are valid UTF-8, and an error otherwise.
#[verifier::external_body]
fn str_from_utf8(b: &[u8]) -> (r: Option<&str>)
    ensures
        r is Some <==> valid_utf8(b@),
        r matches Some(s) ==> s.spec_bytes() == b@,
{
    match std::str::from_utf8(b) {
        Ok(s) => Some(s),
        Err(_) => None,
    }
}

/// The string in these bytes, if they are valid UTF-8.
pub(crate) fn read_str<'a>(b: &'a [u8]) -> (r: Option<&'a str>)
    ensures
        r is Some <==> valid_utf8(b@),
        r matches Some(s) ==> s@ == decode_utf8(b@),
{
    let r = str_from_utf8(b);
    proof {
        if let Some(s) = r {
            encode_utf8_decode_utf8(s@);
        }
    }
    r
}

// ---- metadata checksums ---------------------------------------------------

/// The metadata checksum that a block should carry.
pub fn compute_block_meta_checksum(block: &[u8]) -> (crc: u32)
    ensures
        crc == block_check(block@),
{
    if block.len() < BLOCK_HEADER_SIZE {
        return 0;
    }
    let wanted: usize = BLOCK_HEADER_SIZE + HEADER_ENTRY_SIZE * (block[1] as usize);
    let entries_end: usize = if wanted < block.len() {
        wanted
    } else {
        block.len()
    };
    let zeros: [u8; 4] = [0, 0, 0, 0];
    let mut crc: u32 = crc32c(slice_subrange(block, 0, 4));
    assert(zeros@ =~= seq![0u8, 0, 0, 0]);
    crc = crc32c_append(crc, &zeros);
    crc = crc32c_append(crc, slice_subrange(block, BLOCK_HEADER_SIZE, entries_end));
    if block[2] % 2 == 1 {
        crc = crc32c_append(
            crc,
            slice_subrange(block, block.len() - OVERFLOW_TAIL_SIZE, block.len()),
        );
    }
    crc
}

/// Set the metadata checksum of a block; nothing happens to bytes shorter than
/// a header.
pub fn stamp_block_meta_checksum(block: &mut [u8])
    ensures
        final(block)@ == stamped(old(block)@),
{
    if block.len() >= BLOCK_HEADER_SIZE {
        let crc: u32 = compute_block_meta_checksum(&*block);
        put_u32(block, 4, crc);
    }
}

/// The directory checksum that an overflow payload should carry.
pub fn compute_overflow_meta_checksum(overflow: &[u8]) -> (crc: u32)
    ensures
        crc == dir_check(overflow@),
{
    if overflow.len() < 4 {
        return 0;
    }
    let crc: u32 = crc32c(slice_subrange(overflow, 0, 4));
    if overflow.len() < OVERFLOW_HEADER_SIZE {
        return crc;
    }
    let wanted: usize = OVERFLOW_HEADER_SIZE + XENTRY_SIZE * (get_u16(overflow, 2) as usize);
    let dir_end: usize = if wanted < overflow.len() {
        wanted
    } else {
        overflow.len()
    };
    crc32c_append(crc, slice_subrange(overflow, OVERFLOW_HEADER_SIZE, dir_end))
}

// ---- reading a block ------------------------------------------------------

/// What looking up a key in a block yields.
#[derive(Clone, Copy, Debug, PartialEq)]
pub enum PrimaryLookup<'a> {
    /// The value stands in the block.
    Found(PropValueRef<'a>),
    /// The value stands in the overflow payload.
    InOverflow {
        /// Type of the value.
        tag: PropTag,
        /// Its offset.
        off: u32,
        /// Its length.
        len: u32,
    },
    /// The bag has no such key.
    Absent,
    /// Only the overflow payload can tell.
    MaybeInOverflow,
}

impl<'a> View for PrimaryLookup<'a> {
    type V = LookupView;

    open spec fn view(&self) -> LookupView {
        match *self {
            PrimaryLookup::Found(v) => LookupView::Found(v@),
            PrimaryLookup::InOverflow { tag, off, len } => LookupView::InOverflow { tag, off, len },
            PrimaryLookup::Absent => LookupView::Absent,
            PrimaryLookup::MaybeInOverflow => LookupView::MaybeInOverflow,
        }
    }
}

/// The outcome of a lookup, by its views.
pub open spec fn lookup_view(r: Result<PrimaryLookup<'_>, PropBlockError>) -> Result<
    LookupView,
    BlockFault,
> {
    match r {
        Ok(l) => Ok(l@),
        Err(e) => Err(e->reason),
    }
}

/// The outcome of decoding a value, by its views.
pub open spec fn decoded_view(r: Result<PropValueRef<'_>, PropBlockError>) -> Result<
    ValueView,
    BlockFault,
> {
    match r {
        Ok(v) => Ok(v@),
        Err(e) => Err(e->reason),
    }
}

/// View of one parsed block. Parsing reads the metadata; a lookup reads the
/// one value it finds.
#[derive(Clone, Copy, Debug)]
pub struct PropBlockView<'a> {
    /// The block.
    pub bytes: &'a [u8],
}

impl<'a> View for PropBlockView<'a> {
    type V = Seq<u8>;

    open spec fn view(&self) -> Seq<u8> {
        self.bytes@
    }
}

/// The bytes that an entry's payload takes.
fn entry_extent(tag: PropTag, len: u8) -> (r: Result<usize, BlockFault>)
    ensures
        match r {
            Ok(n) => extent_result(tag, len) == Ok::<int, BlockFault>(n as int) && n <= 255,
            Err(e) => extent_result(tag, len) == Err::<int, BlockFault>(e),
        },
{
    match tag {
        PropTag::Null => if len != 0 {
            Err(BlockFault::EntryLen { tag, len })
        } else {
            Ok(0)
        },
        PropTag::Int64 | PropTag::Float64 | PropTag::StrRef => if len != 8 {
            Err(BlockFault::EntryLen { tag, len })
        } else {
            Ok(8)
        },
        PropTag::Bool => if len != 1 {
            Err(BlockFault::EntryLen { tag, len })
        } else {
            Ok(1)
        },
        PropTag::StrInline | PropTag::Bytes | PropTag::Temporal => Ok(len as usize),
        PropTag::ListRef | PropTag::MapRef => if len == 0 {
            Ok(LOCATOR_SIZE)
        } else {
            Ok(len as usize)
        },
    }
}

/// A successful sweep is one over each shorter run of entries, and its cursor
/// stays inside the data region.
proof fn lemma_sweep_prefix(b: Seq<u8>, j: int, k: int)
    requires
        0 <= j <= k,
        entry_sweep(b, k) is Ok,
    ensures
        entry_sweep(b, j) is Ok,
    decreases k - j,
{
    if j < k {
        assert(entry_sweep(b, k - 1) is Ok);
        lemma_sweep_prefix(b, j, k - 1);
    }
}

/// Each entry that a sweep accepted has a known tag, a suitable length and a
/// payload inside the block.
proof fn lemma_swept_entry(b: Seq<u8>, i: int, k: int)
    requires
        0 <= i < k,
        entry_sweep(b, k) is Ok,
        data_end(b) <= b.len(),
    ensures
        tag_of(entry_tag(b, i)) is Some,
        extent_result(tag_of(entry_tag(b, i))->0, entry_len(b, i)) is Ok,
        ({
            let x = extent_result(tag_of(entry_tag(b, i))->0, entry_len(b, i))->Ok_0;
            0 <= x && (x > 0 ==> entry_off(b, i) + x <= b.len())
        }),
        i > 0 ==> entry_key(b, i - 1) < entry_key(b, i),
{
    lemma_sweep_prefix(b, i + 1, k);
}

/// Keys that a sweep accepted are strictly ascending.
pub proof fn lemma_swept_keys(b: Seq<u8>, i: int, j: int, k: int)
    requires
        0 <= i < j < k,
        entry_sweep(b, k) is Ok,
        data_end(b) <= b.len(),
    ensures
        entry_key(b, i) < entry_key(b, j),
    decreases j - i,
{
    lemma_swept_entry(b, j, k);
    if i + 1 < j {
        lemma_swept_keys(b, i, j - 1, k);
    }
}

impl<'a> PropBlockView<'a> {
    /// Check entry `i` and advance the cursor past its payload.
    fn validate_entry(bytes: &'a [u8], i: usize, cursor: usize) -> (r: Result<usize, BlockFault>)
        requires
            bytes@.len() >= BLOCK_HEADER_SIZE,
            i < entry_count(bytes@) <= MAX_PRIMARY_ENTRIES,
            entry_at(entry_count(bytes@)) <= data_end(bytes@),
            u16_at(bytes@, 2) <= 1,
            cursor <= data_end(bytes@),
            cursor <= 0x1_0100,
        ensures
            match r {
                Ok(c) => entry_step(bytes@, i as int, cursor as int) == Ok::<int, BlockFault>(
                    c as int,
                ) && c <= data_end(bytes@) && c <= 0x1_0100,
                Err(e) => entry_step(bytes@, i as int, cursor as int) == Err::<int, BlockFault>(e),
            },
    {
        let at: usize = BLOCK_HEADER_SIZE + HEADER_ENTRY_SIZE * i;
        let key: u32 = get_u32(bytes, at);
        let tag = match PropTag::from_byte(bytes[at + 4]) {
            Ok(t) => t,
            Err(_) => {
                return Err(BlockFault::TypeTag { got: bytes[at + 4] });
            },
        };
        let len: u8 = bytes[at + 5];
        let off: u16 = get_u16(bytes, at + 6);
        if i > 0 && key <= get_u32(bytes, at - HEADER_ENTRY_SIZE) {
            return Err(BlockFault::NotAscending { index: i });
        }
        let extent: usize = match entry_extent(tag, len) {
            Ok(n) => n,
            Err(e) => {
                return Err(e);
            },
        };
        if extent == 0 {
            if off != 0 {
                return Err(BlockFault::ZeroExtentOffset { index: i, offset: off });
            }
            return Ok(cursor);
        }
        let tail: bool = get_u16(bytes, 2) == FLAG_HAS_OVERFLOW;
        let end: usize = if tail {
            bytes.len() - OVERFLOW_TAIL_SIZE
        } else {
            bytes.len()
        };
        let pad: usize = (4 - cursor % 4) % 4;
        if off as usize != cursor + pad {
            return Err(
                BlockFault::Placement { index: i, offset: off as usize, expected: cursor + pad },
            );
        }
        if off as usize + extent > end {
            return Err(BlockFault::EscapesData { index: i });
        }
        let locator: bool = match tag {
            PropTag::StrRef => true,
            PropTag::ListRef | PropTag::MapRef => len == 0,
            _ => false,
        };
        if locator && !tail {
            return Err(BlockFault::LocatorWithoutOverflow { index: i });
        }
        Ok(off as usize + extent)
    }
}

/// A block that parsed.
pub open spec fn block_ok(b: Seq<u8>) -> bool {
    block_result(b) is Ok
}

impl<'a> PropBlockView<'a> {
    /// Parse a block: check everything but the values.
    pub fn parse(bytes: &'a [u8]) -> (r: Result<PropBlockView<'a>, PropBlockError>)
        ensures
            match r {
                Ok(v) => v@ == bytes@ && block_result(bytes@) is Ok,
                Err(e) => block_result(bytes@) == Err::<(), BlockFault>(e->reason),
            },
    {
        match Self::check(bytes) {
            Ok(_) => Ok(PropBlockView { bytes }),
            Err(reason) => Err(PropBlockError::Corrupt { reason }),
        }
    }

    fn check(bytes: &'a [u8]) -> (r: Result<(), BlockFault>)
        ensures
            r == block_result(bytes@),
    {
        if bytes.len() < BLOCK_HEADER_SIZE {
            return Err(BlockFault::TooShort { len: bytes.len() });
        }
        if bytes[0] != PROP_BLOCK_VERSION {
            return Err(BlockFault::Version { got: bytes[0] });
        }
        if bytes[1] as usize > MAX_PRIMARY_ENTRIES {
            return Err(BlockFault::PropCount { got: bytes[1] });
        }
        let flags: u16 = get_u16(bytes, 2);
        if flags > 1 {
            return Err(BlockFault::ReservedFlags { got: flags });
        }
        let count: usize = bytes[1] as usize;
        let entries_end: usize = BLOCK_HEADER_SIZE + HEADER_ENTRY_SIZE * count;
        let tail: usize = if flags == FLAG_HAS_OVERFLOW {
            OVERFLOW_TAIL_SIZE
        } else {
            0
        };
        if bytes.len() < entries_end + tail {
            return Err(BlockFault::Length { len: bytes.len(), count: bytes[1] });
        }
        let end: usize = bytes.len() - tail;
        let mut cursor: usize = entries_end;
        let mut i: usize = 0;
        while i < count
            invariant
                bytes@.len() >= BLOCK_HEADER_SIZE,
                i <= count == entry_count(bytes@) <= MAX_PRIMARY_ENTRIES,
                bytes@[0] == PROP_BLOCK_VERSION,
                entry_at(entry_count(bytes@)) <= data_end(bytes@) == end,
                u16_at(bytes@, 2) <= 1,
                cursor <= end,
                cursor <= 0x1_0100,
                entry_sweep(bytes@, i as int) == Ok::<int, BlockFault>(cursor as int),
            decreases count - i,
        {
            match Self::validate_entry(bytes, i, cursor) {
                Ok(c) => {
                    cursor = c;
                },
                Err(e) => {
                    proof {
                        lemma_sweep_stops(bytes@, i + 1, count as int);
                    }
                    return Err(e);
                },
            }
            i += 1;
        }
        if cursor != end {
            return Err(BlockFault::DataEnd { data_end: end, cursor });
        }
        let stored: u32 = get_u32(bytes, 4);
        let computed: u32 = compute_block_meta_checksum(bytes);
        if stored != computed {
            return Err(BlockFault::Checksum { stored, computed });
        }
        Ok(())
    }

    /// Entries of the block.
    pub fn prop_count(&self) -> (n: usize)
        requires
            block_ok(self@),
        ensures
            n == entry_count(self@),
    {
        self.bytes[1] as usize
    }

    /// Whether the block has an overflow tail.
    pub fn has_overflow(&self) -> (r: bool)
        requires
            block_ok(self@),
        ensures
            r == has_tail(self@),
    {
        get_u16(self.bytes, 2) == FLAG_HAS_OVERFLOW
    }

    /// The reference to the overflow payload.
    pub fn overflow_ref(&self) -> (r: Result<Option<BlobRef>, PropBlockError>)
        requires
            block_ok(self@),
        ensures
            r == match tail_result(self@) {
                Ok(o) => Ok::<Option<BlobRef>, PropBlockError>(o),
                Err(reason) => Err(PropBlockError::Corrupt { reason }),
            },
    {
        if !self.has_overflow() {
            return Ok(None);
        }
        let raw: u64 = get_u64(self.bytes, self.bytes.len() - OVERFLOW_TAIL_SIZE);
        match BlobRef::decode(raw) {
            Some(blob) => Ok(Some(blob)),
            None => Err(PropBlockError::Corrupt { reason: BlockFault::TailRef { raw } }),
        }
    }

    /// The keys of the block's entries, ascending.
    pub fn key_ids(&self) -> (out: Vec<u32>)
        requires
            block_ok(self@),
        ensures
            out@ == Seq::new(entry_count(self@) as nat, |i: int| entry_key(self@, i)),
    {
        let count: usize = self.prop_count();
        let mut out: Vec<u32> = Vec::new();
        let mut i: usize = 0;
        while i < count
            invariant
                block_ok(self@),
                i <= count == entry_count(self@),
                out@ == Seq::new(i as nat, |j: int| entry_key(self@, j)),
            decreases count - i,
        {
            out.push(get_u32(self.bytes, BLOCK_HEADER_SIZE + HEADER_ENTRY_SIZE * i));
            i += 1;
            assert(out@ =~= Seq::new(i as nat, |j: int| entry_key(self@, j)));
        }
        out
    }

    /// The largest key of the block's entries.
    pub fn max_primary_key_id(&self) -> (r: Option<u32>)
        requires
            block_ok(self@),
        ensures
            r == if entry_count(self@) == 0 {
                None::<u32>
            } else {
                Some(entry_key(self@, entry_count(self@) - 1))
            },
    {
        let count: usize = self.prop_count();
        if count == 0 {
            return None;
        }
        Some(get_u32(self.bytes, BLOCK_HEADER_SIZE + HEADER_ENTRY_SIZE * (count - 1)))
    }

    /// Look a key up.
    pub fn get(&self, key_id: u32) -> (r: Result<PrimaryLookup<'a>, PropBlockError>)
        requires
            block_ok(self@),
        ensures
            forall|i: int|
                0 <= i < entry_count(self@) && #[trigger] entry_key(self@, i) == key_id
                    ==> lookup_view(r) == entry_result(self@, i),
            (forall|i: int|
                0 <= i < entry_count(self@) ==> #[trigger] entry_key(self@, i) != key_id)
                ==> lookup_view(r) == Ok::<LookupView, BlockFault>(miss_result(self@, key_id)),
    {
        let count: usize = self.prop_count();
        let mut lo: usize = 0;
        let mut hi: usize = count;
        while lo < hi
            invariant
                block_ok(self@),
                lo <= hi <= count == entry_count(self@),
                forall|i: int| 0 <= i < lo ==> #[trigger] entry_key(self@, i) < key_id,
                forall|i: int| hi <= i < count ==> #[trigger] entry_key(self@, i) > key_id,
            decreases hi - lo,
        {
            let mid: usize = lo + (hi - lo) / 2;
            let k: u32 = get_u32(self.bytes, BLOCK_HEADER_SIZE + HEADER_ENTRY_SIZE * mid);
            proof {
                assert forall|i: int| 0 <= i < count && i != mid implies (i < mid <==> #[trigger] entry_key(
                    self@,
                    i,
                ) < entry_key(self@, mid as int)) && entry_key(self@, i) != entry_key(
                    self@,
                    mid as int,
                ) by {
                    if i < mid {
                        lemma_swept_keys(self@, i, mid as int, count as int);
                    } else {
                        lemma_swept_keys(self@, mid as int, i, count as int);
                    }
                }
            }
            if k < key_id {
                lo = mid + 1;
            } else if k > key_id {
                hi = mid;
            } else {
                return self.resolve_entry(mid);
            }
        }
        if self.has_overflow() {
            match self.max_primary_key_id() {
                None => {
                    return Ok(PrimaryLookup::MaybeInOverflow);
                },
                Some(max) => {
                    if key_id > max {
                        return Ok(PrimaryLookup::MaybeInOverflow);
                    }
                },
            }
        }
        Ok(PrimaryLookup::Absent)
    }

    /// Decode entry `i`: its value, or its locator.
    fn resolve_entry(&self, i: usize) -> (r: Result<PrimaryLookup<'a>, PropBlockError>)
        requires
            block_ok(self@),
            i < entry_count(self@),
        ensures
            lookup_view(r) == entry_result(self@, i as int),
    {
        proof {
            lemma_swept_entry(self@, i as int, entry_count(self@));
        }
        let at: usize = BLOCK_HEADER_SIZE + HEADER_ENTRY_SIZE * i;
        let tag = match PropTag::from_byte(self.bytes[at + 4]) {
            Ok(t) => t,
            Err(e) => {
                return Err(e);
            },
        };
        let len: u8 = self.bytes[at + 5];
        let off: usize = get_u16(self.bytes, at + 6) as usize;
        let extent: usize = match entry_extent(tag, len) {
            Ok(n) => n,
            Err(reason) => {
                return Err(PropBlockError::Corrupt { reason });
            },
        };
        let start: usize = if extent == 0 {
            0
        } else {
            off
        };
        let p = slice_subrange(self.bytes, start, start + extent);
        assert(p@ =~= entry_payload(self@, i as int));
        match tag {
            PropTag::Null => Ok(PrimaryLookup::Found(PropValueRef::Null)),
            PropTag::Int64 => Ok(PrimaryLookup::Found(PropValueRef::Int(get_u64(p, 0) as i64))),
            PropTag::Float64 => Ok(PrimaryLookup::Found(PropValueRef::Float(get_u64(p, 0)))),
            PropTag::Bool => {
                if p[0] > 1 {
                    return Err(
                        PropBlockError::Corrupt { reason: BlockFault::BoolByte { got: p[0] } },
                    );
                }
                Ok(PrimaryLookup::Found(PropValueRef::Bool(p[0] == 1)))
            },
            PropTag::StrInline => match read_str(p) {
                Some(s) => Ok(PrimaryLookup::Found(PropValueRef::Str(s))),
                None => Err(PropBlockError::Corrupt { reason: BlockFault::Utf8 }),
            },
            PropTag::Bytes => Ok(PrimaryLookup::Found(PropValueRef::Bytes(p))),
            PropTag::Temporal => Ok(PrimaryLookup::Found(PropValueRef::Temporal(p))),
            PropTag::StrRef => Ok(
                PrimaryLookup::InOverflow {
                    tag: PropTag::StrInline,
                    off: get_u32(p, 0),
                    len: get_u32(p, 4),
                },
            ),
            PropTag::ListRef => if len == 0 {
                Ok(PrimaryLookup::InOverflow { tag, off: get_u32(p, 0), len: get_u32(p, 4) })
            } else {
                Ok(PrimaryLookup::Found(PropValueRef::ListOpaque(p)))
            },
            PropTag::MapRef => if len == 0 {
                Ok(PrimaryLookup::InOverflow { tag, off: get_u32(p, 0), len: get_u32(p, 4) })
            } else {
                Ok(PrimaryLookup::Found(PropValueRef::MapOpaque(p)))
            },
        }
    }

    /// Key, tag, length and payload offset of entry `i`.
    pub fn entry(&self, i: usize) -> (r: Result<(u32, PropTag, u8, u16), PropBlockError>)
        requires
            block_ok(self@),
            i < entry_count(self@),
        ensures
            r matches Ok(e) && e.0 == entry_key(self@, i as int) && tag_of(
                entry_tag(self@, i as int),
            ) == Some(e.1) && e.2 == entry_len(self@, i as int) && e.3 == entry_off(
                self@,
                i as int,
            ),
    {
        proof {
            lemma_swept_entry(self@, i as int, entry_count(self@));
        }
        let at: usize = BLOCK_HEADER_SIZE + HEADER_ENTRY_SIZE * i;
        match PropTag::from_byte(self.bytes[at + 4]) {
            Ok(t) => Ok(
                (get_u32(self.bytes, at), t, self.bytes[at + 5], get_u16(self.bytes, at + 6)),
            ),
            Err(e) => Err(e),
        }
    }
}

/// A sweep that failed stays failed.
proof fn lemma_sweep_stops(b: Seq<u8>, j: int, k: int)
    requires
        0 <= j <= k,
        entry_sweep(b, j) is Err,
    ensures
        entry_sweep(b, k) == entry_sweep(b, j),
    decreases k - j,
{
    if j < k {
        lemma_sweep_stops(b, j, k - 1);
    }
}

// ---- reading an overflow payload ------------------------------------------

/// View of one parsed overflow payload.
#[derive(Clone, Copy, Debug)]
pub struct OverflowView<'a> {
    /// The payload.
    pub bytes: &'a [u8],
}

impl<'a> View for OverflowView<'a> {
    type V = Seq<u8>;

    open spec fn view(&self) -> Seq<u8> {
        self.bytes@
    }
}

/// An overflow payload that parsed, for some bound on the block's keys.
pub open spec fn overflow_ok(b: Seq<u8>) -> bool {
    exists|m: Option<u32>| #[trigger] overflow_result(b, m) is Ok
}

/// A sweep that failed stays failed.
proof fn lemma_xsweep_stops(b: Seq<u8>, m: Option<u32>, j: int, k: int)
    requires
        0 <= j <= k,
        xentry_sweep(b, m, j) is Err,
    ensures
        xentry_sweep(b, m, k) == xentry_sweep(b, m, j),
    decreases k - j,
{
    if j < k {
        lemma_xsweep_stops(b, m, j, k - 1);
    }
}

/// A successful sweep is one over each shorter run of xentries.
proof fn lemma_xsweep_prefix(b: Seq<u8>, m: Option<u32>, j: int, k: int)
    requires
        0 <= j <= k,
        xentry_sweep(b, m, k) is Ok,
    ensures
        xentry_sweep(b, m, j) is Ok,
    decreases k - j,
{
    if j < k {
        assert(xentry_sweep(b, m, k - 1) is Ok);
        lemma_xsweep_prefix(b, m, j, k - 1);
    }
}

/// Each xentry that a sweep accepted has a known tag and a value inside the
/// payload, and its key is past the one before it.
proof fn lemma_swept_xentry(b: Seq<u8>, m: Option<u32>, i: int, k: int)
    requires
        0 <= i < k,
        xentry_sweep(b, m, k) is Ok,
    ensures
        tag_of(xentry_tag(b, i)) is Some,
        xentry_off(b, i) + xentry_len(b, i) <= b.len(),
        i > 0 ==> xentry_key(b, i - 1) < xentry_key(b, i),
        m is Some ==> m->0 < xentry_key(b, i),
{
    lemma_xsweep_prefix(b, m, i + 1, k);
}

/// Keys that a sweep accepted are strictly ascending.
pub proof fn lemma_swept_xkeys(b: Seq<u8>, m: Option<u32>, i: int, j: int, k: int)
    requires
        0 <= i < j < k,
        xentry_sweep(b, m, k) is Ok,
    ensures
        xentry_key(b, i) < xentry_key(b, j),
    decreases j - i,
{
    lemma_swept_xentry(b, m, j, k);
    if i + 1 < j {
        lemma_swept_xkeys(b, m, i, j - 1, k);
    }
}

/// An optional offset as a number.
pub open spec fn opt_int(o: Option<usize>) -> Option<int> {
    match o {
        Some(n) => Some(n as int),
        None => None,
    }
}

/// The value that bytes in an overflow payload stand for.
fn decode_at<'a>(tag: PropTag, raw: &'a [u8]) -> (r: Result<PropValueRef<'a>, PropBlockError>)
    ensures
        decoded_view(r) == value_result(tag, raw@),
{
    match tag {
        PropTag::Null => Ok(PropValueRef::Null),
        PropTag::Int64 => {
            if raw.len() != 8 {
                return Err(PropBlockError::Corrupt { reason: BlockFault::ScalarLen { tag } });
            }
            Ok(PropValueRef::Int(get_u64(raw, 0) as i64))
        },
        PropTag::Float64 => {
            if raw.len() != 8 {
                return Err(PropBlockError::Corrupt { reason: BlockFault::ScalarLen { tag } });
            }
            Ok(PropValueRef::Float(get_u64(raw, 0)))
        },
        PropTag::Bool => {
            if raw.len() != 1 || raw[0] > 1 {
                return Err(PropBlockError::Corrupt { reason: BlockFault::ScalarLen { tag } });
            }
            Ok(PropValueRef::Bool(raw[0] == 1))
        },
        PropTag::StrInline => match read_str(raw) {
            Some(s) => Ok(PropValueRef::Str(s)),
            None => Err(PropBlockError::Corrupt { reason: BlockFault::Utf8 }),
        },
        PropTag::Bytes => Ok(PropValueRef::Bytes(raw)),
        PropTag::Temporal => Ok(PropValueRef::Temporal(raw)),
        PropTag::ListRef => Ok(PropValueRef::ListOpaque(raw)),
        PropTag::MapRef => Ok(PropValueRef::MapOpaque(raw)),
        PropTag::StrRef => Err(PropBlockError::Corrupt { reason: BlockFault::OverflowStrRef }),
    }
}

impl<'a> OverflowView<'a> {
    /// Parse an overflow payload: check everything but the values.
    /// `primary_max_key` is the largest key of the owning block's entries.
    pub fn parse(bytes: &'a [u8], primary_max_key: Option<u32>) -> (r: Result<
        OverflowView<'a>,
        PropBlockError,
    >)
        ensures
            match r {
                Ok(v) => v@ == bytes@ && overflow_result(bytes@, primary_max_key) is Ok,
                Err(e) => overflow_result(bytes@, primary_max_key) == Err::<(), BlockFault>(
                    e->reason,
                ),
            },
    {
        match Self::check(bytes, primary_max_key) {
            Ok(_) => Ok(OverflowView { bytes }),
            Err(reason) => Err(PropBlockError::Corrupt { reason }),
        }
    }

    /// Check the range and shape of xentry `i`'s value.
    fn validate_xrange(bytes: &'a [u8], i: usize, tag: PropTag, off: u32, len: u32) -> (r: Result<
        (),
        BlockFault,
    >)
        requires
            bytes@.len() >= xentry_at(xentry_count(bytes@)),
        ensures
            r == if !xlen_ok(tag, len) {
                Err::<(), BlockFault>(BlockFault::XLen { index: i, len })
            } else if len == 0 {
                if off != 0 {
                    Err(BlockFault::XZeroOffset { index: i })
                } else {
                    Ok(())
                }
            } else if off % 4 != 0 {
                Err(BlockFault::XUnaligned { index: i })
            } else if off < xentry_at(xentry_count(bytes@)) || off + len > bytes@.len() {
                Err(BlockFault::XEscapes { index: i })
            } else {
                Ok(())
            },
    {
        let suits: bool = match tag {
            PropTag::Null => len == 0,
            PropTag::Int64 | PropTag::Float64 => len == 8,
            PropTag::Bool => len == 1,
            _ => true,
        };
        if !suits {
            return Err(BlockFault::XLen { index: i, len });
        }
        if len == 0 {
            if off != 0 {
                return Err(BlockFault::XZeroOffset { index: i });
            }
            return Ok(());
        }
        if off % 4 != 0 {
            return Err(BlockFault::XUnaligned { index: i });
        }
        let dir_end: u64 = OVERFLOW_HEADER_SIZE as u64 + XENTRY_SIZE as u64 * (get_u16(
            bytes,
            2,
        ) as u64);
        if (off as u64) < dir_end || off as u64 + len as u64 > bytes.len() as u64 {
            return Err(BlockFault::XEscapes { index: i });
        }
        Ok(())
    }

    /// Check xentry `i`; yields where the last value now ends.
    fn validate_xentry(
        bytes: &'a [u8],
        primary_max_key: Option<u32>,
        i: usize,
        prev_end: Option<usize>,
    ) -> (r: Result<Option<usize>, BlockFault>)
        requires
            bytes@.len() >= OVERFLOW_HEADER_SIZE,
            i < xentry_count(bytes@),
            bytes@.len() >= xentry_at(xentry_count(bytes@)),
            prev_end is Some ==> prev_end->0 <= bytes@.len(),
        ensures
            match r {
                Ok(e) => {
                    &&& xentry_step(bytes@, primary_max_key, i as int, opt_int(prev_end)) == Ok::<
                        Option<int>,
                        BlockFault,
                    >(opt_int(e))
                    &&& e is Some ==> e->0 <= bytes@.len()
                },
                Err(f) => xentry_step(bytes@, primary_max_key, i as int, opt_int(prev_end)) == Err::<
                    Option<int>,
                    BlockFault,
                >(f),
            },
    {
        assert(bytes.len() == bytes@.len());
        let at: usize = OVERFLOW_HEADER_SIZE + XENTRY_SIZE * i;
        let key: u32 = get_u32(bytes, at);
        let tag = match PropTag::from_byte(bytes[at + 4]) {
            Ok(t) => t,
            Err(_) => {
                return Err(BlockFault::TypeTag { got: bytes[at + 4] });
            },
        };
        if bytes[at + 5] != 0 || bytes[at + 6] != 0 || bytes[at + 7] != 0 {
            return Err(BlockFault::XPad { index: i });
        }
        let off: u32 = get_u32(bytes, at + 8);
        let len: u32 = get_u32(bytes, at + 12);
        match primary_max_key {
            Some(max) => {
                if key <= max {
                    return Err(BlockFault::CrossDirectory { index: i });
                }
            },
            None => {},
        }
        if i > 0 && key <= get_u32(bytes, at - XENTRY_SIZE) {
            return Err(BlockFault::XNotAscending { index: i });
        }
        match tag {
            PropTag::StrRef => {
                return Err(BlockFault::XStrRef);
            },
            _ => {},
        }
        match Self::validate_xrange(bytes, i, tag, off, len) {
            Ok(_) => {},
            Err(e) => {
                return Err(e);
            },
        }
        if len == 0 {
            return Ok(prev_end);
        }
        match prev_end {
            Some(end) => {
                let pad: u64 = (4 - end as u64 % 4) % 4;
                // `end` is a length of this buffer, so the sum stays far from
                // the limit unless `off`, which is smaller, differs anyway.
                if (off as u64) < end as u64 || off as u64 - end as u64 != pad {
                    return Err(BlockFault::XPlacement { index: i });
                }
            },
            None => {},
        }
        Ok(Some(off as usize + len as usize))
    }

    fn check(bytes: &'a [u8], primary_max_key: Option<u32>) -> (r: Result<(), BlockFault>)
        ensures
            r == overflow_result(bytes@, primary_max_key),
    {
        assert(bytes.len() == bytes@.len());
        if bytes.len() < OVERFLOW_HEADER_SIZE {
            return Err(BlockFault::OverflowTooShort { len: bytes.len() });
        }
        let magic: u16 = get_u16(bytes, 0);
        if magic != OVERFLOW_MAGIC {
            return Err(BlockFault::OverflowMagic { got: magic });
        }
        let count: usize = get_u16(bytes, 2) as usize;
        if bytes.len() < OVERFLOW_HEADER_SIZE + XENTRY_SIZE * count {
            return Err(BlockFault::OverflowLength { len: bytes.len(), count: count as u16 });
        }
        let mut prev_end: Option<usize> = None;
        let mut i: usize = 0;
        while i < count
            invariant
                bytes@.len() >= OVERFLOW_HEADER_SIZE,
                i <= count == xentry_count(bytes@),
                bytes@.len() >= xentry_at(xentry_count(bytes@)),
                u16_at(bytes@, 0) == OVERFLOW_MAGIC,
                prev_end is Some ==> prev_end->0 <= bytes@.len(),
                xentry_sweep(bytes@, primary_max_key, i as int) == Ok::<Option<int>, BlockFault>(
                    opt_int(prev_end),
                ),
            decreases count - i,
        {
            match Self::validate_xentry(bytes, primary_max_key, i, prev_end) {
                Ok(e) => {
                    prev_end = e;
                },
                Err(f) => {
                    proof {
                        lemma_xsweep_stops(bytes@, primary_max_key, i + 1, count as int);
                    }
                    return Err(f);
                },
            }
            i += 1;
        }
        match prev_end {
            Some(end) => {
                if end != bytes.len() {
                    return Err(BlockFault::XDataEnd { end });
                }
            },
            None => {},
        }
        let stored: u32 = get_u32(bytes, 4);
        let computed: u32 = compute_overflow_meta_checksum(bytes);
        if stored != computed {
            return Err(BlockFault::DirChecksum { stored, computed });
        }
        Ok(())
    }

    /// Xentries of the payload.
    pub fn xentry_count(&self) -> (n: usize)
        requires
            overflow_ok(self@),
        ensures
            n == xentry_count(self@),
    {
        get_u16(self.bytes, 2) as usize
    }

    /// The keys of the xentries, ascending.
    pub fn key_ids(&self) -> (out: Vec<u32>)
        requires
            overflow_ok(self@),
        ensures
            out@ == Seq::new(xentry_count(self@) as nat, |i: int| xentry_key(self@, i)),
    {
        assert(self.bytes.len() == self.bytes@.len());
        let count: usize = self.xentry_count();
        let mut out: Vec<u32> = Vec::new();
        let mut i: usize = 0;
        while i < count
            invariant
                self@.len() >= xentry_at(count as int),
                i <= count == xentry_count(self@) <= u16::MAX,
                out@ == Seq::new(i as nat, |j: int| xentry_key(self@, j)),
            decreases count - i,
        {
            assert(self.bytes.len() == self.bytes@.len());
            out.push(get_u32(self.bytes, OVERFLOW_HEADER_SIZE + XENTRY_SIZE * i));
            i += 1;
            assert(out@ =~= Seq::new(i as nat, |j: int| xentry_key(self@, j)));
        }
        out
    }

    /// Decode the value that a block's locator points at.
    pub fn resolve_locator(&self, tag: PropTag, off: u32, len: u32) -> (r: Result<
        PropValueRef<'a>,
        PropBlockError,
    >)
        requires
            overflow_ok(self@),
        ensures
            decoded_view(r) == locator_result(self@, tag, off, len),
    {
        if len == 0 {
            if off != 0 {
                return Err(
                    PropBlockError::Corrupt { reason: BlockFault::LocatorZeroOffset { off } },
                );
            }
            let none = slice_subrange(self.bytes, 0, 0);
            assert(none@ =~= seq![]);
            return decode_at(tag, none);
        }
        let dir_end: u64 = OVERFLOW_HEADER_SIZE as u64 + XENTRY_SIZE as u64
            * (self.xentry_count() as u64);
        if (off as u64) < dir_end || off as u64 + len as u64 > self.bytes.len() as u64 {
            return Err(PropBlockError::Corrupt { reason: BlockFault::LocatorEscapes { off, len } });
        }
        decode_at(tag, slice_subrange(self.bytes, off as usize, off as usize + len as usize))
    }

    /// Look a key up in the directory.
    pub fn get(&self, key_id: u32) -> (r: Result<Option<PropValueRef<'a>>, PropBlockError>)
        requires
            overflow_ok(self@),
        ensures
            forall|i: int|
                0 <= i < xentry_count(self@) && #[trigger] xentry_key(self@, i) == key_id ==> match r {
                    Ok(Some(v)) => xentry_result(self@, i) == Ok::<ValueView, BlockFault>(v@),
                    Ok(None) => false,
                    Err(e) => xentry_result(self@, i) == Err::<ValueView, BlockFault>(e->reason),
                },
            (forall|i: int|
                0 <= i < xentry_count(self@) ==> #[trigger] xentry_key(self@, i) != key_id) ==> r
                matches Ok(None),
    {
        let ghost m = choose|m: Option<u32>| #[trigger] overflow_result(self@, m) is Ok;
        let count: usize = self.xentry_count();
        let mut lo: usize = 0;
        let mut hi: usize = count;
        while lo < hi
            invariant
                overflow_result(self@, m) is Ok,
                lo <= hi <= count == xentry_count(self@) <= u16::MAX,
                forall|i: int| 0 <= i < lo ==> #[trigger] xentry_key(self@, i) < key_id,
                forall|i: int| hi <= i < count ==> #[trigger] xentry_key(self@, i) > key_id,
            decreases hi - lo,
        {
            assert(self.bytes.len() == self.bytes@.len());
            let mid: usize = lo + (hi - lo) / 2;
            let at: usize = OVERFLOW_HEADER_SIZE + XENTRY_SIZE * mid;
            let k: u32 = get_u32(self.bytes, at);
            proof {
                assert forall|i: int| 0 <= i < count && i != mid implies (i < mid <==> #[trigger] xentry_key(
                    self@,
                    i,
                ) < xentry_key(self@, mid as int)) && xentry_key(self@, i) != xentry_key(
                    self@,
                    mid as int,
                ) by {
                    if i < mid {
                        lemma_swept_xkeys(self@, m, i, mid as int, count as int);
                    } else {
                        lemma_swept_xkeys(self@, m, mid as int, i, count as int);
                    }
                }
            }
            if k < key_id {
                lo = mid + 1;
            } else if k > key_id {
                hi = mid;
            } else {
                proof {
                    lemma_swept_xentry(self@, m, mid as int, count as int);
                }
                let tag = match PropTag::from_byte(self.bytes[at + 4]) {
                    Ok(t) => t,
                    Err(e) => {
                        return Err(e);
                    },
                };
                let off: usize = get_u32(self.bytes, at + 8) as usize;
                let len: usize = get_u32(self.bytes, at + 12) as usize;
                return match decode_at(tag, slice_subrange(self.bytes, off, off + len)) {
                    Ok(v) => Ok(Some(v)),
                    Err(e) => Err(e),
                };
            }
        }
        Ok(None)
    }
}

// ---- writing --------------------------------------------------------------

/// A block with its overflow tail set.
pub open spec fn with_tail(block: Seq<u8>, raw: u64) -> Seq<u8> {
    stamped(splice(block, block.len() - OVERFLOW_TAIL_SIZE, le64(raw)))
}

/// An encoded bag: the block, whose overflow tail is still zero, and the
/// overflow payload. The tail is set once the payload has been stored and its
/// place is known.
#[derive(Debug)]
pub struct EncodedPropBlock {
    /// The block.
    pub body: Vec<u8>,
    /// The overflow payload.
    pub overflow: Option<Vec<u8>>,
}

impl EncodedPropBlock {
    /// A block with an overflow payload has room for the tail.
    pub open spec fn wf(&self) -> bool {
        self.overflow is Some ==> self.body@.len() >= BLOCK_HEADER_SIZE + OVERFLOW_TAIL_SIZE
    }

    /// The payload to store first, if there is one.
    pub fn overflow_payload(&self) -> (r: Option<&[u8]>)
        ensures
            match r {
                Some(p) => self.overflow is Some && p@ == self.overflow->0@,
                None => self.overflow is None,
            },
    {
        match &self.overflow {
            Some(v) => Some(v.as_slice()),
            None => None,
        }
    }

    /// The finished block. A reference is due exactly when there is an
    /// overflow payload.
    pub fn into_block_bytes(self, overflow_ref: Option<BlobRef>) -> (r: Result<
        Vec<u8>,
        PropBlockEncodeError,
    >)
        requires
            self.wf(),
        ensures
            match (self.overflow, overflow_ref) {
                (None, None) => r matches Ok(b) && b@ == self.body@,
                (Some(_), Some(blob)) => r matches Ok(b) && b@ == with_tail(
                    self.body@,
                    blob_bits(blob),
                ),
                (Some(_), None) => r == Err::<Vec<u8>, PropBlockEncodeError>(
                    PropBlockEncodeError::LayoutOverflow { reason: LayoutFault::MissingRef },
                ),
                (None, Some(_)) => r == Err::<Vec<u8>, PropBlockEncodeError>(
                    PropBlockEncodeError::LayoutOverflow { reason: LayoutFault::UnexpectedRef },
                ),
            },
    {
        let mut body = self.body;
        match (self.overflow, overflow_ref) {
            (None, None) => Ok(body),
            (Some(_), Some(blob)) => {
                let at: usize = body.len() - OVERFLOW_TAIL_SIZE;
                put_u64(body.as_mut_slice(), at, blob.encode());
                stamp_block_meta_checksum(body.as_mut_slice());
                Ok(body)
            },
            (Some(_), None) => Err(
                PropBlockEncodeError::LayoutOverflow { reason: LayoutFault::MissingRef },
            ),
            (None, Some(_)) => Err(
                PropBlockEncodeError::LayoutOverflow { reason: LayoutFault::UnexpectedRef },
            ),
        }
    }

    /// The block with its tail left zero, for [`patch_overflow_tail`].
    pub fn into_block_bytes_deferred(self) -> (r: Result<Vec<u8>, PropBlockEncodeError>)
        ensures
            r matches Ok(b) && b@ == self.body@,
    {
        Ok(self.body)
    }
}

/// A built bag, ready to be stored in two steps: the overflow payload, then
/// the block.
#[derive(Clone, Debug, PartialEq, Eq)]
pub struct TypedBagParts {
    /// The block; with an overflow payload, its last eight bytes are the tail
    /// still to be set.
    pub block: Vec<u8>,
    /// The overflow payload.
    pub overflow: Option<Vec<u8>>,
}

/// Why bytes cannot have their overflow tail set.
pub open spec fn patch_fault(b: Seq<u8>) -> Option<LayoutFault> {
    if b.len() < BLOCK_HEADER_SIZE + OVERFLOW_TAIL_SIZE {
        Some(LayoutFault::NoRoomForTail { len: b.len() as usize })
    } else if b[0] != PROP_BLOCK_VERSION {
        Some(LayoutFault::NotTyped { first: b[0] })
    } else if b[2] % 2 == 0 {
        Some(LayoutFault::NoOverflowFlag)
    } else {
        None
    }
}

/// Set the overflow tail of a deferred block.
pub fn patch_overflow_tail(block: &mut [u8], bref: BlobRef) -> (r: Result<
    (),
    PropBlockEncodeError,
>)
    ensures
        match patch_fault(old(block)@) {
            Some(reason) => r == Err::<(), PropBlockEncodeError>(
                PropBlockEncodeError::LayoutOverflow { reason },
            ) && final(block)@ == old(block)@,
            None => r is Ok && final(block)@ == with_tail(old(block)@, blob_bits(bref)),
        },
{
    if block.len() < BLOCK_HEADER_SIZE + OVERFLOW_TAIL_SIZE {
        return Err(
            PropBlockEncodeError::LayoutOverflow {
                reason: LayoutFault::NoRoomForTail { len: block.len() },
            },
        );
    }
    if block[0] != PROP_BLOCK_VERSION {
        return Err(
            PropBlockEncodeError::LayoutOverflow {
                reason: LayoutFault::NotTyped { first: block[0] },
            },
        );
    }
    if block[2] % 2 == 0 {
        return Err(PropBlockEncodeError::LayoutOverflow { reason: LayoutFault::NoOverflowFlag });
    }
    let at: usize = block.len() - OVERFLOW_TAIL_SIZE;
    put_u64(block, at, bref.encode());
    stamp_block_meta_checksum(block);
    Ok(())
}

/// Collects the properties of one bag. The last value given for a key counts.
#[derive(Debug)]
pub struct PropBlockBuilder {
    entries: BTreeMap<u32, PropValue>,
}

/// The properties, ascending by key.
impl View for PropBlockBuilder {
    type V = Bag;

    closed spec fn view(&self) -> Bag {
        bag_in(self.entries@)
    }
}

/// A builder holds one property at most for each key, ascending by key.
pub proof fn law_builder_is_ascending(b: PropBlockBuilder)
    ensures
        ascending(b@),
{
    b.lemma_lists();
}

/// One property, planned: its key, its type and its bytes.
struct Planned {
    key: u32,
    tag: PropTag,
    bytes: Vec<u8>,
}

/// A plan is that of a property.
spec fn planned_ok(p: Planned, e: (u32, ValueView)) -> bool {
    &&& p.key == e.0
    &&& p.tag == value_tag(e.1)
    &&& p.bytes@ == value_bytes(e.1)
}

/// Plans are those of a bag.
spec fn plan_ok(ps: Seq<Planned>, bag: Bag) -> bool {
    &&& ps.len() == bag.len()
    &&& forall|i: int| #![trigger ps[i]] 0 <= i < ps.len() ==> planned_ok(ps[i], bag[i])
}

/// The value that is stored for a float.
fn is_finite(bits: u64) -> (r: bool)
    ensures
        r == finite_bits(bits),
{
    (bits / 0x10_0000_0000_0000) % 0x800 != 0x7FF
}

/// Plan one property.
fn plan_value(key: u32, value: &PropValue) -> (p: Planned)
    ensures
        planned_ok(p, (key, normal(value@))),
{
    let mut bytes: Vec<u8> = Vec::new();
    let tag = match value {
        PropValue::Null => PropTag::Null,
        PropValue::Int(i) => {
            push_u64(&mut bytes, *i as u64);
            PropTag::Int64
        },
        PropValue::Float(bits) => {
            if is_finite(*bits) {
                push_u64(&mut bytes, *bits);
                PropTag::Float64
            } else {
                PropTag::Null
            }
        },
        PropValue::Bool(b) => {
            bytes.push(
                if *b {
                    1
                } else {
                    0
                },
            );
            PropTag::Bool
        },
        PropValue::Str(s) => {
            push_bytes(&mut bytes, s.as_str().as_bytes());
            PropTag::StrInline
        },
        PropValue::Bytes(b) => {
            push_bytes(&mut bytes, b.as_slice());
            PropTag::Bytes
        },
        PropValue::Temporal(b) => {
            push_bytes(&mut bytes, b.as_slice());
            PropTag::Temporal
        },
        PropValue::ListOpaque(b) => {
            push_bytes(&mut bytes, b.as_slice());
            PropTag::ListRef
        },
        PropValue::MapOpaque(b) => {
            push_bytes(&mut bytes, b.as_slice());
            PropTag::MapRef
        },
    };
    assert(bytes@ =~= value_bytes(normal(value@)));
    Planned { key, tag, bytes }
}

/// Whether a planned value is replaced by a locator.
fn plan_spills(p: &Planned, e: Ghost<(u32, ValueView)>) -> (r: bool)
    requires
        planned_ok(*p, e@),
    ensures
        r == spills(e@.1),
{
    match p.tag {
        PropTag::StrInline => p.bytes.len() > MAX_INLINE_LEN,
        PropTag::ListRef | PropTag::MapRef => p.bytes.len() == 0 || p.bytes.len() > MAX_INLINE_LEN,
        _ => false,
    }
}

/// Append a payload at the next multiple of four of the buffer that `out`
/// continues from `at` on.
fn append_aligned(out: &mut Vec<u8>, at: u64, payload: &[u8])
    requires
        at + old(out)@.len() <= 0x4_0000_0000,
    ensures
        final(out)@ == if payload@.len() == 0 {
            old(out)@
        } else {
            old(out)@ + Seq::new(
                (align4(at + old(out)@.len()) - (at + old(out)@.len())) as nat,
                |i: int| 0u8,
            ) + payload@
        },
{
    if payload.len() == 0 {
        return;
    }
    let ghost before = out@;
    let here: u64 = at + out.len() as u64;
    let pad: u64 = (4 - here % 4) % 4;
    let mut k: u64 = 0;
    assert(out@ =~= before + Seq::new(0, |i: int| 0u8));
    while k < pad
        invariant
            k <= pad < 4,
            out@ == before + Seq::new(k as nat, |i: int| 0u8),
        decreases pad - k,
    {
        out.push(0);
        k += 1;
        assert(out@ =~= before + Seq::new(k as nat, |i: int| 0u8));
    }
    push_bytes(out, payload);
}

/// One more payload.
proof fn lemma_region_push(at: int, ps: Seq<Seq<u8>>, p: Seq<u8>)
    ensures
        region(at, ps.push(p)) == if p.len() == 0 {
            region(at, ps)
        } else {
            region(at, ps) + Seq::new(
                (align4(at + region(at, ps).len()) - (at + region(at, ps).len())) as nat,
                |i: int| 0u8,
            ) + p
        },
        p.len() == 0 ==> region(at, ps.push(p)).len() == region(at, ps).len(),
        p.len() > 0 ==> at + region(at, ps.push(p)).len() == place(at, ps, p) + p.len(),
{
    assert(ps.push(p).drop_last() =~= ps);
}

/// One more entry.
proof fn lemma_spilled_step(primary: Bag, i: int)
    requires
        0 <= i < primary.len(),
    ensures
        spilled(primary.take(i + 1)) == if spills(primary[i].1) {
            spilled(primary.take(i)).push(value_bytes(primary[i].1))
        } else {
            spilled(primary.take(i))
        },
{
    assert(primary.take(i + 1).drop_last() =~= primary.take(i));
}

/// Faults found early stay the first.
proof fn lemma_spill_fault_stops(primary: Bag, x: int, j: int, k: int)
    requires
        0 <= j <= k,
        spill_fault(primary, x, j) is Some,
    ensures
        spill_fault(primary, x, k) == spill_fault(primary, x, j),
    decreases k - j,
{
    if j < k {
        lemma_spill_fault_stops(primary, x, j, k - 1);
    }
}

/// Faults found early stay the first.
proof fn lemma_extra_fault_stops(primary: Bag, extra: Bag, j: int, k: int)
    requires
        0 <= j <= k,
        extra_fault(primary, extra, j) is Some,
    ensures
        extra_fault(primary, extra, k) == extra_fault(primary, extra, j),
    decreases k - j,
{
    if j < k {
        lemma_extra_fault_stops(primary, extra, j, k - 1);
    }
}

/// The first oversize value stays the first.
proof fn lemma_oversize_stops(primary: Bag, j: int, k: int)
    requires
        0 <= j <= k,
        first_oversize(primary, j) is Some,
    ensures
        first_oversize(primary, k) == first_oversize(primary, j),
    decreases k - j,
{
    if j < k {
        lemma_oversize_stops(primary, j, k - 1);
    }
}

/// The values spilled to the overflow payload, with where each went.
struct Spill {
    /// The bytes of the values.
    data: Vec<u8>,
    /// Offset and length per entry; zero for entries that do not spill.
    locators: Vec<(u32, u32)>,
    /// How many entries spill.
    count: usize,
}

/// The locator is that of entry `i`, where the entry's value spills.
spec fn locator_ok(locator: (u32, u32), primary: Bag, x: int, i: int) -> bool {
    spills(primary[i].1) ==> {
        &&& locator.0 == spill_off(primary, x, i)
        &&& locator.1 == value_bytes(primary[i].1).len()
    }
}

/// Lay out the values that spill from the block.
fn spill_primary(
    plan: &Vec<Planned>,
    n: usize,
    x: usize,
    bag: Ghost<Bag>,
) -> (r: Result<Spill, LayoutFault>)
    requires
        plan_ok(plan@, bag@),
        n == primary_of(bag@).len(),
        x <= u16::MAX,
    ensures
        match r {
            Ok(s) => {
                let primary = primary_of(bag@);
                &&& spill_fault(primary, x as int, n as int) is None
                &&& s.data@ == region(overflow_base(x as int), spilled(primary))
                &&& overflow_base(x as int) + s.data@.len() <= 0x2_0000_0000
                &&& s.count == spilled(primary).len()
                &&& s.locators@.len() == n
                &&& forall|i: int|
                    #![trigger s.locators@[i]]
                    0 <= i < n ==> locator_ok(s.locators@[i], primary, x as int, i)
            },
            Err(f) => spill_fault(primary_of(bag@), x as int, n as int) == Some(f),
        },
{
    let ghost primary = primary_of(bag@);
    let at: u64 = 8 + 16 * (x as u64);
    let mut data: Vec<u8> = Vec::new();
    let mut locators: Vec<(u32, u32)> = Vec::new();
    let mut count: usize = 0;
    let mut i: usize = 0;
    proof {
        assert(primary.take(0).len() == 0);
    }
    while i < n
        invariant
            plan_ok(plan@, bag@),
            primary == primary_of(bag@),
            n == primary.len(),
            i <= n <= 64,
            x <= u16::MAX,
            at == overflow_base(x as int),
            spill_fault(primary, x as int, i as int) is None,
            data@ == region(at as int, spilled(primary.take(i as int))),
            at + data@.len() <= 0x2_0000_0000,
            count == spilled(primary.take(i as int)).len(),
            count <= i,
            locators@.len() == i,
            forall|j: int|
                #![trigger locators@[j]]
                0 <= j < i ==> locator_ok(locators@[j], primary, x as int, j),
        decreases n - i,
    {
        let p = &plan[i];
        assert(planned_ok(plan@[i as int], bag@[i as int]));
        assert(primary[i as int] == bag@[i as int]);
        let ghost v = primary[i as int].1;
        let ghost before = spilled(primary.take(i as int));
        proof {
            lemma_spilled_step(primary, i as int);
            lemma_region_push(at as int, before, value_bytes(v));
        }
        let ghost old_locators = locators@;
        if plan_spills(p, Ghost(primary[i as int])) {
            let here: u64 = at + data.len() as u64;
            let off: u64 = if p.bytes.len() == 0 {
                0
            } else {
                here + (4 - here % 4) % 4
            };
            assert(off == spill_off(primary, x as int, i as int));
            if off > u32::MAX as u64 {
                proof {
                    lemma_spill_fault_stops(primary, x as int, i + 1, n as int);
                }
                return Err(LayoutFault::OverflowOffset);
            }
            if p.bytes.len() as u64 > u32::MAX as u64 {
                proof {
                    lemma_spill_fault_stops(primary, x as int, i + 1, n as int);
                }
                return Err(LayoutFault::OverflowLength);
            }
            append_aligned(&mut data, at, p.bytes.as_slice());
            locators.push((off as u32, p.bytes.len() as u32));
            assert(locator_ok(locators@[i as int], primary, x as int, i as int));
            count += 1;
        } else {
            locators.push((0, 0));
        }
        i += 1;
        proof {
            assert forall|j: int| #![trigger locators@[j]] 0 <= j < i implies locator_ok(
                locators@[j],
                primary,
                x as int,
                j,
            ) by {
                if j < i - 1 {
                    assert(locators@[j] == old_locators[j]);
                }
            }
        }
    }
    proof {
        assert(primary.take(n as int) =~= primary);
    }
    Ok(Spill { data, locators, count })
}

/// Lay out the values of the xentries after the spilled ones; yields the
/// directory. `data` holds the spilled values and receives the others.
fn lay_out_extra(
    plan: &Vec<Planned>,
    data: &mut Vec<u8>,
    bag: Ghost<Bag>,
) -> (r: Result<Vec<u8>, LayoutFault>)
    requires
        plan_ok(plan@, bag@),
        bag@.len() > MAX_PRIMARY_ENTRIES,
        extra_of(bag@).len() <= u16::MAX,
        old(data)@ == region(overflow_base(extra_of(bag@).len() as int), spilled(primary_of(bag@))),
        overflow_base(extra_of(bag@).len() as int) + old(data)@.len() <= 0x2_0000_0000,
    ensures
        match r {
            Ok(dir) => {
                let primary = primary_of(bag@);
                let extra = extra_of(bag@);
                &&& extra_fault(primary, extra, extra.len() as int) is None
                &&& dir@ == xentries_bytes(primary, extra, extra.len() as int)
                &&& final(data)@ == region(
                    overflow_base(extra.len() as int),
                    spilled(primary) + extra_values(extra),
                )
            },
            Err(f) => extra_fault(primary_of(bag@), extra_of(bag@), extra_of(bag@).len() as int)
                == Some(f),
        },
{
    let ghost primary = primary_of(bag@);
    let ghost extra = extra_of(bag@);
    let x: usize = plan.len() - MAX_PRIMARY_ENTRIES;
    let at: u64 = 8 + 16 * (x as u64);
    let mut dir: Vec<u8> = Vec::new();
    let mut i: usize = 0;
    proof {
        assert(spilled(primary) + extra_values(extra).take(0) =~= spilled(primary));
    }
    while i < x
        invariant
            plan_ok(plan@, bag@),
            bag@.len() > MAX_PRIMARY_ENTRIES,
            primary == primary_of(bag@),
            extra == extra_of(bag@),
            x == extra.len() <= u16::MAX,
            x + 64 == plan@.len(),
            i <= x,
            at == overflow_base(x as int),
            extra_fault(primary, extra, i as int) is None,
            data@ == region(at as int, spilled(primary) + extra_values(extra).take(i as int)),
            at + data@.len() <= 0x2_0000_0000,
            dir@ == xentries_bytes(primary, extra, i as int),
        decreases x - i,
    {
        let p = &plan[MAX_PRIMARY_ENTRIES + i];
        assert(planned_ok(plan@[64 + i], bag@[64 + i]));
        assert(extra[i as int] == bag@[64 + i]);
        let ghost v = extra[i as int].1;
        let ghost before = spilled(primary) + extra_values(extra).take(i as int);
        proof {
            lemma_region_push(at as int, before, value_bytes(v));
            assert(before.push(value_bytes(v)) =~= spilled(primary) + extra_values(extra).take(
                i + 1,
            ));
        }
        let here: u64 = at + data.len() as u64;
        let off: u64 = if p.bytes.len() == 0 {
            0
        } else {
            here + (4 - here % 4) % 4
        };
        assert(off == extra_off(primary, extra, i as int));
        if off > u32::MAX as u64 {
            proof {
                lemma_extra_fault_stops(primary, extra, i + 1, x as int);
            }
            return Err(LayoutFault::OverflowOffset);
        }
        if p.bytes.len() as u64 > u32::MAX as u64 {
            proof {
                lemma_extra_fault_stops(primary, extra, i + 1, x as int);
            }
            return Err(LayoutFault::OverflowLength);
        }
        append_aligned(data, at, p.bytes.as_slice());
        let ghost dir_before = dir@;
        push_u32(&mut dir, p.key);
        dir.push(p.tag.as_byte());
        dir.push(0);
        dir.push(0);
        dir.push(0);
        push_u32(&mut dir, off as u32);
        push_u32(&mut dir, p.bytes.len() as u32);
        proof {
            assert(dir@ =~= xentries_bytes(primary, extra, i + 1));
        }
        i += 1;
    }
    proof {
        assert(extra_values(extra).take(x as int) =~= extra_values(extra));
    }
    Ok(dir)
}

/// The entries and the data region of a block.
struct Body {
    entries: Vec<u8>,
    data: Vec<u8>,
}

/// Lay out the payloads of the block.
fn lay_out_primary(
    plan: &Vec<Planned>,
    n: usize,
    x: usize,
    locators: &Vec<(u32, u32)>,
    bag: Ghost<Bag>,
) -> (r: Body)
    requires
        plan_ok(plan@, bag@),
        n == primary_of(bag@).len(),
        locators@.len() == n,
        first_oversize(primary_of(bag@), n as int) is None,
        forall|i: int|
            #![trigger locators@[i]]
            0 <= i < n && spills(primary_of(bag@)[i].1) ==> locators@[i] == (
                spill_off(primary_of(bag@), x as int, i) as u32,
                value_bytes(primary_of(bag@)[i].1).len() as u32,
            ),
    ensures
        r.entries@ == entries_bytes(primary_of(bag@), x as int, n as int),
        r.data@ == region(entry_at(n as int), stored_payloads(primary_of(bag@), x as int, n as int)),
{
    let ghost primary = primary_of(bag@);
    let at: u64 = 8 + 8 * (n as u64);
    let mut entries: Vec<u8> = Vec::new();
    let mut data: Vec<u8> = Vec::new();
    let mut i: usize = 0;
    proof {
        assert(stored_payloads(primary, x as int, 0).len() == 0);
    }
    while i < n
        invariant
            plan_ok(plan@, bag@),
            primary == primary_of(bag@),
            n == primary.len() <= 64,
            i <= n,
            locators@.len() == n,
            first_oversize(primary, n as int) is None,
            at == entry_at(n as int),
            forall|i: int|
                #![trigger locators@[i]]
                0 <= i < n && spills(primary[i].1) ==> locators@[i] == (
                    spill_off(primary, x as int, i) as u32,
                    value_bytes(primary[i].1).len() as u32,
                ),
            entries@ == entries_bytes(primary, x as int, i as int),
            data@ == region(at as int, stored_payloads(primary, x as int, i as int)),
            data@.len() <= 258 * i,
        decreases n - i,
    {
        let p = &plan[i];
        assert(planned_ok(plan@[i as int], bag@[i as int]));
        assert(primary[i as int] == bag@[i as int]);
        let ghost v = primary[i as int].1;
        let ghost before = stored_payloads(primary, x as int, i as int);
        let ghost payload = stored_payload(primary, x as int, i as int);
        proof {
            lemma_region_push(at as int, before, payload);
            assert(before.push(payload) =~= stored_payloads(primary, x as int, i + 1));
            lemma_not_oversize(primary, i as int, n as int);
        }
        let here: u64 = at + data.len() as u64;
        let next: u64 = here + (4 - here % 4) % 4;
        let tag: PropTag;
        let len: u8;
        let off: u64;
        if plan_spills(p, Ghost(primary[i as int])) {
            let mut locator: Vec<u8> = Vec::new();
            assert(locators@[i as int] == locators@[i as int]);
            push_u32(&mut locator, locators[i].0);
            push_u32(&mut locator, locators[i].1);
            assert(locator@ =~= payload);
            append_aligned(&mut data, at, locator.as_slice());
            match p.tag {
                PropTag::StrInline => {
                    tag = PropTag::StrRef;
                    len = 8;
                },
                _ => {
                    tag = p.tag;
                    len = 0;
                },
            }
            off = next;
        } else {
            append_aligned(&mut data, at, p.bytes.as_slice());
            tag = p.tag;
            len = p.bytes.len() as u8;
            off = if p.bytes.len() == 0 {
                0
            } else {
                next
            };
        }
        assert(off == payload_off(primary, x as int, i as int));
        assert(tag == stored_tag(v));
        assert(len == stored_len(v));
        push_u32(&mut entries, p.key);
        entries.push(tag.as_byte());
        entries.push(len);
        push_u16(&mut entries, off as u16);
        proof {
            assert(entries@ =~= entries_bytes(primary, x as int, i + 1));
        }
        i += 1;
    }
    Body { entries, data }
}

/// A value that is not oversize and does not spill has at most 255 bytes.
proof fn lemma_not_oversize(primary: Bag, i: int, k: int)
    requires
        0 <= i < k <= primary.len(),
        first_oversize(primary, k) is None,
    ensures
        !oversize(primary[i].1),
        !spills(primary[i].1) ==> value_bytes(primary[i].1).len() <= MAX_INLINE_LEN,
    decreases k - i,
{
    if i + 1 < k {
        lemma_not_oversize(primary, i, k - 1);
    }
}

impl PropBlockBuilder {
    proof fn lemma_lists(self)
        ensures
            lists_map(self@, self.entries@),
            self@.len() == self.entries@.len(),
    {
        broadcast use group_btree_axioms;

        lemma_bag_exists(self.entries@);
        lemma_bag_len(self@, self.entries@);
    }

    /// An empty bag.
    pub fn new() -> (b: PropBlockBuilder)
        ensures
            b@.len() == 0,
    {
        let b = PropBlockBuilder { entries: BTreeMap::new() };
        proof {
            b.lemma_lists();
        }
        b
    }

    /// Number of properties.
    pub fn len(&self) -> (n: usize)
        ensures
            n == self@.len(),
    {
        broadcast use group_btree_axioms;

        proof {
            self.lemma_lists();
        }
        self.entries.len()
    }

    /// Whether there are no properties.
    pub fn is_empty(&self) -> (r: bool)
        ensures
            r == (self@.len() == 0),
    {
        self.len() == 0
    }

    /// Set one property.
    pub fn put(&mut self, key_id: u32, value: PropValue) -> (r: &mut PropBlockBuilder)
        ensures
            ascending(r@),
            forall|k: u32, v: ValueView|
                r@.contains((k, v)) <==> if k == key_id {
                    v == value@
                } else {
                    old(self)@.contains((k, v))
                },
            *final(self) == *final(r),
    {
        proof {
            self.lemma_lists();
        }
        put_entry(&mut self.entries, key_id, value);
        proof {
            self.lemma_lists();
        }
        self
    }
}

/// The kind of an oversize value.
pub open spec fn reserved_kind(v: ValueView) -> ReservedKind {
    if v is Bytes {
        ReservedKind::Bytes
    } else {
        ReservedKind::Temporal
    }
}

/// What encoding a bag yields.
pub open spec fn build_error(bag: Bag) -> Option<PropBlockEncodeError> {
    match first_oversize(primary_of(bag), primary_of(bag).len() as int) {
        Some(v) => Some(
            PropBlockEncodeError::ReservedValueTooLarge {
                kind: reserved_kind(v),
                len: value_bytes(v).len() as usize,
            },
        ),
        None => match layout_fault(bag) {
            Some(reason) => Some(PropBlockEncodeError::LayoutOverflow { reason }),
            None => None,
        },
    }
}

/// Plan all properties.
fn plan_bag(entries: &Vec<(u32, &PropValue)>) -> (r: Result<Vec<Planned>, PropBlockEncodeError>)
    ensures
        match r {
            Ok(ps) => {
                let bag = normal_bag(bag_of(entries@));
                &&& plan_ok(ps@, bag)
                &&& first_oversize(primary_of(bag), primary_of(bag).len() as int) is None
            },
            Err(e) => {
                let bag = normal_bag(bag_of(entries@));
                &&& build_error(bag) == Some(e)
                &&& first_oversize(primary_of(bag), primary_of(bag).len() as int) is Some
            },
        },
{
    let ghost bag = normal_bag(bag_of(entries@));
    let ghost primary = primary_of(bag);
    let mut ps: Vec<Planned> = Vec::new();
    let mut i: usize = 0;
    while i < entries.len()
        invariant
            bag == normal_bag(bag_of(entries@)),
            primary == primary_of(bag),
            i <= entries@.len() == bag.len(),
            ps@.len() == i,
            forall|j: int| #![trigger ps@[j]] 0 <= j < i ==> planned_ok(ps@[j], bag[j]),
            first_oversize(
                primary,
                if i < primary.len() {
                    i as int
                } else {
                    primary.len() as int
                },
            ) is None,
        decreases entries@.len() - i,
    {
        let p = plan_value(entries[i].0, entries[i].1);
        assert(planned_ok(p, bag[i as int]));
        if i < MAX_PRIMARY_ENTRIES {
            assert(primary[i as int] == bag[i as int]);
            if p.bytes.len() > MAX_INLINE_LEN {
                let kind: Option<ReservedKind> = match p.tag {
                    PropTag::Bytes => Some(ReservedKind::Bytes),
                    PropTag::Temporal => Some(ReservedKind::Temporal),
                    _ => None,
                };
                if let Some(kind) = kind {
                    proof {
                        lemma_oversize_stops(primary, i + 1, primary.len() as int);
                    }
                    return Err(
                        PropBlockEncodeError::ReservedValueTooLarge { kind, len: p.bytes.len() },
                    );
                }
            }
        }
        let ghost old_ps = ps@;
        ps.push(p);
        i += 1;
        proof {
            assert forall|j: int| #![trigger ps@[j]] 0 <= j < i implies planned_ok(ps@[j], bag[j]) by {
                if j < i - 1 {
                    assert(ps@[j] == old_ps[j]);
                }
            }
        }
    }
    Ok(ps)
}

impl PropBlockBuilder {
    /// Encode the bag.
    pub fn build(self) -> (r: Result<EncodedPropBlock, PropBlockEncodeError>)
        ensures
            match r {
                Ok(e) => {
                    let bag = normal_bag(self@);
                    &&& build_error(bag) is None
                    &&& e.wf()
                    &&& e.body@ == block_bytes(bag, 0)
                    &&& match e.overflow {
                        Some(o) => overflows(bag) && o@ == overflow_bytes(bag),
                        None => !overflows(bag),
                    }
                    &&& forall|k: u32, v: ValueView| #[trigger]
                        self@.contains((k, v)) ==> read_property(
                            e.body@,
                            overflow_bytes(bag),
                            k,
                        ) == Ok::<Option<ValueView>, BlockFault>(
                            Some(
                                match v {
                                    ValueView::Float(bits) => if (bits >> 52) & 0x7FF == 0x7FF {
                                        ValueView::Null
                                    } else {
                                        v
                                    },
                                    _ => v,
                                },
                            ),
                        )
                },
                Err(e) => build_error(normal_bag(self@)) == Some(e),
            },
    {
        let ghost bag = normal_bag(self@);
        let ghost primary = primary_of(bag);
        let ghost extra = extra_of(bag);
        let entries = list_entries(&self.entries);
        proof {
            self.lemma_lists();
            law_order_of_puts(bag_of(entries@), self@);
        }
        let plan = match plan_bag(&entries) {
            Ok(p) => p,
            Err(e) => {
                return Err(e);
            },
        };
        let total: usize = plan.len();
        let n: usize = if total <= MAX_PRIMARY_ENTRIES {
            total
        } else {
            MAX_PRIMARY_ENTRIES
        };
        let x: usize = total - n;
        if x > u16::MAX as usize {
            return Err(
                PropBlockEncodeError::LayoutOverflow {
                    reason: LayoutFault::XentryCount { count: x },
                },
            );
        }
        let spill = match spill_primary(&plan, n, x, Ghost(bag)) {
            Ok(s) => s,
            Err(reason) => {
                return Err(PropBlockEncodeError::LayoutOverflow { reason });
            },
        };
        let has_overflow: bool = x > 0 || spill.count > 0;
        let body = lay_out_primary(&plan, n, x, &spill.locators, Ghost(bag));
        let mut data = spill.data;
        let mut dir: Vec<u8> = Vec::new();
        if x > 0 {
            dir = match lay_out_extra(&plan, &mut data, Ghost(bag)) {
                Ok(d) => d,
                Err(reason) => {
                    return Err(PropBlockEncodeError::LayoutOverflow { reason });
                },
            };
        } else {
            proof {
                assert(extra.len() == 0);
                assert(spilled(primary) + extra_values(extra) =~= spilled(primary));
                assert(dir@ =~= xentries_bytes(primary, extra, 0));
            }
        }
        let overflow: Option<Vec<u8>> = if has_overflow {
            let mut o: Vec<u8> = Vec::new();
            push_u16(&mut o, OVERFLOW_MAGIC);
            push_u16(&mut o, x as u16);
            let ghost head = le16(OVERFLOW_MAGIC) + le16(x as u16);
            assert(o@ =~= head);
            let crc: u32 = crc32c_append(crc32c(o.as_slice()), dir.as_slice());
            push_u32(&mut o, crc);
            push_bytes(&mut o, dir.as_slice());
            push_bytes(&mut o, data.as_slice());
            assert(o@ =~= overflow_bytes(bag));
            Some(o)
        } else {
            None
        };
        let flags: u16 = if has_overflow {
            FLAG_HAS_OVERFLOW
        } else {
            0
        };
        let mut b: Vec<u8> = Vec::new();
        b.push(PROP_BLOCK_VERSION);
        b.push(n as u8);
        push_u16(&mut b, flags);
        b.push(0);
        b.push(0);
        b.push(0);
        b.push(0);
        push_bytes(&mut b, body.entries.as_slice());
        push_bytes(&mut b, body.data.as_slice());
        if has_overflow {
            push_u64(&mut b, 0);
        }
        proof {
            assert(b@ =~= seq![PROP_BLOCK_VERSION, n as u8] + le16(flags) + seq![0u8, 0, 0, 0]
                + entries_bytes(primary, x as int, n as int) + region(
                entry_at(n as int),
                stored_payloads(primary, x as int, n as int),
            ) + if overflows(bag) {
                le64(0)
            } else {
                seq![]
            });
        }
        stamp_block_meta_checksum(b.as_mut_slice());
        proof {
            assert forall|k: u32, v: ValueView| #[trigger] self@.contains((k, v)) implies read_property(
                b@,
                overflow_bytes(bag),
                k,
            ) == Ok::<Option<ValueView>, BlockFault>(Some(normal(v))) by {
                law_built_bag_reads_back(self@, 0, k);
            }
            assert forall|k: u32, v: ValueView| #[trigger] self@.contains((k, v)) implies normal(v)
                == match v {
                ValueView::Float(bits) => if (bits >> 52) & 0x7FF == 0x7FF {
                    ValueView::Null
                } else {
                    v
                },
                _ => v,
            } by {
                match v {
                    ValueView::Float(bits) => {
                        law_stored_form(v, bits);
                    },
                    _ => {
                        law_stored_form(v, 0);
                    },
                }
            }
        }
        Ok(EncodedPropBlock { body: b, overflow })
    }
}

} // verus!
