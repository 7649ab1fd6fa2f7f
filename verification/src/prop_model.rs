//! The layout of typed property blocks.
//!
//! A bag of properties is encoded as one block and, where it does not fit, one
//! overflow payload. All numbers are little-endian.
//!
//! ```text
//! block
//!  0       version (= 1)
//!  1       prop_count, at most 64
//!  2.. 4   flags; bit 0: the block has an overflow tail
//!  4.. 8   CRC-32C of the metadata: bytes 0..4, four zero bytes, the entries,
//!          and the tail
//!  8..     entries, ascending by key: key u32, tag u8, len u8, offset u16
//!  ...     payloads in entry order, each at the next multiple of four
//!  tail    reference to the overflow payload, u64
//!
//! overflow payload
//!  0.. 2   magic
//!  2.. 4   xentry_count: properties past the sixty-fourth
//!  4.. 8   CRC-32C of bytes 0..4 and the directory
//!  8..     xentries, ascending by key: key u32, tag u8, 3 zero bytes,
//!          offset u32, len u32
//!  ...     values: those spilled from the block, then those of the xentries,
//!          each at the next multiple of four
//! ```
//!
//! A value of at most 255 bytes stands in the block. A longer string, list or
//! map stands in the overflow payload, and the block holds a locator: offset
//! and length. A list or map whose entry has length zero is a locator.

use vstd::prelude::*;
use vstd::utf8::{encode_utf8, valid_utf8, decode_utf8};
use crate::checksum::{crc32c_of, crc32c_update};
use crate::codec::{le16, le32, le64, splice, u16_at, u32_at, u64_at};
use crate::property::{blob_of, BlobRef};

verus! {

/// Version byte of a block.
pub const PROP_BLOCK_VERSION: u8 = 1;

/// First byte of every typed block.
pub const PROP_BLOCK_DISCRIMINANT: u8 = PROP_BLOCK_VERSION;

/// Most entries in a block.
pub const MAX_PRIMARY_ENTRIES: usize = 64;

/// Longest value that stands in a block.
pub const MAX_INLINE_LEN: usize = 255;

/// Bytes of an entry.
pub const HEADER_ENTRY_SIZE: usize = 8;

/// Bytes before the entries.
pub const BLOCK_HEADER_SIZE: usize = 8;

/// Bytes of the overflow tail.
pub const OVERFLOW_TAIL_SIZE: usize = 8;

/// Flag: the block has an overflow tail.
pub const FLAG_HAS_OVERFLOW: u16 = 1;

/// First two bytes of an overflow payload.
pub const OVERFLOW_MAGIC: u16 = 0x564F;

/// Bytes before the xentries.
pub const OVERFLOW_HEADER_SIZE: usize = 8;

/// Bytes of an xentry.
pub const XENTRY_SIZE: usize = 16;

/// Bytes of a locator.
pub const LOCATOR_SIZE: usize = 8;

// ---- tags -----------------------------------------------------------------

/// Type of a stored value. No tag has the byte zero.
#[derive(Clone, Copy, Debug, PartialEq, Eq, Structural)]
pub enum PropTag {
    /// Null.
    Null,
    /// 64-bit integer.
    Int64,
    /// 64-bit float.
    Float64,
    /// Boolean.
    Bool,
    /// String in the block.
    StrInline,
    /// String in the overflow payload.
    StrRef,
    /// Raw bytes.
    Bytes,
    /// Opaque temporal value.
    Temporal,
    /// Nested list.
    ListRef,
    /// Nested map.
    MapRef,
}

/// The byte of a tag.
pub open spec fn tag_byte(t: PropTag) -> u8 {
    match t {
        PropTag::Null => 1,
        PropTag::Int64 => 2,
        PropTag::Float64 => 3,
        PropTag::Bool => 4,
        PropTag::StrInline => 5,
        PropTag::StrRef => 6,
        PropTag::Bytes => 7,
        PropTag::Temporal => 8,
        PropTag::ListRef => 9,
        PropTag::MapRef => 10,
    }
}

/// The tag of a byte.
pub open spec fn tag_of(b: u8) -> Option<PropTag> {
    if b == 1 {
        Some(PropTag::Null)
    } else if b == 2 {
        Some(PropTag::Int64)
    } else if b == 3 {
        Some(PropTag::Float64)
    } else if b == 4 {
        Some(PropTag::Bool)
    } else if b == 5 {
        Some(PropTag::StrInline)
    } else if b == 6 {
        Some(PropTag::StrRef)
    } else if b == 7 {
        Some(PropTag::Bytes)
    } else if b == 8 {
        Some(PropTag::Temporal)
    } else if b == 9 {
        Some(PropTag::ListRef)
    } else if b == 10 {
        Some(PropTag::MapRef)
    } else {
        None
    }
}

// ---- values ---------------------------------------------------------------

/// What a property value is.
pub enum ValueView {
    /// Null.
    Null,
    /// 64-bit integer.
    Int(i64),
    /// 64-bit float, by its bit pattern.
    Float(u64),
    /// Boolean.
    Bool(bool),
    /// String.
    Str(Seq<char>),
    /// Raw bytes.
    Bytes(Seq<u8>),
    /// Opaque temporal value.
    Temporal(Seq<u8>),
    /// Nested list, encoded by the caller.
    ListOpaque(Seq<u8>),
    /// Nested map, encoded by the caller.
    MapOpaque(Seq<u8>),
}

/// Whether the bit pattern is that of a finite float.
pub open spec fn finite_bits(bits: u64) -> bool {
    (bits / 0x10_0000_0000_0000) % 0x800 != 0x7FF
}

/// The value that is stored for `v`: null for a float that is not finite.
pub open spec fn normal(v: ValueView) -> ValueView {
    match v {
        ValueView::Float(bits) => if finite_bits(bits) {
            v
        } else {
            ValueView::Null
        },
        _ => v,
    }
}

/// The bytes of a value.
pub open spec fn value_bytes(v: ValueView) -> Seq<u8> {
    match v {
        ValueView::Null => seq![],
        ValueView::Int(i) => le64(i as u64),
        ValueView::Float(bits) => le64(bits),
        ValueView::Bool(b) => seq![
            if b {
                1u8
            } else {
                0u8
            },
        ],
        ValueView::Str(s) => encode_utf8(s),
        ValueView::Bytes(b) => b,
        ValueView::Temporal(b) => b,
        ValueView::ListOpaque(b) => b,
        ValueView::MapOpaque(b) => b,
    }
}

/// The type of a value.
pub open spec fn value_tag(v: ValueView) -> PropTag {
    match v {
        ValueView::Null => PropTag::Null,
        ValueView::Int(_) => PropTag::Int64,
        ValueView::Float(_) => PropTag::Float64,
        ValueView::Bool(_) => PropTag::Bool,
        ValueView::Str(_) => PropTag::StrInline,
        ValueView::Bytes(_) => PropTag::Bytes,
        ValueView::Temporal(_) => PropTag::Temporal,
        ValueView::ListOpaque(_) => PropTag::ListRef,
        ValueView::MapOpaque(_) => PropTag::MapRef,
    }
}

// ---- faults ---------------------------------------------------------------

/// What is wrong with a block or an overflow payload.
#[derive(Clone, Copy, Debug, PartialEq, Eq, Structural)]
#[allow(inconsistent_fields)]
pub enum BlockFault {
    /// Shorter than a header.
    TooShort {
        /// Length of the block.
        len: usize,
    },
    /// Unknown version.
    Version {
        /// Version byte.
        got: u8,
    },
    /// Too many entries.
    PropCount {
        /// Entry count.
        got: u8,
    },
    /// Reserved flag bits are set.
    ReservedFlags {
        /// The flags.
        got: u16,
    },
    /// Too short for its entries and tail.
    Length {
        /// Length of the block.
        len: usize,
        /// Entry count.
        count: u8,
    },
    /// Unknown tag.
    TypeTag {
        /// Tag byte.
        got: u8,
    },
    /// Entries are not strictly ascending by key.
    NotAscending {
        /// Index of the entry.
        index: usize,
    },
    /// An entry's length does not suit its tag.
    EntryLen {
        /// The tag.
        tag: PropTag,
        /// The length.
        len: u8,
    },
    /// An entry without payload has an offset.
    ZeroExtentOffset {
        /// Index of the entry.
        index: usize,
        /// The offset.
        offset: u16,
    },
    /// A payload is not where the layout puts it.
    Placement {
        /// Index of the entry.
        index: usize,
        /// Its offset.
        offset: usize,
        /// The offset that the layout determines.
        expected: usize,
    },
    /// A payload ends past the data region.
    EscapesData {
        /// Index of the entry.
        index: usize,
    },
    /// A locator in a block without overflow tail.
    LocatorWithoutOverflow {
        /// Index of the entry.
        index: usize,
    },
    /// The data region does not end with the last payload.
    DataEnd {
        /// End of the data region.
        data_end: usize,
        /// End of the last payload.
        cursor: usize,
    },
    /// The metadata checksum does not match.
    Checksum {
        /// Checksum in the block.
        stored: u32,
        /// Checksum of the metadata.
        computed: u32,
    },
    /// The tail is no blob reference.
    TailRef {
        /// The tail.
        raw: u64,
    },
    /// A boolean is neither 0 nor 1.
    BoolByte {
        /// The byte.
        got: u8,
    },
    /// A string is not UTF-8.
    Utf8,
    /// An overflow payload is shorter than its header.
    OverflowTooShort {
        /// Its length.
        len: usize,
    },
    /// An overflow payload does not start with the magic number.
    OverflowMagic {
        /// What it starts with.
        got: u16,
    },
    /// An overflow payload is too short for its directory.
    OverflowLength {
        /// Its length.
        len: usize,
        /// Xentry count.
        count: u16,
    },
    /// An xentry's key is not past the block's keys.
    CrossDirectory {
        /// Index of the xentry.
        index: usize,
    },
    /// Xentries are not strictly ascending by key.
    XNotAscending {
        /// Index of the xentry.
        index: usize,
    },
    /// An xentry has the block-only string tag.
    XStrRef,
    /// Reserved bytes of an xentry are not zero.
    XPad {
        /// Index of the xentry.
        index: usize,
    },
    /// An xentry's length does not suit its tag.
    XLen {
        /// Index of the xentry.
        index: usize,
        /// The length.
        len: u32,
    },
    /// An xentry without value has an offset.
    XZeroOffset {
        /// Index of the xentry.
        index: usize,
    },
    /// An xentry's value does not start at a multiple of four.
    XUnaligned {
        /// Index of the xentry.
        index: usize,
    },
    /// An xentry's value lies outside the data area.
    XEscapes {
        /// Index of the xentry.
        index: usize,
    },
    /// An xentry's value does not follow the one before it.
    XPlacement {
        /// Index of the xentry.
        index: usize,
    },
    /// The data area does not end with the last value.
    XDataEnd {
        /// End of the last value.
        end: usize,
    },
    /// The directory checksum does not match.
    DirChecksum {
        /// Checksum in the payload.
        stored: u32,
        /// Checksum of the directory.
        computed: u32,
    },
    /// A locator without value has an offset.
    LocatorZeroOffset {
        /// The offset.
        off: u32,
    },
    /// A locator points outside the data area.
    LocatorEscapes {
        /// The offset.
        off: u32,
        /// The length.
        len: u32,
    },
    /// A number or boolean in the overflow payload has the wrong length.
    ScalarLen {
        /// The tag.
        tag: PropTag,
    },
    /// The block-only string tag reached the overflow payload.
    OverflowStrRef,
}

/// The fault in words, without the numbers.
pub open spec fn fault_text(f: BlockFault) -> Seq<char> {
    match f {
        BlockFault::TooShort { .. } => "block too short"@,
        BlockFault::Version { .. } => "unknown block version"@,
        BlockFault::PropCount { .. } => "prop_count exceeds the entry cap"@,
        BlockFault::ReservedFlags { .. } => "reserved flag bits set"@,
        BlockFault::Length { .. } => "block length cannot hold its header entries"@,
        BlockFault::TypeTag { .. } => "unknown property type_tag byte"@,
        BlockFault::NotAscending { .. } => "header entries not strictly ascending by key_id"@,
        BlockFault::EntryLen { .. } => "entry len does not suit its tag"@,
        BlockFault::ZeroExtentOffset { .. } => "zero-extent entry carries nonzero offset"@,
        BlockFault::Placement { .. } => "payload offset is not the canonical layout offset"@,
        BlockFault::EscapesData { .. } => "payload escapes the data region end"@,
        BlockFault::LocatorWithoutOverflow { .. } => "entry references a missing overflow tail"@,
        BlockFault::DataEnd { .. } => "data region does not end with the last payload"@,
        BlockFault::Checksum { .. } => "block metadata checksum mismatch"@,
        BlockFault::TailRef { .. } => "overflow tail is not a valid BlobRef"@,
        BlockFault::BoolByte { .. } => "Bool payload byte is not 0x00/0x01"@,
        BlockFault::Utf8 => "string is not UTF-8"@,
        BlockFault::OverflowTooShort { .. } => "overflow payload too short"@,
        BlockFault::OverflowMagic { .. } => "overflow payload magic mismatch"@,
        BlockFault::OverflowLength { .. } => "overflow payload cannot hold its xentries"@,
        BlockFault::CrossDirectory { .. } => "xentry is not ordered after the primary keys"@,
        BlockFault::XNotAscending { .. } => "xentries not strictly ascending by key_id"@,
        BlockFault::XStrRef => "StrRef tag inside an overflow xentry"@,
        BlockFault::XPad { .. } => "xentry reserved pad bytes are nonzero"@,
        BlockFault::XLen { .. } => "xentry len does not suit its tag"@,
        BlockFault::XZeroOffset { .. } => "zero-length xentry carries nonzero off"@,
        BlockFault::XUnaligned { .. } => "xentry data offset is not 4-byte aligned"@,
        BlockFault::XEscapes { .. } => "xentry data escapes the data area"@,
        BlockFault::XPlacement { .. } => "xentry data offset is not the canonical layout offset"@,
        BlockFault::XDataEnd { .. } => "overflow payload does not end with the last value"@,
        BlockFault::DirChecksum { .. } => "overflow directory checksum mismatch"@,
        BlockFault::LocatorZeroOffset { .. } => "zero-length overflow locator carries nonzero off"@,
        BlockFault::LocatorEscapes { .. } => "overflow locator escapes the data area"@,
        BlockFault::ScalarLen { .. } => "overflow scalar has the wrong length"@,
        BlockFault::OverflowStrRef => "StrRef tag reached the overflow decoder"@,
    }
}

impl BlockFault {
    /// The fault in words, without the numbers.
    pub fn message(&self) -> (m: &'static str)
        ensures
            m@ == fault_text(*self),
    {
        match self {
            BlockFault::TooShort { .. } => "block too short",
            BlockFault::Version { .. } => "unknown block version",
            BlockFault::PropCount { .. } => "prop_count exceeds the entry cap",
            BlockFault::ReservedFlags { .. } => "reserved flag bits set",
            BlockFault::Length { .. } => "block length cannot hold its header entries",
            BlockFault::TypeTag { .. } => "unknown property type_tag byte",
            BlockFault::NotAscending { .. } => "header entries not strictly ascending by key_id",
            BlockFault::EntryLen { .. } => "entry len does not suit its tag",
            BlockFault::ZeroExtentOffset { .. } => "zero-extent entry carries nonzero offset",
            BlockFault::Placement { .. } => "payload offset is not the canonical layout offset",
            BlockFault::EscapesData { .. } => "payload escapes the data region end",
            BlockFault::LocatorWithoutOverflow { .. } => "entry references a missing overflow tail",
            BlockFault::DataEnd { .. } => "data region does not end with the last payload",
            BlockFault::Checksum { .. } => "block metadata checksum mismatch",
            BlockFault::TailRef { .. } => "overflow tail is not a valid BlobRef",
            BlockFault::BoolByte { .. } => "Bool payload byte is not 0x00/0x01",
            BlockFault::Utf8 => "string is not UTF-8",
            BlockFault::OverflowTooShort { .. } => "overflow payload too short",
            BlockFault::OverflowMagic { .. } => "overflow payload magic mismatch",
            BlockFault::OverflowLength { .. } => "overflow payload cannot hold its xentries",
            BlockFault::CrossDirectory { .. } => "xentry is not ordered after the primary keys",
            BlockFault::XNotAscending { .. } => "xentries not strictly ascending by key_id",
            BlockFault::XStrRef => "StrRef tag inside an overflow xentry",
            BlockFault::XPad { .. } => "xentry reserved pad bytes are nonzero",
            BlockFault::XLen { .. } => "xentry len does not suit its tag",
            BlockFault::XZeroOffset { .. } => "zero-length xentry carries nonzero off",
            BlockFault::XUnaligned { .. } => "xentry data offset is not 4-byte aligned",
            BlockFault::XEscapes { .. } => "xentry data escapes the data area",
            BlockFault::XPlacement { .. } => "xentry data offset is not the canonical layout offset",
            BlockFault::XDataEnd { .. } => "overflow payload does not end with the last value",
            BlockFault::DirChecksum { .. } => "overflow directory checksum mismatch",
            BlockFault::LocatorZeroOffset { .. } => "zero-length overflow locator carries nonzero off",
            BlockFault::LocatorEscapes { .. } => "overflow locator escapes the data area",
            BlockFault::ScalarLen { .. } => "overflow scalar has the wrong length",
            BlockFault::OverflowStrRef => "StrRef tag reached the overflow decoder",
        }
    }
}

// ---- metadata checksums ---------------------------------------------------

/// The smaller of two numbers.
pub open spec fn min_int(a: int, b: int) -> int {
    if a < b {
        a
    } else {
        b
    }
}

/// Metadata checksum of a block; zero for one shorter than a header. Ranges
/// past the end are cut off there.
pub open spec fn block_check(b: Seq<u8>) -> u32 {
    if b.len() < BLOCK_HEADER_SIZE {
        0
    } else {
        let entries_end = min_int(
            BLOCK_HEADER_SIZE + HEADER_ENTRY_SIZE * b[1],
            b.len() as int,
        );
        let c = crc32c_update(
            crc32c_update(crc32c_of(b.subrange(0, 4)), seq![0u8, 0, 0, 0]),
            b.subrange(BLOCK_HEADER_SIZE as int, entries_end),
        );
        if b[2] % 2 == 1 {
            crc32c_update(c, b.subrange(b.len() - OVERFLOW_TAIL_SIZE, b.len() as int))
        } else {
            c
        }
    }
}

/// `b` with its metadata checksum set.
pub open spec fn stamped(b: Seq<u8>) -> Seq<u8> {
    if b.len() < BLOCK_HEADER_SIZE {
        b
    } else {
        splice(b, 4, le32(block_check(b)))
    }
}

/// Directory checksum of an overflow payload; zero for one shorter than four
/// bytes. Ranges past the end are cut off there.
pub open spec fn dir_check(b: Seq<u8>) -> u32 {
    if b.len() < 4 {
        0
    } else if b.len() < OVERFLOW_HEADER_SIZE {
        crc32c_of(b.subrange(0, 4))
    } else {
        crc32c_update(
            crc32c_of(b.subrange(0, 4)),
            b.subrange(
                OVERFLOW_HEADER_SIZE as int,
                min_int(OVERFLOW_HEADER_SIZE + XENTRY_SIZE * u16_at(b, 2), b.len() as int),
            ),
        )
    }
}

// ---- reading a block ------------------------------------------------------

/// The next multiple of four.
pub open spec fn align4(n: int) -> int {
    n + (4 - n % 4) % 4
}

/// Entries of a block.
pub open spec fn entry_count(b: Seq<u8>) -> int {
    b[1] as int
}

/// Where entry `i` lies.
pub open spec fn entry_at(i: int) -> int {
    BLOCK_HEADER_SIZE + HEADER_ENTRY_SIZE * i
}

/// Key of entry `i`.
pub open spec fn entry_key(b: Seq<u8>, i: int) -> u32 {
    u32_at(b, entry_at(i))
}

/// Tag byte of entry `i`.
pub open spec fn entry_tag(b: Seq<u8>, i: int) -> u8 {
    b[entry_at(i) + 4]
}

/// Length of entry `i`.
pub open spec fn entry_len(b: Seq<u8>, i: int) -> u8 {
    b[entry_at(i) + 5]
}

/// Payload offset of entry `i`.
pub open spec fn entry_off(b: Seq<u8>, i: int) -> u16 {
    u16_at(b, entry_at(i) + 6)
}

/// Whether the block has an overflow tail.
pub open spec fn has_tail(b: Seq<u8>) -> bool {
    u16_at(b, 2) == FLAG_HAS_OVERFLOW
}

/// Where the data region ends.
pub open spec fn data_end(b: Seq<u8>) -> int {
    if has_tail(b) {
        b.len() - OVERFLOW_TAIL_SIZE
    } else {
        b.len() as int
    }
}

/// Bytes that an entry's payload takes.
pub open spec fn extent_result(tag: PropTag, len: u8) -> Result<int, BlockFault> {
    match tag {
        PropTag::Null => if len != 0 {
            Err(BlockFault::EntryLen { tag, len })
        } else {
            Ok(0)
        },
        PropTag::Int64 | PropTag::Float64 | PropTag::StrRef => if len != 8 {
            Err(BlockFault::EntryLen { tag, len })
        } else {
            Ok(8)
        },
        PropTag::Bool => if len != 1 {
            Err(BlockFault::EntryLen { tag, len })
        } else {
            Ok(1)
        },
        PropTag::StrInline | PropTag::Bytes | PropTag::Temporal => Ok(len as int),
        PropTag::ListRef | PropTag::MapRef => if len == 0 {
            Ok(LOCATOR_SIZE as int)
        } else {
            Ok(len as int)
        },
    }
}

/// Whether an entry's payload is a locator.
pub open spec fn is_locator(tag: PropTag, len: u8) -> bool {
    tag is StrRef || ((tag is ListRef || tag is MapRef) && len == 0)
}

/// Check entry `i`, given where the payload before it ended; yields where its
/// own payload ends.
pub open spec fn entry_step(b: Seq<u8>, i: int, cursor: int) -> Result<int, BlockFault> {
    let len = entry_len(b, i);
    let off = entry_off(b, i);
    match tag_of(entry_tag(b, i)) {
        None => Err(BlockFault::TypeTag { got: entry_tag(b, i) }),
        Some(tag) => if i > 0 && entry_key(b, i) <= entry_key(b, i - 1) {
            Err(BlockFault::NotAscending { index: i as usize })
        } else {
            match extent_result(tag, len) {
                Err(e) => Err(e),
                Ok(extent) => if extent == 0 {
                    if off != 0 {
                        Err(BlockFault::ZeroExtentOffset { index: i as usize, offset: off })
                    } else {
                        Ok(cursor)
                    }
                } else if off != align4(cursor) {
                    Err(
                        BlockFault::Placement {
                            index: i as usize,
                            offset: off as usize,
                            expected: align4(cursor) as usize,
                        },
                    )
                } else if off + extent > data_end(b) {
                    Err(BlockFault::EscapesData { index: i as usize })
                } else if is_locator(tag, len) && !has_tail(b) {
                    Err(BlockFault::LocatorWithoutOverflow { index: i as usize })
                } else {
                    Ok(off + extent)
                },
            }
        },
    }
}

/// Check the first `k` entries; yields where their payloads end.
pub open spec fn entry_sweep(b: Seq<u8>, k: int) -> Result<int, BlockFault>
    decreases k,
{
    if k <= 0 {
        Ok(entry_at(entry_count(b)))
    } else {
        match entry_sweep(b, k - 1) {
            Err(e) => Err(e),
            Ok(cursor) => entry_step(b, k - 1, cursor),
        }
    }
}

/// What parsing a block yields.
pub open spec fn block_result(b: Seq<u8>) -> Result<(), BlockFault> {
    if b.len() < BLOCK_HEADER_SIZE {
        Err(BlockFault::TooShort { len: b.len() as usize })
    } else if b[0] != PROP_BLOCK_VERSION {
        Err(BlockFault::Version { got: b[0] })
    } else if b[1] > MAX_PRIMARY_ENTRIES {
        Err(BlockFault::PropCount { got: b[1] })
    } else if u16_at(b, 2) > 1 {
        Err(BlockFault::ReservedFlags { got: u16_at(b, 2) })
    } else if data_end(b) < entry_at(entry_count(b)) {
        Err(BlockFault::Length { len: b.len() as usize, count: b[1] })
    } else {
        match entry_sweep(b, entry_count(b)) {
            Err(e) => Err(e),
            Ok(cursor) => if cursor != data_end(b) {
                Err(
                    BlockFault::DataEnd {
                        data_end: data_end(b) as usize,
                        cursor: cursor as usize,
                    },
                )
            } else if u32_at(b, 4) != block_check(b) {
                Err(BlockFault::Checksum { stored: u32_at(b, 4), computed: block_check(b) })
            } else {
                Ok(())
            },
        }
    }
}

/// What looking up a key in a block yields.
pub enum LookupView {
    /// The value stands in the block.
    Found(ValueView),
    /// The value stands in the overflow payload.
    InOverflow {
        /// Type of the value.
        tag: PropTag,
        /// Its offset.
        off: u32,
        /// Its length.
        len: u32,
    },
    /// The bag has no such key.
    Absent,
    /// Only the overflow payload can tell.
    MaybeInOverflow,
}

/// The payload of entry `i`.
pub open spec fn entry_payload(b: Seq<u8>, i: int) -> Seq<u8> {
    match tag_of(entry_tag(b, i)) {
        Some(tag) => match extent_result(tag, entry_len(b, i)) {
            Ok(extent) => if extent == 0 {
                seq![]
            } else {
                b.subrange(entry_off(b, i) as int, entry_off(b, i) + extent)
            },
            Err(_) => seq![],
        },
        None => seq![],
    }
}

/// The value, or the locator, of an entry with tag `tag`, length `len` and
/// payload `p`.
pub open spec fn payload_result(tag: PropTag, len: u8, p: Seq<u8>) -> Result<
    LookupView,
    BlockFault,
> {
    match tag {
        PropTag::Null => Ok(LookupView::Found(ValueView::Null)),
        PropTag::Int64 => Ok(LookupView::Found(ValueView::Int(u64_at(p, 0) as i64))),
        PropTag::Float64 => Ok(LookupView::Found(ValueView::Float(u64_at(p, 0)))),
        PropTag::Bool => if p[0] <= 1 {
            Ok(LookupView::Found(ValueView::Bool(p[0] == 1)))
        } else {
            Err(BlockFault::BoolByte { got: p[0] })
        },
        PropTag::StrInline => if valid_utf8(p) {
            Ok(LookupView::Found(ValueView::Str(decode_utf8(p))))
        } else {
            Err(BlockFault::Utf8)
        },
        PropTag::Bytes => Ok(LookupView::Found(ValueView::Bytes(p))),
        PropTag::Temporal => Ok(LookupView::Found(ValueView::Temporal(p))),
        PropTag::StrRef => Ok(
            LookupView::InOverflow { tag: PropTag::StrInline, off: u32_at(p, 0), len: u32_at(p, 4) },
        ),
        PropTag::ListRef => if len == 0 {
            Ok(LookupView::InOverflow { tag, off: u32_at(p, 0), len: u32_at(p, 4) })
        } else {
            Ok(LookupView::Found(ValueView::ListOpaque(p)))
        },
        PropTag::MapRef => if len == 0 {
            Ok(LookupView::InOverflow { tag, off: u32_at(p, 0), len: u32_at(p, 4) })
        } else {
            Ok(LookupView::Found(ValueView::MapOpaque(p)))
        },
    }
}

/// The value, or the locator, of entry `i` of a parsed block.
pub open spec fn entry_result(b: Seq<u8>, i: int) -> Result<LookupView, BlockFault> {
    match tag_of(entry_tag(b, i)) {
        None => Err(BlockFault::TypeTag { got: entry_tag(b, i) }),
        Some(tag) => payload_result(tag, entry_len(b, i), entry_payload(b, i)),
    }
}

/// What a parsed block says of a key that none of its entries has.
pub open spec fn miss_result(b: Seq<u8>, key: u32) -> LookupView {
    if has_tail(b) && (entry_count(b) == 0 || key > entry_key(b, entry_count(b) - 1)) {
        LookupView::MaybeInOverflow
    } else {
        LookupView::Absent
    }
}

/// The overflow reference in a parsed block.
pub open spec fn tail_result(b: Seq<u8>) -> Result<Option<BlobRef>, BlockFault> {
    if !has_tail(b) {
        Ok(None)
    } else {
        match blob_of(u64_at(b, data_end(b))) {
            Some(blob) => Ok(Some(blob)),
            None => Err(BlockFault::TailRef { raw: u64_at(b, data_end(b)) }),
        }
    }
}

// ---- reading an overflow payload ------------------------------------------

/// Xentries of an overflow payload.
pub open spec fn xentry_count(b: Seq<u8>) -> int {
    u16_at(b, 2) as int
}

/// Where xentry `i` lies.
pub open spec fn xentry_at(i: int) -> int {
    OVERFLOW_HEADER_SIZE + XENTRY_SIZE * i
}

/// Key of xentry `i`.
pub open spec fn xentry_key(b: Seq<u8>, i: int) -> u32 {
    u32_at(b, xentry_at(i))
}

/// Tag byte of xentry `i`.
pub open spec fn xentry_tag(b: Seq<u8>, i: int) -> u8 {
    b[xentry_at(i) + 4]
}

/// Value offset of xentry `i`.
pub open spec fn xentry_off(b: Seq<u8>, i: int) -> u32 {
    u32_at(b, xentry_at(i) + 8)
}

/// Value length of xentry `i`.
pub open spec fn xentry_len(b: Seq<u8>, i: int) -> u32 {
    u32_at(b, xentry_at(i) + 12)
}

/// Whether a length suits an xentry's tag.
pub open spec fn xlen_ok(tag: PropTag, len: u32) -> bool {
    match tag {
        PropTag::Null => len == 0,
        PropTag::Int64 | PropTag::Float64 => len == 8,
        PropTag::Bool => len == 1,
        _ => true,
    }
}

/// Check xentry `i`, given where the last value before it ended; yields where
/// the last value now ends.
pub open spec fn xentry_step(
    b: Seq<u8>,
    primary_max: Option<u32>,
    i: int,
    prev_end: Option<int>,
) -> Result<Option<int>, BlockFault> {
    let key = xentry_key(b, i);
    let off = xentry_off(b, i);
    let len = xentry_len(b, i);
    let at = xentry_at(i);
    match tag_of(xentry_tag(b, i)) {
        None => Err(BlockFault::TypeTag { got: xentry_tag(b, i) }),
        Some(tag) => if b[at + 5] != 0 || b[at + 6] != 0 || b[at + 7] != 0 {
            Err(BlockFault::XPad { index: i as usize })
        } else if primary_max is Some && key <= primary_max->0 {
            Err(BlockFault::CrossDirectory { index: i as usize })
        } else if i > 0 && key <= xentry_key(b, i - 1) {
            Err(BlockFault::XNotAscending { index: i as usize })
        } else if tag is StrRef {
            Err(BlockFault::XStrRef)
        } else if !xlen_ok(tag, len) {
            Err(BlockFault::XLen { index: i as usize, len })
        } else if len == 0 {
            if off != 0 {
                Err(BlockFault::XZeroOffset { index: i as usize })
            } else {
                Ok(prev_end)
            }
        } else if off % 4 != 0 {
            Err(BlockFault::XUnaligned { index: i as usize })
        } else if off < xentry_at(xentry_count(b)) || off + len > b.len() {
            Err(BlockFault::XEscapes { index: i as usize })
        } else if prev_end is Some && off != align4(prev_end->0) {
            Err(BlockFault::XPlacement { index: i as usize })
        } else {
            Ok(Some(off + len))
        },
    }
}

/// Check the first `k` xentries; yields where their last value ends.
pub open spec fn xentry_sweep(b: Seq<u8>, primary_max: Option<u32>, k: int) -> Result<
    Option<int>,
    BlockFault,
>
    decreases k,
{
    if k <= 0 {
        Ok(None)
    } else {
        match xentry_sweep(b, primary_max, k - 1) {
            Err(e) => Err(e),
            Ok(prev_end) => xentry_step(b, primary_max, k - 1, prev_end),
        }
    }
}

/// What parsing an overflow payload yields.
pub open spec fn overflow_result(b: Seq<u8>, primary_max: Option<u32>) -> Result<(), BlockFault> {
    if b.len() < OVERFLOW_HEADER_SIZE {
        Err(BlockFault::OverflowTooShort { len: b.len() as usize })
    } else if u16_at(b, 0) != OVERFLOW_MAGIC {
        Err(BlockFault::OverflowMagic { got: u16_at(b, 0) })
    } else if b.len() < xentry_at(xentry_count(b)) {
        Err(BlockFault::OverflowLength { len: b.len() as usize, count: u16_at(b, 2) })
    } else {
        match xentry_sweep(b, primary_max, xentry_count(b)) {
            Err(e) => Err(e),
            Ok(prev_end) => if prev_end is Some && prev_end->0 != b.len() {
                Err(BlockFault::XDataEnd { end: prev_end->0 as usize })
            } else if u32_at(b, 4) != dir_check(b) {
                Err(BlockFault::DirChecksum { stored: u32_at(b, 4), computed: dir_check(b) })
            } else {
                Ok(())
            },
        }
    }
}

/// The value that bytes in an overflow payload stand for.
pub open spec fn value_result(tag: PropTag, raw: Seq<u8>) -> Result<ValueView, BlockFault> {
    match tag {
        PropTag::Null => Ok(ValueView::Null),
        PropTag::Int64 => if raw.len() != 8 {
            Err(BlockFault::ScalarLen { tag })
        } else {
            Ok(ValueView::Int(u64_at(raw, 0) as i64))
        },
        PropTag::Float64 => if raw.len() != 8 {
            Err(BlockFault::ScalarLen { tag })
        } else {
            Ok(ValueView::Float(u64_at(raw, 0)))
        },
        PropTag::Bool => if raw.len() != 1 || raw[0] > 1 {
            Err(BlockFault::ScalarLen { tag })
        } else {
            Ok(ValueView::Bool(raw[0] == 1))
        },
        PropTag::StrInline => if valid_utf8(raw) {
            Ok(ValueView::Str(decode_utf8(raw)))
        } else {
            Err(BlockFault::Utf8)
        },
        PropTag::Bytes => Ok(ValueView::Bytes(raw)),
        PropTag::Temporal => Ok(ValueView::Temporal(raw)),
        PropTag::ListRef => Ok(ValueView::ListOpaque(raw)),
        PropTag::MapRef => Ok(ValueView::MapOpaque(raw)),
        PropTag::StrRef => Err(BlockFault::OverflowStrRef),
    }
}

/// The value that a locator points at.
pub open spec fn locator_result(b: Seq<u8>, tag: PropTag, off: u32, len: u32) -> Result<
    ValueView,
    BlockFault,
> {
    if len == 0 {
        if off != 0 {
            Err(BlockFault::LocatorZeroOffset { off })
        } else {
            value_result(tag, seq![])
        }
    } else if off < xentry_at(xentry_count(b)) || off + len > b.len() {
        Err(BlockFault::LocatorEscapes { off, len })
    } else {
        value_result(tag, b.subrange(off as int, off + len))
    }
}

/// The value of xentry `i` of a parsed payload.
pub open spec fn xentry_result(b: Seq<u8>, i: int) -> Result<ValueView, BlockFault> {
    match tag_of(xentry_tag(b, i)) {
        None => Err(BlockFault::TypeTag { got: xentry_tag(b, i) }),
        Some(tag) => value_result(
            tag,
            b.subrange(xentry_off(b, i) as int, xentry_off(b, i) + xentry_len(b, i)),
        ),
    }
}

// ---- writing --------------------------------------------------------------

/// A bag: keys with the values to store, ascending by key.
pub type Bag = Seq<(u32, ValueView)>;

/// Keys are strictly ascending.
pub open spec fn ascending(bag: Bag) -> bool {
    forall|i: int, j: int| #![trigger bag[i], bag[j]] 0 <= i < j < bag.len() ==> bag[i].0 < bag[j].0
}

/// The properties that have an entry in the block.
pub open spec fn primary_of(bag: Bag) -> Bag {
    if bag.len() <= MAX_PRIMARY_ENTRIES {
        bag
    } else {
        bag.take(MAX_PRIMARY_ENTRIES as int)
    }
}

/// The properties that have an xentry.
pub open spec fn extra_of(bag: Bag) -> Bag {
    if bag.len() <= MAX_PRIMARY_ENTRIES {
        seq![]
    } else {
        bag.skip(MAX_PRIMARY_ENTRIES as int)
    }
}

/// Whether a value in the block is replaced by a locator.
pub open spec fn spills(v: ValueView) -> bool {
    match v {
        ValueView::Str(_) => value_bytes(v).len() > MAX_INLINE_LEN,
        ValueView::ListOpaque(b) => b.len() == 0 || b.len() > MAX_INLINE_LEN,
        ValueView::MapOpaque(b) => b.len() == 0 || b.len() > MAX_INLINE_LEN,
        _ => false,
    }
}

/// Whether a value has no form in the block.
pub open spec fn oversize(v: ValueView) -> bool {
    match v {
        ValueView::Bytes(b) => b.len() > MAX_INLINE_LEN,
        ValueView::Temporal(b) => b.len() > MAX_INLINE_LEN,
        _ => false,
    }
}

/// Tag of a value's entry in the block.
pub open spec fn stored_tag(v: ValueView) -> PropTag {
    if v is Str && spills(v) {
        PropTag::StrRef
    } else {
        value_tag(v)
    }
}

/// Length of a value's entry in the block.
pub open spec fn stored_len(v: ValueView) -> u8 {
    if spills(v) {
        if v is Str {
            8
        } else {
            0
        }
    } else {
        value_bytes(v).len() as u8
    }
}

/// Payloads one after another, each at the next multiple of four of a buffer
/// in which the first byte after this region's start is at `at`. Empty
/// payloads take no room.
pub open spec fn region(at: int, payloads: Seq<Seq<u8>>) -> Seq<u8>
    decreases payloads.len(),
{
    if payloads.len() == 0 {
        seq![]
    } else {
        let before = region(at, payloads.drop_last());
        let p = payloads.last();
        if p.len() == 0 {
            before
        } else {
            before + Seq::new(
                (align4(at + before.len()) - (at + before.len())) as nat,
                |i: int| 0u8,
            ) + p
        }
    }
}

/// Where the next payload goes; zero for an empty one.
pub open spec fn place(at: int, before: Seq<Seq<u8>>, p: Seq<u8>) -> int {
    if p.len() == 0 {
        0
    } else {
        align4(at + region(at, before).len())
    }
}

/// The values that spill from the block, in entry order.
pub open spec fn spilled(primary: Bag) -> Seq<Seq<u8>>
    decreases primary.len(),
{
    if primary.len() == 0 {
        seq![]
    } else if spills(primary.last().1) {
        spilled(primary.drop_last()).push(value_bytes(primary.last().1))
    } else {
        spilled(primary.drop_last())
    }
}

/// The values of the xentries.
pub open spec fn extra_values(extra: Bag) -> Seq<Seq<u8>> {
    extra.map_values(|e: (u32, ValueView)| value_bytes(e.1))
}

/// Where the values of an overflow payload with `x` xentries start.
pub open spec fn overflow_base(x: int) -> int {
    OVERFLOW_HEADER_SIZE + XENTRY_SIZE * x
}

/// Where the value of entry `i` goes in the overflow payload.
pub open spec fn spill_off(primary: Bag, x: int, i: int) -> int {
    place(overflow_base(x), spilled(primary.take(i)), value_bytes(primary[i].1))
}

/// Where the value of xentry `i` goes in the overflow payload.
pub open spec fn extra_off(primary: Bag, extra: Bag, i: int) -> int {
    place(
        overflow_base(extra.len() as int),
        spilled(primary) + extra_values(extra).take(i),
        value_bytes(extra[i].1),
    )
}

/// The payload of entry `i` in the block.
pub open spec fn stored_payload(primary: Bag, x: int, i: int) -> Seq<u8> {
    let v = primary[i].1;
    if spills(v) {
        le32(spill_off(primary, x, i) as u32) + le32(value_bytes(v).len() as u32)
    } else {
        value_bytes(v)
    }
}

/// The payloads of the first `k` entries of the block.
pub open spec fn stored_payloads(primary: Bag, x: int, k: int) -> Seq<Seq<u8>> {
    Seq::new(k as nat, |i: int| stored_payload(primary, x, i))
}

/// Where the payload of entry `i` goes in the block.
pub open spec fn payload_off(primary: Bag, x: int, i: int) -> int {
    place(
        entry_at(primary.len() as int),
        stored_payloads(primary, x, i),
        stored_payload(primary, x, i),
    )
}

/// The first `k` entries of the block.
pub open spec fn entries_bytes(primary: Bag, x: int, k: int) -> Seq<u8>
    decreases k,
{
    if k <= 0 {
        seq![]
    } else {
        let v = primary[k - 1].1;
        entries_bytes(primary, x, k - 1) + le32(primary[k - 1].0) + seq![
            tag_byte(stored_tag(v)),
            stored_len(v),
        ] + le16(payload_off(primary, x, k - 1) as u16)
    }
}

/// The first `k` xentries of the overflow payload.
pub open spec fn xentries_bytes(primary: Bag, extra: Bag, k: int) -> Seq<u8>
    decreases k,
{
    if k <= 0 {
        seq![]
    } else {
        let v = extra[k - 1].1;
        xentries_bytes(primary, extra, k - 1) + le32(extra[k - 1].0) + seq![
            tag_byte(value_tag(v)),
            0u8,
            0,
            0,
        ] + le32(extra_off(primary, extra, k - 1) as u32) + le32(value_bytes(v).len() as u32)
    }
}

/// Whether a bag has an overflow payload.
pub open spec fn overflows(bag: Bag) -> bool {
    extra_of(bag).len() > 0 || spilled(primary_of(bag)).len() > 0
}

/// The overflow payload of a bag.
pub open spec fn overflow_bytes(bag: Bag) -> Seq<u8> {
    let primary = primary_of(bag);
    let extra = extra_of(bag);
    let dir = xentries_bytes(primary, extra, extra.len() as int);
    let head = le16(OVERFLOW_MAGIC) + le16(extra.len() as u16);
    head + le32(crc32c_update(crc32c_of(head), dir)) + dir + region(
        overflow_base(extra.len() as int),
        spilled(primary) + extra_values(extra),
    )
}

/// The block of a bag; its overflow tail, where it has one, is `tail`.
pub open spec fn block_bytes(bag: Bag, tail: u64) -> Seq<u8> {
    let primary = primary_of(bag);
    let n = primary.len() as int;
    let x = extra_of(bag).len() as int;
    let ovf = overflows(bag);
    stamped(
        seq![PROP_BLOCK_VERSION, n as u8] + le16(
            if ovf {
                FLAG_HAS_OVERFLOW
            } else {
                0
            },
        ) + seq![0u8, 0, 0, 0] + entries_bytes(primary, x, n) + region(
            entry_at(n),
            stored_payloads(primary, x, n),
        ) + if ovf {
            le64(tail)
        } else {
            seq![]
        },
    )
}

/// Which layout limit an encoding exceeds, or how its parts disagree.
#[derive(Clone, Copy, Debug, PartialEq, Eq, Structural)]
pub enum LayoutFault {
    /// More properties than the directory can count.
    XentryCount {
        /// Properties past the block's.
        count: usize,
    },
    /// A value starts past the reach of an offset.
    OverflowOffset,
    /// A value is longer than a length can say.
    OverflowLength,
    /// The block has an overflow payload and no reference was given.
    MissingRef,
    /// A reference was given and the block has no overflow payload.
    UnexpectedRef,
    /// Too short to have a tail.
    NoRoomForTail {
        /// Length of the bytes.
        len: usize,
    },
    /// Not a typed block.
    NotTyped {
        /// First byte.
        first: u8,
    },
    /// A typed block without overflow tail.
    NoOverflowFlag,
}

/// Why the value `p` cannot go after the values `before`.
pub open spec fn place_fault(at: int, before: Seq<Seq<u8>>, p: Seq<u8>) -> Option<LayoutFault> {
    if place(at, before, p) > u32::MAX {
        Some(LayoutFault::OverflowOffset)
    } else if p.len() > u32::MAX {
        Some(LayoutFault::OverflowLength)
    } else {
        None
    }
}

/// The first of the first `k` entries whose value cannot go to the overflow
/// payload.
pub open spec fn spill_fault(primary: Bag, x: int, k: int) -> Option<LayoutFault>
    decreases k,
{
    if k <= 0 {
        None
    } else {
        match spill_fault(primary, x, k - 1) {
            Some(f) => Some(f),
            None => if spills(primary[k - 1].1) {
                place_fault(
                    overflow_base(x),
                    spilled(primary.take(k - 1)),
                    value_bytes(primary[k - 1].1),
                )
            } else {
                None
            },
        }
    }
}

/// The first of the first `k` xentries whose value cannot go to the overflow
/// payload.
pub open spec fn extra_fault(primary: Bag, extra: Bag, k: int) -> Option<LayoutFault>
    decreases k,
{
    if k <= 0 {
        None
    } else {
        match extra_fault(primary, extra, k - 1) {
            Some(f) => Some(f),
            None => place_fault(
                overflow_base(extra.len() as int),
                spilled(primary) + extra_values(extra).take(k - 1),
                value_bytes(extra[k - 1].1),
            ),
        }
    }
}

/// Which layout limit the encoding of a bag exceeds.
pub open spec fn layout_fault(bag: Bag) -> Option<LayoutFault> {
    let primary = primary_of(bag);
    let extra = extra_of(bag);
    if extra.len() > u16::MAX {
        Some(LayoutFault::XentryCount { count: extra.len() as usize })
    } else {
        match spill_fault(primary, extra.len() as int, primary.len() as int) {
            Some(f) => Some(f),
            None => extra_fault(primary, extra, extra.len() as int),
        }
    }
}

/// The first of the first `k` properties that has no form in the block.
pub open spec fn first_oversize(primary: Bag, k: int) -> Option<ValueView>
    decreases k,
{
    if k <= 0 {
        None
    } else {
        match first_oversize(primary, k - 1) {
            Some(v) => Some(v),
            None => if oversize(primary[k - 1].1) {
                Some(primary[k - 1].1)
            } else {
                None
            },
        }
    }
}

/// A bag as it is stored: each value in its stored form.
pub open spec fn normal_bag(bag: Bag) -> Bag {
    bag.map_values(|e: (u32, ValueView)| (e.0, normal(e.1)))
}

} // verus!
