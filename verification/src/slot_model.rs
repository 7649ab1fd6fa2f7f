//! What the bytes of a slotted page mean, and how each operation of the
//! slotted-page codec changes them.
//!
//! ```text
//!  0..  40                   page header
//! 40..  40 + 4*slot_count    slot directory, grows forward
//!                            entry = [u16 offset, u16 length]
//!  ...                       free space
//!  ...  8192                 records, grow backward
//! ```
//!
//! A directory entry `(0, 0)` is a reusable hole; `(0, 0xFFFF)` is a durable
//! tombstone that nothing revives. The codec neither chains pages nor compacts
//! them: a record that does not fit is reported as [`PageError::Full`].

use vstd::prelude::*;
use crate::checksum::crc32c_of;
use crate::codec::{group_codec, le16, le32, le64, splice, u16_at, u32_at, u64_at, zeroed};
use crate::page::{
    decode_header, decode_node, decode_rel, header_bytes, page_type_byte, HeaderError, NodeRecord,
    PageHeader, PageType, RecordError, RelRecord, NODE_RECORD_SIZE, PAGE_HEADER_SIZE, PAGE_SIZE,
    REL_RECORD_SIZE,
};

verus! {

broadcast use group_codec;

// ---- constants ------------------------------------------------------------

/// Bytes of one directory entry.
pub const SLOT_SIZE: usize = 4;

/// Length that marks a durable tombstone.
pub const PERMANENT_TOMBSTONE_LEN: u16 = 0xFFFF;

/// First byte of the slot directory.
pub const SLOT_AREA_START: usize = PAGE_HEADER_SIZE;

/// Bytes after the header.
pub const PAGE_BODY_BYTES: usize = PAGE_SIZE - PAGE_HEADER_SIZE;

/// Node records that fit in one page.
pub const NODE_CAPACITY: u16 = 119;

/// Relationship records that fit in one page.
pub const REL_CAPACITY: u16 = 81;

/// Directory entries that fit in one page.
pub const MAX_SLOTS: u16 = 2038;

/// Largest property bag that fits in a fresh page.
pub const PROP_BAG_MAX_BYTES: usize = PAGE_BODY_BYTES - SLOT_SIZE;

/// Each capacity is the largest number of entries that the body has room for.
pub proof fn law_capacities()
    ensures
        NODE_CAPACITY == PAGE_BODY_BYTES as int / (SLOT_SIZE + NODE_RECORD_SIZE),
        REL_CAPACITY == PAGE_BODY_BYTES as int / (SLOT_SIZE + REL_RECORD_SIZE),
        MAX_SLOTS == PAGE_BODY_BYTES as int / SLOT_SIZE as int,
        SLOT_AREA_START + MAX_SLOTS * SLOT_SIZE <= PAGE_SIZE,
        PROP_BAG_MAX_BYTES == 8148,
{
}

// ---- slot id --------------------------------------------------------------

/// Index into the slot directory.
#[derive(Clone, Copy, Debug, PartialEq, Eq, PartialOrd, Ord, Hash, Structural)]
pub struct SlotId(pub u16);

impl SlotId {
    /// The raw index.
    pub fn raw(self) -> (raw: u16)
        ensures
            raw == self.0,
    {
        self.0
    }
}

// ---- errors ---------------------------------------------------------------

/// Which structural rule a page or an argument broke.
#[derive(Clone, Copy, Debug, PartialEq, Eq, Structural)]
#[allow(inconsistent_fields)]
pub enum PageFormat {
    /// The buffer is not one page long.
    BufferLength {
        /// Its length.
        got: usize,
    },
    /// The header does not decode.
    Header(HeaderError),
    /// The header claims more slots than a page can hold.
    SlotCount {
        /// The claim.
        got: u16,
    },
    /// Free space and directory together exceed the body.
    WatermarkUnderflow {
        /// Free space in the header.
        free_space: u16,
        /// Slot count in the header.
        slot_count: u16,
    },
    /// A slot holds a record of another length.
    SlotLength {
        /// The slot.
        slot: u16,
        /// Its length.
        len: u16,
        /// The length that was asked for.
        expected: u16,
    },
    /// A directory entry lies past the end of the page.
    DirectoryOverrun {
        /// The slot.
        slot: u16,
        /// Slot count in the header.
        count: u16,
    },
    /// A directory entry points outside the record area.
    OutsideRecordArea {
        /// The slot.
        slot: u16,
        /// Offset in the entry.
        off: u16,
        /// Length in the entry.
        len: u16,
    },
    /// A property bag is empty.
    EmptyBag,
    /// A property bag does not fit in any page.
    OversizeBag {
        /// Its length.
        len: usize,
    },
    /// A property bag at a fixed target is empty or too long.
    BagLength {
        /// Its length.
        len: usize,
    },
    /// A fixed-size record has another length than its page expects.
    FixedRecordLength {
        /// Its length.
        len: usize,
        /// The length of the page's records.
        expected: u16,
    },
    /// A fixed-size page claims more slots than its capacity.
    HighWater {
        /// Slot count in the header.
        count: u16,
        /// The page's capacity.
        capacity: u16,
    },
    /// A fixed-size page claims more slots than its body has room for.
    FixedWatermarkUnderflow,
    /// The free space of a fixed-size page is not that of its slot count.
    NonCanonicalWatermark {
        /// Slot count in the header.
        count: u16,
        /// Free space in the header.
        free: u16,
        /// Free space that the slot count leaves.
        expected: u16,
    },
    /// A fixed-size slot does not fit in the body.
    FixedExceedsBody,
    /// A fixed-size slot's entry is not the one its index determines.
    NonCanonicalSlot {
        /// The slot.
        slot: u16,
        /// Offset in the entry.
        off: u16,
        /// Length in the entry.
        len: u16,
        /// Offset that the index determines.
        expected_off: u16,
        /// Length of the page's records.
        expected_len: u16,
    },
    /// The gap before a redo target is too wide to count in bytes.
    SparseDirectoryOverflow,
    /// As `WatermarkUnderflow`, found while reviving a hole.
    ReviveWatermarkUnderflow,
    /// A fixed body is too short to hold a tombstone's LSN.
    TombstoneTooShort,
    /// A fixed body's place lies before the start of the page.
    TombstoneOffsetUnderflow,
    /// A preserved body's place lies before the start of the page.
    RecoveryOffsetUnderflow,
}

/// The rule in words, without the numbers.
pub open spec fn format_text(f: PageFormat) -> Seq<char> {
    match f {
        PageFormat::BufferLength { .. } => "page buffer has the wrong length"@,
        PageFormat::Header(_) => "page header does not decode"@,
        PageFormat::SlotCount { .. } => "slot_count exceeds page capacity"@,
        PageFormat::WatermarkUnderflow { .. } => "record-area watermark underflow"@,
        PageFormat::SlotLength { .. } => "slot has an unexpected length"@,
        PageFormat::DirectoryOverrun { .. } => "slot directory entry overruns page"@,
        PageFormat::OutsideRecordArea { .. } => "slot points outside record area"@,
        PageFormat::EmptyBag => "property bag payload is empty"@,
        PageFormat::OversizeBag { .. } => "property bag payload is too large"@,
        PageFormat::BagLength { .. } => "property bag payload length is out of range"@,
        PageFormat::FixedRecordLength { .. } => "fixed record has an unexpected length"@,
        PageFormat::HighWater { .. } => "fixed page high-water exceeds capacity"@,
        PageFormat::FixedWatermarkUnderflow => "fixed page watermark underflow"@,
        PageFormat::NonCanonicalWatermark { .. } => "non-canonical fixed page watermark"@,
        PageFormat::FixedExceedsBody => "fixed page exceeds page body"@,
        PageFormat::NonCanonicalSlot { .. } => "slot is not canonical"@,
        PageFormat::SparseDirectoryOverflow => "sparse slot directory overflow"@,
        PageFormat::ReviveWatermarkUnderflow => "tombstone-revive watermark underflow"@,
        PageFormat::TombstoneTooShort => "fixed tombstone body is too short for its LSN"@,
        PageFormat::TombstoneOffsetUnderflow => "fixed tombstone offset underflow"@,
        PageFormat::RecoveryOffsetUnderflow => "tombstone recovery offset underflow"@,
    }
}

impl PageFormat {
    /// The rule in words, without the numbers.
    pub fn message(&self) -> (m: &'static str)
        ensures
            m@ == format_text(*self),
    {
        match self {
            PageFormat::BufferLength { .. } => "page buffer has the wrong length",
            PageFormat::Header(_) => "page header does not decode",
            PageFormat::SlotCount { .. } => "slot_count exceeds page capacity",
            PageFormat::WatermarkUnderflow { .. } => "record-area watermark underflow",
            PageFormat::SlotLength { .. } => "slot has an unexpected length",
            PageFormat::DirectoryOverrun { .. } => "slot directory entry overruns page",
            PageFormat::OutsideRecordArea { .. } => "slot points outside record area",
            PageFormat::EmptyBag => "property bag payload is empty",
            PageFormat::OversizeBag { .. } => "property bag payload is too large",
            PageFormat::BagLength { .. } => "property bag payload length is out of range",
            PageFormat::FixedRecordLength { .. } => "fixed record has an unexpected length",
            PageFormat::HighWater { .. } => "fixed page high-water exceeds capacity",
            PageFormat::FixedWatermarkUnderflow => "fixed page watermark underflow",
            PageFormat::NonCanonicalWatermark { .. } => "non-canonical fixed page watermark",
            PageFormat::FixedExceedsBody => "fixed page exceeds page body",
            PageFormat::NonCanonicalSlot { .. } => "slot is not canonical",
            PageFormat::SparseDirectoryOverflow => "sparse slot directory overflow",
            PageFormat::ReviveWatermarkUnderflow => "tombstone-revive watermark underflow",
            PageFormat::TombstoneTooShort => "fixed tombstone body is too short for its LSN",
            PageFormat::TombstoneOffsetUnderflow => "fixed tombstone offset underflow",
            PageFormat::RecoveryOffsetUnderflow => "tombstone recovery offset underflow",
        }
    }
}

/// Errors of the slotted-page codec.
#[derive(Clone, Copy, Debug, PartialEq, Eq, Structural)]
#[non_exhaustive]
pub enum PageError {
    /// Not enough room for the slot and the record.
    Full {
        /// Bytes needed.
        needed: u16,
        /// Bytes free.
        free: u16,
    },
    /// The slot index is past the directory.
    SlotOutOfRange {
        /// The index.
        slot: u16,
        /// Number of slots.
        count: u16,
    },
    /// The slot is tombstoned.
    SlotTombstoned(u16),
    /// The page holds something else.
    WrongPageType {
        /// Page type byte found.
        got: u8,
        /// Page type byte required.
        expected: u8,
    },
    /// A structural rule is broken.
    Format(PageFormat),
    /// The record's bytes do not decode.
    RecordDecode(RecordError),
    /// The body's checksum is not the one in the header.
    ChecksumMismatch {
        /// Checksum in the header.
        stored: u32,
        /// Checksum of the body.
        computed: u32,
    },
    /// The slot already holds a later version.
    StalePublish {
        /// The slot.
        slot: u16,
        /// LSN of the version in the slot.
        current: u64,
        /// LSN of the version that was offered.
        incoming: u64,
    },
}

// ---- what a page's bytes mean ---------------------------------------------

/// One page whose header decodes.
pub open spec fn frame_ok(b: Seq<u8>) -> bool {
    &&& b.len() == PAGE_SIZE
    &&& decode_header(b) is Ok
}

/// One page whose header decodes and whose directory lies inside it.
pub open spec fn page_ok(b: Seq<u8>) -> bool {
    &&& frame_ok(b)
    &&& u16_at(b, 36) <= MAX_SLOTS
}

/// The checksum in the header is that of the body.
pub open spec fn checksum_ok(b: Seq<u8>) -> bool {
    u32_at(b, 32) == crc32c_of(b.skip(PAGE_HEADER_SIZE as int))
}

/// Slots in the directory.
pub open spec fn slot_count_of(b: Seq<u8>) -> u16 {
    u16_at(b, 36)
}

/// Free bytes of the body.
pub open spec fn free_space_of(b: Seq<u8>) -> u16 {
    u16_at(b, 38)
}

/// Where the directory entry of slot `i` lies.
pub open spec fn slot_at(i: int) -> int {
    SLOT_AREA_START + SLOT_SIZE * i
}

/// Offset in the directory entry of slot `i`.
pub open spec fn slot_off(b: Seq<u8>, i: int) -> u16 {
    u16_at(b, slot_at(i))
}

/// Length in the directory entry of slot `i`.
pub open spec fn slot_len(b: Seq<u8>, i: int) -> u16 {
    u16_at(b, slot_at(i) + 2)
}

/// Where the record area starts, by the header's account.
pub open spec fn record_area(b: Seq<u8>) -> int {
    SLOT_AREA_START + SLOT_SIZE * slot_count_of(b) + free_space_of(b)
}

/// Where the body of fixed-size slot `i` lies.
pub open spec fn fixed_start(i: int, len: int) -> int {
    PAGE_SIZE - (i + 1) * len
}

/// What attaching to a page yields.
pub open spec fn open_result(b: Seq<u8>) -> Result<(), PageError> {
    if b.len() != PAGE_SIZE {
        Err(PageError::Format(PageFormat::BufferLength { got: b.len() as usize }))
    } else {
        match decode_header(b) {
            Err(e) => Err(PageError::Format(PageFormat::Header(e))),
            Ok(h) => if !checksum_ok(b) {
                Err(
                    PageError::ChecksumMismatch {
                        stored: h.checksum,
                        computed: crc32c_of(b.skip(PAGE_HEADER_SIZE as int)),
                    },
                )
            } else if h.slot_count > MAX_SLOTS {
                Err(PageError::Format(PageFormat::SlotCount { got: h.slot_count }))
            } else {
                Ok(())
            },
        }
    }
}

/// What attaching to a page of packed bags yields when its checksum is
/// trusted.
pub open spec fn open_prop_result(b: Seq<u8>) -> Result<(), PageError> {
    if b.len() != PAGE_SIZE {
        Err(PageError::Format(PageFormat::BufferLength { got: b.len() as usize }))
    } else {
        match decode_header(b) {
            Err(e) => Err(PageError::Format(PageFormat::Header(e))),
            Ok(h) => if h.page_type != page_type_byte(PageType::PropSlotted) {
                Err(
                    PageError::WrongPageType {
                        got: h.page_type,
                        expected: page_type_byte(PageType::PropSlotted),
                    },
                )
            } else if h.slot_count > MAX_SLOTS {
                Err(PageError::Format(PageFormat::SlotCount { got: h.slot_count }))
            } else {
                Ok(())
            },
        }
    }
}

/// Whether a page of type `expected` lies in `b`.
pub open spec fn type_result(b: Seq<u8>, expected: PageType) -> Result<(), PageError> {
    if b[5] != page_type_byte(expected) {
        Err(PageError::WrongPageType { got: b[5], expected: page_type_byte(expected) })
    } else {
        Ok(())
    }
}

/// Where the record of a slot lies: `None` for a hole or a tombstone.
pub open spec fn entry_result(b: Seq<u8>, slot: u16) -> Result<Option<(u16, u16)>, PageError> {
    let count = slot_count_of(b);
    let off = slot_off(b, slot as int);
    let len = slot_len(b, slot as int);
    if slot >= count {
        Err(PageError::SlotOutOfRange { slot, count })
    } else if slot >= MAX_SLOTS {
        Err(PageError::Format(PageFormat::DirectoryOverrun { slot, count }))
    } else if off == 0 && (len == 0 || len == PERMANENT_TOMBSTONE_LEN) {
        Ok(None)
    } else if off < slot_at(count as int) || off + len > PAGE_SIZE {
        Err(PageError::Format(PageFormat::OutsideRecordArea { slot, off, len }))
    } else {
        Ok(Some((off, len)))
    }
}

/// Whether a slot holds a durable tombstone.
pub open spec fn tombstone_result(b: Seq<u8>, slot: u16) -> Result<bool, PageError> {
    let count = slot_count_of(b);
    if slot >= count {
        Err(PageError::SlotOutOfRange { slot, count })
    } else if slot >= MAX_SLOTS {
        Err(PageError::Format(PageFormat::DirectoryOverrun { slot, count }))
    } else {
        Ok(
            slot_off(b, slot as int) == 0 && slot_len(b, slot as int)
                == PERMANENT_TOMBSTONE_LEN,
        )
    }
}

/// The LSN in a durable tombstone; `None` for any other slot.
pub open spec fn tombstone_lsn_result(b: Seq<u8>, slot: u16, len: u16) -> Result<
    Option<u64>,
    PageError,
> {
    match tombstone_result(b, slot) {
        Err(e) => Err(e),
        Ok(false) => Ok(None),
        Ok(true) => if len < 8 {
            Err(PageError::Format(PageFormat::TombstoneTooShort))
        } else if fixed_start(slot as int, len as int) < 0 {
            Err(PageError::Format(PageFormat::TombstoneOffsetUnderflow))
        } else {
            Ok(Some(u64_at(b, fixed_start(slot as int, len as int))))
        },
    }
}

/// The node record in a slot; `None` for a hole or a tombstone.
pub open spec fn read_node_result(b: Seq<u8>, slot: u16) -> Result<Option<NodeRecord>, PageError> {
    match entry_result(b, slot) {
        Err(e) => Err(e),
        Ok(None) => Ok(None),
        Ok(Some((off, len))) => if len != NODE_RECORD_SIZE {
            Err(
                PageError::Format(
                    PageFormat::SlotLength { slot, len, expected: NODE_RECORD_SIZE as u16 },
                ),
            )
        } else {
            match decode_node(b.subrange(off as int, off + len)) {
                Err(e) => Err(PageError::RecordDecode(e)),
                Ok(r) => Ok(Some(r)),
            }
        },
    }
}

/// The relationship record in a slot; `None` for a hole or a tombstone.
pub open spec fn read_rel_result(b: Seq<u8>, slot: u16) -> Result<Option<RelRecord>, PageError> {
    match entry_result(b, slot) {
        Err(e) => Err(e),
        Ok(None) => Ok(None),
        Ok(Some((off, len))) => if len != REL_RECORD_SIZE {
            Err(
                PageError::Format(
                    PageFormat::SlotLength { slot, len, expected: REL_RECORD_SIZE as u16 },
                ),
            )
        } else {
            match decode_rel(b.subrange(off as int, off + len)) {
                Err(e) => Err(PageError::RecordDecode(e)),
                Ok(r) => Ok(Some(r)),
            }
        },
    }
}

/// The property bag in a slot; `None` for a hole or a tombstone.
pub open spec fn read_bag_result(b: Seq<u8>, slot: u16) -> Result<Option<Seq<u8>>, PageError> {
    match type_result(b, PageType::PropSlotted) {
        Err(e) => Err(e),
        Ok(_) => match entry_result(b, slot) {
            Err(e) => Err(e),
            Ok(None) => Ok(None),
            Ok(Some((off, len))) => Ok(Some(b.subrange(off as int, off + len))),
        },
    }
}

/// The node records of the first `n` slots, in slot order.
pub open spec fn live_nodes(b: Seq<u8>, n: int) -> Seq<(SlotId, NodeRecord)>
    decreases n,
{
    if n <= 0 {
        seq![]
    } else {
        match read_node_result(b, (n - 1) as u16) {
            Ok(Some(r)) => live_nodes(b, n - 1).push((SlotId((n - 1) as u16), r)),
            _ => live_nodes(b, n - 1),
        }
    }
}

/// The relationship records of the first `n` slots, in slot order.
pub open spec fn live_rels(b: Seq<u8>, n: int) -> Seq<(SlotId, RelRecord)>
    decreases n,
{
    if n <= 0 {
        seq![]
    } else {
        match read_rel_result(b, (n - 1) as u16) {
            Ok(Some(r)) => live_rels(b, n - 1).push((SlotId((n - 1) as u16), r)),
            _ => live_rels(b, n - 1),
        }
    }
}

/// The bytes preserved beneath a hole: `None` for a live or durably deleted
/// slot, and for a cleared body.
pub open spec fn preserved_result(b: Seq<u8>, slot: u16, len: int) -> Result<
    Option<Seq<u8>>,
    PageError,
> {
    match entry_result(b, slot) {
        Err(e) => Err(e),
        Ok(Some(_)) => Ok(None),
        Ok(None) => if slot_len(b, slot as int) == PERMANENT_TOMBSTONE_LEN {
            Ok(None)
        } else if fixed_start(slot as int, len) < 0 {
            Err(PageError::Format(PageFormat::RecoveryOffsetUnderflow))
        } else {
            let body = b.subrange(
                fixed_start(slot as int, len),
                fixed_start(slot as int, len) + len,
            );
            if forall|k: int| 0 <= k < len ==> body[k] == 0 {
                Ok(None)
            } else {
                Ok(Some(body))
            }
        },
    }
}

/// The node record preserved beneath a hole.
pub open spec fn recover_node_result(b: Seq<u8>, slot: u16) -> Result<
    Option<NodeRecord>,
    PageError,
> {
    match type_result(b, PageType::Node) {
        Err(e) => Err(e),
        Ok(_) => match preserved_result(b, slot, NODE_RECORD_SIZE as int) {
            Err(e) => Err(e),
            Ok(None) => Ok(None),
            Ok(Some(body)) => match decode_node(body) {
                Err(e) => Err(PageError::RecordDecode(e)),
                Ok(r) => Ok(Some(r)),
            },
        },
    }
}

/// The relationship record preserved beneath a hole.
pub open spec fn recover_rel_result(b: Seq<u8>, slot: u16) -> Result<Option<RelRecord>, PageError> {
    match type_result(b, PageType::Rel) {
        Err(e) => Err(e),
        Ok(_) => match preserved_result(b, slot, REL_RECORD_SIZE as int) {
            Err(e) => Err(e),
            Ok(None) => Ok(None),
            Ok(Some(body)) => match decode_rel(body) {
                Err(e) => Err(PageError::RecordDecode(e)),
                Ok(r) => Ok(Some(r)),
            },
        },
    }
}

// ---- how a page's bytes change --------------------------------------------

/// `b` with the directory entry of slot `i` set.
pub open spec fn with_slot(b: Seq<u8>, i: int, off: u16, len: u16) -> Seq<u8> {
    splice(splice(b, slot_at(i), le16(off)), slot_at(i) + 2, le16(len))
}

/// `b` with the header's slot count and free space set.
pub open spec fn with_counts(b: Seq<u8>, count: u16, free: u16) -> Seq<u8> {
    splice(splice(b, 36, le16(count)), 38, le16(free))
}

/// `b` with the header's checksum set to that of the body.
pub open spec fn sealed(b: Seq<u8>) -> Seq<u8> {
    splice(b, 32, le32(crc32c_of(b.skip(PAGE_HEADER_SIZE as int))))
}

/// A fresh page.
pub open spec fn fresh_page(h: PageHeader) -> Seq<u8> {
    sealed(
        header_bytes(
            PageHeader { slot_count: 0, free_space: PAGE_BODY_BYTES as u16, ..h },
        ) + Seq::new(PAGE_BODY_BYTES as nat, |i: int| 0u8),
    )
}

/// Why a record of `len` bytes cannot be appended.
pub open spec fn append_error(b: Seq<u8>, len: int) -> Option<PageError> {
    let count = slot_count_of(b);
    let free = free_space_of(b);
    if free < len + SLOT_SIZE {
        Some(PageError::Full { needed: (len + SLOT_SIZE) as u16, free })
    } else if free + SLOT_SIZE * count > PAGE_BODY_BYTES {
        Some(
            PageError::Format(
                PageFormat::WatermarkUnderflow { free_space: free, slot_count: count },
            ),
        )
    } else {
        None
    }
}

/// The page after a record was appended.
pub open spec fn appended(b: Seq<u8>, rec: Seq<u8>) -> Seq<u8> {
    let count = slot_count_of(b);
    let start = record_area(b) - rec.len();
    sealed(
        with_counts(
            with_slot(splice(b, start, rec), count as int, start as u16, rec.len() as u16),
            (count + 1) as u16,
            (free_space_of(b) - rec.len() - SLOT_SIZE) as u16,
        ),
    )
}

/// Why the record in a slot cannot be overwritten by one of `len` bytes.
pub open spec fn overwrite_error(b: Seq<u8>, slot: u16, len: u16) -> Option<PageError> {
    match entry_result(b, slot) {
        Err(e) => Some(e),
        Ok(None) => Some(PageError::SlotTombstoned(slot)),
        Ok(Some((_, got))) => if got != len {
            Some(PageError::Format(PageFormat::SlotLength { slot, len: got, expected: len }))
        } else {
            None
        },
    }
}

/// The page after the record in a slot was overwritten.
pub open spec fn overwritten(b: Seq<u8>, slot: u16, rec: Seq<u8>) -> Seq<u8> {
    sealed(splice(b, slot_off(b, slot as int) as int, rec))
}

/// The larger of two counts.
pub open spec fn max_count(a: int, b: int) -> int {
    if a < b {
        b
    } else {
        a
    }
}

/// Why a fixed-size record cannot be written at its slot.
pub open spec fn fixed_error(
    b: Seq<u8>,
    slot: u16,
    rec_len: int,
    len: u16,
    capacity: u16,
) -> Option<PageError> {
    let count = slot_count_of(b);
    let free = free_space_of(b);
    let start = fixed_start(slot as int, len as int);
    if slot >= capacity {
        Some(PageError::SlotOutOfRange { slot, count: capacity })
    } else if rec_len != len {
        Some(
            PageError::Format(
                PageFormat::FixedRecordLength { len: rec_len as usize, expected: len },
            ),
        )
    } else if count > capacity {
        Some(PageError::Format(PageFormat::HighWater { count, capacity }))
    } else if count * (len + SLOT_SIZE) > PAGE_BODY_BYTES {
        Some(PageError::Format(PageFormat::FixedWatermarkUnderflow))
    } else if free != PAGE_BODY_BYTES - count * (len + SLOT_SIZE) {
        Some(
            PageError::Format(
                PageFormat::NonCanonicalWatermark {
                    count,
                    free,
                    expected: (PAGE_BODY_BYTES - count * (len + SLOT_SIZE)) as u16,
                },
            ),
        )
    } else if max_count(slot + 1, count as int) * (len + SLOT_SIZE) > PAGE_BODY_BYTES {
        Some(PageError::Format(PageFormat::FixedExceedsBody))
    } else if slot < count {
        match entry_result(b, slot) {
            Err(e) => Some(e),
            Ok(None) => None,
            Ok(Some((off, got))) => if off != start || got != len {
                Some(
                    PageError::Format(
                        PageFormat::NonCanonicalSlot {
                            slot,
                            off,
                            len: got,
                            expected_off: start as u16,
                            expected_len: len,
                        },
                    ),
                )
            } else {
                None
            },
        }
    } else {
        None
    }
}

/// `b` with the directory entries and bodies of slots `count..to` cleared.
pub open spec fn fixed_grown(b: Seq<u8>, count: int, to: int, len: int) -> Seq<u8> {
    if count < to {
        zeroed(
            zeroed(b, slot_at(count), slot_at(to)),
            PAGE_SIZE - to * len,
            PAGE_SIZE - count * len,
        )
    } else {
        b
    }
}

/// The page after a fixed-size record was written at its slot, before the
/// checksum is set.
pub open spec fn fixed_body(b: Seq<u8>, slot: u16, rec: Seq<u8>, len: u16) -> Seq<u8> {
    let count = slot_count_of(b);
    let to = max_count(slot + 1, count as int);
    let start = fixed_start(slot as int, len as int);
    with_counts(
        with_slot(
            splice(fixed_grown(b, count as int, to, len as int), start, rec),
            slot as int,
            start as u16,
            len,
        ),
        to as u16,
        (PAGE_BODY_BYTES - to * (len + SLOT_SIZE)) as u16,
    )
}

/// The page after a fixed-size record was written at its slot.
pub open spec fn fixed_written(b: Seq<u8>, slot: u16, rec: Seq<u8>, len: u16) -> Seq<u8> {
    sealed(fixed_body(b, slot, rec, len))
}

/// The body of a durable tombstone.
pub open spec fn tombstone_body(lsn: u64, len: u16) -> Seq<u8> {
    le64(lsn) + Seq::new((len - 8) as nat, |i: int| 0u8)
}

/// Why a durable tombstone cannot be written.
pub open spec fn bury_error(b: Seq<u8>, slot: u16, len: u16, capacity: u16) -> Option<PageError> {
    if slot < slot_count_of(b) {
        match tombstone_lsn_result(b, slot, len) {
            Err(e) => Some(e),
            Ok(Some(_)) => None,
            Ok(None) => fixed_error(b, slot, len as int, len, capacity),
        }
    } else {
        fixed_error(b, slot, len as int, len, capacity)
    }
}

/// A newer LSN of a tombstone that is there already goes into the page's body.
/// On a page whose slots all fit this always holds.
pub open spec fn bury_fits(b: Seq<u8>, slot: u16, lsn: u64, len: u16) -> bool {
    let start = fixed_start(slot as int, len as int);
    slot < slot_count_of(b) && tombstone_result(b, slot) == Ok::<bool, PageError>(true) ==> start < 0
        || start >= PAGE_HEADER_SIZE || lsn <= u64_at(b, start)
}

/// The page after a durable tombstone was written: an older or equal one is
/// kept, a newer one replaces the LSN.
pub open spec fn buried(b: Seq<u8>, slot: u16, lsn: u64, len: u16) -> Seq<u8> {
    if slot < slot_count_of(b) && tombstone_result(b, slot) == Ok::<bool, PageError>(true) {
        let start = fixed_start(slot as int, len as int);
        if lsn <= u64_at(b, start) {
            b
        } else {
            sealed(splice(b, start, tombstone_body(lsn, len)))
        }
    } else {
        sealed(
            with_slot(
                fixed_written(b, slot, tombstone_body(lsn, len), len),
                slot as int,
                0,
                PERMANENT_TOMBSTONE_LEN,
            ),
        )
    }
}

/// Bytes that a redo target past the directory needs, at most 0xFFFF.
pub open spec fn sparse_need(gap: int, len: int) -> int {
    if SLOT_SIZE * gap + len + SLOT_SIZE > 0xFFFF {
        0xFFFF
    } else {
        SLOT_SIZE * gap + len + SLOT_SIZE
    }
}

/// The page after the directory was extended by holes up to `slot`; the
/// checksum is left as it was.
pub open spec fn sparse_extended(b: Seq<u8>, slot: u16) -> Seq<u8> {
    let count = slot_count_of(b);
    with_counts(
        zeroed(b, slot_at(count as int), slot_at(slot as int)),
        slot,
        (free_space_of(b) - SLOT_SIZE * (slot - count)) as u16,
    )
}

/// Why a record cannot be installed at a redo target. A durable tombstone
/// refuses every record.
pub open spec fn put_error(b: Seq<u8>, slot: u16, len: u16) -> Option<PageError> {
    let count = slot_count_of(b);
    let free = free_space_of(b);
    let gap = slot - count;
    if slot == count {
        append_error(b, len as int)
    } else if slot > count {
        if SLOT_SIZE * gap > 0xFFFF {
            Some(PageError::Format(PageFormat::SparseDirectoryOverflow))
        } else if free < sparse_need(gap, len as int) {
            Some(PageError::Full { needed: sparse_need(gap, len as int) as u16, free })
        } else if free + SLOT_SIZE * count > PAGE_BODY_BYTES {
            Some(
                PageError::Format(
                    PageFormat::WatermarkUnderflow {
                        free_space: (free - SLOT_SIZE * gap) as u16,
                        slot_count: slot,
                    },
                ),
            )
        } else {
            None
        }
    } else if buried_error(b, slot) is Some {
        buried_error(b, slot)
    } else {
        match entry_result(b, slot) {
            Err(e) => Some(e),
            Ok(None) => if free < len {
                Some(PageError::Full { needed: len, free })
            } else if free + SLOT_SIZE * count > PAGE_BODY_BYTES {
                Some(PageError::Format(PageFormat::ReviveWatermarkUnderflow))
            } else {
                None
            },
            Ok(Some(_)) => overwrite_error(b, slot, len),
        }
    }
}

/// The page after a hole was revived.
pub open spec fn revived(b: Seq<u8>, slot: u16, rec: Seq<u8>) -> Seq<u8> {
    let start = record_area(b) - rec.len();
    sealed(
        splice(
            with_slot(splice(b, start, rec), slot as int, start as u16, rec.len() as u16),
            38,
            le16((free_space_of(b) - rec.len()) as u16),
        ),
    )
}

/// The page after a record was installed at a redo target.
pub open spec fn put_page(b: Seq<u8>, slot: u16, rec: Seq<u8>) -> Seq<u8> {
    let count = slot_count_of(b);
    if slot == count {
        appended(b, rec)
    } else if slot > count {
        appended(sparse_extended(b, slot), rec)
    } else if entry_result(b, slot) == Ok::<Option<(u16, u16)>, PageError>(None) {
        revived(b, slot, rec)
    } else {
        overwritten(b, slot, rec)
    }
}

/// The page after a slot was turned into a hole. A durable tombstone stays.
pub open spec fn holed(b: Seq<u8>, slot: u16) -> Seq<u8> {
    if buried_error(b, slot) is Some {
        b
    } else {
        sealed(with_slot(b, slot as int, 0, 0))
    }
}

/// Why a slot cannot be turned into a hole.
pub open spec fn hole_error(b: Seq<u8>, slot: u16) -> Option<PageError> {
    if slot < slot_count_of(b) {
        None
    } else {
        Some(PageError::SlotOutOfRange { slot, count: slot_count_of(b) })
    }
}

/// Why a version with LSN `incoming` may not be published at a slot, given
/// what reading the slot's LSN yields.
pub open spec fn publish_error(
    b: Seq<u8>,
    slot: u16,
    incoming: u64,
    current: Result<Option<u64>, PageError>,
) -> Option<PageError> {
    if slot >= slot_count_of(b) {
        None
    } else {
        match tombstone_result(b, slot) {
            Err(e) => Some(e),
            Ok(true) => Some(PageError::SlotTombstoned(slot)),
            Ok(false) => match current {
                Err(e) => Some(e),
                Ok(Some(lsn)) => if incoming < lsn {
                    Some(PageError::StalePublish { slot, current: lsn, incoming })
                } else {
                    None
                },
                Ok(None) => None,
            },
        }
    }
}

/// The LSN of the node version in a slot.
pub open spec fn node_lsn_result(b: Seq<u8>, slot: u16) -> Result<Option<u64>, PageError> {
    match read_node_result(b, slot) {
        Err(e) => Err(e),
        Ok(None) => Ok(None),
        Ok(Some(r)) => Ok(Some(r.created_lsn)),
    }
}

/// The LSN of the relationship version in a slot.
pub open spec fn rel_lsn_result(b: Seq<u8>, slot: u16) -> Result<Option<u64>, PageError> {
    match read_rel_result(b, slot) {
        Err(e) => Err(e),
        Ok(None) => Ok(None),
        Ok(Some(r)) => Ok(Some(r.created_lsn)),
    }
}

/// The first error of two.
pub open spec fn first_error(a: Option<PageError>, b: Option<PageError>) -> Option<PageError> {
    match a {
        Some(e) => Some(e),
        None => b,
    }
}

/// Why a page is not of type `t`.
pub open spec fn type_error(b: Seq<u8>, t: PageType) -> Option<PageError> {
    match type_result(b, t) {
        Err(e) => Some(e),
        Ok(_) => None,
    }
}

/// Why a redo target may not be written: it holds a durable tombstone.
pub open spec fn buried_error(b: Seq<u8>, slot: u16) -> Option<PageError> {
    if slot >= slot_count_of(b) {
        None
    } else {
        match tombstone_result(b, slot) {
            Err(e) => Some(e),
            Ok(true) => Some(PageError::SlotTombstoned(slot)),
            Ok(false) => None,
        }
    }
}

/// Why a property bag cannot be inserted.
pub open spec fn insert_bag_error(b: Seq<u8>, len: int) -> Option<PageError> {
    if type_error(b, PageType::PropSlotted) is Some {
        type_error(b, PageType::PropSlotted)
    } else if len == 0 {
        Some(PageError::Format(PageFormat::EmptyBag))
    } else if len > PROP_BAG_MAX_BYTES {
        Some(PageError::Format(PageFormat::OversizeBag { len: len as usize }))
    } else {
        append_error(b, len)
    }
}

/// Why a property bag has no admissible length for a fixed target.
pub open spec fn bag_length_error(len: int) -> Option<PageError> {
    if len == 0 || len > PROP_BAG_MAX_BYTES {
        Some(PageError::Format(PageFormat::BagLength { len: len as usize }))
    } else {
        None
    }
}

/// The checksum holds after it was set.
pub proof fn lemma_sealed(b: Seq<u8>)
    requires
        b.len() == PAGE_SIZE,
    ensures
        sealed(b).len() == PAGE_SIZE,
        checksum_ok(sealed(b)),
        sealed(b).skip(PAGE_HEADER_SIZE as int) == b.skip(PAGE_HEADER_SIZE as int),
        decode_header(b) is Ok ==> decode_header(sealed(b)) is Ok,
        forall|i: int| #![trigger sealed(b)[i]] 36 <= i < PAGE_SIZE ==> sealed(b)[i] == b[i],
{
    assert(sealed(b).skip(PAGE_HEADER_SIZE as int) =~= b.skip(PAGE_HEADER_SIZE as int));
}

// ---- why a write fails ----------------------------------------------------

/// Why a record of `len` bytes cannot be appended to a page of type `t`.
pub open spec fn insert_error(b: Seq<u8>, t: PageType, len: int) -> Option<PageError> {
    first_error(type_error(b, t), append_error(b, len))
}

/// Why a node record cannot be written at its own slot.
pub open spec fn publish_node_error(b: Seq<u8>, slot: u16, lsn: u64) -> Option<PageError> {
    first_error(
        type_error(b, PageType::Node),
        first_error(
            publish_error(b, slot, lsn, node_lsn_result(b, slot)),
            fixed_error(b, slot, 64, 64, NODE_CAPACITY),
        ),
    )
}

/// Why a relationship record cannot be written at its own slot.
pub open spec fn publish_rel_error(b: Seq<u8>, slot: u16, lsn: u64) -> Option<PageError> {
    first_error(
        type_error(b, PageType::Rel),
        first_error(
            publish_error(b, slot, lsn, rel_lsn_result(b, slot)),
            fixed_error(b, slot, 96, 96, REL_CAPACITY),
        ),
    )
}

/// Why a record cannot be written over the one in its slot.
pub open spec fn update_error(b: Seq<u8>, t: PageType, slot: u16, len: u16) -> Option<PageError> {
    first_error(type_error(b, t), overwrite_error(b, slot, len))
}

/// Why a record of `len` bytes cannot be put at a redo target of a page of
/// type `t`.
pub open spec fn put_record_error(b: Seq<u8>, t: PageType, slot: u16, len: u16) -> Option<
    PageError,
> {
    first_error(type_error(b, t), put_error(b, slot, len))
}

/// Why a bag of `len` bytes cannot be put at a redo target.
pub open spec fn put_bag_error(b: Seq<u8>, slot: u16, len: int) -> Option<PageError> {
    first_error(
        type_error(b, PageType::PropSlotted),
        first_error(bag_length_error(len), put_error(b, slot, len as u16)),
    )
}

/// Why a fixed-size bag cannot be put at its own slot.
pub open spec fn fixed_bag_error(b: Seq<u8>, slot: u16, len: int, capacity: u16) -> Option<
    PageError,
> {
    first_error(
        type_error(b, PageType::PropSlotted),
        first_error(
            bag_length_error(len),
            first_error(buried_error(b, slot), fixed_error(b, slot, len, len as u16, capacity)),
        ),
    )
}

/// Why a durable tombstone cannot be written at a slot.
pub open spec fn retire_error(
    b: Seq<u8>,
    t: PageType,
    slot: u16,
    len: u16,
    capacity: u16,
) -> Option<PageError> {
    first_error(type_error(b, t), bury_error(b, slot, len, capacity))
}

} // verus!
