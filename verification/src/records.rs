//! Slotted pages: the codec for node and relationship records and for packed
//! property bags.
//!
//! [`SlottedPage`] borrows a page buffer for writing, [`SlottedPageRef`] for
//! reading. What the bytes mean, and what each operation does to them, is
//! stated in [`crate::slot_model`].

use vstd::prelude::*;
use vstd::slice::slice_subrange;
use crate::checksum::crc32c;
use crate::codec::{
    get_u16, get_u64, group_codec, le64, push_u64, put_bytes, put_u16, put_u32, put_u64, put_zeros,
    splice, u32_at, u64_at,
};
use crate::ids::{Lsn, PageId, TenantId};
use crate::page::{
    decode_header, header_bytes, header_of, law_header_round_trip, law_node_round_trip,
    law_rel_round_trip, node_bytes, page_type_byte, rel_bytes, NodeRecord, PageHeader, PageType,
    RelRecord, NODE_RECORD_SIZE, PAGE_HEADER_SIZE, PAGE_MAGIC, PAGE_SIZE, PAGE_VERSION,
    REL_RECORD_SIZE,
};
use crate::page_laws::{law_nodes_are_all_listed, law_rels_are_all_listed};
use crate::slot_laws::{
    law_append_holds, law_fixed_holds, law_fresh_page, law_held_bag_reads, law_held_node_reads,
    law_held_rel_reads, law_overwrite_holds, law_put_holds,
};
use crate::slot_model::{
    append_error, appended, buried, buried_error, bury_error, bury_fits, entry_result,
    fixed_bag_error, fixed_body, fixed_error, fixed_grown, fixed_start, fixed_written, frame_ok,
    free_space_of, fresh_page, hole_error, holed, insert_bag_error, insert_error, lemma_sealed,
    live_nodes, live_rels, open_prop_result, open_result, overwrite_error, overwritten, page_ok,
    preserved_result, publish_error, publish_node_error, publish_rel_error, put_bag_error,
    put_error, put_page, put_record_error, read_bag_result, read_node_result, read_rel_result,
    recover_node_result, recover_rel_result, retire_error, sealed, slot_count_of, slot_len,
    sparse_extended, tombstone_body, tombstone_lsn_result, tombstone_result, type_result,
    update_error, with_counts, with_slot,
};

pub use crate::slot_model::{
    PageError, PageFormat, SlotId, MAX_SLOTS, NODE_CAPACITY, PAGE_BODY_BYTES,
    PERMANENT_TOMBSTONE_LEN, PROP_BAG_MAX_BYTES, REL_CAPACITY, SLOT_AREA_START, SLOT_SIZE,
};

verus! {

broadcast use group_codec;

// ---- read-only slotted page -----------------------------------------------

/// Read-only view of one page.
#[derive(Clone, Copy, Debug)]
pub struct SlottedPageRef<'a> {
    /// The page's bytes.
    pub bytes: &'a [u8],
}

impl<'a> View for SlottedPageRef<'a> {
    type V = Seq<u8>;

    open spec fn view(&self) -> Seq<u8> {
        self.bytes@
    }
}

/// The view of an optional slice.
pub open spec fn bag_view(r: Result<Option<&[u8]>, PageError>) -> Result<
    Option<Seq<u8>>,
    PageError,
> {
    match r {
        Err(e) => Err(e),
        Ok(None) => Ok(None),
        Ok(Some(s)) => Ok(Some(s@)),
    }
}

impl<'a> SlottedPageRef<'a> {
    /// Attach to a page: check length, header, checksum and slot count.
    pub fn open(bytes: &'a [u8]) -> (r: Result<SlottedPageRef<'a>, PageError>)
        ensures
            open_result(bytes@) is Ok <==> r is Ok,
            r matches Ok(p) ==> p@ == bytes@ && page_ok(p@),
            r matches Err(e) ==> open_result(bytes@) == Err::<(), PageError>(e),
    {
        if bytes.len() != PAGE_SIZE {
            return Err(PageError::Format(PageFormat::BufferLength { got: bytes.len() }));
        }
        let hdr = match PageHeader::from_bytes(bytes) {
            Ok(h) => h,
            Err(e) => {
                return Err(PageError::Format(PageFormat::Header(e)));
            },
        };
        let body = slice_subrange(bytes, PAGE_HEADER_SIZE, PAGE_SIZE);
        proof {
            assert(body@ =~= bytes@.skip(PAGE_HEADER_SIZE as int));
        }
        let computed: u32 = crc32c(body);
        if computed != hdr.checksum {
            return Err(PageError::ChecksumMismatch { stored: hdr.checksum, computed });
        }
        if hdr.slot_count > MAX_SLOTS {
            return Err(PageError::Format(PageFormat::SlotCount { got: hdr.slot_count }));
        }
        Ok(SlottedPageRef { bytes })
    }

    /// Attach to bytes that are known to be one page with a valid header.
    pub fn from_bytes_unchecked(bytes: &'a [u8]) -> (r: SlottedPageRef<'a>)
        requires
            frame_ok(bytes@),
        ensures
            r@ == bytes@,
    {
        SlottedPageRef { bytes }
    }

    /// Attach to a page of packed bags whose checksum is trusted: check length,
    /// header, page type and slot count.
    pub fn open_prop_trusted(bytes: &'a [u8]) -> (r: Result<SlottedPageRef<'a>, PageError>)
        ensures
            open_prop_result(bytes@) is Ok <==> r is Ok,
            r matches Ok(p) ==> p@ == bytes@ && page_ok(p@),
            r matches Err(e) ==> open_prop_result(bytes@) == Err::<(), PageError>(e),
    {
        if bytes.len() != PAGE_SIZE {
            return Err(PageError::Format(PageFormat::BufferLength { got: bytes.len() }));
        }
        let hdr = match PageHeader::from_bytes(bytes) {
            Ok(h) => h,
            Err(e) => {
                return Err(PageError::Format(PageFormat::Header(e)));
            },
        };
        let expected: u8 = PageType::PropSlotted.as_byte();
        if hdr.page_type != expected {
            return Err(PageError::WrongPageType { got: hdr.page_type, expected });
        }
        if hdr.slot_count > MAX_SLOTS {
            return Err(PageError::Format(PageFormat::SlotCount { got: hdr.slot_count }));
        }
        Ok(SlottedPageRef { bytes })
    }

    /// Decoded header.
    pub fn header(&self) -> (h: PageHeader)
        requires
            frame_ok(self@),
        ensures
            h == header_of(self@),
    {
        match PageHeader::from_bytes(self.bytes) {
            Ok(h) => h,
            Err(_) => {
                assert(false);
                PageHeader::new(PageId(0), PageType::Node, TenantId(0))
            },
        }
    }

    /// LSN of the last redo operation applied to the page.
    pub fn page_lsn(&self) -> (lsn: Lsn)
        requires
            frame_ok(self@),
        ensures
            lsn.0 == u64_at(self@, 16),
    {
        Lsn::new(self.header().lsn)
    }

    /// Slots in the directory, holes and tombstones included.
    pub fn slot_count(&self) -> (n: u16)
        requires
            frame_ok(self@),
        ensures
            n == slot_count_of(self@),
    {
        self.header().slot_count
    }

    /// Where the record of a slot lies.
    fn slot_entry(&self, slot: SlotId) -> (r: Result<Option<(u16, u16)>, PageError>)
        requires
            frame_ok(self@),
        ensures
            r == entry_result(self@, slot.0),
    {
        let count: u16 = self.slot_count();
        if slot.0 >= count {
            return Err(PageError::SlotOutOfRange { slot: slot.0, count });
        }
        if slot.0 >= MAX_SLOTS {
            return Err(
                PageError::Format(PageFormat::DirectoryOverrun { slot: slot.0, count }),
            );
        }
        let at: usize = SLOT_AREA_START + SLOT_SIZE * (slot.0 as usize);
        let off: u16 = get_u16(self.bytes, at);
        let len: u16 = get_u16(self.bytes, at + 2);
        if off == 0 && (len == 0 || len == PERMANENT_TOMBSTONE_LEN) {
            return Ok(None);
        }
        if (off as usize) < SLOT_AREA_START + SLOT_SIZE * (count as usize) || (off as usize) + (
        len as usize) > PAGE_SIZE {
            return Err(
                PageError::Format(PageFormat::OutsideRecordArea { slot: slot.0, off, len }),
            );
        }
        Ok(Some((off, len)))
    }

    /// Read a node record; `None` for a hole or a tombstone.
    pub fn read_node(&self, slot: SlotId) -> (r: Result<Option<NodeRecord>, PageError>)
        requires
            frame_ok(self@),
        ensures
            r == read_node_result(self@, slot.0),
    {
        match self.slot_entry(slot) {
            Err(e) => Err(e),
            Ok(None) => Ok(None),
            Ok(Some((off, len))) => {
                if len as usize != NODE_RECORD_SIZE {
                    return Err(
                        PageError::Format(
                            PageFormat::SlotLength { slot: slot.0, len, expected: 64 },
                        ),
                    );
                }
                let rec = slice_subrange(self.bytes, off as usize, off as usize + NODE_RECORD_SIZE);
                match NodeRecord::from_bytes(rec) {
                    Ok(r) => Ok(Some(r)),
                    Err(e) => Err(PageError::RecordDecode(e)),
                }
            },
        }
    }

    /// Read a relationship record; `None` for a hole or a tombstone.
    pub fn read_rel(&self, slot: SlotId) -> (r: Result<Option<RelRecord>, PageError>)
        requires
            frame_ok(self@),
        ensures
            r == read_rel_result(self@, slot.0),
    {
        match self.slot_entry(slot) {
            Err(e) => Err(e),
            Ok(None) => Ok(None),
            Ok(Some((off, len))) => {
                if len as usize != REL_RECORD_SIZE {
                    return Err(
                        PageError::Format(
                            PageFormat::SlotLength { slot: slot.0, len, expected: 96 },
                        ),
                    );
                }
                let rec = slice_subrange(self.bytes, off as usize, off as usize + REL_RECORD_SIZE);
                match RelRecord::from_bytes(rec) {
                    Ok(r) => Ok(Some(r)),
                    Err(e) => Err(PageError::RecordDecode(e)),
                }
            },
        }
    }

    /// The bytes preserved beneath a hole, at the place of fixed-size slots of
    /// `len` bytes.
    fn recover_tombstoned_fixed(&self, slot: SlotId, len: usize) -> (r: Result<
        Option<&'a [u8]>,
        PageError,
    >)
        requires
            frame_ok(self@),
            0 < len <= 96,
        ensures
            bag_view(r) == preserved_result(self@, slot.0, len as int),
    {
        match self.slot_entry(slot) {
            Err(e) => Err(e),
            Ok(Some(_)) => Ok(None),
            Ok(None) => {
                if get_u16(self.bytes, SLOT_AREA_START + SLOT_SIZE * (slot.0 as usize) + 2)
                    == PERMANENT_TOMBSTONE_LEN {
                    return Ok(None);
                }
                assert((slot.0 + 1) * len <= 0x1_0000 * 96) by (nonlinear_arith)
                    requires
                        slot.0 + 1 <= 0x1_0000,
                        0 < len <= 96,
                ;
                assert((slot.0 + 1) * len >= len) by (nonlinear_arith)
                    requires
                        slot.0 >= 0,
                        0 < len,
                ;
                let distance: usize = (slot.0 as usize + 1) * len;
                if distance > PAGE_SIZE {
                    return Err(PageError::Format(PageFormat::RecoveryOffsetUnderflow));
                }
                let start: usize = PAGE_SIZE - distance;
                let raw = slice_subrange(self.bytes, start, start + len);
                let mut k: usize = 0;
                while k < raw.len()
                    invariant
                        k <= raw@.len() == len,
                        forall|j: int| 0 <= j < k ==> raw@[j] == 0,
                        frame_ok(self@),
                        raw@ == self@.subrange(start as int, start + len),
                        start == fixed_start(slot.0 as int, len as int),
                        start >= 0,
                        entry_result(self@, slot.0) == Ok::<Option<(u16, u16)>, PageError>(None),
                        slot_len(self@, slot.0 as int) != PERMANENT_TOMBSTONE_LEN,
                    decreases raw@.len() - k,
                {
                    if raw[k] != 0 {
                        return Ok(Some(raw));
                    }
                    k += 1;
                }
                Ok(None)
            },
        }
    }

    /// The node record preserved beneath a hole.
    pub fn recover_tombstoned_node(&self, slot: SlotId) -> (r: Result<
        Option<NodeRecord>,
        PageError,
    >)
        requires
            frame_ok(self@),
        ensures
            r == recover_node_result(self@, slot.0),
    {
        match self.require_ref_page_type(PageType::Node) {
            Err(e) => Err(e),
            Ok(_) => match self.recover_tombstoned_fixed(slot, NODE_RECORD_SIZE) {
                Err(e) => Err(e),
                Ok(None) => Ok(None),
                Ok(Some(raw)) => match NodeRecord::from_bytes(raw) {
                    Ok(r) => Ok(Some(r)),
                    Err(e) => Err(PageError::RecordDecode(e)),
                },
            },
        }
    }

    /// The relationship record preserved beneath a hole.
    pub fn recover_tombstoned_rel(&self, slot: SlotId) -> (r: Result<Option<RelRecord>, PageError>)
        requires
            frame_ok(self@),
        ensures
            r == recover_rel_result(self@, slot.0),
    {
        match self.require_ref_page_type(PageType::Rel) {
            Err(e) => Err(e),
            Ok(_) => match self.recover_tombstoned_fixed(slot, REL_RECORD_SIZE) {
                Err(e) => Err(e),
                Ok(None) => Ok(None),
                Ok(Some(raw)) => match RelRecord::from_bytes(raw) {
                    Ok(r) => Ok(Some(r)),
                    Err(e) => Err(PageError::RecordDecode(e)),
                },
            },
        }
    }

    fn require_ref_page_type(&self, expected: PageType) -> (r: Result<(), PageError>)
        requires
            frame_ok(self@),
        ensures
            r == type_result(self@, expected),
    {
        let got: u8 = self.bytes[5];
        if got != expected.as_byte() {
            return Err(PageError::WrongPageType { got, expected: expected.as_byte() });
        }
        Ok(())
    }

    /// The live node records, in slot order.
    pub fn iter_nodes(&self) -> (out: Vec<(SlotId, NodeRecord)>)
        requires
            frame_ok(self@),
        ensures
            out@ == live_nodes(self@, slot_count_of(self@) as int),
            forall|s: u16, r: NodeRecord| #[trigger]
                out@.contains((SlotId(s), r)) <==> s < slot_count_of(self@) && read_node_result(
                    self@,
                    s,
                ) == Ok::<Option<NodeRecord>, PageError>(Some(r)),
            forall|i: int, j: int|
                0 <= i < j < out@.len() ==> (#[trigger] out@[i]).0.0 < (#[trigger] out@[j]).0.0,
    {
        let count: u16 = self.slot_count();
        let mut out: Vec<(SlotId, NodeRecord)> = Vec::new();
        let mut i: u16 = 0;
        while i < count
            invariant
                frame_ok(self@),
                i <= count,
                out@ == live_nodes(self@, i as int),
            decreases count - i,
        {
            match self.read_node(SlotId(i)) {
                Ok(Some(r)) => {
                    out.push((SlotId(i), r));
                },
                _ => {},
            }
            i += 1;
        }
        proof {
            law_nodes_are_all_listed(self@, count as int);
        }
        out
    }

    /// The live relationship records, in slot order.
    pub fn iter_rels(&self) -> (out: Vec<(SlotId, RelRecord)>)
        requires
            frame_ok(self@),
        ensures
            out@ == live_rels(self@, slot_count_of(self@) as int),
            forall|s: u16, r: RelRecord| #[trigger]
                out@.contains((SlotId(s), r)) <==> s < slot_count_of(self@) && read_rel_result(
                    self@,
                    s,
                ) == Ok::<Option<RelRecord>, PageError>(Some(r)),
            forall|i: int, j: int|
                0 <= i < j < out@.len() ==> (#[trigger] out@[i]).0.0 < (#[trigger] out@[j]).0.0,
    {
        let count: u16 = self.slot_count();
        let mut out: Vec<(SlotId, RelRecord)> = Vec::new();
        let mut i: u16 = 0;
        while i < count
            invariant
                frame_ok(self@),
                i <= count,
                out@ == live_rels(self@, i as int),
            decreases count - i,
        {
            match self.read_rel(SlotId(i)) {
                Ok(Some(r)) => {
                    out.push((SlotId(i), r));
                },
                _ => {},
            }
            i += 1;
        }
        proof {
            law_rels_are_all_listed(self@, count as int);
        }
        out
    }

    /// Read a property bag; `None` for a hole or a tombstone.
    pub fn read_bag(&self, slot: SlotId) -> (r: Result<Option<&'a [u8]>, PageError>)
        requires
            frame_ok(self@),
        ensures
            bag_view(r) == read_bag_result(self@, slot.0),
    {
        match self.require_ref_page_type(PageType::PropSlotted) {
            Err(e) => Err(e),
            Ok(_) => match self.slot_entry(slot) {
                Err(e) => Err(e),
                Ok(None) => Ok(None),
                Ok(Some((off, len))) => Ok(
                    Some(slice_subrange(self.bytes, off as usize, off as usize + len as usize)),
                ),
            },
        }
    }

    /// Whether a slot holds a durable tombstone.
    pub fn is_permanent_tombstone(&self, slot: SlotId) -> (r: Result<bool, PageError>)
        requires
            frame_ok(self@),
        ensures
            r == tombstone_result(self@, slot.0),
    {
        let count: u16 = self.slot_count();
        if slot.0 >= count {
            return Err(PageError::SlotOutOfRange { slot: slot.0, count });
        }
        if slot.0 >= MAX_SLOTS {
            return Err(
                PageError::Format(PageFormat::DirectoryOverrun { slot: slot.0, count }),
            );
        }
        let at: usize = SLOT_AREA_START + SLOT_SIZE * (slot.0 as usize);
        let off: u16 = get_u16(self.bytes, at);
        let len: u16 = get_u16(self.bytes, at + 2);
        Ok(off == 0 && len == PERMANENT_TOMBSTONE_LEN)
    }

    /// The LSN in a durable tombstone of a page whose bodies are
    /// `fixed_record_len` bytes; `None` for any other slot.
    pub fn permanent_tombstone_lsn(&self, slot: SlotId, fixed_record_len: u16) -> (r: Result<
        Option<u64>,
        PageError,
    >)
        requires
            frame_ok(self@),
        ensures
            r == tombstone_lsn_result(self@, slot.0, fixed_record_len),
    {
        match self.is_permanent_tombstone(slot) {
            Err(e) => Err(e),
            Ok(false) => Ok(None),
            Ok(true) => {
                if fixed_record_len < 8 {
                    return Err(PageError::Format(PageFormat::TombstoneTooShort));
                }
                assert((slot.0 + 1) * fixed_record_len <= 0x1_0000 * 0xFFFF) by (nonlinear_arith)
                    requires
                        slot.0 + 1 <= 0x1_0000,
                        fixed_record_len <= 0xFFFF,
                ;
                assert((slot.0 + 1) * fixed_record_len >= fixed_record_len) by (nonlinear_arith)
                    requires
                        slot.0 >= 0,
                        fixed_record_len >= 0,
                ;
                let distance: u64 = (slot.0 as u64 + 1) * (fixed_record_len as u64);
                if distance > PAGE_SIZE as u64 {
                    return Err(PageError::Format(PageFormat::TombstoneOffsetUnderflow));
                }
                Ok(Some(get_u64(self.bytes, PAGE_SIZE - distance as usize)))
            },
        }
    }
}

// ---- mutable slotted page -------------------------------------------------

/// Mutable view of one page. The buffer belongs to the caller.
#[derive(Debug)]
pub struct SlottedPage<'a> {
    /// The page's bytes.
    pub bytes: &'a mut [u8],
}

impl<'a> View for SlottedPage<'a> {
    type V = Seq<u8>;

    open spec fn view(&self) -> Seq<u8> {
        self.bytes@
    }
}

/// A page stays a page when its counts, its directory or its record area
/// change and its checksum is set.
proof fn lemma_header_kept(a: Seq<u8>, b: Seq<u8>)
    requires
        a.len() == b.len() == PAGE_SIZE,
        decode_header(a) is Ok,
        u32_at(b, 0) == u32_at(a, 0),
        b[4] == a[4],
        b[5] == a[5],
    ensures
        decode_header(b) is Ok,
{
}

impl<'a> SlottedPage<'a> {
    /// Turn a buffer into a fresh page of nodes, relationships or packed bags.
    pub fn init(bytes: &'a mut [u8], header: PageHeader) -> (r: Result<SlottedPage<'a>, PageError>)
        ensures
            r is Ok <==> old(bytes)@.len() == PAGE_SIZE && (header.page_type == page_type_byte(
                PageType::Node,
            ) || header.page_type == page_type_byte(PageType::Rel) || header.page_type
                == page_type_byte(PageType::PropSlotted)),
            r matches Ok(p) ==> {
                &&& p@ == fresh_page(header)
                &&& header.magic == PAGE_MAGIC && header.version == PAGE_VERSION ==> page_ok(p@)
                &&& final(p.bytes)@ == final(bytes)@
            },
            r matches Err(e) ==> {
                &&& final(bytes)@ == old(bytes)@
                &&& e == if old(bytes)@.len() != PAGE_SIZE {
                    PageError::Format(PageFormat::BufferLength { got: old(bytes)@.len() as usize })
                } else {
                    PageError::WrongPageType {
                        got: header.page_type,
                        expected: page_type_byte(PageType::Node),
                    }
                }
            },
    {
        if bytes.len() != PAGE_SIZE {
            return Err(PageError::Format(PageFormat::BufferLength { got: bytes.len() }));
        }
        if header.page_type != PageType::Node.as_byte() && header.page_type
            != PageType::Rel.as_byte() && header.page_type != PageType::PropSlotted.as_byte() {
            return Err(
                PageError::WrongPageType {
                    got: header.page_type,
                    expected: PageType::Node.as_byte(),
                },
            );
        }
        let mut fresh = header;
        fresh.slot_count = 0;
        fresh.free_space = PAGE_BODY_BYTES as u16;
        let hdr = fresh.to_bytes();
        proof {
            law_header_round_trip(fresh);
        }
        put_bytes(bytes, 0, hdr.as_slice());
        put_zeros(bytes, PAGE_HEADER_SIZE, PAGE_SIZE);
        proof {
            assert(bytes@ =~= header_bytes(fresh) + Seq::new(
                PAGE_BODY_BYTES as nat,
                |i: int| 0u8,
            ));
        }
        let mut page = SlottedPage { bytes };
        page.recompute_checksum();
        proof {
            if header.magic == PAGE_MAGIC && header.version == PAGE_VERSION {
                law_header_round_trip(header);
                law_fresh_page(header);
            }
        }
        Ok(page)
    }

    /// Attach to a page of packed bags whose checksum is trusted.
    pub fn open_prop_trusted(bytes: &'a mut [u8]) -> (r: Result<SlottedPage<'a>, PageError>)
        ensures
            open_prop_result(old(bytes)@) is Ok <==> r is Ok,
            r matches Ok(p) ==> {
                &&& p@ == old(bytes)@
                &&& page_ok(p@)
                &&& final(p.bytes)@ == final(bytes)@
            },
            r matches Err(e) ==> {
                &&& open_prop_result(old(bytes)@) == Err::<(), PageError>(e)
                &&& final(bytes)@ == old(bytes)@
            },
    {
        match SlottedPageRef::open_prop_trusted(bytes) {
            Err(e) => Err(e),
            Ok(_) => Ok(SlottedPage { bytes }),
        }
    }

    /// Attach to a page: check length, header, checksum and slot count.
    pub fn open(bytes: &'a mut [u8]) -> (r: Result<SlottedPage<'a>, PageError>)
        ensures
            open_result(old(bytes)@) is Ok <==> r is Ok,
            r matches Ok(p) ==> {
                &&& p@ == old(bytes)@
                &&& page_ok(p@)
                &&& final(p.bytes)@ == final(bytes)@
            },
            r matches Err(e) ==> {
                &&& open_result(old(bytes)@) == Err::<(), PageError>(e)
                &&& final(bytes)@ == old(bytes)@
            },
    {
        match SlottedPageRef::open(bytes) {
            Err(e) => Err(e),
            Ok(_) => Ok(SlottedPage { bytes }),
        }
    }

    /// Read-only view of this page.
    pub fn as_ref(&self) -> (r: SlottedPageRef<'_>)
        ensures
            r@ == self@,
    {
        SlottedPageRef { bytes: &*self.bytes }
    }

    /// Decoded header.
    pub fn header(&self) -> (h: PageHeader)
        requires
            page_ok(self@),
        ensures
            h == header_of(self@),
    {
        self.as_ref().header()
    }

    /// LSN of the last redo operation applied to the page.
    pub fn page_lsn(&self) -> (lsn: Lsn)
        requires
            page_ok(self@),
        ensures
            lsn.0 == u64_at(self@, 16),
    {
        Lsn::new(self.header().lsn)
    }

    /// Slots in the directory, holes and tombstones included.
    pub fn slot_count(&self) -> (n: u16)
        requires
            page_ok(self@),
        ensures
            n == slot_count_of(self@),
    {
        self.header().slot_count
    }

    /// Free bytes of the body.
    pub fn free_space(&self) -> (n: u16)
        requires
            page_ok(self@),
        ensures
            n == free_space_of(self@),
    {
        self.header().free_space
    }

    fn require_page_type(&self, expected: PageType) -> (r: Result<(), PageError>)
        requires
            page_ok(self@),
        ensures
            r == type_result(self@, expected),
    {
        let got: u8 = self.bytes[5];
        if got != expected.as_byte() {
            return Err(PageError::WrongPageType { got, expected: expected.as_byte() });
        }
        Ok(())
    }

    /// Set the header's checksum to that of the body.
    fn recompute_checksum(&mut self)
        requires
            old(self)@.len() == PAGE_SIZE,
        ensures
            final(self)@ == sealed(old(self)@),
            final(final(self).bytes)@ == final(old(self).bytes)@,
    {
        let crc: u32 = {
            let body = slice_subrange(&*self.bytes, PAGE_HEADER_SIZE, PAGE_SIZE);
            proof {
                assert(body@ =~= self@.skip(PAGE_HEADER_SIZE as int));
            }
            crc32c(body)
        };
        put_u32(self.bytes, 32, crc);
    }

    /// Set the directory entry of a slot.
    fn put_slot(&mut self, slot: u16, off: u16, len: u16)
        requires
            old(self)@.len() == PAGE_SIZE,
            slot < MAX_SLOTS,
        ensures
            final(self)@ == with_slot(old(self)@, slot as int, off, len),
            final(final(self).bytes)@ == final(old(self).bytes)@,
    {
        let at: usize = SLOT_AREA_START + SLOT_SIZE * (slot as usize);
        put_u16(self.bytes, at, off);
        put_u16(self.bytes, at + 2, len);
    }

    /// Set the header's slot count and free space.
    fn put_counts(&mut self, count: u16, free: u16)
        requires
            old(self)@.len() == PAGE_SIZE,
        ensures
            final(self)@ == with_counts(old(self)@, count, free),
            final(final(self).bytes)@ == final(old(self).bytes)@,
    {
        put_u16(self.bytes, 36, count);
        put_u16(self.bytes, 38, free);
    }

    /// Append a record: its bytes at the low end of the record area, its entry
    /// at the end of the directory.
    fn insert_raw(&mut self, record: &[u8]) -> (r: Result<SlotId, PageError>)
        requires
            page_ok(old(self)@),
            record@.len() <= PROP_BAG_MAX_BYTES,
        ensures
            r is Err <==> append_error(old(self)@, record@.len() as int) is Some,
            r matches Ok(s) ==> {
                &&& s.0 == slot_count_of(old(self)@)
                &&& final(self)@ == appended(old(self)@, record@)
                &&& page_ok(final(self)@)
            },
            r matches Err(e) ==> {
                &&& append_error(old(self)@, record@.len() as int) == Some(e)
                &&& final(self)@ == old(self)@
            },
            final(final(self).bytes)@ == final(old(self).bytes)@,
    {
        let rec_len: u16 = record.len() as u16;
        let needed: u16 = rec_len + 4;
        let hdr = self.header();
        if hdr.free_space < needed {
            return Err(PageError::Full { needed, free: hdr.free_space });
        }
        if hdr.free_space as usize + SLOT_SIZE * (hdr.slot_count as usize) > PAGE_BODY_BYTES {
            return Err(
                PageError::Format(
                    PageFormat::WatermarkUnderflow {
                        free_space: hdr.free_space,
                        slot_count: hdr.slot_count,
                    },
                ),
            );
        }
        let ghost before = self@;
        let start: usize = SLOT_AREA_START + SLOT_SIZE * (hdr.slot_count as usize)
            + hdr.free_space as usize - record.len();
        put_bytes(self.bytes, start, record);
        self.put_slot(hdr.slot_count, start as u16, rec_len);
        self.put_counts(hdr.slot_count + 1, hdr.free_space - needed);
        proof {
            lemma_sealed(self@);
        }
        self.recompute_checksum();
        proof {
            lemma_header_kept(before, self@);
        }
        Ok(SlotId(hdr.slot_count))
    }

    /// Overwrite the record in a slot with one of the same length.
    fn overwrite(&mut self, slot: SlotId, record: &[u8], expected_len: u16) -> (r: Result<
        (),
        PageError,
    >)
        requires
            page_ok(old(self)@),
            record@.len() == expected_len,
        ensures
            r is Err <==> overwrite_error(old(self)@, slot.0, expected_len) is Some,
            r is Ok ==> {
                &&& final(self)@ == overwritten(old(self)@, slot.0, record@)
                &&& page_ok(final(self)@)
            },
            r matches Err(e) ==> {
                &&& overwrite_error(old(self)@, slot.0, expected_len) == Some(e)
                &&& final(self)@ == old(self)@
            },
            final(final(self).bytes)@ == final(old(self).bytes)@,
    {
        let (off, len) = match self.as_ref().slot_entry(slot) {
            Err(e) => {
                return Err(e);
            },
            Ok(None) => {
                return Err(PageError::SlotTombstoned(slot.0));
            },
            Ok(Some(x)) => x,
        };
        if len != expected_len {
            return Err(
                PageError::Format(
                    PageFormat::SlotLength { slot: slot.0, len, expected: expected_len },
                ),
            );
        }
        let ghost before = self@;
        put_bytes(self.bytes, off as usize, record);
        proof {
            lemma_sealed(self@);
        }
        self.recompute_checksum();
        proof {
            lemma_header_kept(before, self@);
        }
        Ok(())
    }
}

impl<'a> SlottedPage<'a> {
    /// Write a fixed-size record at its slot. The entry and the place of the
    /// body are functions of the slot alone, so the order of writes leaves no
    /// trace; slots below a new high-water mark are cleared.
    fn write_fixed_at_slot(
        &mut self,
        slot: SlotId,
        record: &[u8],
        expected_len: u16,
        capacity: u16,
    ) -> (r: Result<(), PageError>)
        requires
            page_ok(old(self)@),
            expected_len > 0,
        ensures
            r is Err <==> fixed_error(
                old(self)@,
                slot.0,
                record@.len() as int,
                expected_len,
                capacity,
            ) is Some,
            r is Ok ==> {
                &&& final(self)@ == fixed_written(old(self)@, slot.0, record@, expected_len)
                &&& page_ok(final(self)@)
            },
            r matches Err(e) ==> {
                &&& fixed_error(
                    old(self)@,
                    slot.0,
                    record@.len() as int,
                    expected_len,
                    capacity,
                ) == Some(e)
                &&& final(self)@ == old(self)@
            },
            final(final(self).bytes)@ == final(old(self).bytes)@,
    {
        let ghost before = self@;
        if slot.0 >= capacity {
            return Err(PageError::SlotOutOfRange { slot: slot.0, count: capacity });
        }
        if record.len() != expected_len as usize {
            return Err(
                PageError::Format(
                    PageFormat::FixedRecordLength { len: record.len(), expected: expected_len },
                ),
            );
        }
        let hdr = self.header();
        let count: u16 = hdr.slot_count;
        if count > capacity {
            return Err(PageError::Format(PageFormat::HighWater { count, capacity }));
        }
        let cell: u64 = expected_len as u64 + SLOT_SIZE as u64;
        assert(0 <= count * cell <= 0xFFFF * 0x1_0003) by (nonlinear_arith)
            requires
                0 <= count <= 0xFFFF,
                0 <= cell <= 0x1_0003,
        ;
        let old_used: u64 = count as u64 * cell;
        if old_used > PAGE_BODY_BYTES as u64 {
            return Err(PageError::Format(PageFormat::FixedWatermarkUnderflow));
        }
        if hdr.free_space as u64 != PAGE_BODY_BYTES as u64 - old_used {
            return Err(
                PageError::Format(
                    PageFormat::NonCanonicalWatermark {
                        count,
                        free: hdr.free_space,
                        expected: (PAGE_BODY_BYTES as u64 - old_used) as u16,
                    },
                ),
            );
        }
        let new_count: u16 = if slot.0 + 1 < count {
            count
        } else {
            slot.0 + 1
        };
        assert(0 <= new_count * cell <= 0xFFFF * 0x1_0003) by (nonlinear_arith)
            requires
                0 <= new_count <= 0xFFFF,
                0 <= cell <= 0x1_0003,
        ;
        let new_used: u64 = new_count as u64 * cell;
        if new_used > PAGE_BODY_BYTES as u64 {
            return Err(PageError::Format(PageFormat::FixedExceedsBody));
        }
        // The bodies of all slots and the whole directory fit in the body.
        assert(new_count * cell == new_count * expected_len + 4 * new_count) by (nonlinear_arith)
            requires
                cell == expected_len + 4,
        ;
        assert(count * cell == count * expected_len + 4 * count) by (nonlinear_arith)
            requires
                cell == expected_len + 4,
        ;
        assert(0 <= (slot.0 + 1) * expected_len <= new_count * expected_len) by (nonlinear_arith)
            requires
                0 <= slot.0 + 1 <= new_count,
                0 <= expected_len,
        ;
        assert(expected_len <= (slot.0 + 1) * expected_len) by (nonlinear_arith)
            requires
                0 <= slot.0,
                0 <= expected_len,
        ;
        assert(0 <= count * expected_len <= new_count * expected_len) by (nonlinear_arith)
            requires
                0 <= count <= new_count,
                0 <= expected_len,
        ;
        let start: usize = PAGE_SIZE - (slot.0 as usize + 1) * (expected_len as usize);
        if slot.0 < count {
            match self.as_ref().slot_entry(slot) {
                Err(e) => {
                    return Err(e);
                },
                Ok(None) => {},
                Ok(Some((off, len))) => {
                    if off as usize != start || len != expected_len {
                        return Err(
                            PageError::Format(
                                PageFormat::NonCanonicalSlot {
                                    slot: slot.0,
                                    off,
                                    len,
                                    expected_off: start as u16,
                                    expected_len,
                                },
                            ),
                        );
                    }
                },
            }
        }
        if new_count > count {
            put_zeros(
                self.bytes,
                SLOT_AREA_START + SLOT_SIZE * (count as usize),
                SLOT_AREA_START + SLOT_SIZE * (new_count as usize),
            );
            put_zeros(
                self.bytes,
                PAGE_SIZE - (new_count as usize) * (expected_len as usize),
                PAGE_SIZE - (count as usize) * (expected_len as usize),
            );
        }
        assert(self@ == fixed_grown(before, count as int, new_count as int, expected_len as int));
        put_bytes(self.bytes, start, record);
        self.put_slot(slot.0, start as u16, expected_len);
        self.put_counts(new_count, (PAGE_BODY_BYTES as u64 - new_used) as u16);
        assert(self@ == fixed_body(before, slot.0, record@, expected_len));
        proof {
            lemma_sealed(self@);
            assert(decode_header(self@) is Ok) by {
                lemma_header_kept(before, self@);
            }
        }
        self.recompute_checksum();
        Ok(())
    }

    /// Write a durable tombstone at a fixed-size slot. A tombstone already
    /// there keeps the later of the two LSNs.
    fn write_fixed_permanent_tombstone(
        &mut self,
        slot: SlotId,
        tombstone_lsn: Lsn,
        expected_len: u16,
        capacity: u16,
    ) -> (r: Result<(), PageError>)
        requires
            page_ok(old(self)@),
            expected_len >= 8,
        ensures
            r is Err <==> bury_error(old(self)@, slot.0, expected_len, capacity) is Some,
            r is Ok ==> {
                &&& final(self)@ == buried(old(self)@, slot.0, tombstone_lsn.0, expected_len)
                &&& bury_fits(old(self)@, slot.0, tombstone_lsn.0, expected_len) ==> page_ok(final(self)@)
            },
            r matches Err(e) ==> {
                &&& bury_error(old(self)@, slot.0, expected_len, capacity) == Some(e)
                &&& final(self)@ == old(self)@
            },
            final(final(self).bytes)@ == final(old(self).bytes)@,
    {
        let ghost before = self@;
        let mut marker: Vec<u8> = Vec::new();
        push_u64(&mut marker, tombstone_lsn.0);
        while marker.len() < expected_len as usize
            invariant
                8 <= marker@.len() <= expected_len,
                marker@ == le64(tombstone_lsn.0) + Seq::new(
                    (marker@.len() - 8) as nat,
                    |i: int| 0u8,
                ),
            decreases expected_len - marker@.len(),
        {
            marker.push(0);
            assert(marker@ =~= le64(tombstone_lsn.0) + Seq::new(
                (marker@.len() - 8) as nat,
                |i: int| 0u8,
            ));
        }
        assert(marker@ == tombstone_body(tombstone_lsn.0, expected_len));
        if slot.0 < self.slot_count() {
            match self.as_ref().permanent_tombstone_lsn(slot, expected_len) {
                Err(e) => {
                    return Err(e);
                },
                Ok(Some(existing)) => {
                    if tombstone_lsn.0 <= existing {
                        return Ok(());
                    }
                    assert(expected_len <= (slot.0 + 1) * expected_len <= PAGE_SIZE) by {
                        assert(expected_len <= (slot.0 + 1) * expected_len) by (nonlinear_arith)
                            requires
                                0 <= slot.0,
                                0 <= expected_len,
                        ;
                    }
                    let start: usize = PAGE_SIZE - (slot.0 as usize + 1) * (expected_len as usize);
                    put_bytes(self.bytes, start, marker.as_slice());
                    proof {
                        lemma_sealed(self@);
                    }
                    self.recompute_checksum();
                    proof {
                        if start >= PAGE_HEADER_SIZE {
                            lemma_header_kept(before, self@);
                        }
                    }
                    return Ok(());
                },
                Ok(None) => {},
            }
        }
        match self.write_fixed_at_slot(slot, marker.as_slice(), expected_len, capacity) {
            Err(e) => {
                return Err(e);
            },
            Ok(_) => {},
        }
        let ghost mid = self@;
        proof {
            assert(slot.0 < MAX_SLOTS);
        }
        self.put_slot(slot.0, 0, PERMANENT_TOMBSTONE_LEN);
        proof {
            lemma_sealed(self@);
        }
        self.recompute_checksum();
        proof {
            lemma_header_kept(mid, self@);
        }
        Ok(())
    }
}

impl<'a> SlottedPage<'a> {
    /// Install a record at an exact redo target: append, extend the directory
    /// by holes and append, revive a hole, or overwrite in place.
    fn put_fixed_at(&mut self, slot: SlotId, record: &[u8], expected_len: u16) -> (r: Result<
        (),
        PageError,
    >)
        requires
            page_ok(old(self)@),
            record@.len() == expected_len,
            expected_len <= PROP_BAG_MAX_BYTES,
        ensures
            match r {
                Ok(_) => {
                    &&& put_error(old(self)@, slot.0, expected_len) is None
                    &&& final(self)@ == put_page(old(self)@, slot.0, record@)
                    &&& page_ok(final(self)@)
                },
                Err(e) => {
                    &&& put_error(old(self)@, slot.0, expected_len) == Some(e)
                    &&& final(self)@ == old(self)@
                },
            },
            final(final(self).bytes)@ == final(old(self).bytes)@,
    {
        let ghost before = self@;
        let count: u16 = self.slot_count();
        if slot.0 == count {
            return match self.insert_raw(record) {
                Ok(_) => Ok(()),
                Err(e) => Err(e),
            };
        }
        if slot.0 > count {
            let gap: u32 = slot.0 as u32 - count as u32;
            if SLOT_SIZE as u32 * gap > 0xFFFF {
                return Err(PageError::Format(PageFormat::SparseDirectoryOverflow));
            }
            let hdr = self.header();
            let total: u32 = SLOT_SIZE as u32 * gap + expected_len as u32 + SLOT_SIZE as u32;
            let needed: u16 = if total > 0xFFFF {
                0xFFFF
            } else {
                total as u16
            };
            if hdr.free_space < needed {
                return Err(PageError::Full { needed, free: hdr.free_space });
            }
            let left: u16 = (hdr.free_space as u32 - SLOT_SIZE as u32 * gap) as u16;
            if hdr.free_space as usize + SLOT_SIZE * (count as usize) > PAGE_BODY_BYTES {
                return Err(
                    PageError::Format(
                        PageFormat::WatermarkUnderflow { free_space: left, slot_count: slot.0 },
                    ),
                );
            }
            put_zeros(
                self.bytes,
                SLOT_AREA_START + SLOT_SIZE * (count as usize),
                SLOT_AREA_START + SLOT_SIZE * (slot.0 as usize),
            );
            self.put_counts(slot.0, left);
            proof {
                assert(self@ == sparse_extended(before, slot.0));
                lemma_header_kept(before, self@);
            }
            return match self.insert_raw(record) {
                Ok(_) => Ok(()),
                Err(e) => Err(e),
            };
        }
        match self.guard_buried(slot) {
            Err(e) => {
                return Err(e);
            },
            Ok(_) => {},
        }
        match self.as_ref().slot_entry(slot) {
            Err(e) => {
                return Err(e);
            },
            Ok(Some(_)) => {
                return self.overwrite(slot, record, expected_len);
            },
            Ok(None) => {},
        }
        let hdr = self.header();
        if hdr.free_space < expected_len {
            return Err(PageError::Full { needed: expected_len, free: hdr.free_space });
        }
        if hdr.free_space as usize + SLOT_SIZE * (count as usize) > PAGE_BODY_BYTES {
            return Err(PageError::Format(PageFormat::ReviveWatermarkUnderflow));
        }
        let start: usize = SLOT_AREA_START + SLOT_SIZE * (count as usize) + hdr.free_space as usize
            - record.len();
        put_bytes(self.bytes, start, record);
        self.put_slot(slot.0, start as u16, expected_len);
        put_u16(self.bytes, 38, hdr.free_space - expected_len);
        proof {
            lemma_sealed(self@);
        }
        self.recompute_checksum();
        proof {
            lemma_header_kept(before, self@);
        }
        Ok(())
    }

    /// Insert a node record.
    pub fn insert_node(&mut self, rec: &NodeRecord) -> (r: Result<SlotId, PageError>)
        requires
            page_ok(old(self)@),
        ensures
            match r {
                Ok(s) => {
                    &&& insert_error(old(self)@, PageType::Node, NODE_RECORD_SIZE as int) is None
                    &&& final(self)@ == appended(old(self)@, node_bytes(*rec))
                    &&& page_ok(final(self)@)
                    &&& read_node_result(final(self)@, s.0) == Ok::<Option<NodeRecord>, PageError>(
                        Some(*rec),
                    )
                    &&& s.0 == slot_count_of(old(self)@)
                },
                Err(e) => {
                    &&& insert_error(old(self)@, PageType::Node, NODE_RECORD_SIZE as int) == Some(e)
                    &&& final(self)@ == old(self)@
                },
            },
            final(final(self).bytes)@ == final(old(self).bytes)@,
    {
        match self.require_page_type(PageType::Node) {
            Err(e) => {
                return Err(e);
            },
            Ok(_) => {},
        }
        let bytes = rec.to_bytes();
        proof {
            law_node_round_trip(*rec);
            if append_error(self@, bytes@.len() as int) is None {
                law_append_holds(self@, bytes@);
                law_held_node_reads(appended(self@, bytes@), slot_count_of(self@), *rec);
            }
        }
        self.insert_raw(bytes.as_slice())
    }

    /// Insert a relationship record.
    pub fn insert_rel(&mut self, rec: &RelRecord) -> (r: Result<SlotId, PageError>)
        requires
            page_ok(old(self)@),
        ensures
            match r {
                Ok(s) => {
                    &&& insert_error(old(self)@, PageType::Rel, REL_RECORD_SIZE as int) is None
                    &&& final(self)@ == appended(old(self)@, rel_bytes(*rec))
                    &&& page_ok(final(self)@)
                    &&& read_rel_result(final(self)@, s.0) == Ok::<Option<RelRecord>, PageError>(
                        Some(*rec),
                    )
                    &&& s.0 == slot_count_of(old(self)@)
                },
                Err(e) => {
                    &&& insert_error(old(self)@, PageType::Rel, REL_RECORD_SIZE as int) == Some(e)
                    &&& final(self)@ == old(self)@
                },
            },
            final(final(self).bytes)@ == final(old(self).bytes)@,
    {
        match self.require_page_type(PageType::Rel) {
            Err(e) => {
                return Err(e);
            },
            Ok(_) => {},
        }
        let bytes = rec.to_bytes();
        proof {
            law_rel_round_trip(*rec);
            if append_error(self@, bytes@.len() as int) is None {
                law_append_holds(self@, bytes@);
                law_held_rel_reads(appended(self@, bytes@), slot_count_of(self@), *rec);
            }
        }
        self.insert_raw(bytes.as_slice())
    }

    /// Refuse to publish over a durable tombstone or a later version.
    fn guard_monotone_publish(
        &self,
        slot: SlotId,
        incoming: u64,
        current: Result<Option<u64>, PageError>,
    ) -> (r: Result<(), PageError>)
        requires
            page_ok(self@),
        ensures
            r is Err <==> publish_error(self@, slot.0, incoming, current) is Some,
            r matches Err(e) ==> publish_error(self@, slot.0, incoming, current) == Some(e),
    {
        if slot.0 >= self.slot_count() {
            return Ok(());
        }
        match self.as_ref().is_permanent_tombstone(slot) {
            Err(e) => Err(e),
            Ok(true) => Err(PageError::SlotTombstoned(slot.0)),
            Ok(false) => match current {
                Err(e) => Err(e),
                Ok(Some(lsn)) => if incoming < lsn {
                    Err(PageError::StalePublish { slot: slot.0, current: lsn, incoming })
                } else {
                    Ok(())
                },
                Ok(None) => Ok(()),
            },
        }
    }

    /// Write a node record at its own slot.
    pub fn write_node_at_slot(&mut self, slot: SlotId, rec: &NodeRecord) -> (r: Result<
        (),
        PageError,
    >)
        requires
            page_ok(old(self)@),
        ensures
            match r {
                Ok(_) => {
                    &&& publish_node_error(old(self)@, slot.0, rec.created_lsn) is None
                    &&& final(self)@ == fixed_written(old(self)@, slot.0, node_bytes(*rec), 64)
                    &&& page_ok(final(self)@)
                    &&& read_node_result(final(self)@, slot.0) == Ok::<Option<NodeRecord>, PageError>(
                        Some(*rec),
                    )
                },
                Err(e) => {
                    &&& publish_node_error(old(self)@, slot.0, rec.created_lsn) == Some(e)
                    &&& final(self)@ == old(self)@
                },
            },
            final(final(self).bytes)@ == final(old(self).bytes)@,
    {
        match self.require_page_type(PageType::Node) {
            Err(e) => {
                return Err(e);
            },
            Ok(_) => {},
        }
        let current = match self.read_node(slot) {
            Err(e) => Err(e),
            Ok(None) => Ok(None),
            Ok(Some(r)) => Ok(Some(r.created_lsn)),
        };
        match self.guard_monotone_publish(slot, rec.created_lsn, current) {
            Err(e) => {
                return Err(e);
            },
            Ok(_) => {},
        }
        let bytes = rec.to_bytes();
        proof {
            law_node_round_trip(*rec);
            if fixed_error(self@, slot.0, 64, 64, NODE_CAPACITY) is None {
                law_fixed_holds(self@, slot.0, bytes@, 64, NODE_CAPACITY);
                law_held_node_reads(fixed_written(self@, slot.0, bytes@, 64), slot.0, *rec);
            }
        }
        self.write_fixed_at_slot(slot, bytes.as_slice(), NODE_RECORD_SIZE as u16, NODE_CAPACITY)
    }

    /// Write a relationship record at its own slot.
    pub fn write_rel_at_slot(&mut self, slot: SlotId, rec: &RelRecord) -> (r: Result<
        (),
        PageError,
    >)
        requires
            page_ok(old(self)@),
        ensures
            match r {
                Ok(_) => {
                    &&& publish_rel_error(old(self)@, slot.0, rec.created_lsn) is None
                    &&& final(self)@ == fixed_written(old(self)@, slot.0, rel_bytes(*rec), 96)
                    &&& page_ok(final(self)@)
                    &&& read_rel_result(final(self)@, slot.0) == Ok::<Option<RelRecord>, PageError>(
                        Some(*rec),
                    )
                },
                Err(e) => {
                    &&& publish_rel_error(old(self)@, slot.0, rec.created_lsn) == Some(e)
                    &&& final(self)@ == old(self)@
                },
            },
            final(final(self).bytes)@ == final(old(self).bytes)@,
    {
        match self.require_page_type(PageType::Rel) {
            Err(e) => {
                return Err(e);
            },
            Ok(_) => {},
        }
        let current = match self.read_rel(slot) {
            Err(e) => Err(e),
            Ok(None) => Ok(None),
            Ok(Some(r)) => Ok(Some(r.created_lsn)),
        };
        match self.guard_monotone_publish(slot, rec.created_lsn, current) {
            Err(e) => {
                return Err(e);
            },
            Ok(_) => {},
        }
        let bytes = rec.to_bytes();
        proof {
            law_rel_round_trip(*rec);
            if fixed_error(self@, slot.0, 96, 96, REL_CAPACITY) is None {
                law_fixed_holds(self@, slot.0, bytes@, 96, REL_CAPACITY);
                law_held_rel_reads(fixed_written(self@, slot.0, bytes@, 96), slot.0, *rec);
            }
        }
        self.write_fixed_at_slot(slot, bytes.as_slice(), REL_RECORD_SIZE as u16, REL_CAPACITY)
    }

    /// Overwrite the node record in a slot.
    pub fn update_node(&mut self, slot: SlotId, rec: &NodeRecord) -> (r: Result<(), PageError>)
        requires
            page_ok(old(self)@),
        ensures
            match r {
                Ok(_) => {
                    &&& update_error(old(self)@, PageType::Node, slot.0, 64) is None
                    &&& final(self)@ == overwritten(old(self)@, slot.0, node_bytes(*rec))
                    &&& page_ok(final(self)@)
                    &&& read_node_result(final(self)@, slot.0) == Ok::<Option<NodeRecord>, PageError>(
                        Some(*rec),
                    )
                },
                Err(e) => {
                    &&& update_error(old(self)@, PageType::Node, slot.0, 64) == Some(e)
                    &&& final(self)@ == old(self)@
                },
            },
            final(final(self).bytes)@ == final(old(self).bytes)@,
    {
        match self.require_page_type(PageType::Node) {
            Err(e) => {
                return Err(e);
            },
            Ok(_) => {},
        }
        let bytes = rec.to_bytes();
        proof {
            law_node_round_trip(*rec);
            if overwrite_error(self@, slot.0, 64) is None {
                law_overwrite_holds(self@, slot.0, bytes@);
                law_held_node_reads(overwritten(self@, slot.0, bytes@), slot.0, *rec);
            }
        }
        self.overwrite(slot, bytes.as_slice(), NODE_RECORD_SIZE as u16)
    }

    /// Overwrite the relationship record in a slot.
    pub fn update_rel(&mut self, slot: SlotId, rec: &RelRecord) -> (r: Result<(), PageError>)
        requires
            page_ok(old(self)@),
        ensures
            match r {
                Ok(_) => {
                    &&& update_error(old(self)@, PageType::Rel, slot.0, 96) is None
                    &&& final(self)@ == overwritten(old(self)@, slot.0, rel_bytes(*rec))
                    &&& page_ok(final(self)@)
                    &&& read_rel_result(final(self)@, slot.0) == Ok::<Option<RelRecord>, PageError>(
                        Some(*rec),
                    )
                },
                Err(e) => {
                    &&& update_error(old(self)@, PageType::Rel, slot.0, 96) == Some(e)
                    &&& final(self)@ == old(self)@
                },
            },
            final(final(self).bytes)@ == final(old(self).bytes)@,
    {
        match self.require_page_type(PageType::Rel) {
            Err(e) => {
                return Err(e);
            },
            Ok(_) => {},
        }
        let bytes = rec.to_bytes();
        proof {
            law_rel_round_trip(*rec);
            if overwrite_error(self@, slot.0, 96) is None {
                law_overwrite_holds(self@, slot.0, bytes@);
                law_held_rel_reads(overwritten(self@, slot.0, bytes@), slot.0, *rec);
            }
        }
        self.overwrite(slot, bytes.as_slice(), REL_RECORD_SIZE as u16)
    }

    /// Refuse a redo target that holds a durable tombstone.
    fn guard_buried(&self, slot: SlotId) -> (r: Result<(), PageError>)
        requires
            page_ok(self@),
        ensures
            r is Err <==> buried_error(self@, slot.0) is Some,
            r matches Err(e) ==> buried_error(self@, slot.0) == Some(e),
    {
        if slot.0 >= self.slot_count() {
            return Ok(());
        }
        match self.as_ref().is_permanent_tombstone(slot) {
            Err(e) => Err(e),
            Ok(true) => Err(PageError::SlotTombstoned(slot.0)),
            Ok(false) => Ok(()),
        }
    }

    /// Install a node record at an exact redo target.
    pub fn put_node_at(&mut self, slot: SlotId, rec: &NodeRecord) -> (r: Result<(), PageError>)
        requires
            page_ok(old(self)@),
        ensures
            match r {
                Ok(_) => {
                    &&& put_record_error(old(self)@, PageType::Node, slot.0, 64) is None
                    &&& final(self)@ == put_page(old(self)@, slot.0, node_bytes(*rec))
                    &&& page_ok(final(self)@)
                    &&& read_node_result(final(self)@, slot.0) == Ok::<Option<NodeRecord>, PageError>(
                        Some(*rec),
                    )
                },
                Err(e) => {
                    &&& put_record_error(old(self)@, PageType::Node, slot.0, 64) == Some(e)
                    &&& final(self)@ == old(self)@
                },
            },
            final(final(self).bytes)@ == final(old(self).bytes)@,
    {
        match self.require_page_type(PageType::Node) {
            Err(e) => {
                return Err(e);
            },
            Ok(_) => {},
        }
        let bytes = rec.to_bytes();
        proof {
            law_node_round_trip(*rec);
            if put_error(self@, slot.0, 64) is None {
                law_put_holds(self@, slot.0, bytes@);
                law_held_node_reads(put_page(self@, slot.0, bytes@), slot.0, *rec);
            }
        }
        self.put_fixed_at(slot, bytes.as_slice(), NODE_RECORD_SIZE as u16)
    }

    /// Install a relationship record at an exact redo target.
    pub fn put_rel_at(&mut self, slot: SlotId, rec: &RelRecord) -> (r: Result<(), PageError>)
        requires
            page_ok(old(self)@),
        ensures
            match r {
                Ok(_) => {
                    &&& put_record_error(old(self)@, PageType::Rel, slot.0, 96) is None
                    &&& final(self)@ == put_page(old(self)@, slot.0, rel_bytes(*rec))
                    &&& page_ok(final(self)@)
                    &&& read_rel_result(final(self)@, slot.0) == Ok::<Option<RelRecord>, PageError>(
                        Some(*rec),
                    )
                },
                Err(e) => {
                    &&& put_record_error(old(self)@, PageType::Rel, slot.0, 96) == Some(e)
                    &&& final(self)@ == old(self)@
                },
            },
            final(final(self).bytes)@ == final(old(self).bytes)@,
    {
        match self.require_page_type(PageType::Rel) {
            Err(e) => {
                return Err(e);
            },
            Ok(_) => {},
        }
        let bytes = rec.to_bytes();
        proof {
            law_rel_round_trip(*rec);
            if put_error(self@, slot.0, 96) is None {
                law_put_holds(self@, slot.0, bytes@);
                law_held_rel_reads(put_page(self@, slot.0, bytes@), slot.0, *rec);
            }
        }
        self.put_fixed_at(slot, bytes.as_slice(), REL_RECORD_SIZE as u16)
    }

    /// Insert a property bag.
    pub fn insert_bag(&mut self, bag: &[u8]) -> (r: Result<SlotId, PageError>)
        requires
            page_ok(old(self)@),
        ensures
            match r {
                Ok(s) => {
                    &&& insert_bag_error(old(self)@, bag@.len() as int) is None
                    &&& final(self)@ == appended(old(self)@, bag@)
                    &&& page_ok(final(self)@)
                    &&& read_bag_result(final(self)@, s.0) == Ok::<Option<Seq<u8>>, PageError>(
                        Some(bag@),
                    )
                    &&& s.0 == slot_count_of(old(self)@)
                },
                Err(e) => {
                    &&& insert_bag_error(old(self)@, bag@.len() as int) == Some(e)
                    &&& final(self)@ == old(self)@
                },
            },
            final(final(self).bytes)@ == final(old(self).bytes)@,
    {
        match self.require_page_type(PageType::PropSlotted) {
            Err(e) => {
                return Err(e);
            },
            Ok(_) => {},
        }
        if bag.len() == 0 {
            return Err(PageError::Format(PageFormat::EmptyBag));
        }
        if bag.len() > PROP_BAG_MAX_BYTES {
            return Err(PageError::Format(PageFormat::OversizeBag { len: bag.len() }));
        }
        proof {
            if append_error(self@, bag@.len() as int) is None {
                law_append_holds(self@, bag@);
                law_held_bag_reads(appended(self@, bag@), slot_count_of(self@), bag@);
            }
        }
        self.insert_raw(bag)
    }

    /// Install a property bag at an exact redo target.
    pub fn put_bag_at(&mut self, slot: SlotId, bag: &[u8]) -> (r: Result<(), PageError>)
        requires
            page_ok(old(self)@),
        ensures
            match r {
                Ok(_) => {
                    &&& put_bag_error(old(self)@, slot.0, bag@.len() as int) is None
                    &&& final(self)@ == put_page(old(self)@, slot.0, bag@)
                    &&& page_ok(final(self)@)
                    &&& read_bag_result(final(self)@, slot.0) == Ok::<Option<Seq<u8>>, PageError>(
                        Some(bag@),
                    )
                },
                Err(e) => {
                    &&& put_bag_error(old(self)@, slot.0, bag@.len() as int) == Some(e)
                    &&& final(self)@ == old(self)@
                },
            },
            final(final(self).bytes)@ == final(old(self).bytes)@,
    {
        match self.require_page_type(PageType::PropSlotted) {
            Err(e) => {
                return Err(e);
            },
            Ok(_) => {},
        }
        if bag.len() == 0 || bag.len() > PROP_BAG_MAX_BYTES {
            return Err(PageError::Format(PageFormat::BagLength { len: bag.len() }));
        }
        proof {
            if put_error(self@, slot.0, bag@.len() as u16) is None {
                law_put_holds(self@, slot.0, bag@);
                law_held_bag_reads(put_page(self@, slot.0, bag@), slot.0, bag@);
            }
        }
        self.put_fixed_at(slot, bag, bag.len() as u16)
    }

    /// Install a fixed-size bag at its own slot.
    pub fn put_fixed_bag_at_slot(&mut self, slot: SlotId, bag: &[u8], capacity: u16) -> (r: Result<
        (),
        PageError,
    >)
        requires
            page_ok(old(self)@),
        ensures
            match r {
                Ok(_) => {
                    &&& fixed_bag_error(old(self)@, slot.0, bag@.len() as int, capacity) is None
                    &&& final(self)@ == fixed_written(old(self)@, slot.0, bag@, bag@.len() as u16)
                    &&& page_ok(final(self)@)
                    &&& read_bag_result(final(self)@, slot.0) == Ok::<Option<Seq<u8>>, PageError>(
                        Some(bag@),
                    )
                },
                Err(e) => {
                    &&& fixed_bag_error(old(self)@, slot.0, bag@.len() as int, capacity) == Some(e)
                    &&& final(self)@ == old(self)@
                },
            },
            final(final(self).bytes)@ == final(old(self).bytes)@,
    {
        match self.require_page_type(PageType::PropSlotted) {
            Err(e) => {
                return Err(e);
            },
            Ok(_) => {},
        }
        if bag.len() == 0 || bag.len() > PROP_BAG_MAX_BYTES {
            return Err(PageError::Format(PageFormat::BagLength { len: bag.len() }));
        }
        match self.guard_buried(slot) {
            Err(e) => {
                return Err(e);
            },
            Ok(_) => {},
        }
        proof {
            if fixed_error(self@, slot.0, bag@.len() as int, bag@.len() as u16, capacity) is None {
                law_fixed_holds(self@, slot.0, bag@, bag@.len() as u16, capacity);
                law_held_bag_reads(fixed_written(self@, slot.0, bag@, bag@.len() as u16), slot.0, bag@);
            }
        }
        self.write_fixed_at_slot(slot, bag, bag.len() as u16, capacity)
    }

    /// Write a durable tombstone at a node's slot.
    pub fn permanent_tombstone_node_at_slot(&mut self, slot: SlotId, tombstone_lsn: Lsn) -> (r:
        Result<(), PageError>)
        requires
            page_ok(old(self)@),
        ensures
            match r {
                Ok(_) => {
                    &&& retire_error(old(self)@, PageType::Node, slot.0, 64, NODE_CAPACITY) is None
                    &&& final(self)@ == buried(old(self)@, slot.0, tombstone_lsn.0, 64)
                },
                Err(e) => {
                    &&& retire_error(old(self)@, PageType::Node, slot.0, 64, NODE_CAPACITY) == Some(e)
                    &&& final(self)@ == old(self)@
                },
            },
            bury_fits(old(self)@, slot.0, tombstone_lsn.0, NODE_RECORD_SIZE as u16) ==> page_ok(final(self)@),
            final(final(self).bytes)@ == final(old(self).bytes)@,
    {
        match self.require_page_type(PageType::Node) {
            Err(e) => {
                return Err(e);
            },
            Ok(_) => {},
        }
        self.write_fixed_permanent_tombstone(
            slot,
            tombstone_lsn,
            NODE_RECORD_SIZE as u16,
            NODE_CAPACITY,
        )
    }

    /// Write a durable tombstone at a relationship's slot.
    pub fn permanent_tombstone_rel_at_slot(&mut self, slot: SlotId, tombstone_lsn: Lsn) -> (r:
        Result<(), PageError>)
        requires
            page_ok(old(self)@),
        ensures
            match r {
                Ok(_) => {
                    &&& retire_error(old(self)@, PageType::Rel, slot.0, 96, REL_CAPACITY) is None
                    &&& final(self)@ == buried(old(self)@, slot.0, tombstone_lsn.0, 96)
                },
                Err(e) => {
                    &&& retire_error(old(self)@, PageType::Rel, slot.0, 96, REL_CAPACITY) == Some(e)
                    &&& final(self)@ == old(self)@
                },
            },
            bury_fits(old(self)@, slot.0, tombstone_lsn.0, REL_RECORD_SIZE as u16) ==> page_ok(final(self)@),
            final(final(self).bytes)@ == final(old(self).bytes)@,
    {
        match self.require_page_type(PageType::Rel) {
            Err(e) => {
                return Err(e);
            },
            Ok(_) => {},
        }
        self.write_fixed_permanent_tombstone(
            slot,
            tombstone_lsn,
            REL_RECORD_SIZE as u16,
            REL_CAPACITY,
        )
    }

    /// Write a durable tombstone at the slot of a fixed-size bag.
    pub fn permanent_tombstone_fixed_bag_at_slot(
        &mut self,
        slot: SlotId,
        tombstone_lsn: Lsn,
        fixed_len: u16,
        capacity: u16,
    ) -> (r: Result<(), PageError>)
        requires
            page_ok(old(self)@),
            fixed_len >= 8,
        ensures
            match r {
                Ok(_) => {
                    &&& retire_error(old(self)@, PageType::PropSlotted, slot.0, fixed_len, capacity) is None
                    &&& final(self)@ == buried(old(self)@, slot.0, tombstone_lsn.0, fixed_len)
                },
                Err(e) => {
                    &&& retire_error(old(self)@, PageType::PropSlotted, slot.0, fixed_len, capacity) == Some(e)
                    &&& final(self)@ == old(self)@
                },
            },
            bury_fits(old(self)@, slot.0, tombstone_lsn.0, fixed_len) ==> page_ok(final(self)@),
            final(final(self).bytes)@ == final(old(self).bytes)@,
    {
        match self.require_page_type(PageType::PropSlotted) {
            Err(e) => {
                return Err(e);
            },
            Ok(_) => {},
        }
        self.write_fixed_permanent_tombstone(slot, tombstone_lsn, fixed_len, capacity)
    }

    /// Turn a slot into a hole. The record's bytes stay where they are. A slot
    /// that is a hole or a durable tombstone already stays what it is.
    pub fn tombstone(&mut self, slot: SlotId) -> (r: Result<(), PageError>)
        requires
            page_ok(old(self)@),
        ensures
            match r {
                Ok(_) => {
                    &&& hole_error(old(self)@, slot.0) is None
                    &&& final(self)@ == holed(old(self)@, slot.0)
                    &&& page_ok(final(self)@)
                },
                Err(e) => {
                    &&& hole_error(old(self)@, slot.0) == Some(e)
                    &&& final(self)@ == old(self)@
                },
            },
            final(final(self).bytes)@ == final(old(self).bytes)@,
    {
        let ghost before = self@;
        let count: u16 = self.slot_count();
        if slot.0 >= count {
            return Err(PageError::SlotOutOfRange { slot: slot.0, count });
        }
        match self.guard_buried(slot) {
            Err(_) => {
                return Ok(());
            },
            Ok(_) => {},
        }
        self.put_slot(slot.0, 0, 0);
        proof {
            lemma_sealed(self@);
        }
        self.recompute_checksum();
        proof {
            lemma_header_kept(before, self@);
        }
        Ok(())
    }

    /// Read a node record; `None` for a hole or a tombstone.
    pub fn read_node(&self, slot: SlotId) -> (r: Result<Option<NodeRecord>, PageError>)
        requires
            page_ok(self@),
        ensures
            r == read_node_result(self@, slot.0),
    {
        self.as_ref().read_node(slot)
    }

    /// Read a relationship record; `None` for a hole or a tombstone.
    pub fn read_rel(&self, slot: SlotId) -> (r: Result<Option<RelRecord>, PageError>)
        requires
            page_ok(self@),
        ensures
            r == read_rel_result(self@, slot.0),
    {
        self.as_ref().read_rel(slot)
    }

    /// Read a property bag; `None` for a hole or a tombstone.
    pub fn read_bag(&self, slot: SlotId) -> (r: Result<Option<&[u8]>, PageError>)
        requires
            page_ok(self@),
        ensures
            bag_view(r) == read_bag_result(self@, slot.0),
    {
        self.as_ref().read_bag(slot)
    }

    /// Stamp the page with the LSN of a redo operation.
    fn stamp_lsn(&mut self, lsn: Lsn)
        requires
            old(self)@.len() == PAGE_SIZE,
        ensures
            final(self)@ == splice(old(self)@, 16, le64(lsn.0)),
            final(final(self).bytes)@ == final(old(self).bytes)@,
    {
        put_u64(self.bytes, 16, lsn.0);
    }

    /// Apply a mutation if `op_lsn` is newer than the page, and stamp the page
    /// with `op_lsn` once the mutation has succeeded.
    pub fn apply_redo_if_newer<E, F: FnOnce(&mut SlottedPage<'a>) -> Result<(), E>>(
        &mut self,
        op_lsn: Lsn,
        apply: F,
    ) -> (r: Result<bool, E>)
        requires
            page_ok(old(self)@),
            forall|q: &mut SlottedPage<'a>|
                q@ == old(self)@ ==> #[trigger] call_requires(apply, (q,)),
            forall|q: &mut SlottedPage<'a>, res: Result<(), E>|
                q@ == old(self)@ && #[trigger] call_ensures(apply, (q,), res) ==> {
                    &&& frame_ok(final(q)@)
                    &&& final(final(q).bytes)@ == final(q.bytes)@
                },
        ensures
            op_lsn.0 <= u64_at(old(self)@, 16) ==> r == Ok::<bool, E>(false) && final(self)@ == old(
                self,
            )@,
            op_lsn.0 > u64_at(old(self)@, 16) ==> exists|
                q: &mut SlottedPage<'a>,
                res: Result<(), E>,
            |
                {
                    &&& q@ == old(self)@
                    &&& #[trigger] call_ensures(apply, (q,), res)
                    &&& match res {
                        Ok(_) => r == Ok::<bool, E>(true) && final(self)@ == splice(
                            final(q)@,
                            16,
                            le64(op_lsn.0),
                        ),
                        Err(e) => r == Err::<bool, E>(e) && final(self)@ == final(q)@,
                    }
                },
            final(final(self).bytes)@ == final(old(self).bytes)@,
    {
        if op_lsn.0 <= self.page_lsn().0 {
            return Ok(false);
        }
        let q = &mut *self;
        match apply(q) {
            Err(e) => {
                return Err(e);
            },
            Ok(_) => {},
        }
        self.stamp_lsn(op_lsn);
        Ok(true)
    }
}

} // verus!
