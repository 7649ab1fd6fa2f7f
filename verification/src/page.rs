//! The page header and the fixed-size graph records.
//!
//! A page is 8 KiB. Its first 40 bytes are the header:
//!
//! ```text
//!  0.. 4  magic        u32
//!  4.. 5  version      u8
//!  5.. 6  page_type    u8
//!  6.. 8  flags        u16
//!  8..16  page_id      u64
//! 16..24  lsn          u64
//! 24..32  tenant_id    u64
//! 32..36  checksum     u32   CRC-32C of bytes 40..8192
//! 36..38  slot_count   u16
//! 38..40  free_space   u16
//! ```
//!
//! A node record is 64 bytes, a relationship record 96; both start with a
//! magic number and a version, so a cleared body is never a record.

use vstd::prelude::*;
use crate::codec::{
    get_u16, get_u32, get_u64, group_codec, le16, le32, le64, lemma_u16_read_back,
    lemma_u32_read_back, lemma_u64_read_back, push_u16, push_u32, push_u64, u16_at, u32_at, u64_at,
};
use crate::ids::{LabelId, Lsn, NodeId, PageId, RelId, TenantId, TypeId};

verus! {

broadcast use group_codec;

/// Bytes of a page.
pub const PAGE_SIZE: usize = 8192;

/// Bytes of the page header.
pub const PAGE_HEADER_SIZE: usize = 40;

/// First four bytes of every page.
pub const PAGE_MAGIC: u32 = 0x4743_5241;

/// Version of the page header.
pub const PAGE_VERSION: u8 = 1;

/// Bytes of a node record.
pub const NODE_RECORD_SIZE: usize = 64;

/// Bytes of a relationship record.
pub const REL_RECORD_SIZE: usize = 96;

/// First two bytes of every node record.
pub const NODE_MAGIC: u16 = 0x4E41;

/// First two bytes of every relationship record.
pub const REL_MAGIC: u16 = 0x5241;

/// Version of the record layouts.
pub const RECORD_VERSION: u8 = 1;

/// Record flag: the property payload lives in the blob store.
pub const FLAG_HAS_EXTENDED: u32 = 1;

// ---- page types -----------------------------------------------------------

/// What a page holds.
#[derive(Clone, Copy, Debug, PartialEq, Eq, Structural)]
pub enum PageType {
    /// Node records.
    Node,
    /// Relationship records.
    Rel,
    /// Adjacency entries.
    Tel,
    /// Chained property blobs.
    Blob,
    /// Leaf of an index.
    IndexLeaf,
    /// Inner page of an index.
    IndexInternal,
    /// Packed property bags.
    PropSlotted,
}

/// The byte of a page type.
pub open spec fn page_type_byte(t: PageType) -> u8 {
    match t {
        PageType::Node => 1,
        PageType::Rel => 2,
        PageType::Tel => 3,
        PageType::Blob => 4,
        PageType::IndexLeaf => 5,
        PageType::IndexInternal => 6,
        PageType::PropSlotted => 7,
    }
}

impl PageType {
    /// The byte that stands for this page type in a header.
    pub fn as_byte(self) -> (b: u8)
        ensures
            b == page_type_byte(self),
    {
        match self {
            PageType::Node => 1,
            PageType::Rel => 2,
            PageType::Tel => 3,
            PageType::Blob => 4,
            PageType::IndexLeaf => 5,
            PageType::IndexInternal => 6,
            PageType::PropSlotted => 7,
        }
    }

    /// The page type that `byte` stands for.
    pub fn from_byte(byte: u8) -> (t: Option<PageType>)
        ensures
            t matches Some(p) ==> page_type_byte(p) == byte,
            t is None <==> !(1 <= byte <= 7),
    {
        match byte {
            1 => Some(PageType::Node),
            2 => Some(PageType::Rel),
            3 => Some(PageType::Tel),
            4 => Some(PageType::Blob),
            5 => Some(PageType::IndexLeaf),
            6 => Some(PageType::IndexInternal),
            7 => Some(PageType::PropSlotted),
            _ => None,
        }
    }
}

// ---- header ---------------------------------------------------------------

/// Decoded page header.
#[derive(Clone, Copy, Debug, PartialEq, Eq, Structural)]
pub struct PageHeader {
    /// Magic number.
    pub magic: u32,
    /// Header version.
    pub version: u8,
    /// Page type byte.
    pub page_type: u8,
    /// Reserved flags.
    pub flags: u16,
    /// Number of the page.
    pub page_id: u64,
    /// LSN of the last redo operation applied to the page.
    pub lsn: u64,
    /// Tenant of the page.
    pub tenant_id: u64,
    /// CRC-32C of the body.
    pub checksum: u32,
    /// Entries in use.
    pub slot_count: u16,
    /// Free bytes of the body.
    pub free_space: u16,
}

/// Why a header was rejected.
#[derive(Clone, Copy, Debug, PartialEq, Eq, Structural)]
#[allow(inconsistent_fields)]
pub enum HeaderError {
    /// The magic number is wrong.
    BadMagic {
        /// What was found.
        got: u32,
    },
    /// The version is not known.
    UnsupportedVersion {
        /// What was found.
        got: u8,
    },
    /// The page type is not known.
    UnknownPageType {
        /// What was found.
        got: u8,
    },
}

/// The fields that the first 40 bytes of `b` hold.
pub open spec fn header_of(b: Seq<u8>) -> PageHeader {
    PageHeader {
        magic: u32_at(b, 0),
        version: b[4],
        page_type: b[5],
        flags: u16_at(b, 6),
        page_id: u64_at(b, 8),
        lsn: u64_at(b, 16),
        tenant_id: u64_at(b, 24),
        checksum: u32_at(b, 32),
        slot_count: u16_at(b, 36),
        free_space: u16_at(b, 38),
    }
}

/// The header that `b` starts with, or why it has none.
pub open spec fn decode_header(b: Seq<u8>) -> Result<PageHeader, HeaderError> {
    let h = header_of(b);
    if h.magic != PAGE_MAGIC {
        Err(HeaderError::BadMagic { got: h.magic })
    } else if h.version != PAGE_VERSION {
        Err(HeaderError::UnsupportedVersion { got: h.version })
    } else if !(1 <= h.page_type <= 7) {
        Err(HeaderError::UnknownPageType { got: h.page_type })
    } else {
        Ok(h)
    }
}

/// The 40 bytes of a header.
pub open spec fn header_bytes(h: PageHeader) -> Seq<u8> {
    le32(h.magic) + seq![h.version, h.page_type] + le16(h.flags) + le64(h.page_id) + le64(h.lsn)
        + le64(h.tenant_id) + le32(h.checksum) + le16(h.slot_count) + le16(h.free_space)
}

/// What a header's bytes hold is the header.
pub proof fn law_header_round_trip(h: PageHeader)
    ensures
        header_bytes(h).len() == PAGE_HEADER_SIZE,
        header_of(header_bytes(h)) == h,
{
    let b = header_bytes(h);
    assert forall|k: int| 0 <= k < 4 implies #[trigger] b[0 + k] == le32(h.magic)[k] by {}
    lemma_u32_read_back(b, 0, h.magic);
    assert forall|k: int| 0 <= k < 2 implies #[trigger] b[6 + k] == le16(h.flags)[k] by {}
    lemma_u16_read_back(b, 6, h.flags);
    assert forall|k: int| 0 <= k < 8 implies #[trigger] b[8 + k] == le64(h.page_id)[k] by {}
    lemma_u64_read_back(b, 8, h.page_id);
    assert forall|k: int| 0 <= k < 8 implies #[trigger] b[16 + k] == le64(h.lsn)[k] by {}
    lemma_u64_read_back(b, 16, h.lsn);
    assert forall|k: int| 0 <= k < 8 implies #[trigger] b[24 + k] == le64(h.tenant_id)[k] by {}
    lemma_u64_read_back(b, 24, h.tenant_id);
    assert forall|k: int| 0 <= k < 4 implies #[trigger] b[32 + k] == le32(h.checksum)[k] by {}
    lemma_u32_read_back(b, 32, h.checksum);
    assert forall|k: int| 0 <= k < 2 implies #[trigger] b[36 + k] == le16(h.slot_count)[k] by {}
    lemma_u16_read_back(b, 36, h.slot_count);
    assert forall|k: int| 0 <= k < 2 implies #[trigger] b[38 + k] == le16(h.free_space)[k] by {}
    lemma_u16_read_back(b, 38, h.free_space);
}

impl PageHeader {
    /// Header of a fresh page: all counters, the LSN and the checksum zero.
    pub fn new(page_id: PageId, page_type: PageType, tenant: TenantId) -> (h: PageHeader)
        ensures
            h == (PageHeader {
                magic: PAGE_MAGIC,
                version: PAGE_VERSION,
                page_type: page_type_byte(page_type),
                flags: 0,
                page_id: page_id.0,
                lsn: 0,
                tenant_id: tenant.0,
                checksum: 0,
                slot_count: 0,
                free_space: 0,
            }),
    {
        PageHeader {
            magic: PAGE_MAGIC,
            version: PAGE_VERSION,
            page_type: page_type.as_byte(),
            flags: 0,
            page_id: page_id.0,
            lsn: 0,
            tenant_id: tenant.0,
            checksum: 0,
            slot_count: 0,
            free_space: 0,
        }
    }

    /// Decode the header at the start of `b`.
    pub fn from_bytes(b: &[u8]) -> (r: Result<PageHeader, HeaderError>)
        requires
            b@.len() >= PAGE_HEADER_SIZE,
        ensures
            r == decode_header(b@),
    {
        let h = PageHeader {
            magic: get_u32(b, 0),
            version: b[4],
            page_type: b[5],
            flags: get_u16(b, 6),
            page_id: get_u64(b, 8),
            lsn: get_u64(b, 16),
            tenant_id: get_u64(b, 24),
            checksum: get_u32(b, 32),
            slot_count: get_u16(b, 36),
            free_space: get_u16(b, 38),
        };
        if h.magic != PAGE_MAGIC {
            Err(HeaderError::BadMagic { got: h.magic })
        } else if h.version != PAGE_VERSION {
            Err(HeaderError::UnsupportedVersion { got: h.version })
        } else if h.page_type < 1 || h.page_type > 7 {
            Err(HeaderError::UnknownPageType { got: h.page_type })
        } else {
            Ok(h)
        }
    }

    /// The 40 bytes of this header.
    pub fn to_bytes(&self) -> (out: Vec<u8>)
        ensures
            out@ == header_bytes(*self),
    {
        let mut out: Vec<u8> = Vec::new();
        push_u32(&mut out, self.magic);
        out.push(self.version);
        out.push(self.page_type);
        push_u16(&mut out, self.flags);
        push_u64(&mut out, self.page_id);
        push_u64(&mut out, self.lsn);
        push_u64(&mut out, self.tenant_id);
        push_u32(&mut out, self.checksum);
        push_u16(&mut out, self.slot_count);
        push_u16(&mut out, self.free_space);
        assert(out@ =~= header_bytes(*self));
        out
    }
}

// ---- records --------------------------------------------------------------

/// Why a record's bytes were rejected.
#[derive(Clone, Copy, Debug, PartialEq, Eq, Structural)]
#[allow(inconsistent_fields)]
pub enum RecordError {
    /// The magic number is wrong.
    BadMagic {
        /// What was found.
        got: u16,
    },
    /// The version is not known.
    UnsupportedVersion {
        /// What was found.
        got: u8,
    },
}

/// A node.
#[derive(Clone, Copy, Debug, PartialEq, Eq, Structural)]
pub struct NodeRecord {
    /// Number of the node.
    pub id: u64,
    /// Label of the node.
    pub label_id: u32,
    /// Flag bits.
    pub flags: u32,
    /// LSN of the commit that made this version.
    pub created_lsn: u64,
    /// LSN of the commit that ended this version.
    pub expired_lsn: u64,
    /// Property discriminator; see the property module.
    pub property_ref: u64,
    /// First inline property word.
    pub inline_u32a: u32,
    /// Second inline property word.
    pub inline_u32b: u32,
}

/// A relationship.
#[derive(Clone, Copy, Debug, PartialEq, Eq, Structural)]
pub struct RelRecord {
    /// Number of the relationship.
    pub id: u64,
    /// Type of the relationship.
    pub type_id: u32,
    /// Flag bits.
    pub flags: u32,
    /// Node it starts at.
    pub src_id: u64,
    /// Node it ends at.
    pub dst_id: u64,
    /// LSN of the commit that made this version.
    pub created_lsn: u64,
    /// LSN of the commit that ended this version.
    pub expired_lsn: u64,
    /// Property discriminator; see the property module.
    pub property_ref: u64,
    /// First inline property word.
    pub inline_u32a: u32,
    /// Second inline property word.
    pub inline_u32b: u32,
}

/// The 64 bytes of a node record.
pub open spec fn node_bytes(r: NodeRecord) -> Seq<u8> {
    le16(NODE_MAGIC) + seq![RECORD_VERSION, 0u8] + le32(r.flags) + le64(r.id) + le32(r.label_id)
        + le32(0) + le64(r.created_lsn) + le64(r.expired_lsn) + le64(r.property_ref) + le32(
        r.inline_u32a,
    ) + le32(r.inline_u32b) + le64(0)
}

/// The node record that 64 bytes hold, or why they hold none.
pub open spec fn decode_node(b: Seq<u8>) -> Result<NodeRecord, RecordError> {
    if u16_at(b, 0) != NODE_MAGIC {
        Err(RecordError::BadMagic { got: u16_at(b, 0) })
    } else if b[2] != RECORD_VERSION {
        Err(RecordError::UnsupportedVersion { got: b[2] })
    } else {
        Ok(
            NodeRecord {
                id: u64_at(b, 8),
                label_id: u32_at(b, 16),
                flags: u32_at(b, 4),
                created_lsn: u64_at(b, 24),
                expired_lsn: u64_at(b, 32),
                property_ref: u64_at(b, 40),
                inline_u32a: u32_at(b, 48),
                inline_u32b: u32_at(b, 52),
            },
        )
    }
}

/// A node record's bytes decode to the record.
pub proof fn law_node_round_trip(r: NodeRecord)
    ensures
        node_bytes(r).len() == NODE_RECORD_SIZE,
        decode_node(node_bytes(r)) == Ok::<NodeRecord, RecordError>(r),
{
    let b = node_bytes(r);
    assert forall|k: int| 0 <= k < 2 implies #[trigger] b[0 + k] == le16(NODE_MAGIC)[k] by {}
    lemma_u16_read_back(b, 0, NODE_MAGIC);
    assert forall|k: int| 0 <= k < 4 implies #[trigger] b[4 + k] == le32(r.flags)[k] by {}
    lemma_u32_read_back(b, 4, r.flags);
    assert forall|k: int| 0 <= k < 8 implies #[trigger] b[8 + k] == le64(r.id)[k] by {}
    lemma_u64_read_back(b, 8, r.id);
    assert forall|k: int| 0 <= k < 4 implies #[trigger] b[16 + k] == le32(r.label_id)[k] by {}
    lemma_u32_read_back(b, 16, r.label_id);
    assert forall|k: int| 0 <= k < 8 implies #[trigger] b[24 + k] == le64(r.created_lsn)[k] by {}
    lemma_u64_read_back(b, 24, r.created_lsn);
    assert forall|k: int| 0 <= k < 8 implies #[trigger] b[32 + k] == le64(r.expired_lsn)[k] by {}
    lemma_u64_read_back(b, 32, r.expired_lsn);
    assert forall|k: int| 0 <= k < 8 implies #[trigger] b[40 + k] == le64(r.property_ref)[k] by {}
    lemma_u64_read_back(b, 40, r.property_ref);
    assert forall|k: int| 0 <= k < 4 implies #[trigger] b[48 + k] == le32(r.inline_u32a)[k] by {}
    lemma_u32_read_back(b, 48, r.inline_u32a);
    assert forall|k: int| 0 <= k < 4 implies #[trigger] b[52 + k] == le32(r.inline_u32b)[k] by {}
    lemma_u32_read_back(b, 52, r.inline_u32b);
}

impl NodeRecord {
    /// A live node without properties.
    pub fn new(id: NodeId, label: LabelId, created: Lsn) -> (r: NodeRecord)
        ensures
            r == (NodeRecord {
                id: id.0,
                label_id: label.0,
                flags: 0,
                created_lsn: created.0,
                expired_lsn: 0,
                property_ref: 0,
                inline_u32a: 0,
                inline_u32b: 0,
            }),
    {
        NodeRecord {
            id: id.0,
            label_id: label.0,
            flags: 0,
            created_lsn: created.0,
            expired_lsn: 0,
            property_ref: 0,
            inline_u32a: 0,
            inline_u32b: 0,
        }
    }

    /// The 64 bytes of this record.
    pub fn to_bytes(&self) -> (out: Vec<u8>)
        ensures
            out@ == node_bytes(*self),
    {
        let mut out: Vec<u8> = Vec::new();
        push_u16(&mut out, NODE_MAGIC);
        out.push(RECORD_VERSION);
        out.push(0);
        push_u32(&mut out, self.flags);
        push_u64(&mut out, self.id);
        push_u32(&mut out, self.label_id);
        push_u32(&mut out, 0);
        push_u64(&mut out, self.created_lsn);
        push_u64(&mut out, self.expired_lsn);
        push_u64(&mut out, self.property_ref);
        push_u32(&mut out, self.inline_u32a);
        push_u32(&mut out, self.inline_u32b);
        push_u64(&mut out, 0);
        assert(out@ =~= node_bytes(*self));
        out
    }

    /// Decode 64 bytes.
    pub fn from_bytes(b: &[u8]) -> (r: Result<NodeRecord, RecordError>)
        requires
            b@.len() == NODE_RECORD_SIZE,
        ensures
            r == decode_node(b@),
    {
        let magic: u16 = get_u16(b, 0);
        if magic != NODE_MAGIC {
            return Err(RecordError::BadMagic { got: magic });
        }
        if b[2] != RECORD_VERSION {
            return Err(RecordError::UnsupportedVersion { got: b[2] });
        }
        Ok(
            NodeRecord {
                id: get_u64(b, 8),
                label_id: get_u32(b, 16),
                flags: get_u32(b, 4),
                created_lsn: get_u64(b, 24),
                expired_lsn: get_u64(b, 32),
                property_ref: get_u64(b, 40),
                inline_u32a: get_u32(b, 48),
                inline_u32b: get_u32(b, 52),
            },
        )
    }
}

/// The 96 bytes of a relationship record.
pub open spec fn rel_bytes(r: RelRecord) -> Seq<u8> {
    le16(REL_MAGIC) + seq![RECORD_VERSION, 0u8] + le32(r.flags) + le64(r.id) + le32(r.type_id)
        + le32(0) + le64(r.src_id) + le64(r.dst_id) + le64(r.created_lsn) + le64(r.expired_lsn)
        + le64(r.property_ref) + le32(r.inline_u32a) + le32(r.inline_u32b) + le64(0) + le64(0)
        + le64(0)
}

/// The relationship record that 96 bytes hold, or why they hold none.
pub open spec fn decode_rel(b: Seq<u8>) -> Result<RelRecord, RecordError> {
    if u16_at(b, 0) != REL_MAGIC {
        Err(RecordError::BadMagic { got: u16_at(b, 0) })
    } else if b[2] != RECORD_VERSION {
        Err(RecordError::UnsupportedVersion { got: b[2] })
    } else {
        Ok(
            RelRecord {
                id: u64_at(b, 8),
                type_id: u32_at(b, 16),
                flags: u32_at(b, 4),
                src_id: u64_at(b, 24),
                dst_id: u64_at(b, 32),
                created_lsn: u64_at(b, 40),
                expired_lsn: u64_at(b, 48),
                property_ref: u64_at(b, 56),
                inline_u32a: u32_at(b, 64),
                inline_u32b: u32_at(b, 68),
            },
        )
    }
}

/// A relationship record's bytes decode to the record.
pub proof fn law_rel_round_trip(r: RelRecord)
    ensures
        rel_bytes(r).len() == REL_RECORD_SIZE,
        decode_rel(rel_bytes(r)) == Ok::<RelRecord, RecordError>(r),
{
    let b = rel_bytes(r);
    assert forall|k: int| 0 <= k < 2 implies #[trigger] b[0 + k] == le16(REL_MAGIC)[k] by {}
    lemma_u16_read_back(b, 0, REL_MAGIC);
    assert forall|k: int| 0 <= k < 4 implies #[trigger] b[4 + k] == le32(r.flags)[k] by {}
    lemma_u32_read_back(b, 4, r.flags);
    assert forall|k: int| 0 <= k < 8 implies #[trigger] b[8 + k] == le64(r.id)[k] by {}
    lemma_u64_read_back(b, 8, r.id);
    assert forall|k: int| 0 <= k < 4 implies #[trigger] b[16 + k] == le32(r.type_id)[k] by {}
    lemma_u32_read_back(b, 16, r.type_id);
    assert forall|k: int| 0 <= k < 8 implies #[trigger] b[24 + k] == le64(r.src_id)[k] by {}
    lemma_u64_read_back(b, 24, r.src_id);
    assert forall|k: int| 0 <= k < 8 implies #[trigger] b[32 + k] == le64(r.dst_id)[k] by {}
    lemma_u64_read_back(b, 32, r.dst_id);
    assert forall|k: int| 0 <= k < 8 implies #[trigger] b[40 + k] == le64(r.created_lsn)[k] by {}
    lemma_u64_read_back(b, 40, r.created_lsn);
    assert forall|k: int| 0 <= k < 8 implies #[trigger] b[48 + k] == le64(r.expired_lsn)[k] by {}
    lemma_u64_read_back(b, 48, r.expired_lsn);
    assert forall|k: int| 0 <= k < 8 implies #[trigger] b[56 + k] == le64(r.property_ref)[k] by {}
    lemma_u64_read_back(b, 56, r.property_ref);
    assert forall|k: int| 0 <= k < 4 implies #[trigger] b[64 + k] == le32(r.inline_u32a)[k] by {}
    lemma_u32_read_back(b, 64, r.inline_u32a);
    assert forall|k: int| 0 <= k < 4 implies #[trigger] b[68 + k] == le32(r.inline_u32b)[k] by {}
    lemma_u32_read_back(b, 68, r.inline_u32b);
}

impl RelRecord {
    /// A live relationship without properties.
    pub fn new(id: RelId, ty: TypeId, src: NodeId, dst: NodeId, created: Lsn) -> (r: RelRecord)
        ensures
            r == (RelRecord {
                id: id.0,
                type_id: ty.0,
                flags: 0,
                src_id: src.0,
                dst_id: dst.0,
                created_lsn: created.0,
                expired_lsn: 0,
                property_ref: 0,
                inline_u32a: 0,
                inline_u32b: 0,
            }),
    {
        RelRecord {
            id: id.0,
            type_id: ty.0,
            flags: 0,
            src_id: src.0,
            dst_id: dst.0,
            created_lsn: created.0,
            expired_lsn: 0,
            property_ref: 0,
            inline_u32a: 0,
            inline_u32b: 0,
        }
    }

    /// The 96 bytes of this record.
    pub fn to_bytes(&self) -> (out: Vec<u8>)
        ensures
            out@ == rel_bytes(*self),
    {
        let mut out: Vec<u8> = Vec::new();
        push_u16(&mut out, REL_MAGIC);
        out.push(RECORD_VERSION);
        out.push(0);
        push_u32(&mut out, self.flags);
        push_u64(&mut out, self.id);
        push_u32(&mut out, self.type_id);
        push_u32(&mut out, 0);
        push_u64(&mut out, self.src_id);
        push_u64(&mut out, self.dst_id);
        push_u64(&mut out, self.created_lsn);
        push_u64(&mut out, self.expired_lsn);
        push_u64(&mut out, self.property_ref);
        push_u32(&mut out, self.inline_u32a);
        push_u32(&mut out, self.inline_u32b);
        push_u64(&mut out, 0);
        push_u64(&mut out, 0);
        push_u64(&mut out, 0);
        assert(out@ =~= rel_bytes(*self));
        out
    }

    /// Decode 96 bytes.
    pub fn from_bytes(b: &[u8]) -> (r: Result<RelRecord, RecordError>)
        requires
            b@.len() == REL_RECORD_SIZE,
        ensures
            r == decode_rel(b@),
    {
        let magic: u16 = get_u16(b, 0);
        if magic != REL_MAGIC {
            return Err(RecordError::BadMagic { got: magic });
        }
        if b[2] != RECORD_VERSION {
            return Err(RecordError::UnsupportedVersion { got: b[2] });
        }
        Ok(
            RelRecord {
                id: get_u64(b, 8),
                type_id: get_u32(b, 16),
                flags: get_u32(b, 4),
                src_id: get_u64(b, 24),
                dst_id: get_u64(b, 32),
                created_lsn: get_u64(b, 40),
                expired_lsn: get_u64(b, 48),
                property_ref: get_u64(b, 56),
                inline_u32a: get_u32(b, 64),
                inline_u32b: get_u32(b, 68),
            },
        )
    }
}

} // verus!
