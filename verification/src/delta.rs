//! Physical redo: what one operation of the log does to the page it names,
//! live and during recovery.
use vstd::prelude::*;

use crate::checksum::{crc32c, crc32c_of};
use crate::codec::{get_u64, le64, lemma_u64_at_same, push_bytes, splice, u64_at};
use crate::dirty::{marked_row, row_key, DirtyPageKey, DirtyPageTable};
use crate::ids::{Lsn, PageId, TenantId};
use crate::page::{
    decode_header, decode_node, decode_rel, header_bytes, header_of, law_header_round_trip,
    law_node_round_trip, law_rel_round_trip, node_bytes, page_type_byte, rel_bytes, HeaderError,
    NodeRecord, PageHeader, PageType, RecordError, RelRecord, NODE_RECORD_SIZE, PAGE_HEADER_SIZE,
    PAGE_MAGIC, PAGE_SIZE, PAGE_VERSION, REL_RECORD_SIZE,
};
use crate::records::{SlottedPage, SlottedPageRef};
use crate::redo_laws::law_applied_operation_shows;
use crate::slot_laws::law_fresh_page;
use crate::slot_model::{
    bag_length_error, buried, buried_error, bury_error, bury_fits, first_error, fixed_error,
    fixed_written, frame_ok, fresh_page, hole_error, holed, open_result, overwrite_error,
    overwritten, page_ok, put_error, put_page, read_bag_result, read_node_result, read_rel_result,
    PageError, SlotId, PAGE_BODY_BYTES,
};

verus! {

/// Store of packed property bags.
pub const STORE_PROPS: u16 = 1;

/// Store of node and relationship records.
pub const STORE_RECORD: u16 = 2;

/// Store of adjacency pages.
pub const STORE_TEL: u16 = 3;

/// Store of relationship records that is kept apart.
pub const STORE_RELS: u16 = 4;

/// Store of chained property blobs, which are logged as whole pages.
pub const STORE_BLOB_OVERFLOW: u16 = 5;

/// Store of the rows that bind nodes to their owners.
pub const STORE_NODE_BINDINGS: u16 = 6;

/// Store of the rows that bind relationships to their owners.
pub const STORE_REL_BINDINGS: u16 = 7;

/// Store of interned strings.
pub const STORE_INTERN: u16 = 8;

/// Store of access grants.
pub const STORE_GRANTS: u16 = 9;

/// What an operation does.
#[derive(Clone, Copy, Debug, PartialEq, Eq, Structural)]
pub enum DeltaOpKind {
    /// Formats a page.
    PageAlloc,
    /// Puts a node or relationship record into a slot.
    PutRecord,
    /// Puts a property bag into a slot.
    PutPropBlock,
    /// Ends a node or relationship record.
    TombstoneRecord,
    /// Puts or retires an owner row of the intern store.
    InternBind,
    /// Puts or retires an owner row of the grant store.
    AclGrant,
    /// An operation that is replayed above the pages.
    Logical,
}

impl DeltaOpKind {
    /// Whether the operation changes a page.
    pub open spec fn physical(self) -> bool {
        !(self is Logical)
    }

    /// Whether the operation changes a page.
    pub fn is_physical(self) -> (r: bool)
        ensures
            r == self.physical(),
    {
        match self {
            DeltaOpKind::Logical => false,
            _ => true,
        }
    }
}

/// One operation of the log.
#[derive(Debug)]
pub struct DeltaOp {
    /// What it does.
    pub kind: DeltaOpKind,
    /// The store of the page.
    pub store_id: u16,
    /// The page's number in its store.
    pub page_no: u64,
    /// The slot on the page.
    pub slot: u16,
    /// The tenant that owns the page.
    pub tenant_id: TenantId,
    /// The operation's own LSN.
    pub op_lsn: Lsn,
    /// The bytes that it carries.
    pub payload: Vec<u8>,
    /// For an owner row: whether the payload retires the row.
    pub retires_owner_row: bool,
}

/// The shape of the pages that hold owner rows.
#[derive(Clone, Copy, Debug, PartialEq, Eq, Structural)]
pub struct OwnerLayout {
    /// Bytes of one row.
    pub row_bytes: u16,
    /// Rows of one page.
    pub rows_per_page: u16,
}

impl OwnerLayout {
    /// A row has room for the LSN of its retirement.
    pub open spec fn wf(self) -> bool {
        self.row_bytes >= 8
    }
}

/// Why an operation could not be applied.
#[derive(Clone, Copy, Debug, PartialEq, Eq, Structural)]
#[allow(inconsistent_fields)]
pub enum DeltaFault {
    /// A page allocation carries one byte, the page type.
    AllocPayload {
        /// Bytes that it carries.
        len: usize,
    },
    /// The operation does not change records of a page.
    NotPageData {
        /// What it does.
        kind: DeltaOpKind,
    },
    /// The commit's LSN is below the operation's.
    CommitBeforeOp {
        /// The commit's LSN.
        commit_lsn: u64,
        /// The operation's LSN.
        op_lsn: u64,
    },
    /// The page cannot be attached to.
    Open(PageError),
    /// The page is another one than the operation names.
    WrongTarget {
        /// Tenant in the page's header.
        tenant_id: u64,
        /// Number in the page's header.
        page_id: u64,
    },
    /// The page's type does not belong to the store.
    WrongStore {
        /// The store.
        store_id: u16,
        /// The page's type.
        page_type: u8,
    },
    /// The store's pages are not governed by page LSNs.
    UngovernedStore {
        /// The store.
        store_id: u16,
    },
    /// A node payload does not have the length of a node record.
    NodeLength {
        /// Bytes of the payload.
        len: usize,
    },
    /// A node payload is no node record.
    NodePayload(RecordError),
    /// A relationship payload does not have the length of such a record.
    RelLength {
        /// Bytes of the payload.
        len: usize,
    },
    /// A relationship payload is no relationship record.
    RelPayload(RecordError),
    /// The operation cannot target a page of this type.
    WrongPageType {
        /// What it does.
        kind: DeltaOpKind,
        /// The page's type.
        page_type: u8,
    },
    /// The change itself failed.
    Apply {
        /// What the operation does.
        kind: DeltaOpKind,
        /// Why it failed.
        error: PageError,
    },
    /// A relationship to be ended cannot be read.
    TombstoneRead(PageError),
    /// A relationship to be ended is not there.
    TombstoneEmpty,
    /// Blob pages are logged as a whole; there is no operation on them.
    BlobOverflow,
    /// The operation does not change a page.
    LogicalOp,
    /// The store is not known to redo.
    UnknownStore {
        /// The store.
        store_id: u16,
    },
    /// The page is missing, and the operation does not allocate it.
    AbsentPage {
        /// What the operation does.
        kind: DeltaOpKind,
    },
    /// A page allocation carries an unknown page type.
    AllocType {
        /// The byte.
        got: u8,
    },
    /// A page of this type cannot be allocated.
    AllocFormat(PageError),
    /// The header of an adjacency page is damaged.
    TelHeader(HeaderError),
    /// An adjacency page is damaged or another one than the operation names.
    TelPage,
    /// A page that is there is damaged.
    TornPage(PageError),
    /// A page that is to be allocated is there already, with an older LSN.
    AllocOnOlderPage,
    /// The page store failed.
    Store,
}

/// The failure of one operation.
#[derive(Clone, Copy, Debug, PartialEq, Eq, Structural)]
pub struct DeltaError {
    /// The operation's LSN.
    pub lsn: Lsn,
    /// Why it failed.
    pub reason: DeltaFault,
}

/// Why an operation's own shape is wrong.
pub open spec fn shape_fault(op: DeltaOp) -> Option<DeltaFault> {
    if op.kind is PageAlloc && op.payload@.len() != 1 {
        Some(DeltaFault::AllocPayload { len: op.payload@.len() as usize })
    } else {
        None
    }
}

/// Whether the store holds owner rows.
pub open spec fn owner_store(store_id: u16) -> bool {
    store_id == STORE_NODE_BINDINGS || store_id == STORE_REL_BINDINGS || store_id == STORE_INTERN
        || store_id == STORE_GRANTS
}

/// Why a page of this type and with these flags does not belong to the store.
pub open spec fn store_fault(store_id: u16, page_type: u8, flags: u16) -> Option<DeltaFault> {
    let node = page_type == page_type_byte(PageType::Node);
    let rel = page_type == page_type_byte(PageType::Rel);
    let bags = page_type == page_type_byte(PageType::PropSlotted);
    let fits = if store_id == STORE_PROPS {
        bags
    } else if store_id == STORE_RECORD {
        node || rel
    } else if store_id == STORE_RELS {
        rel
    } else {
        bags && flags == store_id
    };
    if store_id == STORE_PROPS || store_id == STORE_RECORD || store_id == STORE_RELS
        || owner_store(store_id) {
        if fits {
            None
        } else {
            Some(DeltaFault::WrongStore { store_id, page_type })
        }
    } else {
        Some(DeltaFault::UngovernedStore { store_id })
    }
}

/// Why an operation may not touch the page `b`.
pub open spec fn target_fault(b: Seq<u8>, op: DeltaOp, commit_lsn: u64) -> Option<DeltaFault> {
    let h = header_of(b);
    if shape_fault(op) is Some {
        shape_fault(op)
    } else if op.kind is PageAlloc || op.kind is Logical {
        Some(DeltaFault::NotPageData { kind: op.kind })
    } else if commit_lsn < op.op_lsn.0 {
        Some(DeltaFault::CommitBeforeOp { commit_lsn, op_lsn: op.op_lsn.0 })
    } else if open_result(b) is Err {
        Some(DeltaFault::Open(open_result(b)->Err_0))
    } else if h.page_id != op.page_no || h.tenant_id != op.tenant_id.0 {
        Some(DeltaFault::WrongTarget { tenant_id: h.tenant_id, page_id: h.page_id })
    } else {
        store_fault(op.store_id, h.page_type, h.flags)
    }
}

/// The page after the attempt to put a record into a slot, and why it failed.
pub open spec fn record_put(b: Seq<u8>, op: DeltaOp) -> (Seq<u8>, Option<DeltaFault>) {
    let p = op.payload@;
    if b[5] == page_type_byte(PageType::Node) {
        if p.len() != NODE_RECORD_SIZE {
            (b, Some(DeltaFault::NodeLength { len: p.len() as usize }))
        } else {
            match decode_node(p) {
                Err(e) => (b, Some(DeltaFault::NodePayload(e))),
                Ok(rec) => change_outcome(
                    b,
                    op,
                    put_error(b, op.slot, 64),
                    put_page(b, op.slot, node_bytes(rec)),
                ),
            }
        }
    } else if b[5] == page_type_byte(PageType::Rel) {
        if p.len() != REL_RECORD_SIZE {
            (b, Some(DeltaFault::RelLength { len: p.len() as usize }))
        } else {
            match decode_rel(p) {
                Err(e) => (b, Some(DeltaFault::RelPayload(e))),
                Ok(rec) => change_outcome(
                    b,
                    op,
                    put_error(b, op.slot, 96),
                    put_page(b, op.slot, rel_bytes(rec)),
                ),
            }
        }
    } else {
        (b, Some(DeltaFault::WrongPageType { kind: op.kind, page_type: b[5] }))
    }
}

/// The page after an attempt that either makes the change or leaves the page.
pub open spec fn change_outcome(
    b: Seq<u8>,
    op: DeltaOp,
    error: Option<PageError>,
    changed: Seq<u8>,
) -> (Seq<u8>, Option<DeltaFault>) {
    match error {
        Some(e) => (b, Some(DeltaFault::Apply { kind: op.kind, error: e })),
        None => (changed, None),
    }
}

/// The page after an operation on an owner row.
pub open spec fn owner_outcome(b: Seq<u8>, op: DeltaOp, owner: OwnerLayout) -> (
    Seq<u8>,
    Option<DeltaFault>,
) {
    let p = op.payload@;
    if op.retires_owner_row {
        change_outcome(
            b,
            op,
            bury_error(b, op.slot, owner.row_bytes, owner.rows_per_page),
            buried(b, op.slot, op.op_lsn.0, owner.row_bytes),
        )
    } else {
        change_outcome(
            b,
            op,
            first_error(
                bag_length_error(p.len() as int),
                first_error(
                    buried_error(b, op.slot),
                    fixed_error(b, op.slot, p.len() as int, p.len() as u16, owner.rows_per_page),
                ),
            ),
            fixed_written(b, op.slot, p, p.len() as u16),
        )
    }
}

/// The page after a record was ended: a node's slot becomes a hole, unless it
/// is a durable tombstone, and a relationship's record notes the commit that
/// ended it.
pub open spec fn tombstone_outcome(b: Seq<u8>, op: DeltaOp, commit_lsn: u64) -> (
    Seq<u8>,
    Option<DeltaFault>,
) {
    if b[5] == page_type_byte(PageType::Node) {
        change_outcome(b, op, hole_error(b, op.slot), holed(b, op.slot))
    } else if b[5] == page_type_byte(PageType::Rel) {
        match read_rel_result(b, op.slot) {
            Err(e) => (b, Some(DeltaFault::TombstoneRead(e))),
            Ok(None) => (b, Some(DeltaFault::TombstoneEmpty)),
            Ok(Some(rec)) => change_outcome(
                b,
                op,
                overwrite_error(b, op.slot, 96),
                overwritten(b, op.slot, rel_bytes(RelRecord { expired_lsn: commit_lsn, ..rec })),
            ),
        }
    } else {
        (b, Some(DeltaFault::WrongPageType { kind: op.kind, page_type: b[5] }))
    }
}

/// What the operation does to the page `b`, and why it failed.
pub open spec fn delta_outcome(b: Seq<u8>, op: DeltaOp, commit_lsn: u64, owner: OwnerLayout) -> (
    Seq<u8>,
    Option<DeltaFault>,
) {
    let bags = b[5] == page_type_byte(PageType::PropSlotted);
    match op.kind {
        DeltaOpKind::PutRecord => record_put(b, op),
        DeltaOpKind::PutPropBlock => if bags {
            change_outcome(
                b,
                op,
                first_error(
                    bag_length_error(op.payload@.len() as int),
                    put_error(b, op.slot, op.payload@.len() as u16),
                ),
                put_page(b, op.slot, op.payload@),
            )
        } else {
            (b, Some(DeltaFault::WrongPageType { kind: op.kind, page_type: b[5] }))
        },
        DeltaOpKind::InternBind | DeltaOpKind::AclGrant => if bags {
            owner_outcome(b, op, owner)
        } else {
            (b, Some(DeltaFault::WrongPageType { kind: op.kind, page_type: b[5] }))
        },
        DeltaOpKind::TombstoneRecord => tombstone_outcome(b, op, commit_lsn),
        DeltaOpKind::PageAlloc | DeltaOpKind::Logical => (
            b,
            Some(DeltaFault::NotPageData { kind: op.kind }),
        ),
    }
}

/// The change stays inside the page's body. It does, but for an owner row that
/// is retired again with a newer LSN, which needs the row to lie there. On a page
/// whose rows all fit it does.
pub open spec fn delta_fits(b: Seq<u8>, op: DeltaOp, owner: OwnerLayout) -> bool {
    match op.kind {
        DeltaOpKind::InternBind | DeltaOpKind::AclGrant => op.retires_owner_row ==> bury_fits(
            b,
            op.slot,
            op.op_lsn.0,
            owner.row_bytes,
        ),
        _ => true,
    }
}

/// The page after the operation was applied, or was not, and the result.
pub open spec fn delta_result(b: Seq<u8>, op: DeltaOp, commit_lsn: u64, owner: OwnerLayout) -> (
    Seq<u8>,
    Result<bool, DeltaFault>,
) {
    if target_fault(b, op, commit_lsn) is Some {
        (b, Err(target_fault(b, op, commit_lsn)->Some_0))
    } else if op.op_lsn.0 <= u64_at(b, 16) {
        (b, Ok(false))
    } else {
        let (c, fault) = delta_outcome(b, op, commit_lsn, owner);
        match fault {
            Some(f) => (c, Err(f)),
            None => (splice(c, 16, le64(op.op_lsn.0)), Ok(true)),
        }
    }
}

impl DeltaOp {
    /// Checks what holds of an operation whatever page it meets.
    pub fn validate_shape(&self) -> (r: Result<(), DeltaError>)
        ensures
            r is Err <==> shape_fault(*self) is Some,
            r matches Err(e) ==> shape_fault(*self) == Some(e.reason) && e.lsn == self.op_lsn,
    {
        match self.kind {
            DeltaOpKind::PageAlloc => {
                if self.payload.len() != 1 {
                    return Err(self.fault(DeltaFault::AllocPayload { len: self.payload.len() }));
                }
            },
            _ => {},
        }
        Ok(())
    }

    /// The failure of this operation.
    pub fn fault(&self, reason: DeltaFault) -> (e: DeltaError)
        ensures
            e == (DeltaError { lsn: self.op_lsn, reason }),
    {
        DeltaError { lsn: self.op_lsn, reason }
    }
}

impl DeltaOp {
    /// Whether the operation's change stays inside a page that is attached to.
    fn fits(&self, view: &SlottedPageRef<'_>, owner: OwnerLayout) -> (r: bool)
        requires
            page_ok(view@),
        ensures
            r == delta_fits(view@, *self, owner),
    {
        match self.kind {
            DeltaOpKind::InternBind | DeltaOpKind::AclGrant => {
                if !self.retires_owner_row {
                    return true;
                }
                match view.is_permanent_tombstone(SlotId(self.slot)) {
                    Ok(true) => {
                        assert((self.slot + 1) * owner.row_bytes <= 0x1_0000 * 0xFFFF)
                            by (nonlinear_arith)
                            requires
                                0 <= self.slot <= 0xFFFF,
                                0 <= owner.row_bytes <= 0xFFFF,
                        ;
                        let taken: u64 = (self.slot as u64 + 1) * (owner.row_bytes as u64);
                        if taken > PAGE_SIZE as u64 {
                            return true;
                        }
                        let start: usize = PAGE_SIZE - taken as usize;
                        start >= PAGE_HEADER_SIZE || self.op_lsn.raw() <= get_u64(view.bytes, start)
                    },
                    _ => true,
                }
            },
            _ => true,
        }
    }

    /// Whether the operation may touch the page: `Ok(true)` if its LSN is above
    /// the page's, `Ok(false)` if the page has it already.
    pub fn check_target(&self, page: &[u8], commit_lsn: Lsn) -> (r: Result<bool, DeltaError>)
        ensures
            r == match target_fault(page@, *self, commit_lsn.0) {
                Some(f) => Err(DeltaError { lsn: self.op_lsn, reason: f }),
                None => Ok(self.op_lsn.0 > u64_at(page@, 16)),
            },
    {
        match self.validate_shape() {
            Err(e) => {
                return Err(e);
            },
            Ok(_) => {},
        }
        match self.kind {
            DeltaOpKind::PageAlloc | DeltaOpKind::Logical => {
                return Err(self.fault(DeltaFault::NotPageData { kind: self.kind }));
            },
            _ => {},
        }
        if commit_lsn.raw() < self.op_lsn.raw() {
            return Err(
                self.fault(
                    DeltaFault::CommitBeforeOp {
                        commit_lsn: commit_lsn.raw(),
                        op_lsn: self.op_lsn.raw(),
                    },
                ),
            );
        }
        let view = match SlottedPageRef::open(page) {
            Err(e) => {
                return Err(self.fault(DeltaFault::Open(e)));
            },
            Ok(view) => view,
        };
        let header = view.header();
        if header.page_id != self.page_no || header.tenant_id != self.tenant_id.raw() {
            return Err(
                self.fault(
                    DeltaFault::WrongTarget {
                        tenant_id: header.tenant_id,
                        page_id: header.page_id,
                    },
                ),
            );
        }
        match check_store(self.store_id, header.page_type, header.flags) {
            Some(f) => Err(self.fault(f)),
            None => Ok(self.op_lsn.raw() > header.lsn),
        }
    }

    /// Whether the operation, if it changes the page at all, stays inside it. It
    /// does on every page whose header and directory agree.
    pub fn fits_page(&self, page: &[u8], commit_lsn: Lsn, owner: OwnerLayout) -> (r: bool)
        ensures
            r == recovery_fits(Some(page@), *self, commit_lsn.0, owner),
    {
        match self.check_target(page, commit_lsn) {
            Ok(true) => match SlottedPageRef::open(page) {
                Err(_) => true,
                Ok(view) => self.fits(&view, owner),
            },
            _ => true,
        }
    }
}

/// Whether the store holds owner rows.
pub fn is_owner_store_id(store_id: u16) -> (r: bool)
    ensures
        r == owner_store(store_id),
{
    store_id == STORE_NODE_BINDINGS || store_id == STORE_REL_BINDINGS || store_id == STORE_INTERN
        || store_id == STORE_GRANTS
}

fn check_store(store_id: u16, page_type: u8, flags: u16) -> (r: Option<DeltaFault>)
    ensures
        r == store_fault(store_id, page_type, flags),
{
    let node = page_type == PageType::Node.as_byte();
    let rel = page_type == PageType::Rel.as_byte();
    let bags = page_type == PageType::PropSlotted.as_byte();
    let fits = if store_id == STORE_PROPS {
        bags
    } else if store_id == STORE_RECORD {
        node || rel
    } else if store_id == STORE_RELS {
        rel
    } else if is_owner_store_id(store_id) {
        bags && flags == store_id
    } else {
        return Some(DeltaFault::UngovernedStore { store_id });
    };
    if fits {
        None
    } else {
        Some(DeltaFault::WrongStore { store_id, page_type })
    }
}

fn put_record(page: &mut SlottedPage<'_>, op: &DeltaOp) -> (r: Result<(), DeltaFault>)
    requires
        page_ok(old(page)@),
    ensures
        final(page)@ == record_put(old(page)@, *op).0,
        r is Ok <==> record_put(old(page)@, *op).1 is None,
        r matches Err(e) ==> record_put(old(page)@, *op).1 == Some(e),
        frame_ok(final(page)@),
        final(final(page).bytes)@ == final(old(page).bytes)@,
{
    let page_type: u8 = page.header().page_type;
    let len: usize = op.payload.len();
    if page_type == PageType::Node.as_byte() {
        if len != NODE_RECORD_SIZE {
            return Err(DeltaFault::NodeLength { len });
        }
        match NodeRecord::from_bytes(op.payload.as_slice()) {
            Err(e) => Err(DeltaFault::NodePayload(e)),
            Ok(rec) => {
                proof {
                    law_node_round_trip(rec);
                }
                match page.put_node_at(SlotId(op.slot), &rec) {
                    Err(error) => Err(DeltaFault::Apply { kind: op.kind, error }),
                    Ok(_) => Ok(()),
                }
            },
        }
    } else if page_type == PageType::Rel.as_byte() {
        if len != REL_RECORD_SIZE {
            return Err(DeltaFault::RelLength { len });
        }
        match RelRecord::from_bytes(op.payload.as_slice()) {
            Err(e) => Err(DeltaFault::RelPayload(e)),
            Ok(rec) => {
                proof {
                    law_rel_round_trip(rec);
                }
                match page.put_rel_at(SlotId(op.slot), &rec) {
                    Err(error) => Err(DeltaFault::Apply { kind: op.kind, error }),
                    Ok(_) => Ok(()),
                }
            },
        }
    } else {
        Err(DeltaFault::WrongPageType { kind: op.kind, page_type })
    }
}

fn end_record(page: &mut SlottedPage<'_>, op: &DeltaOp, commit_lsn: Lsn) -> (r: Result<
    (),
    DeltaFault,
>)
    requires
        page_ok(old(page)@),
    ensures
        final(page)@ == tombstone_outcome(old(page)@, *op, commit_lsn.0).0,
        r is Ok <==> tombstone_outcome(old(page)@, *op, commit_lsn.0).1 is None,
        r matches Err(e) ==> tombstone_outcome(old(page)@, *op, commit_lsn.0).1 == Some(e),
        frame_ok(final(page)@),
        final(final(page).bytes)@ == final(old(page).bytes)@,
{
    let page_type: u8 = page.header().page_type;
    let slot = SlotId(op.slot);
    if page_type == PageType::Node.as_byte() {
        match page.tombstone(slot) {
            Err(error) => Err(DeltaFault::Apply { kind: op.kind, error }),
            Ok(_) => Ok(()),
        }
    } else if page_type == PageType::Rel.as_byte() {
        match page.read_rel(slot) {
            Err(e) => Err(DeltaFault::TombstoneRead(e)),
            Ok(None) => Err(DeltaFault::TombstoneEmpty),
            Ok(Some(rec)) => {
                let mut ended = rec;
                ended.expired_lsn = commit_lsn.0;
                match page.update_rel(slot, &ended) {
                    Err(error) => Err(DeltaFault::Apply { kind: op.kind, error }),
                    Ok(_) => Ok(()),
                }
            },
        }
    } else {
        Err(DeltaFault::WrongPageType { kind: op.kind, page_type })
    }
}

fn change_owner_row(page: &mut SlottedPage<'_>, op: &DeltaOp, owner: OwnerLayout) -> (r: Result<
    (),
    DeltaFault,
>)
    requires
        page_ok(old(page)@),
        owner.wf(),
        old(page)@[5] == page_type_byte(PageType::PropSlotted),
        op.retires_owner_row ==> bury_fits(
            old(page)@,
            op.slot,
            op.op_lsn.0,
            owner.row_bytes,
        ),
    ensures
        final(page)@ == owner_outcome(old(page)@, *op, owner).0,
        r is Ok <==> owner_outcome(old(page)@, *op, owner).1 is None,
        r matches Err(e) ==> owner_outcome(old(page)@, *op, owner).1 == Some(e),
        frame_ok(final(page)@),
        final(final(page).bytes)@ == final(old(page).bytes)@,
{
    let slot = SlotId(op.slot);
    let done = if op.retires_owner_row {
        page.permanent_tombstone_fixed_bag_at_slot(
            slot,
            op.op_lsn,
            owner.row_bytes,
            owner.rows_per_page,
        )
    } else {
        page.put_fixed_bag_at_slot(slot, op.payload.as_slice(), owner.rows_per_page)
    };
    match done {
        Err(error) => Err(DeltaFault::Apply { kind: op.kind, error }),
        Ok(_) => Ok(()),
    }
}

/// Makes the operation's change on an attached page.
fn change_page(page: &mut SlottedPage<'_>, op: &DeltaOp, commit_lsn: Lsn, owner: OwnerLayout) -> (r:
    Result<(), DeltaFault>)
    requires
        page_ok(old(page)@),
        owner.wf(),
        delta_fits(old(page)@, *op, owner),
    ensures
        final(page)@ == delta_outcome(old(page)@, *op, commit_lsn.0, owner).0,
        r is Ok <==> delta_outcome(old(page)@, *op, commit_lsn.0, owner).1 is None,
        r matches Err(e) ==> delta_outcome(old(page)@, *op, commit_lsn.0, owner).1 == Some(e),
        frame_ok(final(page)@),
        final(final(page).bytes)@ == final(old(page).bytes)@,
{
    let page_type: u8 = page.header().page_type;
    let bags = page_type == PageType::PropSlotted.as_byte();
    match op.kind {
        DeltaOpKind::PutRecord => put_record(page, op),
        DeltaOpKind::PutPropBlock => {
            if !bags {
                return Err(DeltaFault::WrongPageType { kind: op.kind, page_type });
            }
            match page.put_bag_at(SlotId(op.slot), op.payload.as_slice()) {
                Err(error) => Err(DeltaFault::Apply { kind: op.kind, error }),
                Ok(_) => Ok(()),
            }
        },
        DeltaOpKind::InternBind | DeltaOpKind::AclGrant => {
            if !bags {
                return Err(DeltaFault::WrongPageType { kind: op.kind, page_type });
            }
            change_owner_row(page, op, owner)
        },
        DeltaOpKind::TombstoneRecord => end_record(page, op, commit_lsn),
        DeltaOpKind::PageAlloc | DeltaOpKind::Logical => Err(
            DeltaFault::NotPageData { kind: op.kind },
        ),
    }
}

/// The slot of an operation that was applied reads as the operation says: a record
/// or a bag that was put is the one in the payload, a node that was ended is absent,
/// and a relationship that was ended notes the commit that ended it.
pub open spec fn slot_shows(before: Seq<u8>, op: DeltaOp, commit_lsn: u64, after: Seq<u8>) -> bool {
    let p = op.payload@;
    &&& u64_at(after, 16) == op.op_lsn.0
    &&& op.kind is PutRecord && before[5] == 1 ==> read_node_result(after, op.slot) == Ok::<
        Option<NodeRecord>,
        PageError,
    >(Some(decode_node(p)->Ok_0))
    &&& op.kind is PutRecord && before[5] == 2 ==> read_rel_result(after, op.slot) == Ok::<
        Option<RelRecord>,
        PageError,
    >(Some(decode_rel(p)->Ok_0))
    &&& op.kind is PutPropBlock || ((op.kind is InternBind || op.kind is AclGrant)
        && !op.retires_owner_row) ==> read_bag_result(after, op.slot) == Ok::<
        Option<Seq<u8>>,
        PageError,
    >(Some(p))
    &&& op.kind is TombstoneRecord && before[5] == 1 ==> read_node_result(after, op.slot) == Ok::<
        Option<NodeRecord>,
        PageError,
    >(None)
    &&& op.kind is TombstoneRecord && before[5] == 2 ==> (read_rel_result(after, op.slot) matches Ok(
        Some(rec),
    ) && rec.expired_lsn == commit_lsn)
}

/// Applies one operation to the page it names, if its LSN is above the
/// page's. The page is stamped with the LSN only once the change succeeded.
/// Says whether the page changed.
pub fn apply_physical_delta(
    page_bytes: &mut [u8],
    op: &DeltaOp,
    commit_lsn: Lsn,
    owner: OwnerLayout,
) -> (r: Result<bool, DeltaError>)
    requires
        owner.wf(),
        target_fault(old(page_bytes)@, *op, commit_lsn.0) is None && op.op_lsn.0 > u64_at(
            old(page_bytes)@,
            16,
        ) ==> delta_fits(old(page_bytes)@, *op, owner),
    ensures
        final(page_bytes)@ == delta_result(old(page_bytes)@, *op, commit_lsn.0, owner).0,
        r matches Ok(applied) ==> delta_result(old(page_bytes)@, *op, commit_lsn.0, owner).1 == Ok::<
            bool,
            DeltaFault,
        >(applied),
        r matches Err(e) ==> e.lsn == op.op_lsn && delta_result(
            old(page_bytes)@,
            *op,
            commit_lsn.0,
            owner,
        ).1 == Err::<bool, DeltaFault>(e.reason),
        r == Ok::<bool, DeltaError>(true) ==> slot_shows(
            old(page_bytes)@,
            *op,
            commit_lsn.0,
            final(page_bytes)@,
        ),
        r != Ok::<bool, DeltaError>(true) ==> final(page_bytes)@ == old(page_bytes)@,
{
    let ghost before = page_bytes@;
    let r = apply_to_page(page_bytes, op, commit_lsn, owner);
    proof {
        law_applied_operation_shows(before, *op, commit_lsn.0, owner);
    }
    r
}

fn apply_to_page(
    page_bytes: &mut [u8],
    op: &DeltaOp,
    commit_lsn: Lsn,
    owner: OwnerLayout,
) -> (r: Result<bool, DeltaError>)
    requires
        owner.wf(),
        target_fault(old(page_bytes)@, *op, commit_lsn.0) is None && op.op_lsn.0 > u64_at(
            old(page_bytes)@,
            16,
        ) ==> delta_fits(old(page_bytes)@, *op, owner),
    ensures
        final(page_bytes)@ == delta_result(old(page_bytes)@, *op, commit_lsn.0, owner).0,
        r matches Ok(applied) ==> delta_result(old(page_bytes)@, *op, commit_lsn.0, owner).1 == Ok::<
            bool,
            DeltaFault,
        >(applied),
        r matches Err(e) ==> e.lsn == op.op_lsn && delta_result(
            old(page_bytes)@,
            *op,
            commit_lsn.0,
            owner,
        ).1 == Err::<bool, DeltaFault>(e.reason),
{
    match op.validate_shape() {
        Err(e) => {
            return Err(e);
        },
        Ok(_) => {},
    }
    match op.kind {
        DeltaOpKind::PageAlloc | DeltaOpKind::Logical => {
            return Err(op.fault(DeltaFault::NotPageData { kind: op.kind }));
        },
        _ => {},
    }
    if commit_lsn.raw() < op.op_lsn.raw() {
        return Err(
            op.fault(
                DeltaFault::CommitBeforeOp { commit_lsn: commit_lsn.raw(), op_lsn: op.op_lsn.raw() },
            ),
        );
    }
    let mut page = match SlottedPage::open(page_bytes) {
        Err(e) => {
            return Err(op.fault(DeltaFault::Open(e)));
        },
        Ok(page) => page,
    };
    let header = page.header();
    if header.page_id != op.page_no || header.tenant_id != op.tenant_id.raw() {
        return Err(
            op.fault(
                DeltaFault::WrongTarget { tenant_id: header.tenant_id, page_id: header.page_id },
            ),
        );
    }
    match check_store(op.store_id, header.page_type, header.flags) {
        Some(f) => {
            return Err(op.fault(f));
        },
        None => {},
    }
    if op.op_lsn.raw() <= page.page_lsn().raw() {
        return Ok(false);
    }
    let ghost before = page@;
    let change = |q: &mut SlottedPage<'_>| -> (res: Result<(), DeltaFault>)
        requires
            page_ok(old(q)@),
            owner.wf(),
            delta_fits(old(q)@, *op, owner),
        ensures
            final(q)@ == delta_outcome(old(q)@, *op, commit_lsn.0, owner).0,
            res is Ok <==> delta_outcome(old(q)@, *op, commit_lsn.0, owner).1 is None,
            res matches Err(e) ==> delta_outcome(old(q)@, *op, commit_lsn.0, owner).1 == Some(e),
            frame_ok(final(q)@),
            final(final(q).bytes)@ == final(old(q).bytes)@,
    {
        change_page(q, op, commit_lsn, owner)
    };
    let applied = page.apply_redo_if_newer(op.op_lsn, change);
    match applied {
        Err(f) => Err(op.fault(f)),
        Ok(done) => Ok(done),
    }
}

/// What [`apply_physical_delta`] does, where it may be called: not if owner rows
/// have no room for an LSN, or the change would leave the page. `None` says so,
/// and the page has not changed then.
pub fn try_physical_delta(
    page_bytes: &mut [u8],
    op: &DeltaOp,
    commit_lsn: Lsn,
    owner: OwnerLayout,
) -> (r: Option<Result<bool, DeltaError>>)
    ensures
        r is None <==> !owner.wf() || !recovery_fits(
            Some(old(page_bytes)@),
            *op,
            commit_lsn.0,
            owner,
        ),
        match r {
            None => final(page_bytes)@ == old(page_bytes)@,
            Some(r) => {
                let (page, done) = delta_result(old(page_bytes)@, *op, commit_lsn.0, owner);
                &&& final(page_bytes)@ == page
                &&& match r {
                    Ok(applied) => done == Ok::<bool, DeltaFault>(applied),
                    Err(e) => e.lsn == op.op_lsn && done == Err::<bool, DeltaFault>(e.reason),
                }
                &&& if r == Ok::<bool, DeltaError>(true) {
                    slot_shows(old(page_bytes)@, *op, commit_lsn.0, page)
                } else {
                    page == old(page_bytes)@
                }
            },
        },
{
    if owner.row_bytes < 8 || !op.fits_page(page_bytes, commit_lsn, owner) {
        return None;
    }
    Some(apply_physical_delta(page_bytes, op, commit_lsn, owner))
}

// ---- recovery -------------------------------------------------------------

/// What became of one operation during recovery.
#[derive(Clone, Copy, Debug, PartialEq, Eq, Structural)]
pub enum RecoveryDeltaOutcome {
    /// The page had the operation already.
    Idempotent,
    /// A missing page was formatted.
    Formatted,
    /// A page that was there changed.
    Applied,
}

/// Why an operation has no place in recovery, whatever the pages hold.
pub open spec fn recovery_fault(op: DeltaOp) -> Option<DeltaFault> {
    if shape_fault(op) is Some {
        shape_fault(op)
    } else if op.store_id == STORE_BLOB_OVERFLOW {
        Some(DeltaFault::BlobOverflow)
    } else if !op.kind.physical() {
        Some(DeltaFault::LogicalOp)
    } else if op.store_id == STORE_PROPS || op.store_id == STORE_RECORD || op.store_id == STORE_TEL
        || op.store_id == STORE_RELS || owner_store(op.store_id) {
        None
    } else {
        Some(DeltaFault::UnknownStore { store_id: op.store_id })
    }
}

/// A page that was never written: it is not there, or it holds zeros only.
pub open spec fn unwritten(present: Option<Seq<u8>>) -> bool {
    match present {
        Some(b) => zeros_only(b),
        None => true,
    }
}

/// Every byte is zero.
pub open spec fn zeros_only(b: Seq<u8>) -> bool {
    forall|i: int| 0 <= i < b.len() ==> #[trigger] b[i] == 0
}

/// The header of a page that an operation allocates.
pub open spec fn alloc_header(op: DeltaOp, page_type: u8) -> PageHeader {
    PageHeader {
        magic: PAGE_MAGIC,
        version: PAGE_VERSION,
        page_type,
        flags: if page_type != page_type_byte(PageType::Tel) && owner_store(op.store_id) {
            op.store_id
        } else {
            0
        },
        page_id: op.page_no,
        lsn: 0,
        tenant_id: op.tenant_id.0,
        checksum: 0,
        slot_count: 0,
        free_space: 0,
    }
}

/// The body of an empty page.
pub open spec fn empty_body() -> Seq<u8> {
    Seq::new(PAGE_BODY_BYTES as nat, |i: int| 0u8)
}

/// The page that an operation formats.
pub open spec fn alloc_result(op: DeltaOp) -> Result<Seq<u8>, DeltaFault> {
    let t = op.payload@[0];
    let h = alloc_header(op, t);
    if !(1 <= t <= 7) {
        Err(DeltaFault::AllocType { got: t })
    } else if t == page_type_byte(PageType::Tel) {
        Ok(
            header_bytes(
                PageHeader {
                    lsn: op.op_lsn.0,
                    free_space: PAGE_BODY_BYTES as u16,
                    checksum: crc32c_of(empty_body()),
                    ..h
                },
            ) + empty_body(),
        )
    } else if t == page_type_byte(PageType::Node) || t == page_type_byte(PageType::Rel) || t
        == page_type_byte(PageType::PropSlotted) {
        Ok(
            if op.op_lsn.0 == 0 {
                fresh_page(h)
            } else {
                splice(fresh_page(h), 16, le64(op.op_lsn.0))
            },
        )
    } else {
        Err(
            DeltaFault::AllocFormat(
                PageError::WrongPageType { got: t, expected: page_type_byte(PageType::Node) },
            ),
        )
    }
}

/// The LSN of a page that is there, or why the page is not sound.
pub open spec fn present_lsn(b: Seq<u8>, op: DeltaOp) -> Result<u64, DeltaFault> {
    if op.store_id == STORE_TEL && op.kind is PageAlloc {
        match decode_header(b) {
            Err(e) => Err(DeltaFault::TelHeader(e)),
            Ok(h) => if h.page_id != op.page_no || h.tenant_id != op.tenant_id.0 || h.page_type
                != page_type_byte(PageType::Tel) || crc32c_of(b.skip(PAGE_HEADER_SIZE as int))
                != h.checksum {
                Err(DeltaFault::TelPage)
            } else {
                Ok(h.lsn)
            },
        }
    } else {
        match open_result(b) {
            Err(e) => Err(DeltaFault::TornPage(e)),
            Ok(_) => Ok(u64_at(b, 16)),
        }
    }
}

/// What recovery does with one operation, given the page that it names: the
/// page to install, if any, and the outcome.
pub open spec fn recovery_result(
    present: Option<Seq<u8>>,
    op: DeltaOp,
    commit_lsn: u64,
    owner: OwnerLayout,
) -> Result<(Option<Seq<u8>>, RecoveryDeltaOutcome), DeltaFault> {
    if unwritten(present) {
        if !(op.kind is PageAlloc) {
            Err(DeltaFault::AbsentPage { kind: op.kind })
        } else {
            match alloc_result(op) {
                Err(f) => Err(f),
                Ok(page) => Ok((Some(page), RecoveryDeltaOutcome::Formatted)),
            }
        }
    } else {
        let b = present->Some_0;
        match present_lsn(b, op) {
            Err(f) => Err(f),
            Ok(lsn) => if op.kind is PageAlloc {
                if lsn >= op.op_lsn.0 {
                    Ok((None, RecoveryDeltaOutcome::Idempotent))
                } else {
                    Err(DeltaFault::AllocOnOlderPage)
                }
            } else {
                let (page, r) = delta_result(b, op, commit_lsn, owner);
                match r {
                    Err(f) => Err(f),
                    Ok(false) => Ok((None, RecoveryDeltaOutcome::Idempotent)),
                    Ok(true) => Ok((Some(page), RecoveryDeltaOutcome::Applied)),
                }
            },
        }
    }
}

/// The operation's change stays inside the page that is there.
pub open spec fn recovery_fits(
    present: Option<Seq<u8>>,
    op: DeltaOp,
    commit_lsn: u64,
    owner: OwnerLayout,
) -> bool {
    present matches Some(b) ==> target_fault(b, op, commit_lsn) is None && op.op_lsn.0 > u64_at(
        b,
        16,
    ) ==> delta_fits(b, op, owner)
}

/// The next step of recovery.
pub enum RecoveryStep {
    /// The page had the operation already: nothing is to be done.
    Idempotent,
    /// The page is to be installed, and marked dirty at the operation's LSN.
    Install {
        /// The page.
        page: Vec<u8>,
        /// What becomes of the operation once that is done.
        outcome: RecoveryDeltaOutcome,
    },
}

fn is_unwritten(present: &Option<Vec<u8>>) -> (r: bool)
    ensures
        r == unwritten(
            match *present {
                Some(b) => Some(b@),
                None => None,
            },
        ),
{
    match present {
        None => true,
        Some(b) => {
            let mut i: usize = 0;
            while i < b.len()
                invariant
                    *present == Some(*b),
                    i <= b@.len(),
                    forall|j: int| 0 <= j < i ==> #[trigger] b@[j] == 0,
                decreases b@.len() - i,
            {
                if b[i] != 0 {
                    assert(!zeros_only(b@)) by {
                        assert(b@[i as int] != 0);
                    }
                    return false;
                }
                i += 1;
            }
            true
        },
    }
}

fn zeros(n: usize) -> (v: Vec<u8>)
    ensures
        v@ == Seq::new(n as nat, |i: int| 0u8),
{
    let mut v: Vec<u8> = Vec::new();
    while v.len() < n
        invariant
            v@.len() <= n,
            forall|i: int| 0 <= i < v@.len() ==> #[trigger] v@[i] == 0,
        decreases n - v@.len(),
    {
        v.push(0);
    }
    assert(v@ =~= Seq::new(n as nat, |i: int| 0u8));
    v
}

/// Formats the page that an operation allocates.
fn format_page(op: &DeltaOp) -> (r: Result<Vec<u8>, DeltaFault>)
    requires
        op.kind is PageAlloc,
        op.payload@.len() == 1,
    ensures
        r is Ok <==> alloc_result(*op) is Ok,
        r matches Ok(page) ==> alloc_result(*op) == Ok::<Seq<u8>, DeltaFault>(page@)
            && page@.len() == PAGE_SIZE,
        r matches Err(f) ==> alloc_result(*op) == Err::<Seq<u8>, DeltaFault>(f),
{
    let byte: u8 = op.payload[0];
    let page_type = match PageType::from_byte(byte) {
        None => {
            return Err(DeltaFault::AllocType { got: byte });
        },
        Some(t) => t,
    };
    let mut header = PageHeader::new(PageId::new(op.page_no), page_type, op.tenant_id);
    if byte == PageType::Tel.as_byte() {
        let body = zeros(PAGE_BODY_BYTES);
        header.lsn = op.op_lsn.raw();
        header.free_space = PAGE_BODY_BYTES as u16;
        header.checksum = crc32c(body.as_slice());
        proof {
            law_header_round_trip(header);
        }
        let mut page = header.to_bytes();
        push_bytes(&mut page, body.as_slice());
        return Ok(page);
    }
    if is_owner_store_id(op.store_id) {
        header.flags = op.store_id;
    }
    let mut bytes = zeros(PAGE_SIZE);
    let mut page = match SlottedPage::init(bytes.as_mut_slice(), header) {
        Err(e) => {
            return Err(DeltaFault::AllocFormat(e));
        },
        Ok(page) => page,
    };
    proof {
        lemma_fresh(header);
    }
    let keep = |q: &mut SlottedPage<'_>| -> (res: Result<(), DeltaFault>)
        ensures
            res is Ok,
            final(q)@ == old(q)@,
            final(final(q).bytes)@ == final(old(q).bytes)@,
    {
        Ok(())
    };
    match page.apply_redo_if_newer(op.op_lsn, keep) {
        Err(f) => {
            return Err(f);
        },
        Ok(_) => {},
    }
    Ok(bytes)
}

proof fn lemma_fresh(h: PageHeader)
    requires
        h.magic == PAGE_MAGIC,
        h.version == PAGE_VERSION,
        1 <= h.page_type <= 7,
    ensures
        page_ok(fresh_page(h)),
        u64_at(fresh_page(h), 16) == h.lsn,
{
    law_header_round_trip(h);
    law_fresh_page(h);
    let g = PageHeader { slot_count: 0, free_space: PAGE_BODY_BYTES as u16, ..h };
    law_header_round_trip(g);
    let b = header_bytes(g) + empty_body();
    lemma_u64_at_same(b, 16, header_bytes(g), 16);
    lemma_u64_at_same(fresh_page(h), 16, b, 16);
}

/// Decides what recovery does with one operation, given the page that it
/// names.
pub fn recovery_step(
    present: Option<Vec<u8>>,
    op: &DeltaOp,
    commit_lsn: Lsn,
    owner: OwnerLayout,
) -> (r: Result<RecoveryStep, DeltaError>)
    requires
        owner.wf(),
        shape_fault(*op) is None,
        present matches Some(b) ==> b@.len() == PAGE_SIZE && recovery_fits(
            Some(b@),
            *op,
            commit_lsn.0,
            owner,
        ),
    ensures
        ({
            let at = match present {
                Some(b) => Some(b@),
                None => None,
            };
            match r {
                Err(e) => e.lsn == op.op_lsn && recovery_result(at, *op, commit_lsn.0, owner)
                    == Err::<(Option<Seq<u8>>, RecoveryDeltaOutcome), DeltaFault>(e.reason),
                Ok(RecoveryStep::Idempotent) => recovery_result(at, *op, commit_lsn.0, owner)
                    == Ok::<(Option<Seq<u8>>, RecoveryDeltaOutcome), DeltaFault>(
                    (None, RecoveryDeltaOutcome::Idempotent),
                ),
                Ok(RecoveryStep::Install { page, outcome }) => page@.len() == PAGE_SIZE
                    && recovery_result(
                    at,
                    *op,
                    commit_lsn.0,
                    owner,
                ) == Ok::<(Option<Seq<u8>>, RecoveryDeltaOutcome), DeltaFault>(
                    (Some(page@), outcome),
                ),
            }
        }),
{
    if is_unwritten(&present) {
        return match op.kind {
            DeltaOpKind::PageAlloc => match format_page(op) {
                Err(f) => Err(op.fault(f)),
                Ok(page) => Ok(
                    RecoveryStep::Install { page, outcome: RecoveryDeltaOutcome::Formatted },
                ),
            },
            _ => Err(op.fault(DeltaFault::AbsentPage { kind: op.kind })),
        };
    }
    let mut bytes = match present {
        Some(b) => b,
        None => {
            return Ok(RecoveryStep::Idempotent);
        },
    };
    let is_alloc = match op.kind {
        DeltaOpKind::PageAlloc => true,
        _ => false,
    };
    let page_lsn: u64 = if op.store_id == STORE_TEL && is_alloc {
        match PageHeader::from_bytes(bytes.as_slice()) {
            Err(e) => {
                return Err(op.fault(DeltaFault::TelHeader(e)));
            },
            Ok(h) => {
                let body = vstd::slice::slice_subrange(
                    bytes.as_slice(),
                    PAGE_HEADER_SIZE,
                    bytes.len(),
                );
                assert(body@ =~= bytes@.skip(PAGE_HEADER_SIZE as int));
                if h.page_id != op.page_no || h.tenant_id != op.tenant_id.raw() || h.page_type
                    != PageType::Tel.as_byte() || crc32c(body) != h.checksum {
                    return Err(op.fault(DeltaFault::TelPage));
                }
                h.lsn
            },
        }
    } else {
        match crate::records::SlottedPageRef::open(bytes.as_slice()) {
            Err(e) => {
                return Err(op.fault(DeltaFault::TornPage(e)));
            },
            Ok(page) => page.page_lsn().raw(),
        }
    };
    if is_alloc {
        if page_lsn >= op.op_lsn.raw() {
            return Ok(RecoveryStep::Idempotent);
        }
        return Err(op.fault(DeltaFault::AllocOnOlderPage));
    }
    match apply_physical_delta(bytes.as_mut_slice(), op, commit_lsn, owner) {
        Err(e) => Err(e),
        Ok(false) => Ok(RecoveryStep::Idempotent),
        Ok(true) => Ok(
            RecoveryStep::Install { page: bytes, outcome: RecoveryDeltaOutcome::Applied },
        ),
    }
}

/// A failure of a page store.
#[derive(Clone, Copy, Debug, PartialEq, Eq, Structural)]
pub struct StoreFailure;

/// A store of pages that redo reads and writes.
pub trait DeltaPageStore {
    /// The page under this number, as this tenant sees it.
    spec fn page(&self, tenant: u64, page_no: u64) -> Option<Seq<u8>>;

    /// Reads a page; `None` where there is none.
    fn read_page_for_redo(&self, tenant: TenantId, page_id: PageId) -> (r: Result<
        Option<Vec<u8>>,
        StoreFailure,
    >)
        ensures
            r matches Ok(Some(b)) ==> self.page(tenant.0, page_id.0) == Some(b@) && b@.len()
                == PAGE_SIZE,
            r matches Ok(None) ==> self.page(tenant.0, page_id.0) is None,
    ;

    /// Puts a page in the place of the one that is there.
    fn install_page_from_redo(&mut self, tenant: TenantId, page_id: PageId, page: Vec<u8>) -> (r:
        Result<(), StoreFailure>)
        requires
            page@.len() == PAGE_SIZE,
        ensures
            r is Ok ==> final(self).page(tenant.0, page_id.0) == Some(page@),
            forall|t: u64, p: u64| p != page_id.0 ==> #[trigger] final(self).page(t, p) == old(
                self,
            ).page(t, p),
            r is Err ==> forall|t: u64, p: u64| #[trigger] final(self).page(t, p) == old(
                self,
            ).page(t, p),
    ;
}

/// The store keeps every page but the one under `page_no`.
pub open spec fn same_but<S: DeltaPageStore>(a: S, b: S, page_no: u64) -> bool {
    forall|t: u64, p: u64| p != page_no ==> #[trigger] b.page(t, p) == a.page(t, p)
}

/// The stores hold the same pages.
pub open spec fn same_pages<S: DeltaPageStore>(a: S, b: S) -> bool {
    forall|t: u64, p: u64| #[trigger] b.page(t, p) == a.page(t, p)
}

/// The page of the operation, in a store.
pub open spec fn op_page<S: DeltaPageStore>(store: S, op: DeltaOp) -> Option<Seq<u8>> {
    store.page(op.tenant_id.0, op.page_no)
}

/// The key of the operation's page in the table of dirty pages.
pub open spec fn op_key(op: DeltaOp) -> DirtyPageKey {
    DirtyPageKey { tenant_id: op.tenant_id, store_id: op.store_id, page_no: op.page_no }
}

/// What one operation does to the store that holds its page and to the table
/// of dirty pages.
pub open spec fn replayed<S: DeltaPageStore>(
    before: S,
    after: S,
    dirty_before: DirtyPageTable,
    dirty_after: DirtyPageTable,
    op: DeltaOp,
    commit_lsn: u64,
    owner: OwnerLayout,
    r: Result<RecoveryDeltaOutcome, DeltaError>,
) -> bool {
    let step = recovery_result(op_page(before, op), op, commit_lsn, owner);
    match r {
        Err(e) => {
            &&& e.lsn == op.op_lsn
            &&& e.reason is Store || step == Err::<
                (Option<Seq<u8>>, RecoveryDeltaOutcome),
                DeltaFault,
            >(e.reason)
            &&& same_pages(before, after)
            &&& dirty_after.rows() == dirty_before.rows()
            &&& dirty_after.clock() == dirty_before.clock()
        },
        Ok(outcome) => match step {
            Err(_) => false,
            Ok((None, out)) => {
                &&& outcome == out
                &&& same_pages(before, after)
                &&& dirty_after.rows() == dirty_before.rows()
                &&& dirty_after.clock() == dirty_before.clock()
            },
            Ok((Some(page), out)) => {
                &&& outcome == out
                &&& op_page(after, op) == Some(page)
                &&& same_but(before, after, op.page_no)
                &&& dirty_after.clock() == dirty_before.clock() + 1
                &&& dirty_after.rows() == dirty_before.rows().insert(
                    row_key(op_key(op)),
                    marked_row(
                        dirty_before.rows(),
                        dirty_before.clock(),
                        row_key(op_key(op)),
                        op.op_lsn.0,
                    ),
                )
            },
        },
    }
}

/// What becomes of an operation whose page was to be installed, given the
/// store's answer: the page is marked dirty at the operation's LSN, or the
/// failure is reported and nothing is marked.
pub fn settle_install(
    op: &DeltaOp,
    outcome: RecoveryDeltaOutcome,
    answer: Result<(), StoreFailure>,
    dpt: &mut DirtyPageTable,
) -> (r: Result<RecoveryDeltaOutcome, DeltaError>)
    requires
        old(dpt).wf(),
        old(dpt).clock() < u64::MAX,
    ensures
        final(dpt).wf(),
        match answer {
            Err(_) => {
                &&& r == Err::<RecoveryDeltaOutcome, DeltaError>(
                    DeltaError { lsn: op.op_lsn, reason: DeltaFault::Store },
                )
                &&& *final(dpt) == *old(dpt)
            },
            Ok(_) => {
                &&& r == Ok::<RecoveryDeltaOutcome, DeltaError>(outcome)
                &&& final(dpt).clock() == old(dpt).clock() + 1
                &&& final(dpt).rows() == old(dpt).rows().insert(
                    row_key(op_key(*op)),
                    marked_row(
                        old(dpt).rows(),
                        old(dpt).clock(),
                        row_key(op_key(*op)),
                        op.op_lsn.0,
                    ),
                )
            },
        },
{
    match answer {
        Err(_) => Err(op.fault(DeltaFault::Store)),
        Ok(_) => {
            dpt.mark_dirty(
                DirtyPageKey {
                    tenant_id: op.tenant_id,
                    store_id: op.store_id,
                    page_no: op.page_no,
                },
                op.op_lsn,
            );
            Ok(outcome)
        },
    }
}

fn replay_on<S: DeltaPageStore>(
    store: &mut S,
    dpt: &mut DirtyPageTable,
    op: &DeltaOp,
    commit_lsn: Lsn,
    owner: OwnerLayout,
    test: bool,
) -> (r: Option<Result<RecoveryDeltaOutcome, DeltaError>>)
    requires
        owner.wf(),
        old(dpt).wf(),
        old(dpt).clock() < u64::MAX,
        recovery_fault(*op) is None,
        test || recovery_fits(op_page(*old(store), *op), *op, commit_lsn.0, owner),
    ensures
        final(dpt).wf(),
        match r {
            Some(r) => replayed(
                *old(store),
                *final(store),
                *old(dpt),
                *final(dpt),
                *op,
                commit_lsn.0,
                owner,
                r,
            ),
            None => {
                &&& !recovery_fits(op_page(*old(store), *op), *op, commit_lsn.0, owner)
                &&& *final(store) == *old(store)
                &&& *final(dpt) == *old(dpt)
            },
        },
{
    let page_id = PageId::new(op.page_no);
    let present = match store.read_page_for_redo(op.tenant_id, page_id) {
        Err(_) => {
            return Some(Err(op.fault(DeltaFault::Store)));
        },
        Ok(present) => present,
    };
    if test {
        match &present {
            Some(page) => {
                if !op.fits_page(page.as_slice(), commit_lsn, owner) {
                    return None;
                }
            },
            None => {},
        }
    }
    match recovery_step(present, op, commit_lsn, owner) {
        Err(e) => Some(Err(e)),
        Ok(RecoveryStep::Idempotent) => Some(Ok(RecoveryDeltaOutcome::Idempotent)),
        Ok(RecoveryStep::Install { page, outcome }) => {
            let answer = store.install_page_from_redo(op.tenant_id, page_id, page);
            Some(settle_install(op, outcome, answer, dpt))
        },
    }
}

/// The store that holds the pages of an operation.
#[derive(Clone, Copy, Debug, PartialEq, Eq, Structural)]
pub enum RedoTarget {
    /// The store of property bags.
    Props,
    /// The store of everything else.
    Records,
}

/// The store that an operation is replayed on.
pub fn redo_target(op: &DeltaOp) -> (r: Result<RedoTarget, DeltaError>)
    ensures
        r == match recovery_fault(*op) {
            Some(f) => Err(DeltaError { lsn: op.op_lsn, reason: f }),
            None => if op.store_id == STORE_PROPS {
                Ok(RedoTarget::Props)
            } else {
                Ok(RedoTarget::Records)
            },
        },
{
    match op.validate_shape() {
        Err(e) => {
            return Err(e);
        },
        Ok(_) => {},
    }
    if op.store_id == STORE_BLOB_OVERFLOW {
        return Err(op.fault(DeltaFault::BlobOverflow));
    }
    if !op.kind.is_physical() {
        return Err(op.fault(DeltaFault::LogicalOp));
    }
    if op.store_id == STORE_PROPS {
        Ok(RedoTarget::Props)
    } else if op.store_id == STORE_RECORD || op.store_id == STORE_TEL || op.store_id == STORE_RELS
        || is_owner_store_id(op.store_id) {
        Ok(RedoTarget::Records)
    } else {
        Err(op.fault(DeltaFault::UnknownStore { store_id: op.store_id }))
    }
}

/// Replays one operation during recovery: a missing page is formatted by its
/// allocation, a page that is there is changed by what it lacks. A page that
/// changed is installed in its store and marked dirty.
pub fn apply_recovery_delta<P: DeltaPageStore, R: DeltaPageStore>(
    props: &mut P,
    records: &mut R,
    dpt: &mut DirtyPageTable,
    op: &DeltaOp,
    commit_lsn: Lsn,
    owner: OwnerLayout,
) -> (r: Result<RecoveryDeltaOutcome, DeltaError>)
    requires
        owner.wf(),
        old(dpt).wf(),
        old(dpt).clock() < u64::MAX,
        recovery_fits(
            if op.store_id == STORE_PROPS {
                op_page(*old(props), *op)
            } else {
                op_page(*old(records), *op)
            },
            *op,
            commit_lsn.0,
            owner,
        ),
    ensures
        final(dpt).wf(),
        recovery_fault(*op) matches Some(f) ==> r == Err::<RecoveryDeltaOutcome, DeltaError>(
            DeltaError { lsn: op.op_lsn, reason: f },
        ) && *final(props) == *old(props) && *final(records) == *old(records) && *final(dpt) == *old(
            dpt,
        ),
        recovery_fault(*op) is None && op.store_id == STORE_PROPS ==> replayed(
            *old(props),
            *final(props),
            *old(dpt),
            *final(dpt),
            *op,
            commit_lsn.0,
            owner,
            r,
        ) && *final(records) == *old(records),
        recovery_fault(*op) is None && op.store_id != STORE_PROPS ==> replayed(
            *old(records),
            *final(records),
            *old(dpt),
            *final(dpt),
            *op,
            commit_lsn.0,
            owner,
            r,
        ) && *final(props) == *old(props),
{
    let done = match redo_target(op) {
        Err(e) => {
            return Err(e);
        },
        Ok(RedoTarget::Props) => replay_on(props, dpt, op, commit_lsn, owner, false),
        Ok(RedoTarget::Records) => replay_on(records, dpt, op, commit_lsn, owner, false),
    };
    match done {
        Some(r) => r,
        None => {
            assert(false);
            Err(op.fault(DeltaFault::Store))
        },
    }
}

/// What [`apply_recovery_delta`] does, where it may be called: not if owner rows
/// have no room for an LSN, no generation is left for a dirty mark, or the
/// change would leave its page. `None` says so, and nothing has changed then.
pub fn try_recovery_delta<P: DeltaPageStore, R: DeltaPageStore>(
    props: &mut P,
    records: &mut R,
    dpt: &mut DirtyPageTable,
    op: &DeltaOp,
    commit_lsn: Lsn,
    owner: OwnerLayout,
) -> (r: Option<Result<RecoveryDeltaOutcome, DeltaError>>)
    requires
        old(dpt).wf(),
    ensures
        final(dpt).wf(),
        r is None ==> {
            &&& *final(props) == *old(props) && *final(records) == *old(records)
            &&& *final(dpt) == *old(dpt)
            &&& !owner.wf() || old(dpt).clock() == u64::MAX || !recovery_fits(
                if op.store_id == STORE_PROPS {
                    op_page(*old(props), *op)
                } else {
                    op_page(*old(records), *op)
                },
                *op,
                commit_lsn.0,
                owner,
            )
        },
        !owner.wf() || old(dpt).clock() == u64::MAX ==> r is None,
        r matches Some(r) ==> match recovery_fault(*op) {
            Some(f) => {
                &&& r == Err::<RecoveryDeltaOutcome, DeltaError>(
                    DeltaError { lsn: op.op_lsn, reason: f },
                )
                &&& *final(props) == *old(props) && *final(records) == *old(records)
                &&& *final(dpt) == *old(dpt)
            },
            None => if op.store_id == STORE_PROPS {
                &&& *final(records) == *old(records)
                &&& replayed(
                    *old(props),
                    *final(props),
                    *old(dpt),
                    *final(dpt),
                    *op,
                    commit_lsn.0,
                    owner,
                    r,
                )
            } else {
                &&& *final(props) == *old(props)
                &&& replayed(
                    *old(records),
                    *final(records),
                    *old(dpt),
                    *final(dpt),
                    *op,
                    commit_lsn.0,
                    owner,
                    r,
                )
            },
        },
{
    if owner.row_bytes < 8 || !dpt.can_mark() {
        return None;
    }
    match redo_target(op) {
        Err(e) => Some(Err(e)),
        Ok(RedoTarget::Props) => replay_on(props, dpt, op, commit_lsn, owner, true),
        Ok(RedoTarget::Records) => replay_on(records, dpt, op, commit_lsn, owner, true),
    }
}

} // verus!
