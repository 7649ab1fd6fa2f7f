//! The pages of the primary index: keys, values, and what the bytes of a
//! leaf and of an inner page mean.
use vstd::prelude::*;

use crate::codec::{
    get_u16, get_u64, group_codec, le16, le64, lemma_u16_read_back, lemma_u64_read_back, push_u16,
    push_u64, u16_at, u64_at,
};
use crate::ids::{PageId, TenantId};
use crate::page::{HeaderError, PAGE_HEADER_SIZE};
use crate::slot_model::SlotId;

verus! {

/// Bytes of a key.
pub const PRIMARY_KEY_SIZE: usize = 24;

/// Bytes of a leaf's value.
pub const PAGE_SLOT_SIZE: usize = 16;

/// Bytes of a leaf's entry: key and value.
pub const LEAF_ENTRY_SIZE: usize = 40;

/// Bytes of an inner page's entry: key and child.
pub const INTERNAL_ENTRY_SIZE: usize = 32;

/// Where the entries of a leaf start.
pub const LEAF_ENTRY_OFFSET: usize = PAGE_HEADER_SIZE;

/// Where the first child of an inner page lies.
pub const INTERNAL_FIRST_CHILD_OFFSET: usize = PAGE_HEADER_SIZE;

/// Where the entries of an inner page start.
pub const INTERNAL_ENTRY_OFFSET: usize = PAGE_HEADER_SIZE + 8;

/// Entries that fit on a leaf.
pub const LEAF_CAPACITY: u16 = 203;

/// Entries that fit on an inner page, which has one more child than entries.
pub const INTERNAL_CAPACITY: u16 = 254;

/// What a key names.
#[derive(Clone, Copy, Debug, PartialEq, Eq, PartialOrd, Ord, Hash, Structural)]
pub enum RecordKind {
    /// A node.
    Node,
    /// A relationship.
    Rel,
}

/// The byte of a kind.
pub open spec fn kind_byte(kind: RecordKind) -> u8 {
    match kind {
        RecordKind::Node => 0,
        RecordKind::Rel => 1,
    }
}

/// The kind of a byte; every byte but zero is read as a relationship, and
/// only zero and one are ever written.
pub open spec fn kind_of(byte: u8) -> RecordKind {
    if byte == 0 {
        RecordKind::Node
    } else {
        RecordKind::Rel
    }
}

/// A key of the index: tenant, then kind, then number.
#[derive(Clone, Copy, Debug, PartialEq, Eq, PartialOrd, Ord, Hash, Structural)]
pub struct PrimaryKey {
    /// The tenant that owns the record.
    pub tenant: TenantId,
    /// Node or relationship.
    pub kind: RecordKind,
    /// The record's number.
    pub id: u64,
}

/// Where a record lies.
#[derive(Clone, Copy, Debug, PartialEq, Eq, Hash, Structural)]
pub struct PageSlot {
    /// The page.
    pub page: PageId,
    /// The slot on the page.
    pub slot: SlotId,
}

/// What is wrong with a page of the index.
#[derive(Clone, Copy, Debug, PartialEq, Eq, Structural)]
#[allow(inconsistent_fields)]
pub enum IndexFault {
    /// A key carries an unknown kind.
    UnknownKind {
        /// The byte.
        got: u8,
    },
    /// The page is no leaf.
    NotLeaf {
        /// The byte of its type.
        got: u8,
    },
    /// The page is no inner page.
    NotInternal {
        /// The byte of its type.
        got: u8,
    },
    /// The page is neither.
    NotIndexPage {
        /// The byte of its type.
        got: u8,
    },
    /// There is no entry with this index.
    EntryOutOfRange {
        /// The index.
        index: u16,
        /// Entries on the page.
        count: u16,
    },
    /// The page has no room; it has to be split first.
    Full,
    /// A page with fewer than two entries cannot be split.
    TooFewToSplit {
        /// Entries on the page.
        have: u16,
    },
    /// There is a page under this number already.
    AlreadyMapped,
    /// There is no root.
    NoRoot,
    /// A logged page has the wrong length.
    PayloadLength {
        /// Bytes that were logged.
        len: usize,
    },
}

/// Why an operation on the index failed.
#[derive(Clone, Copy, Debug, PartialEq, Eq, Structural)]
#[allow(inconsistent_fields)]
pub enum IndexError {
    /// There is no page under this number.
    MissingPage(PageId),
    /// A page is not as it should be.
    CorruptPage {
        /// The page.
        page_id: PageId,
        /// What is wrong.
        reason: IndexFault,
    },
    /// The key has a live value already.
    DuplicateKey {
        /// The key.
        key: PrimaryKey,
    },
    /// A page header does not decode.
    Core(HeaderError),
}

impl RecordKind {
    /// The byte that stands for this kind.
    pub fn as_byte(self) -> (b: u8)
        ensures
            b == kind_byte(self),
    {
        match self {
            RecordKind::Node => 0,
            RecordKind::Rel => 1,
        }
    }
}

// ---- order ----------------------------------------------------------------

/// `a` sorts before `b`.
pub open spec fn key_lt(a: PrimaryKey, b: PrimaryKey) -> bool {
    a.tenant.0 < b.tenant.0 || (a.tenant.0 == b.tenant.0 && (kind_byte(a.kind) < kind_byte(b.kind)
        || (kind_byte(a.kind) == kind_byte(b.kind) && a.id < b.id)))
}

/// Keys are totally ordered.
pub proof fn law_key_order(a: PrimaryKey, b: PrimaryKey, c: PrimaryKey)
    ensures
        !key_lt(a, a),
        key_lt(a, b) || a == b || key_lt(b, a),
        key_lt(a, b) ==> !key_lt(b, a),
        key_lt(a, b) && key_lt(b, c) ==> key_lt(a, c),
{
}

/// Every key is above the ones before it.
pub open spec fn ascending_keys(s: Seq<PrimaryKey>) -> bool {
    forall|i: int, j: int| 0 <= i < j < s.len() ==> key_lt(#[trigger] s[i], #[trigger] s[j])
}

/// The number of keys of an ascending list that are below `k`.
pub open spec fn rank(s: Seq<PrimaryKey>, k: PrimaryKey) -> int
    decreases s.len(),
{
    if s.len() == 0 {
        0
    } else if key_lt(s.last(), k) {
        s.len() as int
    } else {
        rank(s.drop_last(), k)
    }
}

/// The number of keys of an ascending list that are not above `k`.
pub open spec fn rank_le(s: Seq<PrimaryKey>, k: PrimaryKey) -> int
    decreases s.len(),
{
    if s.len() == 0 {
        0
    } else if !key_lt(k, s.last()) {
        s.len() as int
    } else {
        rank_le(s.drop_last(), k)
    }
}

/// What a rank says of the keys around it.
pub proof fn lemma_rank(s: Seq<PrimaryKey>, k: PrimaryKey)
    requires
        ascending_keys(s),
    ensures
        0 <= rank(s, k) <= s.len(),
        forall|i: int| 0 <= i < rank(s, k) ==> key_lt(#[trigger] s[i], k),
        forall|i: int| rank(s, k) <= i < s.len() ==> !key_lt(#[trigger] s[i], k),
        0 <= rank_le(s, k) <= s.len(),
        forall|i: int| 0 <= i < rank_le(s, k) ==> !key_lt(k, #[trigger] s[i]),
        forall|i: int| rank_le(s, k) <= i < s.len() ==> key_lt(k, #[trigger] s[i]),
    decreases s.len(),
{
    if s.len() > 0 {
        let t = s.drop_last();
        assert forall|i: int, j: int| 0 <= i < j < t.len() implies key_lt(
            #[trigger] t[i],
            #[trigger] t[j],
        ) by {
            assert(t[i] == s[i] && t[j] == s[j]);
        }
        lemma_rank(t, k);
        let n = s.len() - 1;
        assert forall|i: int| 0 <= i < n implies #[trigger] s[i] == t[i] && key_lt(s[i], s[n]) by {}
    }
}

/// A rank is the only place with these keys around it.
pub proof fn lemma_rank_is(s: Seq<PrimaryKey>, k: PrimaryKey, p: int)
    requires
        ascending_keys(s),
        0 <= p <= s.len(),
        p > 0 ==> key_lt(s[p - 1], k),
        p < s.len() ==> !key_lt(s[p], k),
    ensures
        rank(s, k) == p,
{
    lemma_rank(s, k);
    let r = rank(s, k);
    if r < p {
        assert(!key_lt(s[r], k));
        if r < p - 1 {
            assert(key_lt(s[r], s[p - 1]));
        }
    } else if r > p {
        assert(key_lt(s[r - 1], k));
        if p < r - 1 {
            assert(key_lt(s[p], s[r - 1]));
        }
    }
}

/// A rank is the only place with these keys around it.
pub proof fn lemma_rank_le_is(s: Seq<PrimaryKey>, k: PrimaryKey, p: int)
    requires
        ascending_keys(s),
        0 <= p <= s.len(),
        p > 0 ==> !key_lt(k, s[p - 1]),
        p < s.len() ==> key_lt(k, s[p]),
    ensures
        rank_le(s, k) == p,
{
    lemma_rank(s, k);
    let r = rank_le(s, k);
    if r < p {
        assert(key_lt(k, s[r]));
        if r < p - 1 {
            assert(key_lt(s[r], s[p - 1]));
        }
    } else if r > p {
        assert(!key_lt(k, s[r - 1]));
        if p < r - 1 {
            assert(key_lt(s[p], s[r - 1]));
        }
    }
}

// ---- keys and values as bytes ---------------------------------------------

/// The 24 bytes of a key.
pub open spec fn key_bytes(k: PrimaryKey) -> Seq<u8> {
    le64(k.tenant.0) + seq![kind_byte(k.kind)] + Seq::new(7, |i: int| 0u8) + le64(k.id)
}

/// The key at `at`, where its kind is known.
pub open spec fn key_at(b: Seq<u8>, at: int) -> PrimaryKey {
    PrimaryKey { tenant: TenantId(u64_at(b, at)), kind: kind_of(b[at + 8]), id: u64_at(b, at + 16) }
}

/// The key at `at`, or why there is none.
pub open spec fn decode_key(b: Seq<u8>, at: int) -> Result<PrimaryKey, IndexError> {
    if b[at + 8] <= 1 {
        Ok(key_at(b, at))
    } else {
        Err(
            IndexError::CorruptPage {
                page_id: PageId(0),
                reason: IndexFault::UnknownKind { got: b[at + 8] },
            },
        )
    }
}

/// The 16 bytes of a value.
pub open spec fn value_bytes(v: PageSlot, dead: bool) -> Seq<u8> {
    le64(v.page.0) + le16(v.slot.0) + seq![if dead {
        1u8
    } else {
        0u8
    }] + Seq::new(5, |i: int| 0u8)
}

/// The value at `at`.
pub open spec fn value_at(b: Seq<u8>, at: int) -> PageSlot {
    PageSlot { page: PageId(u64_at(b, at)), slot: SlotId(u16_at(b, at + 8)) }
}

/// Whether the value at `at` was removed.
pub open spec fn dead_at(b: Seq<u8>, at: int) -> bool {
    b[at + 10] != 0
}

/// What a key's bytes hold is the key.
pub proof fn law_key_round_trip(k: PrimaryKey)
    ensures
        key_bytes(k).len() == PRIMARY_KEY_SIZE,
        decode_key(key_bytes(k), 0) == Ok::<PrimaryKey, IndexError>(k),
{
    broadcast use group_codec;

    let b = key_bytes(k);
    assert forall|j: int| 0 <= j < 8 implies #[trigger] b[0 + j] == le64(k.tenant.0)[j] by {}
    lemma_u64_read_back(b, 0, k.tenant.0);
    assert forall|j: int| 0 <= j < 8 implies #[trigger] b[16 + j] == le64(k.id)[j] by {}
    lemma_u64_read_back(b, 16, k.id);
    assert(b[8] == kind_byte(k.kind));
}

/// What a value's bytes hold is the value.
pub proof fn law_value_round_trip(v: PageSlot, dead: bool)
    ensures
        value_bytes(v, dead).len() == PAGE_SLOT_SIZE,
        value_at(value_bytes(v, dead), 0) == v,
        dead_at(value_bytes(v, dead), 0) == dead,
{
    broadcast use group_codec;

    let b = value_bytes(v, dead);
    assert forall|j: int| 0 <= j < 8 implies #[trigger] b[0 + j] == le64(v.page.0)[j] by {}
    lemma_u64_read_back(b, 0, v.page.0);
    assert forall|j: int| 0 <= j < 2 implies #[trigger] b[8 + j] == le16(v.slot.0)[j] by {}
    lemma_u16_read_back(b, 8, v.slot.0);
}

impl PrimaryKey {
    /// A key.
    pub fn new(tenant: TenantId, kind: RecordKind, id: u64) -> (k: PrimaryKey)
        ensures
            k == (PrimaryKey { tenant, kind, id }),
    {
        PrimaryKey { tenant, kind, id }
    }

    /// Whether this key sorts before the other one.
    pub fn precedes(self, other: PrimaryKey) -> (r: bool)
        ensures
            r == key_lt(self, other),
    {
        let a: u8 = self.kind.as_byte();
        let b: u8 = other.kind.as_byte();
        self.tenant.0 < other.tenant.0 || (self.tenant.0 == other.tenant.0 && (a < b || (a == b
            && self.id < other.id)))
    }

    /// The 24 bytes of this key.
    pub fn encode(&self) -> (out: Vec<u8>)
        ensures
            out@ == key_bytes(*self),
    {
        let mut out: Vec<u8> = Vec::new();
        push_u64(&mut out, self.tenant.0);
        out.push(self.kind.as_byte());
        let mut i: usize = 0;
        while i < 7
            invariant
                i <= 7,
                out@ == le64(self.tenant.0) + seq![kind_byte(self.kind)] + Seq::new(
                    i as nat,
                    |j: int| 0u8,
                ),
            decreases 7 - i,
        {
            out.push(0);
            i += 1;
            assert(out@ =~= le64(self.tenant.0) + seq![kind_byte(self.kind)] + Seq::new(
                i as nat,
                |j: int| 0u8,
            ));
        }
        push_u64(&mut out, self.id);
        assert(out@ =~= key_bytes(*self));
        out
    }

    /// The key at `at`.
    pub fn decode_at(bytes: &[u8], at: usize) -> (r: Result<PrimaryKey, IndexError>)
        requires
            at + PRIMARY_KEY_SIZE <= bytes@.len(),
        ensures
            r == decode_key(bytes@, at as int),
    {
        assert(bytes.len() == bytes@.len());
        let kind = match bytes[at + 8] {
            0 => RecordKind::Node,
            1 => RecordKind::Rel,
            got => {
                return Err(
                    IndexError::CorruptPage {
                        page_id: PageId(0),
                        reason: IndexFault::UnknownKind { got },
                    },
                );
            },
        };
        Ok(PrimaryKey { tenant: TenantId(get_u64(bytes, at)), kind, id: get_u64(bytes, at + 16) })
    }
}

impl PageSlot {
    /// A place of a record.
    pub fn new(page: PageId, slot: SlotId) -> (v: PageSlot)
        ensures
            v == (PageSlot { page, slot }),
    {
        PageSlot { page, slot }
    }

    /// The 16 bytes of this value.
    pub fn encode(&self, tombstone: bool) -> (out: Vec<u8>)
        ensures
            out@ == value_bytes(*self, tombstone),
    {
        let mut out: Vec<u8> = Vec::new();
        push_u64(&mut out, self.page.0);
        push_u16(&mut out, self.slot.0);
        out.push(
            if tombstone {
                1
            } else {
                0
            },
        );
        out.push(0);
        out.push(0);
        out.push(0);
        out.push(0);
        out.push(0);
        assert(out@ =~= value_bytes(*self, tombstone));
        out
    }

    /// The value at `at`, and whether it was removed.
    pub fn decode_at(bytes: &[u8], at: usize) -> (r: (PageSlot, bool))
        requires
            at + PAGE_SLOT_SIZE <= bytes@.len(),
        ensures
            r == (value_at(bytes@, at as int), dead_at(bytes@, at as int)),
    {
        assert(bytes.len() == bytes@.len());
        let page: u64 = get_u64(bytes, at);
        let slot: u16 = get_u16(bytes, at + 8);
        (PageSlot { page: PageId(page), slot: SlotId(slot) }, bytes[at + 10] != 0)
    }
}

} // verus!
