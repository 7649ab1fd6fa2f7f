//! Typed identifiers.

use vstd::prelude::*;

verus! {

/// Raw number of the engine's own tenant.
pub const SYSTEM_TENANT: u64 = 0;

/// Raw number of the tenant of single-tenant deployments.
pub const DEFAULT_TENANT: u64 = 1;

/// Log sequence number.
#[derive(Clone, Copy, Debug, PartialEq, Eq, PartialOrd, Ord, Hash, Structural)]
pub struct Lsn(pub u64);

impl Lsn {
    /// The LSN before every commit.
    pub fn zero() -> (id: Lsn)
        ensures
            id.0 == 0,
    {
        Lsn(0)
    }

    /// Wrap a raw number.
    pub fn new(raw: u64) -> (id: Lsn)
        ensures
            id.0 == raw,
    {
        Lsn(raw)
    }

    /// The raw number.
    pub fn raw(self) -> (raw: u64)
        ensures
            raw == self.0,
    {
        self.0
    }
}

/// Page number.
#[derive(Clone, Copy, Debug, PartialEq, Eq, PartialOrd, Ord, Hash, Structural)]
pub struct PageId(pub u64);

impl PageId {
    /// Wrap a raw number.
    pub fn new(raw: u64) -> (id: PageId)
        ensures
            id.0 == raw,
    {
        PageId(raw)
    }

    /// The raw number.
    pub fn raw(self) -> (raw: u64)
        ensures
            raw == self.0,
    {
        self.0
    }
}

/// Tenant number.
#[derive(Clone, Copy, Debug, PartialEq, Eq, PartialOrd, Ord, Hash, Structural)]
pub struct TenantId(pub u64);

impl TenantId {
    /// The engine's own tenant.
    pub fn system() -> (id: TenantId)
        ensures
            id.0 == SYSTEM_TENANT,
    {
        TenantId(SYSTEM_TENANT)
    }

    /// The tenant of single-tenant deployments.
    pub fn default_tenant() -> (id: TenantId)
        ensures
            id.0 == DEFAULT_TENANT,
    {
        TenantId(DEFAULT_TENANT)
    }

    /// Wrap a raw number.
    pub fn new(raw: u64) -> (id: TenantId)
        ensures
            id.0 == raw,
    {
        TenantId(raw)
    }

    /// The raw number.
    pub fn raw(self) -> (raw: u64)
        ensures
            raw == self.0,
    {
        self.0
    }
}

/// Node number.
#[derive(Clone, Copy, Debug, PartialEq, Eq, PartialOrd, Ord, Hash, Structural)]
pub struct NodeId(pub u64);

impl NodeId {
    /// Wrap a raw number.
    pub fn new(raw: u64) -> (id: NodeId)
        ensures
            id.0 == raw,
    {
        NodeId(raw)
    }

    /// The raw number.
    pub fn raw(self) -> (raw: u64)
        ensures
            raw == self.0,
    {
        self.0
    }
}

/// Relationship number.
#[derive(Clone, Copy, Debug, PartialEq, Eq, PartialOrd, Ord, Hash, Structural)]
pub struct RelId(pub u64);

impl RelId {
    /// Wrap a raw number.
    pub fn new(raw: u64) -> (id: RelId)
        ensures
            id.0 == raw,
    {
        RelId(raw)
    }

    /// The raw number.
    pub fn raw(self) -> (raw: u64)
        ensures
            raw == self.0,
    {
        self.0
    }
}

/// Partition number.
#[derive(Clone, Copy, Debug, PartialEq, Eq, PartialOrd, Ord, Hash, Structural)]
pub struct PartitionId(pub u32);

impl PartitionId {
    /// The only partition that this engine serves.
    pub fn zero() -> (id: PartitionId)
        ensures
            id.0 == 0,
    {
        PartitionId(0)
    }

    /// Wrap a raw number.
    pub fn new(raw: u32) -> (id: PartitionId)
        ensures
            id.0 == raw,
    {
        PartitionId(raw)
    }

    /// The raw number.
    pub fn raw(self) -> (raw: u32)
        ensures
            raw == self.0,
    {
        self.0
    }
}

/// Node label number.
#[derive(Clone, Copy, Debug, PartialEq, Eq, PartialOrd, Ord, Hash, Structural)]
pub struct LabelId(pub u32);

impl LabelId {
    /// Wrap a raw number.
    pub fn new(raw: u32) -> (id: LabelId)
        ensures
            id.0 == raw,
    {
        LabelId(raw)
    }

    /// The raw number.
    pub fn raw(self) -> (raw: u32)
        ensures
            raw == self.0,
    {
        self.0
    }
}

/// Relationship type number.
#[derive(Clone, Copy, Debug, PartialEq, Eq, PartialOrd, Ord, Hash, Structural)]
pub struct TypeId(pub u32);

impl TypeId {
    /// Wrap a raw number.
    pub fn new(raw: u32) -> (id: TypeId)
        ensures
            id.0 == raw,
    {
        TypeId(raw)
    }

    /// The raw number.
    pub fn raw(self) -> (raw: u32)
        ensures
            raw == self.0,
    {
        self.0
    }
}

/// Interned string number.
#[derive(Clone, Copy, Debug, PartialEq, Eq, PartialOrd, Ord, Hash, Structural)]
pub struct StringId(pub u32);

impl StringId {
    /// Wrap a raw number.
    pub fn new(raw: u32) -> (id: StringId)
        ensures
            id.0 == raw,
    {
        StringId(raw)
    }

    /// The raw number.
    pub fn raw(self) -> (raw: u32)
        ensures
            raw == self.0,
    {
        self.0
    }
}

} // verus!
