//! What a store of records asks of a secondary index.
use vstd::prelude::*;

use crate::ids::{LabelId, NodeId, PageId, StringId, TenantId};
use crate::mutation_log::TxnMutationLog;
use crate::primary_index::StagedEmit;

verus! {

/// A property value as a secondary index keys it.
#[derive(Clone, Copy, Debug, PartialEq, Eq, Hash, Structural)]
pub enum SecondaryIndexValue {
    /// A number of 32 bits.
    U32(u32),
    /// A number of 64 bits. An index takes numbers below 2 to the power 56.
    U64(u64),
    /// The number of an interned string.
    StringId(StringId),
    /// A hash of 56 bits over the bytes of a string.
    StrHash(u64),
}

/// How far a declared index has come.
#[derive(Clone, Copy, Debug, PartialEq, Eq, Hash, Structural)]
pub enum IndexState {
    /// The records that were there before the index are still being added.
    /// Queries do not use the index, but every commit maintains it.
    Building,
    /// The index is complete. Queries may use it, and every commit maintains
    /// it.
    Online,
}

impl IndexState {
    /// Whether commits maintain the index. They do in every state: a record
    /// that is written while the index is being built would be missing from it
    /// for good otherwise.
    pub fn maintenance_active(self) -> (r: bool)
        ensures
            r,
    {
        match self {
            IndexState::Building => true,
            IndexState::Online => true,
        }
    }

    /// Whether queries may use the index.
    pub fn planner_visible(self) -> (r: bool)
        ensures
            r == (self is Online),
    {
        match self {
            IndexState::Building => false,
            IndexState::Online => true,
        }
    }
}

/// Why a call to a secondary index failed.
#[derive(Debug)]
#[non_exhaustive]
pub enum SecondaryIndexHandleError {
    /// The index itself failed, for the reason that it gives.
    Backend(String),
}

/// A secondary index, as a store of records uses it.
pub trait SecondaryIndexHandle {
    /// Adds a node under a property value.
    fn insert_property(
        &mut self,
        tenant: TenantId,
        label: LabelId,
        property_key: StringId,
        value: SecondaryIndexValue,
        node: NodeId,
    ) -> Result<(), SecondaryIndexHandleError>;

    /// Takes a node out from under a property value. Says whether it was
    /// there.
    fn remove_property(
        &mut self,
        tenant: TenantId,
        label: LabelId,
        property_key: StringId,
        value: SecondaryIndexValue,
        node: NodeId,
    ) -> Result<bool, SecondaryIndexHandleError>;

    /// Adds a node under a property value, as part of a commit. Gives the
    /// pages to be logged.
    fn insert_property_deferred(
        &mut self,
        tenant: TenantId,
        label: LabelId,
        property_key: StringId,
        value: SecondaryIndexValue,
        node: NodeId,
        log: &mut TxnMutationLog,
    ) -> Result<Vec<StagedEmit>, SecondaryIndexHandleError>;

    /// Takes a node out from under a property value, as part of a commit.
    /// Gives the pages to be logged.
    fn remove_property_deferred(
        &mut self,
        tenant: TenantId,
        label: LabelId,
        property_key: StringId,
        value: SecondaryIndexValue,
        node: NodeId,
        log: &mut TxnMutationLog,
    ) -> Result<Vec<StagedEmit>, SecondaryIndexHandleError>;

    /// Keeps the number of a new root page, if there is one to be kept.
    fn persist_pending_root_update(&mut self) -> Result<(), SecondaryIndexHandleError>;

    /// Undoes the addition of a page.
    fn rollback_remove_page(&mut self, page_id: PageId);

    /// Undoes a change of a page.
    fn rollback_restore_page(&mut self, page_id: PageId, pre_bytes: &[u8]) -> Result<
        (),
        SecondaryIndexHandleError,
    >;

    /// Undoes a change of the root page.
    fn rollback_restore_root(&mut self, old_root_id: PageId);

    /// How far the index has come. An index that is never built from records
    /// that were there before is complete from the start.
    fn index_state(&self) -> (s: IndexState)
        default_ensures
            s == IndexState::Online,
    {
        IndexState::Online
    }

    /// Notes how far the index has come.
    fn set_index_state(&mut self, state: IndexState) {
    }

    /// Whether commits maintain the index.
    fn maintenance_active(&self) -> (r: bool)
        default_ensures
            r,
    {
        self.index_state().maintenance_active()
    }
}

} // verus!
