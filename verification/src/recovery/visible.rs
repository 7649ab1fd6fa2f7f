//! The records of a tenant that a recovered snapshot shows.
use vstd::prelude::*;

use crate::ids::Lsn;
use crate::page::{
    decode_node, decode_rel, NodeRecord, RecordError, RelRecord, NODE_RECORD_SIZE, REL_RECORD_SIZE,
};

verus! {

/// The bit of a record's key that tells relationships from nodes.
pub const REL_TAG_BIT: u64 = 0x8000_0000_0000_0000;

/// A record that the snapshot shows.
#[derive(Clone, Debug, PartialEq, Eq)]
pub struct VisibleRecord {
    /// The record's key.
    pub key: u64,
    /// Its bytes.
    pub bytes: Vec<u8>,
    /// The LSN of the commit that wrote it.
    pub created_lsn: Lsn,
}

/// Why a record's bytes could not be read.
#[derive(Clone, Copy, Debug, PartialEq, Eq, Structural)]
#[allow(inconsistent_fields)]
pub enum VisibleError {
    /// They do not have the length of such a record.
    Length {
        /// Their length.
        got: usize,
    },
    /// They are no such record.
    Record(RecordError),
}

/// The key is that of a relationship.
pub open spec fn is_rel_key(key: u64) -> bool {
    key & REL_TAG_BIT != 0
}

/// The node in these bytes.
pub open spec fn node_in(b: Seq<u8>) -> Result<NodeRecord, VisibleError> {
    if b.len() != NODE_RECORD_SIZE {
        Err(VisibleError::Length { got: b.len() as usize })
    } else {
        match decode_node(b) {
            Ok(r) => Ok(r),
            Err(e) => Err(VisibleError::Record(e)),
        }
    }
}

/// The relationship in these bytes.
pub open spec fn rel_in(b: Seq<u8>) -> Result<RelRecord, VisibleError> {
    if b.len() != REL_RECORD_SIZE {
        Err(VisibleError::Length { got: b.len() as usize })
    } else {
        match decode_rel(b) {
            Ok(r) => Ok(r),
            Err(e) => Err(VisibleError::Record(e)),
        }
    }
}

/// Reads a node.
pub fn decode_node_bytes(bytes: &[u8]) -> (r: Result<NodeRecord, VisibleError>)
    ensures
        r == node_in(bytes@),
{
    if bytes.len() != NODE_RECORD_SIZE {
        return Err(VisibleError::Length { got: bytes.len() });
    }
    match NodeRecord::from_bytes(bytes) {
        Ok(r) => Ok(r),
        Err(e) => Err(VisibleError::Record(e)),
    }
}

/// Reads a relationship.
pub fn decode_rel_bytes(bytes: &[u8]) -> (r: Result<RelRecord, VisibleError>)
    ensures
        r == rel_in(bytes@),
{
    if bytes.len() != REL_RECORD_SIZE {
        return Err(VisibleError::Length { got: bytes.len() });
    }
    match RelRecord::from_bytes(bytes) {
        Ok(r) => Ok(r),
        Err(e) => Err(VisibleError::Record(e)),
    }
}

} // verus!
