//! The rows of the storage log and of what is read back from it.

use crate::basic_types::{H160, H256, L1BatchNumber, MiniblockNumber};
use crate::storage::StorageKey;
use vstd::prelude::*;

verus! {

/// One logged write: which slot was written, with what value, and where in
/// the chain's history.
#[derive(Clone, Copy, Debug, PartialEq, Eq)]
pub struct DbStorageLog {
    pub hashed_key: H256,
    pub address: H160,
    pub key: H256,
    pub value: H256,
    pub operation_number: u64,
    pub tx_hash: H256,
    pub miniblock_number: MiniblockNumber,
}

/// A logged write joined with the leaf that the state tree gave its key.
#[derive(Clone, Copy, Debug, PartialEq, Eq)]
pub struct StorageRecoveryLogEntry {
    pub key: H256,
    pub value: H256,
    pub leaf_index: u64,
}

/// A slot's value in a snapshot of the state, with the batch of the slot's
/// first write and the leaf that the state tree gave it.
#[derive(Clone, Copy, Debug, PartialEq, Eq)]
pub struct SnapshotStorageLog {
    pub key: StorageKey,
    pub value: H256,
    pub l1_batch_number_of_initial_write: L1BatchNumber,
    pub enumeration_index: u64,
}

/// The record of a key's first write: the batch in which the key was first
/// written, and the leaf that the state tree gave it.
#[derive(Clone, Copy, Debug, PartialEq, Eq)]
pub struct InitialWrite {
    pub hashed_key: H256,
    pub l1_batch_number: L1BatchNumber,
    pub index: u64,
}

/// A range of hashed keys, both ends included.
#[derive(Clone, Copy, Debug, PartialEq, Eq)]
pub struct KeyRange {
    pub start: H256,
    pub end: H256,
}

impl KeyRange {
    /// Whether `key` lies in the range.
    pub open spec fn spec_contains(&self, key: H256) -> bool {
        self.start.as_nat() <= key.as_nat() <= self.end.as_nat()
    }

    /// The range from `start` to `end`, both included. It is empty where
    /// `end` comes before `start`.
    pub fn new(start: H256, end: H256) -> (r: KeyRange)
        ensures
            r == (KeyRange { start, end }),
    {
        KeyRange { start, end }
    }

    /// Whether `key` lies in the range.
    pub fn contains(&self, key: &H256) -> (r: bool)
        ensures
            r == self.spec_contains(*key),
    {
        self.start.le(key) && key.le(&self.end)
    }
}

impl DbStorageLog {
    /// Whether this write was made before `other`: in an earlier miniblock,
    /// or in the same miniblock with a smaller operation number.
    pub open spec fn precedes(&self, other: DbStorageLog) -> bool {
        self.miniblock_number.0 < other.miniblock_number.0 || (self.miniblock_number.0
            == other.miniblock_number.0 && self.operation_number < other.operation_number)
    }

    /// Whether this write and `other` stand at the same place of the same
    /// miniblock.
    pub open spec fn same_position(&self, other: DbStorageLog) -> bool {
        self.miniblock_number.0 == other.miniblock_number.0 && self.operation_number
            == other.operation_number
    }
}

} // verus!
