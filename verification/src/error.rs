//! What can go wrong in an operation on the ledger.

use vstd::prelude::*;

verus! {

/// Why an operation on the ledger was given up.
#[derive(Clone, Copy, Debug, PartialEq, Eq, Structural)]
pub enum DalError {
    /// The store rejected a write; nothing of the write was kept.
    StorageFault,
    /// The ledger contradicts itself: the log and the index of first writes
    /// have diverged.
    ConsistencyFault,
}

impl DalError {
    /// A short description of the error.
    pub fn message(&self) -> (r: &'static str)
        ensures
            r@ == match *self {
                DalError::StorageFault => "the store rejected the write"@,
                DalError::ConsistencyFault => "the log and the index of first writes disagree"@,
            },
    {
        match self {
            DalError::StorageFault => "the store rejected the write",
            DalError::ConsistencyFault => "the log and the index of first writes disagree",
        }
    }
}

} // verus!
