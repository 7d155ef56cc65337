//! The mathematical model of the ledger: the log of writes and the index of
//! first writes, and what each operation on them means.

use crate::basic_types::{H256, L1BatchNumber};
use crate::models::DbStorageLog;
use vstd::prelude::*;

pub mod appending;
pub mod first_writes;
pub mod listing;
pub mod pruning;
pub mod recovery;
pub mod reverting;
pub mod values;

verus! {

/// The state of the ledger: every logged write, in the order in which the
/// writes were appended, and for each key that was ever truly created the
/// batch of its first write with the leaf that the state tree gave it.
pub struct Ledger {
    pub logs: Seq<DbStorageLog>,
    pub initial_writes: Map<H256, (L1BatchNumber, u64)>,
}

/// Whether no two writes stand at the same place of the same miniblock.
pub open spec fn positions_unique(logs: Seq<DbStorageLog>) -> bool {
    forall|i: int, j: int|
        0 <= i < logs.len() && 0 <= j < logs.len() && i != j ==> !(#[trigger] logs[i]).same_position(
            #[trigger] logs[j],
        )
}

/// Whether every operation number fits in 32 bits.
pub open spec fn operations_fit(logs: Seq<DbStorageLog>) -> bool {
    forall|i: int| 0 <= i < logs.len() ==> (#[trigger] logs[i]).operation_number <= u32::MAX
}

/// Whether no two keys were given the same leaf.
pub open spec fn leaves_unique(initial_writes: Map<H256, (L1BatchNumber, u64)>) -> bool {
    forall|a: H256, b: H256|
        initial_writes.dom().contains(a) && initial_writes.dom().contains(b) && a != b
            ==> (#[trigger] initial_writes[a]).1 != (#[trigger] initial_writes[b]).1
}

impl Ledger {
    /// What holds of every ledger: positions in the log are unique, operation
    /// numbers fit in 32 bits, and the index of first writes is finite and
    /// gives each key a leaf of its own.
    pub open spec fn well_formed(&self) -> bool {
        &&& positions_unique(self.logs)
        &&& operations_fit(self.logs)
        &&& self.initial_writes.dom().finite()
        &&& leaves_unique(self.initial_writes)
    }

    /// The ledger with nothing logged and nothing indexed.
    pub open spec fn empty() -> Ledger {
        Ledger { logs: Seq::empty(), initial_writes: Map::empty() }
    }
}

} // verus!
