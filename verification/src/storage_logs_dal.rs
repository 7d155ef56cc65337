//! The ledger of storage writes and the queries that are answered from it.

use crate::basic_types::L1BatchNumber;
use crate::keyed_map::HashedKeyMap;
use crate::ledger::Ledger;
use crate::models::DbStorageLog;
use vstd::prelude::*;

pub mod appending;
pub mod first_writes;
pub mod listing;
pub mod pruning;
pub mod recovery;
pub mod reverting;
pub mod rows;
pub mod values;

verus! {

/// The ledger of storage writes: the log of every write, and the index of
/// first writes.
#[derive(Debug)]
pub struct StorageLogsDal {
    logs: Vec<DbStorageLog>,
    initial_writes: HashedKeyMap<(L1BatchNumber, u64)>,
}

impl View for StorageLogsDal {
    type V = Ledger;

    closed spec fn view(&self) -> Ledger {
        Ledger { logs: self.logs@, initial_writes: self.initial_writes@ }
    }
}

impl StorageLogsDal {
    #[verifier::type_invariant]
    spec fn ledger_is_well_formed(self) -> bool {
        self@.well_formed()
    }

    /// A ledger with nothing logged and nothing indexed.
    pub fn new() -> (r: StorageLogsDal)
        ensures
            r@ == Ledger::empty(),
    {
        StorageLogsDal { logs: Vec::new(), initial_writes: HashedKeyMap::new() }
    }

    /// Every write of the log, in the order in which the writes were
    /// appended.
    pub fn dump_all_storage_logs_for_tests(&self) -> (r: Vec<DbStorageLog>)
        ensures
            r@ == self@.logs,
            self@.well_formed(),
    {
        proof {
            use_type_invariant(self);
        }
        let mut all: Vec<DbStorageLog> = Vec::new();
        let mut i: usize = 0;
        while i < self.logs.len()
            invariant
                i <= self.logs@.len(),
                all@ == self.logs@.take(i as int),
            decreases self.logs@.len() - i,
        {
            all.push(self.logs[i]);
            proof {
                assert(self.logs@.take(i + 1) =~= self.logs@.take(i as int).push(
                    self.logs@[i as int],
                ));
            }
            i += 1;
        }
        proof {
            assert(self.logs@.take(i as int) =~= self.logs@);
        }
        all
    }
}

} // verus!
