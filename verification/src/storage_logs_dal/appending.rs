//! Appending writes to the log.

use crate::basic_types::{H256, MiniblockNumber};
use crate::error::DalError;
use crate::ledger::appending::{
    accepts_rows, accepts_snapshot, block_has_room, flatten_logs, is_next_operation_number,
    lemma_counted_rows_accepted, lemma_flatten_prefix_len, lemma_flatten_step,
    lemma_next_operation_number, lemma_next_operation_number_exists, lemma_snapshot_rows_accepted,
    rows_of, snapshot_rows_of, spec_next_operation_number,
};
use crate::ledger::Ledger;
use crate::models::{DbStorageLog, SnapshotStorageLog};
use crate::storage::StorageLog;
use crate::storage_logs_dal::rows::{snapshot_log_rows, storage_log_rows};
use crate::storage_logs_dal::StorageLogsDal;
use vstd::prelude::*;

verus! {

impl StorageLogsDal {
    /// Whether one of the first `upto` of `logs` stands at the place of `row`.
    fn clashes_with(logs: &Vec<DbStorageLog>, upto: usize, row: &DbStorageLog) -> (r: bool)
        requires
            upto <= logs@.len(),
        ensures
            r == exists|j: int| 0 <= j < upto && (#[trigger] logs@[j]).same_position(*row),
    {
        let mut j: usize = 0;
        while j < upto
            invariant
                j <= upto <= logs@.len(),
                forall|k: int| 0 <= k < j ==> !(#[trigger] logs@[k]).same_position(*row),
            decreases upto - j,
        {
            if logs[j].miniblock_number.0 == row.miniblock_number.0 && logs[j].operation_number
                == row.operation_number {
                return true;
            }
            j += 1;
        }
        false
    }

    /// Appends `rows` to the log, all of them or none. The rows are accepted
    /// where their operation numbers fit in 32 bits and no two writes of the
    /// longer log would stand at the same place of the same miniblock;
    /// otherwise the write is rejected and the ledger stays as it was.
    pub fn insert_log_rows(&mut self, rows: Vec<DbStorageLog>) -> (r: Result<(), DalError>)
        ensures
            final(self)@.well_formed(),
            match r {
                Ok(()) => {
                    &&& accepts_rows(old(self)@.logs, rows@)
                    &&& final(self)@ == (Ledger { logs: old(self)@.logs + rows@, ..old(self)@ })
                },
                Err(e) => {
                    &&& e == DalError::StorageFault
                    &&& !accepts_rows(old(self)@.logs, rows@)
                    &&& final(self)@ == old(self)@
                },
            },
    {
        proof {
            use_type_invariant(&*self);
        }
        let ghost all = self.logs@ + rows@;
        let mut i: usize = 0;
        while i < rows.len()
            invariant
                i <= rows@.len(),
                all == self.logs@ + rows@,
                self@ == old(self)@,
                self@.well_formed(),
                forall|a: int| 0 <= a < i ==> (#[trigger] rows@[a]).operation_number <= u32::MAX,
                forall|a: int, j: int|
                    0 <= a < i && 0 <= j < self.logs@.len() ==> !(#[trigger] self.logs@[j]).same_position(
                        #[trigger] rows@[a],
                    ),
                forall|a: int, b: int|
                    0 <= b < a < i ==> !(#[trigger] rows@[b]).same_position(#[trigger] rows@[a]),
            decreases rows@.len() - i,
        {
            let row = &rows[i];
            if row.operation_number > u32::MAX as u64 {
                return Err(DalError::StorageFault);
            }
            if Self::clashes_with(&self.logs, self.logs.len(), row) {
                proof {
                    let j = choose|j: int|
                        0 <= j < self.logs@.len() && (#[trigger] self.logs@[j]).same_position(*row);
                    assert(all[j] == self.logs@[j]);
                    assert(all[self.logs@.len() + i] == rows@[i as int]);
                    assert(all[j].same_position(all[self.logs@.len() + i]));
                }
                return Err(DalError::StorageFault);
            }
            if Self::clashes_with(&rows, i, row) {
                proof {
                    let j = choose|j: int| 0 <= j < i && (#[trigger] rows@[j]).same_position(*row);
                    assert(all[self.logs@.len() + j] == rows@[j]);
                    assert(all[self.logs@.len() + i] == rows@[i as int]);
                    assert(all[self.logs@.len() + j].same_position(all[self.logs@.len() + i]));
                }
                return Err(DalError::StorageFault);
            }
            i += 1;
        }
        proof {
            assert forall|a: int, b: int|
                0 <= a < all.len() && 0 <= b < all.len() && a != b implies !(#[trigger] all[a]).same_position(
                #[trigger] all[b],
            ) by {
                let n = self.logs@.len() as int;
                if a < n && b < n {
                    assert(!self.logs@[a].same_position(self.logs@[b]));
                } else if a < n {
                    assert(!self.logs@[a].same_position(rows@[b - n]));
                } else if b < n {
                    assert(!self.logs@[b].same_position(rows@[a - n]));
                } else if a < b {
                    assert(!rows@[a - n].same_position(rows@[b - n]));
                } else {
                    assert(!rows@[b - n].same_position(rows@[a - n]));
                }
            }
            assert forall|a: int| 0 <= a < all.len() implies (#[trigger] all[a]).operation_number
                <= u32::MAX by {
                let n = self.logs@.len() as int;
                if a < n {
                    assert(self.logs@[a].operation_number <= u32::MAX);
                } else {
                    assert(rows@[a - n].operation_number <= u32::MAX);
                }
            }
        }
        let mut rows = rows;
        let mut logs: Vec<DbStorageLog> = Vec::new();
        std::mem::swap(&mut logs, &mut self.logs);
        logs.append(&mut rows);
        self.logs = logs;
        Ok(())
    }

    /// Logs the writes `logs` of the miniblock `block_number` at operation
    /// numbers that count up from `operation_number`, all of them or none.
    /// The write is accepted exactly where the miniblock has room for it.
    pub fn insert_storage_logs_inner(
        &mut self,
        block_number: MiniblockNumber,
        logs: &[(H256, Vec<StorageLog>)],
        operation_number: u32,
    ) -> (r: Result<(), DalError>)
        ensures
            final(self)@.well_formed(),
            r is Ok <==> block_has_room(
                old(self)@.logs,
                block_number,
                operation_number as int,
                flatten_logs(logs@).len() as int,
            ),
            match r {
                Ok(()) => final(self)@ == (Ledger {
                    logs: old(self)@.logs + rows_of(
                        flatten_logs(logs@),
                        block_number,
                        operation_number as int,
                    ),
                    ..old(self)@
                }),
                Err(e) => e == DalError::StorageFault && final(self)@ == old(self)@,
            },
    {
        proof {
            use_type_invariant(&*self);
        }
        match storage_log_rows(block_number, logs, operation_number) {
            Some(rows) => {
                proof {
                    lemma_counted_rows_accepted(
                        self@.logs,
                        rows@,
                        block_number,
                        operation_number as int,
                    );
                }
                self.insert_log_rows(rows)
            },
            None => Err(DalError::StorageFault),
        }
    }

    /// Logs the writes `logs` of the miniblock `block_number`, which has no
    /// writes yet, at operation numbers that count up from zero. `logs` holds
    /// the writes transaction by transaction, in the order of the miniblock.
    pub fn insert_storage_logs(
        &mut self,
        block_number: MiniblockNumber,
        logs: &[(H256, Vec<StorageLog>)],
    ) -> (r: Result<(), DalError>)
        ensures
            final(self)@.well_formed(),
            r is Ok <==> block_has_room(
                old(self)@.logs,
                block_number,
                0,
                flatten_logs(logs@).len() as int,
            ),
            match r {
                Ok(()) => final(self)@ == (Ledger {
                    logs: old(self)@.logs + rows_of(flatten_logs(logs@), block_number, 0),
                    ..old(self)@
                }),
                Err(e) => e == DalError::StorageFault && final(self)@ == old(self)@,
            },
    {
        self.insert_storage_logs_inner(block_number, logs, 0)
    }

    /// The operation number of the next write of the miniblock
    /// `block_number`: one more than the largest number logged for it, or
    /// zero where nothing is logged for it.
    pub fn next_operation_number(&self, block_number: MiniblockNumber) -> (r: u64)
        ensures
            r == spec_next_operation_number(self@.logs, block_number),
            r <= u32::MAX + 1,
    {
        proof {
            use_type_invariant(self);
        }
        let mut next: u64 = 0;
        let mut i: usize = 0;
        while i < self.logs.len()
            invariant
                i <= self.logs@.len(),
                self@.well_formed(),
                next <= u32::MAX + 1,
                forall|j: int|
                    0 <= j < i && (#[trigger] self.logs@[j]).miniblock_number == block_number
                        ==> self.logs@[j].operation_number < next,
                next == 0 || exists|j: int|
                    0 <= j < i && (#[trigger] self.logs@[j]).miniblock_number == block_number
                        && self.logs@[j].operation_number == next - 1,
            decreases self.logs@.len() - i,
        {
            let entry = &self.logs[i];
            if entry.miniblock_number.0 == block_number.0 && entry.operation_number >= next {
                next = entry.operation_number + 1;
            }
            i += 1;
        }
        proof {
            assert(is_next_operation_number(self@.logs, block_number, next as int));
            lemma_next_operation_number(self@.logs, block_number, next as int);
        }
        next
    }

    /// Logs the writes `logs` of the miniblock `block_number` behind the
    /// writes already logged for it: at operation numbers that count up from
    /// the miniblock's next one. The write is accepted exactly where those
    /// numbers fit in 32 bits.
    pub fn append_storage_logs(
        &mut self,
        block_number: MiniblockNumber,
        logs: &[(H256, Vec<StorageLog>)],
    ) -> (r: Result<(), DalError>)
        ensures
            final(self)@.well_formed(),
            r is Ok <==> spec_next_operation_number(old(self)@.logs, block_number) + flatten_logs(
                logs@,
            ).len() <= u32::MAX + 1,
            match r {
                Ok(()) => final(self)@ == (Ledger {
                    logs: old(self)@.logs + rows_of(
                        flatten_logs(logs@),
                        block_number,
                        spec_next_operation_number(old(self)@.logs, block_number),
                    ),
                    ..old(self)@
                }),
                Err(e) => e == DalError::StorageFault && final(self)@ == old(self)@,
            },
    {
        proof {
            use_type_invariant(&*self);
        }
        let next = self.next_operation_number(block_number);
        proof {
            lemma_next_operation_number_exists(self@.logs, block_number);
        }
        if next > u32::MAX as u64 {
            let mut i: usize = 0;
            while i < logs.len()
                invariant
                    i <= logs@.len(),
                    self@ == old(self)@,
                    self@.well_formed(),
                    next == spec_next_operation_number(self@.logs, block_number),
                    next > u32::MAX,
                    flatten_logs(logs@.take(i as int)).len() == 0,
                decreases logs@.len() - i,
            {
                proof {
                    lemma_flatten_step(logs@, i as int);
                }
                if logs[i].1.len() > 0 {
                    proof {
                        lemma_flatten_prefix_len(logs@, i + 1);
                    }
                    return Err(DalError::StorageFault);
                }
                i += 1;
            }
            proof {
                assert(logs@.take(i as int) =~= logs@);
                assert(self@.logs + rows_of(flatten_logs(logs@), block_number, next as int)
                    =~= self@.logs);
            }
            Ok(())
        } else {
            self.insert_storage_logs_inner(block_number, logs, next as u32)
        }
    }

    /// Logs the entries of a snapshot of the state as writes of the miniblock
    /// `miniblock_number`, all of them or none. Each entry is logged at the
    /// operation number that is its leaf, under the zero hash as its
    /// transaction. The write is accepted exactly where the log accepts the
    /// snapshot.
    pub fn insert_storage_logs_from_snapshot(
        &mut self,
        miniblock_number: MiniblockNumber,
        snapshot_storage_logs: &[SnapshotStorageLog],
    ) -> (r: Result<(), DalError>)
        ensures
            final(self)@.well_formed(),
            r is Ok <==> accepts_snapshot(
                old(self)@.logs,
                miniblock_number,
                snapshot_storage_logs@,
            ),
            match r {
                Ok(()) => final(self)@ == (Ledger {
                    logs: old(self)@.logs + snapshot_rows_of(
                        snapshot_storage_logs@,
                        miniblock_number,
                    ),
                    ..old(self)@
                }),
                Err(e) => e == DalError::StorageFault && final(self)@ == old(self)@,
            },
    {
        proof {
            use_type_invariant(&*self);
        }
        let rows = snapshot_log_rows(miniblock_number, snapshot_storage_logs);
        proof {
            lemma_snapshot_rows_accepted(
                self@.logs,
                rows@,
                snapshot_storage_logs@,
                miniblock_number,
            );
        }
        self.insert_log_rows(rows)
    }
}

} // verus!
