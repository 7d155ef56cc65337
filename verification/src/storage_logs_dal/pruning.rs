//! Removing writes from the log.

use crate::basic_types::MiniblockNumber;
use crate::ledger::Ledger;
use crate::ledger::pruning::{lemma_filter_keeps_log, retained, truncated, up_to};
use crate::models::DbStorageLog;
use crate::sequences::lemma_filter_step;
use crate::storage_logs_dal::StorageLogsDal;
use vstd::prelude::*;

verus! {

impl StorageLogsDal {
    /// Removes from the log every write made after the miniblock
    /// `block_number`.
    pub fn rollback_storage_logs(&mut self, block_number: MiniblockNumber)
        ensures
            final(self)@.well_formed(),
            final(self)@ == (Ledger {
                logs: truncated(old(self)@.logs, block_number),
                ..old(self)@
            }),
    {
        proof {
            use_type_invariant(&*self);
        }
        let mut logs: Vec<DbStorageLog> = Vec::new();
        std::mem::swap(&mut logs, &mut self.logs);
        let mut kept: Vec<DbStorageLog> = Vec::new();
        let mut i: usize = 0;
        proof {
            reveal(Seq::filter);
            assert(logs@.take(0).filter(up_to(block_number)) =~= Seq::<DbStorageLog>::empty());
        }
        while i < logs.len()
            invariant
                i <= logs@.len(),
                kept@ == logs@.take(i as int).filter(up_to(block_number)),
            decreases logs@.len() - i,
        {
            proof {
                lemma_filter_step(logs@, up_to(block_number), i as int);
            }
            if logs[i].miniblock_number.0 <= block_number.0 {
                kept.push(logs[i]);
            }
            i += 1;
        }
        proof {
            assert(logs@.take(i as int) =~= logs@);
            lemma_filter_keeps_log(logs@, up_to(block_number));
        }
        self.logs = kept;
    }

    /// Prunes the miniblock `miniblock_number` down to the operation numbers
    /// `operation_numbers`: removes from the log every write of the
    /// miniblock whose operation number is none of them.
    pub fn retain_storage_logs(
        &mut self,
        miniblock_number: MiniblockNumber,
        operation_numbers: &[i32],
    )
        ensures
            final(self)@.well_formed(),
            final(self)@ == (Ledger {
                logs: old(self)@.logs.filter(retained(miniblock_number, operation_numbers@)),
                ..old(self)@
            }),
    {
        proof {
            use_type_invariant(&*self);
        }
        let mut logs: Vec<DbStorageLog> = Vec::new();
        std::mem::swap(&mut logs, &mut self.logs);
        let mut kept: Vec<DbStorageLog> = Vec::new();
        let ghost keep = retained(miniblock_number, operation_numbers@);
        let mut i: usize = 0;
        proof {
            reveal(Seq::filter);
            assert(logs@.take(0).filter(keep) =~= Seq::<DbStorageLog>::empty());
        }
        while i < logs.len()
            invariant
                i <= logs@.len(),
                keep == retained(miniblock_number, operation_numbers@),
                kept@ == logs@.take(i as int).filter(keep),
            decreases logs@.len() - i,
        {
            proof {
                lemma_filter_step(logs@, keep, i as int);
            }
            let entry = &logs[i];
            let mut stays = entry.miniblock_number.0 != miniblock_number.0;
            let mut k: usize = 0;
            while k < operation_numbers.len()
                invariant
                    k <= operation_numbers@.len(),
                    stays == (entry.miniblock_number != miniblock_number || exists|m: int|
                        0 <= m < k && #[trigger] operation_numbers@[m] == entry.operation_number),
                decreases operation_numbers@.len() - k,
            {
                let number = operation_numbers[k];
                if number >= 0 && number as u64 == entry.operation_number {
                    stays = true;
                }
                k += 1;
            }
            if stays {
                kept.push(*entry);
            }
            i += 1;
        }
        proof {
            assert(logs@.take(i as int) =~= logs@);
            lemma_filter_keeps_log(logs@, keep);
        }
        self.logs = kept;
    }
}

} // verus!
