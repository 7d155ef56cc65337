//! Planning the revert to an earlier batch.

use crate::basic_types::{H256, L1BatchNumber, MiniblockNumber};
use crate::blocks_web3_dal::{BlocksWeb3Dal, miniblock_range};
use crate::error::DalError;
use crate::keyed_map::HashedKeyMap;
use crate::ledger::reverting::{
    existed_by, is_modified_since, is_modified_within, is_reverted, lemma_modified_step,
    modified_since, revert_entry, revert_is_consistent, revert_plan,
};
use crate::ledger::values::value_at;
use crate::sequences::{lemma_contains_push, lemma_occurs_all, lemma_occurs_step, occurs_within};
use crate::storage_logs_dal::StorageLogsDal;
use vstd::prelude::*;

verus! {

impl StorageLogsDal {
    /// The keys written after the miniblock `miniblock_number`, each once.
    pub fn modified_keys_since_miniblock(&self, miniblock_number: MiniblockNumber) -> (r: Vec<H256>)
        ensures
            r@.no_duplicates(),
            r@.to_set() == modified_since(self@.logs, miniblock_number),
    {
        let mut keys: Vec<H256> = Vec::new();
        let mut i: usize = 0;
        while i < self.logs.len()
            invariant
                i <= self.logs@.len(),
                keys@.no_duplicates(),
                forall|key: H256|
                    keys@.contains(key) <==> is_modified_within(
                        self@.logs,
                        key,
                        miniblock_number,
                        i as int,
                    ),
            decreases self.logs@.len() - i,
        {
            let entry = &self.logs[i];
            let ghost before = keys@;
            if entry.miniblock_number.0 > miniblock_number.0 {
                let mut known = false;
                let mut k: usize = 0;
                while k < keys.len()
                    invariant
                        k <= keys@.len(),
                        known == exists|m: int| 0 <= m < k && keys@[m] == entry.hashed_key,
                    decreases keys@.len() - k,
                {
                    if keys[k] == entry.hashed_key {
                        known = true;
                    }
                    k += 1;
                }
                if !known {
                    keys.push(entry.hashed_key);
                }
            }
            proof {
                assert forall|key: H256|
                    keys@.contains(key) <==> is_modified_within(
                        self@.logs,
                        key,
                        miniblock_number,
                        i + 1,
                    ) by {
                    lemma_modified_step(self@.logs, key, miniblock_number, i as int);
                    if keys@.contains(key) {
                        let m = choose|m: int| 0 <= m < keys@.len() && keys@[m] == key;
                        if m < before.len() {
                            assert(before[m] == key);
                        }
                    }
                    if before.contains(key) {
                        let m = choose|m: int| 0 <= m < before.len() && before[m] == key;
                        assert(keys@[m] == key);
                    }
                    if keys@.len() > before.len() && key == entry.hashed_key {
                        assert(keys@[before.len() as int] == key);
                    }
                }
            }
            i += 1;
        }
        proof {
            assert(keys@.to_set() =~= modified_since(self@.logs, miniblock_number));
        }
        keys
    }

    /// The plan that reverts the ledger to the state as of the batch
    /// `l1_batch_number`: for each key that must change, the value to restore
    /// with the key's leaf, or nothing where the key is to be deleted.
    ///
    /// A batch without miniblocks has nothing to undo, and the plan is
    /// empty. Else the plan covers the keys written after the batch's last
    /// miniblock that are indexed as truly created. A key first written after
    /// the batch is to be deleted; a key that existed by the end of the batch
    /// is to be restored to its value at the batch's last miniblock. Where
    /// such a key has no value there, the log and the index have diverged and
    /// there is no plan.
    pub fn get_storage_logs_for_revert(
        &self,
        blocks: &BlocksWeb3Dal,
        l1_batch_number: L1BatchNumber,
    ) -> (r: Result<HashedKeyMap<Option<(H256, u64)>>, DalError>)
        ensures
            match miniblock_range(blocks@, l1_batch_number) {
                Some((_, last_miniblock)) => if revert_is_consistent(
                    self@,
                    last_miniblock,
                    l1_batch_number,
                ) {
                    r is Ok && r.unwrap()@ == revert_plan(self@, last_miniblock, l1_batch_number)
                } else {
                    r is Err && r.unwrap_err() == DalError::ConsistencyFault
                },
                None => r is Ok && r.unwrap()@ == Map::<H256, Option<(H256, u64)>>::empty(),
            },
    {
        let last_miniblock = match blocks.get_miniblock_range_of_l1_batch(l1_batch_number) {
            Some((_, last_miniblock)) => last_miniblock,
            None => {
                return Ok(HashedKeyMap::new());
            },
        };
        let modified_keys = self.modified_keys_since_miniblock(last_miniblock);
        let first_writes = self.get_l1_batches_and_indices_for_initial_writes(
            modified_keys.as_slice(),
        );
        let ghost ledger = self@;
        proof {
            assert forall|key: H256| modified_keys@.contains(key) <==> is_modified_since(
                ledger.logs,
                key,
                last_miniblock,
            ) by {
                assert(modified_keys@.to_set().contains(key) <==> modified_since(
                    ledger.logs,
                    last_miniblock,
                ).contains(key));
            }
            assert forall|key: H256| first_writes@.dom().contains(key) <==> is_reverted(
                ledger,
                last_miniblock,
                key,
            ) by {
                assert(modified_keys@.to_set().contains(key) <==> modified_keys@.contains(key));
            }
        }
        let mut output: HashedKeyMap<Option<(H256, u64)>> = HashedKeyMap::new();
        let mut to_restore: Vec<H256> = Vec::new();
        let mut i: usize = 0;
        while i < modified_keys.len()
            invariant
                i <= modified_keys@.len(),
                forall|key: H256|
                    first_writes@.dom().contains(key) <==> is_reverted(ledger, last_miniblock, key),
                forall|key: H256|
                    first_writes@.dom().contains(key) ==> #[trigger] first_writes@[key]
                        == ledger.initial_writes[key],
                forall|key: H256|
                    output@.dom().contains(key) <==> (is_reverted(ledger, last_miniblock, key)
                        && !existed_by(ledger, l1_batch_number, key) && occurs_within(
                        modified_keys@,
                        key,
                        i as int,
                    )),
                forall|key: H256| output@.dom().contains(key) ==> #[trigger] output@[key] is None,
                forall|key: H256|
                    to_restore@.contains(key) <==> (is_reverted(ledger, last_miniblock, key)
                        && existed_by(ledger, l1_batch_number, key) && occurs_within(
                        modified_keys@,
                        key,
                        i as int,
                    )),
            decreases modified_keys@.len() - i,
        {
            let key = modified_keys[i];
            let ghost restore_before = to_restore@;
            let ghost output_before = output@;
            match first_writes.get(&key) {
                Some(record) => {
                    if record.0.0 > l1_batch_number.0 {
                        output.insert(key, None);
                    } else {
                        to_restore.push(key);
                    }
                },
                None => {},
            }
            proof {
                assert forall|k: H256|
                    to_restore@.contains(k) <==> (is_reverted(ledger, last_miniblock, k)
                        && existed_by(ledger, l1_batch_number, k) && occurs_within(
                        modified_keys@,
                        k,
                        i + 1,
                    )) by {
                    lemma_occurs_step(modified_keys@, k, i as int);
                    if to_restore@.len() > restore_before.len() {
                        lemma_contains_push(restore_before, key, k);
                    }
                }
                assert forall|k: H256|
                    output@.dom().contains(k) <==> (is_reverted(ledger, last_miniblock, k)
                        && !existed_by(ledger, l1_batch_number, k) && occurs_within(
                        modified_keys@,
                        k,
                        i + 1,
                    )) by {
                    lemma_occurs_step(modified_keys@, k, i as int);
                }
            }
            i += 1;
        }
        let prev_values = self.get_storage_values(to_restore.as_slice(), last_miniblock);
        proof {
            assert forall|key: H256|
                is_reverted(ledger, last_miniblock, key) implies modified_keys@.contains(key) by {}
            assert forall|key: H256| prev_values@.dom().contains(key) <==> to_restore@.contains(
                key,
            ) by {
                assert(to_restore@.to_set().contains(key) <==> to_restore@.contains(key));
            }
        }
        proof {
            assert forall|key: H256|
                to_restore@.contains(key) <==> (is_reverted(ledger, last_miniblock, key)
                    && existed_by(ledger, l1_batch_number, key)) by {
                lemma_occurs_all(modified_keys@, key);
            }
            assert forall|key: H256|
                output@.dom().contains(key) <==> (is_reverted(ledger, last_miniblock, key)
                    && !existed_by(ledger, l1_batch_number, key)) by {
                lemma_occurs_all(modified_keys@, key);
            }
        }
        let mut i: usize = 0;
        while i < to_restore.len()
            invariant
                i <= to_restore@.len(),
                ledger == self@,
                miniblock_range(blocks@, l1_batch_number) is Some,
                miniblock_range(blocks@, l1_batch_number).unwrap().1 == last_miniblock,
                forall|key: H256|
                    first_writes@.dom().contains(key) <==> is_reverted(ledger, last_miniblock, key),
                forall|key: H256|
                    first_writes@.dom().contains(key) ==> #[trigger] first_writes@[key]
                        == ledger.initial_writes[key],
                forall|key: H256| prev_values@.dom().contains(key) <==> to_restore@.contains(key),
                forall|key: H256|
                    prev_values@.dom().contains(key) ==> #[trigger] prev_values@[key] == value_at(
                        ledger.logs,
                        key,
                        last_miniblock,
                    ),
                forall|key: H256|
                    to_restore@.contains(key) <==> (is_reverted(ledger, last_miniblock, key)
                        && existed_by(ledger, l1_batch_number, key)),
                forall|key: H256|
                    output@.dom().contains(key) <==> (is_reverted(ledger, last_miniblock, key) && (
                    !existed_by(ledger, l1_batch_number, key) || occurs_within(
                        to_restore@,
                        key,
                        i as int,
                    ))),
                forall|key: H256|
                    output@.dom().contains(key) ==> #[trigger] output@[key] == revert_entry(
                        ledger,
                        last_miniblock,
                        l1_batch_number,
                        key,
                    ),
                forall|j: int|
                    0 <= j < i ==> value_at(
                        ledger.logs,
                        #[trigger] to_restore@[j],
                        last_miniblock,
                    ) is Some,
            decreases to_restore@.len() - i,
        {
            let key = to_restore[i];
            assert(to_restore@.contains(key));
            let value = match prev_values.get(&key) {
                Some(Some(value)) => *value,
                _ => {
                    proof {
                        assert(value_at(ledger.logs, key, last_miniblock) is None);
                    }
                    return Err(DalError::ConsistencyFault);
                },
            };
            let leaf = match first_writes.get(&key) {
                Some(record) => record.1,
                None => {
                    proof {
                        assert(false);
                    }
                    return Err(DalError::ConsistencyFault);
                },
            };
            output.insert(key, Some((value, leaf)));
            proof {
                assert forall|k: H256|
                    output@.dom().contains(k) <==> (is_reverted(ledger, last_miniblock, k) && (
                    !existed_by(ledger, l1_batch_number, k) || occurs_within(
                        to_restore@,
                        k,
                        i + 1,
                    ))) by {
                    lemma_occurs_step(to_restore@, k, i as int);
                }
            }
            i += 1;
        }
        proof {
            assert(revert_is_consistent(ledger, last_miniblock, l1_batch_number)) by {
                assert forall|key: H256|
                    is_reverted(ledger, last_miniblock, key) && existed_by(
                        ledger,
                        l1_batch_number,
                        key,
                    ) implies value_at(ledger.logs, key, last_miniblock) is Some by {
                    assert(to_restore@.contains(key));
                    let j = choose|j: int| 0 <= j < to_restore@.len() && to_restore@[j] == key;
                    assert(value_at(ledger.logs, to_restore@[j], last_miniblock) is Some);
                }
            }
            assert(output@ =~= revert_plan(ledger, last_miniblock, l1_batch_number)) by {
                assert forall|key: H256| output@.dom().contains(key) <==> is_reverted(
                    ledger,
                    last_miniblock,
                    key,
                ) by {
                    lemma_occurs_all(to_restore@, key);
                }
            }
        }
        Ok(output)
    }
}

} // verus!
