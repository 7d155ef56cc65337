//! Reading the values of keys.

use crate::basic_types::{Address, H256, L1BatchNumber, MiniblockNumber};
use crate::blocks_web3_dal::{batch_has_miniblocks, BlocksWeb3Dal, miniblock_range};
use crate::keyed_map::HashedKeyMap;
use crate::ledger::values::{
    code_is_deployed, is_latest, lemma_value_at_latest, lemma_value_at_unwritten, previous_value,
    value_at, visible,
};
use crate::sequences::{lemma_occurs_all, lemma_occurs_step, occurs_within};
use crate::storage::{failed_contract_deployment_bytecode_hash, get_code_key, spec_get_code_key};
use crate::storage_logs_dal::rows::written_before;
use crate::storage_logs_dal::StorageLogsDal;
use vstd::prelude::*;

verus! {

impl StorageLogsDal {
    /// The value of `hashed_key` as of the miniblock `miniblock_number`.
    pub fn get_storage_value(&self, hashed_key: &H256, miniblock_number: MiniblockNumber) -> (r:
        Option<H256>)
        ensures
            r == value_at(self@.logs, *hashed_key, miniblock_number),
    {
        proof {
            use_type_invariant(self);
        }
        let mut best: Option<usize> = None;
        let mut i: usize = 0;
        while i < self.logs.len()
            invariant
                i <= self.logs@.len(),
                match best {
                    Some(b) => {
                        &&& b < i
                        &&& visible(self.logs@[b as int], *hashed_key, miniblock_number)
                        &&& forall|j: int|
                            0 <= j < i && visible(
                                #[trigger] self.logs@[j],
                                *hashed_key,
                                miniblock_number,
                            ) ==> !self.logs@[b as int].precedes(self.logs@[j])
                    },
                    None => forall|j: int|
                        0 <= j < i ==> !visible(
                            #[trigger] self.logs@[j],
                            *hashed_key,
                            miniblock_number,
                        ),
                },
            decreases self.logs@.len() - i,
        {
            let entry = &self.logs[i];
            if entry.hashed_key == *hashed_key && entry.miniblock_number.0 <= miniblock_number.0 {
                match best {
                    Some(b) => {
                        if written_before(&self.logs[b], entry) {
                            best = Some(i);
                        }
                    },
                    None => {
                        best = Some(i);
                    },
                }
            }
            i += 1;
        }
        match best {
            Some(b) => {
                proof {
                    assert(is_latest(self@.logs, *hashed_key, miniblock_number, b as int));
                    lemma_value_at_latest(self@.logs, *hashed_key, miniblock_number, b as int);
                }
                Some(self.logs[b].value)
            },
            None => {
                proof {
                    lemma_value_at_unwritten(self@.logs, *hashed_key, miniblock_number);
                }
                None
            },
        }
    }

    /// The value of each of `hashed_keys` as of the miniblock
    /// `miniblock_number`. Every key asked for is a key of the result; a key
    /// that was not written by then has no value.
    pub fn get_storage_values(&self, hashed_keys: &[H256], miniblock_number: MiniblockNumber) -> (r:
        HashedKeyMap<Option<H256>>)
        ensures
            r@.dom() == hashed_keys@.to_set(),
            forall|key: H256|
                r@.dom().contains(key) ==> #[trigger] r@[key] == value_at(
                    self@.logs,
                    key,
                    miniblock_number,
                ),
    {
        let mut values: HashedKeyMap<Option<H256>> = HashedKeyMap::new();
        let mut i: usize = 0;
        while i < hashed_keys.len()
            invariant
                i <= hashed_keys@.len(),
                forall|key: H256|
                    values@.dom().contains(key) <==> exists|j: int|
                        0 <= j < i && hashed_keys@[j] == key,
                forall|key: H256|
                    values@.dom().contains(key) ==> #[trigger] values@[key] == value_at(
                        self@.logs,
                        key,
                        miniblock_number,
                    ),
            decreases hashed_keys@.len() - i,
        {
            let key = hashed_keys[i];
            let value = self.get_storage_value(&key, miniblock_number);
            values.insert(key, value);
            i += 1;
        }
        assert(values@.dom() =~= hashed_keys@.to_set()) by {
            assert forall|key: H256| values@.dom().contains(key) <==> hashed_keys@.to_set().contains(
                key,
            ) by {
                if hashed_keys@.to_set().contains(key) {
                    let j = choose|j: int| 0 <= j < hashed_keys@.len() && hashed_keys@[j] == key;
                    assert(0 <= j < i && hashed_keys@[j] == key);
                }
            }
        }
        values
    }

    /// The value of each of `hashed_keys` just before the batch
    /// `next_l1_batch`: as of the miniblock before the batch's first one, and
    /// nothing where the batch starts the chain. Every key asked for is a key
    /// of the result.
    pub fn get_previous_storage_values(
        &self,
        blocks: &BlocksWeb3Dal,
        hashed_keys: &[H256],
        next_l1_batch: L1BatchNumber,
    ) -> (r: HashedKeyMap<Option<H256>>)
        requires
            batch_has_miniblocks(blocks@, next_l1_batch),
        ensures
            r@.dom() == hashed_keys@.to_set(),
            forall|key: H256|
                r@.dom().contains(key) ==> #[trigger] r@[key] == previous_value(
                    self@.logs,
                    key,
                    miniblock_range(blocks@, next_l1_batch).unwrap().0,
                ),
    {
        let first_miniblock = match blocks.get_miniblock_range_of_l1_batch(next_l1_batch) {
            Some((first_miniblock, _)) => first_miniblock,
            None => {
                proof {
                    assert(false);
                }
                MiniblockNumber(0)
            },
        };
        if first_miniblock.0 == 0 {
            let mut values: HashedKeyMap<Option<H256>> = HashedKeyMap::new();
            let mut i: usize = 0;
            while i < hashed_keys.len()
                invariant
                    i <= hashed_keys@.len(),
                    forall|key: H256|
                        values@.dom().contains(key) <==> occurs_within(hashed_keys@, key, i as int),
                    forall|key: H256| values@.dom().contains(key) ==> #[trigger] values@[key] is None,
                decreases hashed_keys@.len() - i,
            {
                values.insert(hashed_keys[i], None);
                proof {
                    assert forall|key: H256|
                        values@.dom().contains(key) <==> occurs_within(
                            hashed_keys@,
                            key,
                            i + 1,
                        ) by {
                        lemma_occurs_step(hashed_keys@, key, i as int);
                    }
                }
                i += 1;
            }
            proof {
                assert(values@.dom() =~= hashed_keys@.to_set()) by {
                    assert forall|key: H256|
                        values@.dom().contains(key) <==> hashed_keys@.to_set().contains(key) by {
                        lemma_occurs_all(hashed_keys@, key);
                    }
                }
            }
            values
        } else {
            self.get_storage_values(hashed_keys, MiniblockNumber(first_miniblock.0 - 1))
        }
    }

    /// Whether the code slot with the hashed key `hashed_code_key` holds the
    /// hash of deployed code: whether the last write to it wrote a hash other
    /// than the one that a failed deployment leaves.
    pub fn is_code_deployed_at(&self, hashed_code_key: &H256) -> (r: bool)
        ensures
            r == code_is_deployed(self@.logs, *hashed_code_key),
    {
        match self.get_storage_value(hashed_code_key, MiniblockNumber(u32::MAX)) {
            Some(value) => value != failed_contract_deployment_bytecode_hash(),
            None => false,
        }
    }

    /// Whether a contract is deployed at `address`: whether the account's
    /// code slot holds the hash of deployed code.
    pub fn is_contract_deployed_at_address(&self, address: Address) -> (r: bool)
        ensures
            r == code_is_deployed(self@.logs, spec_get_code_key(address).spec_hashed_key()),
    {
        let hashed_key = get_code_key(&address).hashed_key();
        self.is_code_deployed_at(&hashed_key)
    }
}

} // verus!
