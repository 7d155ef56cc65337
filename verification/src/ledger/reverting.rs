//! The plan that reverts the ledger to an earlier batch.

use crate::basic_types::{H256, L1BatchNumber, MiniblockNumber};
use crate::ledger::Ledger;
use crate::ledger::values::value_at;
use crate::models::DbStorageLog;
use vstd::prelude::*;

verus! {

/// Whether one of the first `n` writes of the log is a write to `key` made
/// after the miniblock `miniblock_number`.
pub open spec fn is_modified_within(
    logs: Seq<DbStorageLog>,
    key: H256,
    miniblock_number: MiniblockNumber,
    n: int,
) -> bool {
    exists|i: int|
        0 <= i < n && i < logs.len() && (#[trigger] logs[i]).hashed_key == key
            && logs[i].miniblock_number.0 > miniblock_number.0
}

/// Whether `key` was written after the miniblock `miniblock_number`.
pub open spec fn is_modified_since(
    logs: Seq<DbStorageLog>,
    key: H256,
    miniblock_number: MiniblockNumber,
) -> bool {
    is_modified_within(logs, key, miniblock_number, logs.len() as int)
}

/// A key is written among the first `n + 1` writes where it is written among
/// the first `n` or by the next.
pub proof fn lemma_modified_step(
    logs: Seq<DbStorageLog>,
    key: H256,
    miniblock_number: MiniblockNumber,
    n: int,
)
    requires
        0 <= n < logs.len(),
    ensures
        is_modified_within(logs, key, miniblock_number, n + 1) <==> (is_modified_within(
            logs,
            key,
            miniblock_number,
            n,
        ) || (logs[n].hashed_key == key && logs[n].miniblock_number.0 > miniblock_number.0)),
{
    if is_modified_within(logs, key, miniblock_number, n + 1) {
        let i = choose|i: int|
            0 <= i < n + 1 && i < logs.len() && (#[trigger] logs[i]).hashed_key == key
                && logs[i].miniblock_number.0 > miniblock_number.0;
        if i < n {
            assert(is_modified_within(logs, key, miniblock_number, n));
        }
    }
    if is_modified_within(logs, key, miniblock_number, n) {
        let i = choose|i: int|
            0 <= i < n && i < logs.len() && (#[trigger] logs[i]).hashed_key == key
                && logs[i].miniblock_number.0 > miniblock_number.0;
        assert(0 <= i < n + 1);
    }
}

/// The keys written after the miniblock `miniblock_number`.
pub open spec fn modified_since(logs: Seq<DbStorageLog>, miniblock_number: MiniblockNumber) -> Set<
    H256,
> {
    Set::new(|key: H256| is_modified_since(logs, key, miniblock_number))
}

/// Whether the plan to revert to the batch `l1_batch_number`, whose last
/// miniblock is `last_miniblock`, has an entry for `key`: the key was written
/// after the batch and is indexed as truly created.
pub open spec fn is_reverted(ledger: Ledger, last_miniblock: MiniblockNumber, key: H256) -> bool {
    is_modified_since(ledger.logs, key, last_miniblock) && ledger.initial_writes.dom().contains(
        key,
    )
}

/// Whether `key` existed by the end of the batch `l1_batch_number`: its first
/// write was made in that batch or before it.
pub open spec fn existed_by(ledger: Ledger, l1_batch_number: L1BatchNumber, key: H256) -> bool {
    ledger.initial_writes.dom().contains(key) && ledger.initial_writes[key].0.0
        <= l1_batch_number.0
}

/// What the plan says of `key`: nothing where the key did not exist by the
/// end of the batch, so that it is to be deleted; else the value that it had
/// at the batch's last miniblock, with its leaf, to be restored.
pub open spec fn revert_entry(
    ledger: Ledger,
    last_miniblock: MiniblockNumber,
    l1_batch_number: L1BatchNumber,
    key: H256,
) -> Option<(H256, u64)> {
    if existed_by(ledger, l1_batch_number, key) {
        Some((value_at(ledger.logs, key, last_miniblock).unwrap(), ledger.initial_writes[key].1))
    } else {
        None
    }
}

/// The plan that reverts the ledger to the batch `l1_batch_number`, whose
/// last miniblock is `last_miniblock`.
pub open spec fn revert_plan(
    ledger: Ledger,
    last_miniblock: MiniblockNumber,
    l1_batch_number: L1BatchNumber,
) -> Map<H256, Option<(H256, u64)>> {
    Map::new(
        |key: H256| is_reverted(ledger, last_miniblock, key),
        |key: H256| revert_entry(ledger, last_miniblock, l1_batch_number, key),
    )
}

/// Whether the log and the index agree on what is to be restored: every key
/// that was written after the batch and existed by its end has a value at the
/// batch's last miniblock.
pub open spec fn revert_is_consistent(
    ledger: Ledger,
    last_miniblock: MiniblockNumber,
    l1_batch_number: L1BatchNumber,
) -> bool {
    forall|key: H256|
        #![trigger value_at(ledger.logs, key, last_miniblock)]
        is_reverted(ledger, last_miniblock, key) && existed_by(ledger, l1_batch_number, key)
            ==> value_at(ledger.logs, key, last_miniblock) is Some
}

/// The keys written after the miniblock `last_miniblock` that are not
/// indexed: their writes never became state, and the plan leaves them out.
pub open spec fn deduplicated_keys(ledger: Ledger, last_miniblock: MiniblockNumber) -> Set<H256> {
    Set::new(
        |key: H256|
            is_modified_since(ledger.logs, key, last_miniblock)
                && !ledger.initial_writes.dom().contains(key),
    )
}

/// The keys that the plan deletes: written after the miniblock
/// `last_miniblock`, indexed, and first written after the batch
/// `l1_batch_number`.
pub open spec fn keys_to_delete(
    ledger: Ledger,
    last_miniblock: MiniblockNumber,
    l1_batch_number: L1BatchNumber,
) -> Set<H256> {
    Set::new(
        |key: H256|
            is_reverted(ledger, last_miniblock, key) && !existed_by(ledger, l1_batch_number, key),
    )
}

/// The keys that the plan restores: written after the miniblock
/// `last_miniblock`, and first written in the batch `l1_batch_number` or
/// before it.
pub open spec fn keys_to_restore(
    ledger: Ledger,
    last_miniblock: MiniblockNumber,
    l1_batch_number: L1BatchNumber,
) -> Set<H256> {
    Set::new(
        |key: H256|
            is_reverted(ledger, last_miniblock, key) && existed_by(ledger, l1_batch_number, key),
    )
}

/// The state as of the batch `l1_batch_number`, whose last miniblock is
/// `last_miniblock`: each key that existed by the end of the batch, with the
/// value that it had at the batch's last miniblock and with its leaf.
pub open spec fn state_as_of(
    ledger: Ledger,
    last_miniblock: MiniblockNumber,
    l1_batch_number: L1BatchNumber,
) -> Map<H256, (H256, u64)> {
    Map::new(
        |key: H256| existed_by(ledger, l1_batch_number, key),
        |key: H256|
            (value_at(ledger.logs, key, last_miniblock).unwrap(), ledger.initial_writes[key].1),
    )
}

/// The state `state` after the plan `plan` was carried out on it: the keys
/// that the plan deletes are gone, the keys that it restores have the values
/// and leaves that it gives, and the other keys are as they were.
pub open spec fn reverted(
    state: Map<H256, (H256, u64)>,
    plan: Map<H256, Option<(H256, u64)>>,
) -> Map<H256, (H256, u64)> {
    Map::new(
        |key: H256|
            if plan.dom().contains(key) {
                plan[key] is Some
            } else {
                state.dom().contains(key)
            },
        |key: H256|
            if plan.dom().contains(key) {
                plan[key].unwrap()
            } else {
                state[key]
            },
    )
}

} // verus!
