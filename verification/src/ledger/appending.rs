//! What appending the writes of a miniblock does to the log, and when the
//! log accepts them.

use crate::basic_types::{H256, MiniblockNumber};
use crate::byte_order::zero_bytes;
use crate::ledger::{operations_fit, positions_unique};
use crate::models::{DbStorageLog, SnapshotStorageLog};
use crate::storage::StorageLog;
use vstd::prelude::*;

verus! {

/// The writes of one transaction, each beside the transaction's hash.
pub open spec fn tag_logs(tx_hash: H256, logs: Seq<StorageLog>) -> Seq<(H256, StorageLog)> {
    Seq::new(logs.len(), |i: int| (tx_hash, logs[i]))
}

/// The writes of a miniblock in the order in which they were made:
/// transaction by transaction, and within a transaction log by log.
pub open spec fn flatten_logs(logs: Seq<(H256, Vec<StorageLog>)>) -> Seq<(H256, StorageLog)>
    decreases logs.len(),
{
    if logs.len() == 0 {
        Seq::empty()
    } else {
        flatten_logs(logs.drop_last()) + tag_logs(logs.last().0, logs.last().1@)
    }
}

/// The row under which the write `log` of the transaction `tx_hash` is
/// logged at the place `operation_number` of the miniblock `block_number`.
pub open spec fn row_of(
    tx_hash: H256,
    log: StorageLog,
    block_number: MiniblockNumber,
    operation_number: int,
) -> DbStorageLog {
    DbStorageLog {
        hashed_key: log.key.spec_hashed_key(),
        address: log.key.account.address,
        key: log.key.key,
        value: log.value,
        operation_number: operation_number as u64,
        tx_hash,
        miniblock_number: block_number,
    }
}

/// The rows of `writes`, in their order, with operation numbers that count
/// up from `base`.
pub open spec fn rows_of(
    writes: Seq<(H256, StorageLog)>,
    block_number: MiniblockNumber,
    base: int,
) -> Seq<DbStorageLog> {
    Seq::new(
        writes.len(),
        |i: int| row_of(writes[i].0, writes[i].1, block_number, base + i),
    )
}

/// Whether the log accepts `rows` at its end: no two writes of the longer
/// log stand at the same place, and the new operation numbers fit in 32 bits.
pub open spec fn accepts_rows(logs: Seq<DbStorageLog>, rows: Seq<DbStorageLog>) -> bool {
    positions_unique(logs + rows) && operations_fit(rows)
}

/// Whether the miniblock `block_number` has room for `count` more writes at
/// the operation numbers from `base` on: they fit in 32 bits and none of them
/// is taken.
pub open spec fn block_has_room(
    logs: Seq<DbStorageLog>,
    block_number: MiniblockNumber,
    base: int,
    count: int,
) -> bool {
    &&& base + count <= u32::MAX + 1
    &&& forall|j: int|
        0 <= j < logs.len() && (#[trigger] logs[j]).miniblock_number == block_number ==> !(base
            <= logs[j].operation_number < base + count)
}

/// The writes of the first `i + 1` transactions are those of the first `i`,
/// then those of the next.
pub proof fn lemma_flatten_step(logs: Seq<(H256, Vec<StorageLog>)>, i: int)
    requires
        0 <= i < logs.len(),
    ensures
        flatten_logs(logs.take(i + 1)) == flatten_logs(logs.take(i)) + tag_logs(
            logs[i].0,
            logs[i].1@,
        ),
{
    assert(logs.take(i + 1).drop_last() =~= logs.take(i));
}

/// A miniblock has at least as many writes as its first `i` transactions.
pub proof fn lemma_flatten_prefix_len(logs: Seq<(H256, Vec<StorageLog>)>, i: int)
    requires
        0 <= i <= logs.len(),
    ensures
        flatten_logs(logs.take(i)).len() <= flatten_logs(logs).len(),
    decreases logs.len() - i,
{
    if i == logs.len() {
        assert(logs.take(i) =~= logs);
    } else {
        lemma_flatten_step(logs, i);
        lemma_flatten_prefix_len(logs, i + 1);
    }
}

/// Rows that count up from `base` in one miniblock are accepted exactly
/// where the miniblock has room for them.
pub proof fn lemma_counted_rows_accepted(
    logs: Seq<DbStorageLog>,
    rows: Seq<DbStorageLog>,
    block_number: MiniblockNumber,
    base: int,
)
    requires
        positions_unique(logs),
        0 <= base <= u32::MAX,
        forall|i: int|
            0 <= i < rows.len() ==> (#[trigger] rows[i]).miniblock_number == block_number
                && rows[i].operation_number == base + i,
    ensures
        accepts_rows(logs, rows) <==> block_has_room(logs, block_number, base, rows.len() as int),
{
    let all = logs + rows;
    if block_has_room(logs, block_number, base, rows.len() as int) {
        assert forall|i: int| 0 <= i < rows.len() implies (#[trigger] rows[i]).operation_number
            <= u32::MAX by {
            assert(rows[i].operation_number == base + i);
        }
        assert forall|i: int, j: int|
            0 <= i < all.len() && 0 <= j < all.len() && i != j implies !(#[trigger] all[i]).same_position(
            #[trigger] all[j],
        ) by {
            if i < logs.len() && j < logs.len() {
                assert(!logs[i].same_position(logs[j]));
            } else if i < logs.len() {
                assert(all[j] == rows[j - logs.len()]);
                assert(all[i] == logs[i]);
            } else if j < logs.len() {
                assert(all[i] == rows[i - logs.len()]);
                assert(all[j] == logs[j]);
            } else {
                assert(all[i] == rows[i - logs.len()]);
                assert(all[j] == rows[j - logs.len()]);
            }
        }
    }
    if accepts_rows(logs, rows) {
        if rows.len() > 0 {
            let last = rows.len() - 1;
            assert(rows[last].operation_number <= u32::MAX);
        }
        assert forall|j: int|
            0 <= j < logs.len() && (#[trigger] logs[j]).miniblock_number == block_number implies !(
        base <= logs[j].operation_number < base + rows.len()) by {
            if base <= logs[j].operation_number < base + rows.len() {
                let i = logs[j].operation_number - base;
                assert(all[j] == logs[j]);
                assert(all[logs.len() + i] == rows[i]);
                assert(all[j].same_position(all[logs.len() + i]));
            }
        }
    }
}

/// Whether `n` is the operation number of the next write of the miniblock
/// `block_number`: one more than the largest number logged for the
/// miniblock, or zero where nothing is logged for it.
pub open spec fn is_next_operation_number(
    logs: Seq<DbStorageLog>,
    block_number: MiniblockNumber,
    n: int,
) -> bool {
    &&& forall|j: int|
        0 <= j < logs.len() && (#[trigger] logs[j]).miniblock_number == block_number
            ==> logs[j].operation_number < n
    &&& n == 0 || exists|j: int|
        0 <= j < logs.len() && (#[trigger] logs[j]).miniblock_number == block_number
            && logs[j].operation_number == n - 1
}

/// The operation number of the next write of the miniblock `block_number`.
pub open spec fn spec_next_operation_number(
    logs: Seq<DbStorageLog>,
    block_number: MiniblockNumber,
) -> int {
    choose|n: int| is_next_operation_number(logs, block_number, n)
}

/// A miniblock has one next operation number.
pub proof fn lemma_next_operation_number(
    logs: Seq<DbStorageLog>,
    block_number: MiniblockNumber,
    n: int,
)
    requires
        is_next_operation_number(logs, block_number, n),
    ensures
        spec_next_operation_number(logs, block_number) == n,
{
    let m = spec_next_operation_number(logs, block_number);
    assert(is_next_operation_number(logs, block_number, m));
}

/// Every miniblock has a next operation number.
pub proof fn lemma_next_operation_number_exists(
    logs: Seq<DbStorageLog>,
    block_number: MiniblockNumber,
)
    ensures
        is_next_operation_number(
            logs,
            block_number,
            spec_next_operation_number(logs, block_number),
        ),
    decreases logs.len(),
{
    if logs.len() == 0 {
        assert(is_next_operation_number(logs, block_number, 0));
    } else {
        let front = logs.drop_last();
        let last = logs.last();
        lemma_next_operation_number_exists(front, block_number);
        let before = spec_next_operation_number(front, block_number);
        let n = if last.miniblock_number == block_number && last.operation_number >= before {
            last.operation_number + 1
        } else {
            before
        };
        assert forall|j: int|
            0 <= j < logs.len() && (#[trigger] logs[j]).miniblock_number
                == block_number implies logs[j].operation_number < n by {
            if j < front.len() {
                assert(front[j] == logs[j]);
            }
        }
        if n != 0 {
            if n == before {
                let j = choose|j: int|
                    0 <= j < front.len() && (#[trigger] front[j]).miniblock_number == block_number
                        && front[j].operation_number == before - 1;
                assert(logs[j] == front[j]);
            } else {
                assert(logs[logs.len() - 1] == last);
            }
        }
        assert(is_next_operation_number(logs, block_number, n));
    }
}

/// The row under which the snapshot's entry `log` is logged for the
/// miniblock `miniblock_number`: the entry's leaf serves as the operation
/// number, and the zero hash as the transaction.
pub open spec fn snapshot_row_of(
    log: SnapshotStorageLog,
    miniblock_number: MiniblockNumber,
) -> DbStorageLog {
    DbStorageLog {
        hashed_key: log.key.spec_hashed_key(),
        address: log.key.account.address,
        key: log.key.key,
        value: log.value,
        operation_number: log.enumeration_index,
        tx_hash: H256::of_bytes(zero_bytes(32)),
        miniblock_number,
    }
}

/// The rows of the snapshot's entries `snapshot`, in their order.
pub open spec fn snapshot_rows_of(
    snapshot: Seq<SnapshotStorageLog>,
    miniblock_number: MiniblockNumber,
) -> Seq<DbStorageLog> {
    Seq::new(snapshot.len(), |i: int| snapshot_row_of(snapshot[i], miniblock_number))
}

/// Whether the log accepts the snapshot's entries for the miniblock
/// `miniblock_number`: every leaf fits in 32 bits, no two entries have the
/// same leaf, and no write of the miniblock stands at the place of a leaf.
pub open spec fn accepts_snapshot(
    logs: Seq<DbStorageLog>,
    miniblock_number: MiniblockNumber,
    snapshot: Seq<SnapshotStorageLog>,
) -> bool {
    &&& forall|i: int|
        0 <= i < snapshot.len() ==> (#[trigger] snapshot[i]).enumeration_index <= u32::MAX
    &&& forall|i: int, j: int|
        0 <= i < j < snapshot.len() ==> (#[trigger] snapshot[i]).enumeration_index != (
        #[trigger] snapshot[j]).enumeration_index
    &&& forall|i: int, k: int|
        0 <= i < snapshot.len() && 0 <= k < logs.len() && (#[trigger] logs[k]).miniblock_number
            == miniblock_number ==> logs[k].operation_number != (
        #[trigger] snapshot[i]).enumeration_index
}

/// The rows of a snapshot are accepted exactly where the snapshot is.
pub proof fn lemma_snapshot_rows_accepted(
    logs: Seq<DbStorageLog>,
    rows: Seq<DbStorageLog>,
    snapshot: Seq<SnapshotStorageLog>,
    miniblock_number: MiniblockNumber,
)
    requires
        positions_unique(logs),
        rows == snapshot_rows_of(snapshot, miniblock_number),
    ensures
        accepts_rows(logs, rows) <==> accepts_snapshot(logs, miniblock_number, snapshot),
{
    let all = logs + rows;
    let n = logs.len() as int;
    if accepts_snapshot(logs, miniblock_number, snapshot) {
        assert forall|i: int| 0 <= i < rows.len() implies (#[trigger] rows[i]).operation_number
            <= u32::MAX by {
            assert(snapshot[i].enumeration_index <= u32::MAX);
        }
        assert forall|i: int, j: int|
            0 <= i < all.len() && 0 <= j < all.len() && i != j implies !(#[trigger] all[i]).same_position(
            #[trigger] all[j],
        ) by {
            if i < n && j < n {
                assert(!logs[i].same_position(logs[j]));
            } else if i < n {
                assert(all[i] == logs[i] && all[j] == rows[j - n]);
                assert(rows[j - n] == snapshot_row_of(snapshot[j - n], miniblock_number));
            } else if j < n {
                assert(all[j] == logs[j] && all[i] == rows[i - n]);
                assert(rows[i - n] == snapshot_row_of(snapshot[i - n], miniblock_number));
            } else {
                assert(all[i] == rows[i - n] && all[j] == rows[j - n]);
                assert(rows[i - n] == snapshot_row_of(snapshot[i - n], miniblock_number));
                assert(rows[j - n] == snapshot_row_of(snapshot[j - n], miniblock_number));
                if i < j {
                    assert(snapshot[i - n].enumeration_index != snapshot[j - n].enumeration_index);
                } else {
                    assert(snapshot[j - n].enumeration_index != snapshot[i - n].enumeration_index);
                }
            }
        }
    }
    if accepts_rows(logs, rows) {
        assert forall|i: int| 0 <= i < snapshot.len() implies (
        #[trigger] snapshot[i]).enumeration_index <= u32::MAX by {
            assert(rows[i].operation_number <= u32::MAX);
        }
        assert forall|i: int, j: int| 0 <= i < j < snapshot.len() implies (
        #[trigger] snapshot[i]).enumeration_index != (#[trigger] snapshot[j]).enumeration_index by {
            assert(all[n + i] == rows[i] && all[n + j] == rows[j]);
            assert(!all[n + i].same_position(all[n + j]));
        }
        assert forall|i: int, k: int|
            0 <= i < snapshot.len() && 0 <= k < logs.len() && (#[trigger] logs[k]).miniblock_number
                == miniblock_number implies logs[k].operation_number != (
        #[trigger] snapshot[i]).enumeration_index by {
            assert(all[n + i] == rows[i] && all[k] == logs[k]);
            assert(!all[k].same_position(all[n + i]));
        }
    }
}

} // verus!
