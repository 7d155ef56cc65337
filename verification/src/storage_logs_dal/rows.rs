//! The rows under which writes are logged and first writes are recorded.

use crate::basic_types::{H256, MiniblockNumber};
use crate::ledger::appending::{
    flatten_logs, lemma_flatten_prefix_len, lemma_flatten_step, rows_of, snapshot_rows_of, tag_logs,
};
use crate::ledger::first_writes::snapshot_records_of;
use crate::models::{DbStorageLog, InitialWrite, SnapshotStorageLog};
use crate::storage::StorageLog;
use vstd::prelude::*;

verus! {

/// Whether the write `a` was made before the write `b`.
pub fn written_before(a: &DbStorageLog, b: &DbStorageLog) -> (r: bool)
    ensures
        r == a.precedes(*b),
{
    a.miniblock_number.0 < b.miniblock_number.0 || (a.miniblock_number.0 == b.miniblock_number.0
        && a.operation_number < b.operation_number)
}

/// The rows under which the writes `logs` of the miniblock `block_number`
/// are logged, with operation numbers that count up from `operation_number`;
/// nothing where the numbers would not fit in 32 bits. `logs` holds the
/// writes transaction by transaction, each transaction's hash beside its
/// writes.
pub fn storage_log_rows(
    block_number: MiniblockNumber,
    logs: &[(H256, Vec<StorageLog>)],
    operation_number: u32,
) -> (r: Option<Vec<DbStorageLog>>)
    ensures
        match r {
            Some(rows) => {
                &&& operation_number + flatten_logs(logs@).len() <= u32::MAX + 1
                &&& rows@ == rows_of(flatten_logs(logs@), block_number, operation_number as int)
            },
            None => operation_number + flatten_logs(logs@).len() > u32::MAX + 1,
        },
{
    let mut rows: Vec<DbStorageLog> = Vec::new();
    let mut next: u64 = operation_number as u64;
    let ghost mut done: Seq<(H256, StorageLog)> = Seq::empty();
    let mut i: usize = 0;
    while i < logs.len()
        invariant
            i <= logs@.len(),
            next == operation_number + rows@.len(),
            next <= u32::MAX + 1,
            done == flatten_logs(logs@.take(i as int)),
            rows@ == rows_of(done, block_number, operation_number as int),
        decreases logs@.len() - i,
    {
        let tx_hash = logs[i].0;
        let tx_logs = &logs[i].1;
        let ghost before = done;
        let mut j: usize = 0;
        while j < tx_logs.len()
            invariant
                i < logs@.len(),
                j <= tx_logs@.len(),
                tx_logs@ == logs@[i as int].1@,
                tx_hash == logs@[i as int].0,
                next == operation_number + rows@.len(),
                next <= u32::MAX + 1,
                before == flatten_logs(logs@.take(i as int)),
                done == before + tag_logs(tx_hash, tx_logs@.take(j as int)),
                rows@ == rows_of(done, block_number, operation_number as int),
            decreases tx_logs@.len() - j,
        {
            if next > u32::MAX as u64 {
                proof {
                    lemma_flatten_step(logs@, i as int);
                    lemma_flatten_prefix_len(logs@, i + 1);
                }
                return None;
            }
            let log = &tx_logs[j];
            let row = DbStorageLog {
                hashed_key: log.key.hashed_key(),
                address: *log.key.address(),
                key: *log.key.key(),
                value: log.value,
                operation_number: next,
                tx_hash,
                miniblock_number: block_number,
            };
            proof {
                let grown = before + tag_logs(tx_hash, tx_logs@.take(j + 1));
                assert(grown =~= done.push((tx_hash, tx_logs@[j as int])));
                assert(rows@.push(row) =~= rows_of(grown, block_number, operation_number as int));
                done = grown;
            }
            rows.push(row);
            next += 1;
            j += 1;
        }
        proof {
            assert(tx_logs@.take(j as int) =~= tx_logs@);
            lemma_flatten_step(logs@, i as int);
        }
        i += 1;
    }
    proof {
        assert(logs@.take(i as int) =~= logs@);
    }
    Some(rows)
}

/// The rows under which the entries `snapshot_storage_logs` of a snapshot
/// are logged for the miniblock `miniblock_number`.
pub fn snapshot_log_rows(
    miniblock_number: MiniblockNumber,
    snapshot_storage_logs: &[SnapshotStorageLog],
) -> (r: Vec<DbStorageLog>)
    ensures
        r@ == snapshot_rows_of(snapshot_storage_logs@, miniblock_number),
{
    let mut rows: Vec<DbStorageLog> = Vec::new();
    let mut i: usize = 0;
    while i < snapshot_storage_logs.len()
        invariant
            i <= snapshot_storage_logs@.len(),
            rows@ == snapshot_rows_of(snapshot_storage_logs@.take(i as int), miniblock_number),
        decreases snapshot_storage_logs@.len() - i,
    {
        let log = &snapshot_storage_logs[i];
        let row = DbStorageLog {
            hashed_key: log.key.hashed_key(),
            address: *log.key.address(),
            key: *log.key.key(),
            value: log.value,
            operation_number: log.enumeration_index,
            tx_hash: H256::zero(),
            miniblock_number,
        };
        proof {
            assert(rows@.push(row) =~= snapshot_rows_of(
                snapshot_storage_logs@.take(i + 1),
                miniblock_number,
            ));
        }
        rows.push(row);
        i += 1;
    }
    proof {
        assert(snapshot_storage_logs@.take(i as int) =~= snapshot_storage_logs@);
    }
    rows
}

/// The records of the first writes that the entries `snapshot_storage_logs`
/// of a snapshot tell of.
pub fn snapshot_records(snapshot_storage_logs: &[SnapshotStorageLog]) -> (r: Vec<InitialWrite>)
    ensures
        r@ == snapshot_records_of(snapshot_storage_logs@),
{
    let mut records: Vec<InitialWrite> = Vec::new();
    let mut i: usize = 0;
    while i < snapshot_storage_logs.len()
        invariant
            i <= snapshot_storage_logs@.len(),
            records@ == snapshot_records_of(snapshot_storage_logs@.take(i as int)),
        decreases snapshot_storage_logs@.len() - i,
    {
        let log = &snapshot_storage_logs[i];
        let record = InitialWrite {
            hashed_key: log.key.hashed_key(),
            l1_batch_number: log.l1_batch_number_of_initial_write,
            index: log.enumeration_index,
        };
        proof {
            assert(records@.push(record) =~= snapshot_records_of(
                snapshot_storage_logs@.take(i + 1),
            ));
        }
        records.push(record);
        i += 1;
    }
    proof {
        assert(snapshot_storage_logs@.take(i as int) =~= snapshot_storage_logs@);
    }
    records
}

} // verus!
