//! The chunks of a miniblock from which the state tree is rebuilt.

use crate::basic_types::{H256, MiniblockNumber};
use crate::ledger::Ledger;
use crate::ledger::values::value_at;
use crate::models::{DbStorageLog, KeyRange, StorageRecoveryLogEntry};
use vstd::prelude::*;

verus! {

/// Whether `entry` is a write of the miniblock `miniblock_number` to a key of
/// `range`.
pub open spec fn in_chunk(
    entry: DbStorageLog,
    miniblock_number: MiniblockNumber,
    range: KeyRange,
) -> bool {
    entry.miniblock_number == miniblock_number && range.spec_contains(entry.hashed_key)
}

/// Whether `key` is a key of `range` that was written in the miniblock
/// `miniblock_number`.
pub open spec fn is_chunk_key(
    logs: Seq<DbStorageLog>,
    miniblock_number: MiniblockNumber,
    range: KeyRange,
    key: H256,
) -> bool {
    exists|i: int|
        0 <= i < logs.len() && in_chunk(#[trigger] logs[i], miniblock_number, range)
            && logs[i].hashed_key == key
}

/// Whether `key` is the smallest key of `range` that was written in the
/// miniblock `miniblock_number`.
pub open spec fn is_first_chunk_key(
    logs: Seq<DbStorageLog>,
    miniblock_number: MiniblockNumber,
    range: KeyRange,
    key: H256,
) -> bool {
    &&& is_chunk_key(logs, miniblock_number, range, key)
    &&& forall|other: H256| #[trigger]
        is_chunk_key(logs, miniblock_number, range, other) ==> key.as_nat() <= other.as_nat()
}

/// Whether a key of `range` was written in the miniblock `miniblock_number`.
pub open spec fn chunk_is_written(
    logs: Seq<DbStorageLog>,
    miniblock_number: MiniblockNumber,
    range: KeyRange,
) -> bool {
    exists|i: int| 0 <= i < logs.len() && in_chunk(#[trigger] logs[i], miniblock_number, range)
}

/// The smallest key of `range` that was written in the miniblock
/// `miniblock_number`, where there is one.
pub open spec fn first_chunk_key(
    logs: Seq<DbStorageLog>,
    miniblock_number: MiniblockNumber,
    range: KeyRange,
) -> H256 {
    choose|key: H256| is_first_chunk_key(logs, miniblock_number, range, key)
}

/// A chunk has one smallest key.
pub proof fn lemma_first_chunk_key(
    logs: Seq<DbStorageLog>,
    miniblock_number: MiniblockNumber,
    range: KeyRange,
    key: H256,
)
    requires
        is_first_chunk_key(logs, miniblock_number, range, key),
    ensures
        first_chunk_key(logs, miniblock_number, range) == key,
{
    let other = first_chunk_key(logs, miniblock_number, range);
    assert(is_first_chunk_key(logs, miniblock_number, range, other));
    H256::lemma_as_nat_injective(key, other);
}

/// The tree entry of `key` as of the miniblock `miniblock_number`: the key,
/// its value then, and its leaf.
pub open spec fn recovery_entry(
    ledger: Ledger,
    miniblock_number: MiniblockNumber,
    key: H256,
) -> StorageRecoveryLogEntry {
    StorageRecoveryLogEntry {
        key,
        value: value_at(ledger.logs, key, miniblock_number).unwrap(),
        leaf_index: ledger.initial_writes[key].1,
    }
}

/// The entry with which the chunk `range` of the miniblock
/// `miniblock_number` starts: the tree entry of the chunk's smallest key, or
/// nothing where no key of the range was written in the miniblock.
pub open spec fn chunk_start(
    ledger: Ledger,
    miniblock_number: MiniblockNumber,
    range: KeyRange,
) -> Option<StorageRecoveryLogEntry> {
    if chunk_is_written(ledger.logs, miniblock_number, range) {
        Some(
            recovery_entry(
                ledger,
                miniblock_number,
                first_chunk_key(ledger.logs, miniblock_number, range),
            ),
        )
    } else {
        None
    }
}

/// Whether the chunk's start can be joined with its leaf: the chunk is
/// empty, or its smallest key is indexed.
pub open spec fn chunk_start_is_indexed(
    ledger: Ledger,
    miniblock_number: MiniblockNumber,
    range: KeyRange,
) -> bool {
    chunk_is_written(ledger.logs, miniblock_number, range)
        ==> ledger.initial_writes.dom().contains(
        first_chunk_key(ledger.logs, miniblock_number, range),
    )
}

/// Whether every key of `range` that was written in the miniblock
/// `miniblock_number` is indexed.
pub open spec fn chunk_is_indexed(
    ledger: Ledger,
    miniblock_number: MiniblockNumber,
    range: KeyRange,
) -> bool {
    forall|key: H256| #[trigger]
        is_chunk_key(ledger.logs, miniblock_number, range, key)
            ==> ledger.initial_writes.dom().contains(key)
}

/// Whether `entries` list the chunk `range` of the miniblock
/// `miniblock_number`: the tree entry of each key of the range that was
/// written in the miniblock, once, in the order of the keys.
pub open spec fn is_tree_listing(
    ledger: Ledger,
    miniblock_number: MiniblockNumber,
    range: KeyRange,
    entries: Seq<StorageRecoveryLogEntry>,
) -> bool {
    &&& forall|a: int, b: int|
        0 <= a < b < entries.len() ==> (#[trigger] entries[a]).key.as_nat() < (
        #[trigger] entries[b]).key.as_nat()
    &&& forall|a: int|
        0 <= a < entries.len() ==> is_chunk_key(
            ledger.logs,
            miniblock_number,
            range,
            (#[trigger] entries[a]).key,
        ) && entries[a] == recovery_entry(ledger, miniblock_number, entries[a].key)
    &&& forall|key: H256| #[trigger]
        is_chunk_key(ledger.logs, miniblock_number, range, key) ==> exists|a: int|
            0 <= a < entries.len() && (#[trigger] entries[a]).key == key
}

/// Whether the ranges are sorted and do not overlap: each ends before the
/// next begins.
pub open spec fn ranges_ascend(ranges: Seq<KeyRange>) -> bool {
    forall|a: int, b: int|
        0 <= a < b < ranges.len() ==> (#[trigger] ranges[a]).end.as_nat() < (
        #[trigger] ranges[b]).start.as_nat()
}

} // verus!
