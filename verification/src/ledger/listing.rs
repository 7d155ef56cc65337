//! The writes of a miniblock and the slots touched in a batch.

use crate::basic_types::{H256, MiniblockNumber};
use crate::ledger::positions_unique;
use crate::models::DbStorageLog;
use crate::storage::StorageKey;
use vstd::prelude::*;

verus! {

/// The writes made in the miniblock `miniblock_number`.
pub open spec fn in_miniblock(miniblock_number: MiniblockNumber) -> spec_fn(DbStorageLog) -> bool {
    |entry: DbStorageLog| entry.miniblock_number == miniblock_number
}

/// Whether `item` lists the write `entry`: holds its hashed key, its value
/// and its operation number.
pub open spec fn is_listed_as(entry: DbStorageLog, item: (H256, H256, u32)) -> bool {
    item.0 == entry.hashed_key && item.1 == entry.value && item.2 == entry.operation_number
}

/// Whether `item` lists a write of the miniblock `miniblock_number`.
pub open spec fn is_write_of(
    logs: Seq<DbStorageLog>,
    miniblock_number: MiniblockNumber,
    item: (H256, H256, u32),
) -> bool {
    exists|j: int|
        0 <= j < logs.len() && (#[trigger] logs[j]).miniblock_number == miniblock_number
            && is_listed_as(logs[j], item)
}

/// Whether one of the items of `listing` lists the write `entry`.
pub open spec fn lists_write(listing: Seq<(H256, H256, u32)>, entry: DbStorageLog) -> bool {
    exists|a: int| 0 <= a < listing.len() && is_listed_as(entry, #[trigger] listing[a])
}

/// Whether `listing` lists the writes of the miniblock `miniblock_number`:
/// each write once, by its hashed key, value and operation number, in the
/// order of the operation numbers.
pub open spec fn is_miniblock_listing(
    logs: Seq<DbStorageLog>,
    miniblock_number: MiniblockNumber,
    listing: Seq<(H256, H256, u32)>,
) -> bool {
    &&& forall|a: int, b: int|
        0 <= a < b < listing.len() ==> (#[trigger] listing[a]).2 < (#[trigger] listing[b]).2
    &&& forall|a: int|
        0 <= a < listing.len() ==> is_write_of(logs, miniblock_number, #[trigger] listing[a])
    &&& forall|j: int|
        0 <= j < logs.len() && (#[trigger] logs[j]).miniblock_number == miniblock_number
            ==> lists_write(listing, logs[j])
}

/// Whether `entry` is a write to the slot `slot` made in one of the
/// miniblocks from `first` to `last`.
pub open spec fn touches(
    entry: DbStorageLog,
    slot: StorageKey,
    first: MiniblockNumber,
    last: MiniblockNumber,
) -> bool {
    &&& entry.address == slot.account.address
    &&& entry.key == slot.key
    &&& first.0 <= entry.miniblock_number.0 <= last.0
}

/// Whether `slot` was written in one of the miniblocks from `first` to
/// `last`.
pub open spec fn is_touched(
    logs: Seq<DbStorageLog>,
    slot: StorageKey,
    first: MiniblockNumber,
    last: MiniblockNumber,
) -> bool {
    exists|i: int| 0 <= i < logs.len() && touches(#[trigger] logs[i], slot, first, last)
}

/// Whether `logs[i]` is the last write to `slot` in the miniblocks from
/// `first` to `last`.
pub open spec fn is_last_touch(
    logs: Seq<DbStorageLog>,
    slot: StorageKey,
    first: MiniblockNumber,
    last: MiniblockNumber,
    i: int,
) -> bool {
    &&& 0 <= i < logs.len()
    &&& touches(logs[i], slot, first, last)
    &&& forall|j: int|
        0 <= j < logs.len() && touches(#[trigger] logs[j], slot, first, last)
            ==> !logs[i].precedes(logs[j])
}

/// The last value written to each slot that was written in the miniblocks
/// from `first` to `last`.
pub open spec fn touched_slots(
    logs: Seq<DbStorageLog>,
    first: MiniblockNumber,
    last: MiniblockNumber,
) -> Map<StorageKey, H256> {
    Map::new(
        |slot: StorageKey| is_touched(logs, slot, first, last),
        |slot: StorageKey|
            logs[choose|i: int| is_last_touch(logs, slot, first, last, i)].value,
    )
}

/// The value of a touched slot is the value of its last write.
pub proof fn lemma_last_touch(
    logs: Seq<DbStorageLog>,
    slot: StorageKey,
    first: MiniblockNumber,
    last: MiniblockNumber,
    i: int,
)
    requires
        positions_unique(logs),
        is_last_touch(logs, slot, first, last, i),
    ensures
        touched_slots(logs, first, last).dom().contains(slot),
        touched_slots(logs, first, last)[slot] == logs[i].value,
{
    let j = choose|j: int| is_last_touch(logs, slot, first, last, j);
    if i != j {
        assert(!logs[i].precedes(logs[j]));
        assert(!logs[j].precedes(logs[i]));
        assert(logs[i].same_position(logs[j]));
    }
}

} // verus!
