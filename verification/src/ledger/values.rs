//! The value of a key as of a miniblock.

use crate::basic_types::{H256, MiniblockNumber};
use crate::byte_order::zero_bytes;
use crate::ledger::positions_unique;
use crate::models::DbStorageLog;
use vstd::prelude::*;

verus! {

/// Whether the write `entry` is a write to `key` made in the miniblock
/// `as_of` or before it.
pub open spec fn visible(entry: DbStorageLog, key: H256, as_of: MiniblockNumber) -> bool {
    entry.hashed_key == key && entry.miniblock_number.0 <= as_of.0
}

/// Whether `logs[i]` is the last write to `key` up to the miniblock `as_of`:
/// a visible write that no visible write follows.
pub open spec fn is_latest(
    logs: Seq<DbStorageLog>,
    key: H256,
    as_of: MiniblockNumber,
    i: int,
) -> bool {
    &&& 0 <= i < logs.len()
    &&& visible(logs[i], key, as_of)
    &&& forall|j: int|
        0 <= j < logs.len() && visible(#[trigger] logs[j], key, as_of) ==> !logs[i].precedes(
            logs[j],
        )
}

/// The value of `key` as of the miniblock `as_of`: the value of the last
/// write to `key` up to that miniblock, or nothing where there is no such
/// write.
pub open spec fn value_at(logs: Seq<DbStorageLog>, key: H256, as_of: MiniblockNumber) -> Option<
    H256,
> {
    if exists|i: int| is_latest(logs, key, as_of, i) {
        Some(logs[choose|i: int| is_latest(logs, key, as_of, i)].value)
    } else {
        None
    }
}

/// In a log with unique positions, a key has at most one last write.
pub proof fn lemma_latest_is_unique(
    logs: Seq<DbStorageLog>,
    key: H256,
    as_of: MiniblockNumber,
    i: int,
    j: int,
)
    requires
        positions_unique(logs),
        is_latest(logs, key, as_of, i),
        is_latest(logs, key, as_of, j),
    ensures
        i == j,
{
    if i != j {
        assert(!logs[i].precedes(logs[j]));
        assert(!logs[j].precedes(logs[i]));
        assert(logs[i].same_position(logs[j]));
    }
}

/// The value of a key is the value of its last write.
pub proof fn lemma_value_at_latest(
    logs: Seq<DbStorageLog>,
    key: H256,
    as_of: MiniblockNumber,
    i: int,
)
    requires
        positions_unique(logs),
        is_latest(logs, key, as_of, i),
    ensures
        value_at(logs, key, as_of) == Some(logs[i].value),
{
    let j = choose|j: int| is_latest(logs, key, as_of, j);
    lemma_latest_is_unique(logs, key, as_of, i, j);
}

/// A key without a visible write has no value.
pub proof fn lemma_value_at_unwritten(logs: Seq<DbStorageLog>, key: H256, as_of: MiniblockNumber)
    requires
        forall|j: int| 0 <= j < logs.len() ==> !visible(#[trigger] logs[j], key, as_of),
    ensures
        value_at(logs, key, as_of) is None,
{
}

/// The last write to `key` among the first `n` writes of the log, where one
/// of them is visible: the place of a visible write that none of them
/// follows.
pub proof fn lemma_latest_exists(
    logs: Seq<DbStorageLog>,
    key: H256,
    as_of: MiniblockNumber,
    n: int,
) -> (best: int)
    requires
        0 <= n <= logs.len(),
        exists|j: int| 0 <= j < n && visible(#[trigger] logs[j], key, as_of),
    ensures
        0 <= best < n,
        visible(logs[best], key, as_of),
        forall|j: int|
            0 <= j < n && visible(#[trigger] logs[j], key, as_of) ==> !logs[best].precedes(
                logs[j],
            ),
    decreases n,
{
    let last = n - 1;
    if exists|j: int| 0 <= j < last && visible(#[trigger] logs[j], key, as_of) {
        let before = lemma_latest_exists(logs, key, as_of, last);
        if visible(logs[last], key, as_of) && logs[before].precedes(logs[last]) {
            last
        } else {
            before
        }
    } else {
        assert(visible(logs[last], key, as_of));
        last
    }
}

/// A key has a value exactly when some write to it is visible.
pub proof fn lemma_value_at_some_iff_written(
    logs: Seq<DbStorageLog>,
    key: H256,
    as_of: MiniblockNumber,
)
    ensures
        value_at(logs, key, as_of) is Some <==> exists|j: int|
            0 <= j < logs.len() && visible(#[trigger] logs[j], key, as_of),
{
    if exists|j: int| 0 <= j < logs.len() && visible(#[trigger] logs[j], key, as_of) {
        let best = lemma_latest_exists(logs, key, as_of, logs.len() as int);
        assert(is_latest(logs, key, as_of, best));
    }
    if value_at(logs, key, as_of) is Some {
        let i = choose|i: int| is_latest(logs, key, as_of, i);
        assert(visible(logs[i], key, as_of));
    }
}

/// The last write to a key in a miniblock is the key's last write as of that
/// miniblock.
pub proof fn lemma_last_in_miniblock_is_latest(
    logs: Seq<DbStorageLog>,
    miniblock_number: MiniblockNumber,
    i: int,
)
    requires
        0 <= i < logs.len(),
        logs[i].miniblock_number == miniblock_number,
        forall|j: int|
            0 <= j < logs.len() && (#[trigger] logs[j]).miniblock_number == miniblock_number
                && logs[j].hashed_key == logs[i].hashed_key ==> !logs[i].precedes(logs[j]),
    ensures
        is_latest(logs, logs[i].hashed_key, miniblock_number, i),
{
}

/// The value of `key` just before the miniblock `first_miniblock`: nothing
/// before the first miniblock of the chain, else the key's value as of the
/// miniblock before.
pub open spec fn previous_value(
    logs: Seq<DbStorageLog>,
    key: H256,
    first_miniblock: MiniblockNumber,
) -> Option<H256> {
    if first_miniblock.0 == 0 {
        None
    } else {
        value_at(logs, key, MiniblockNumber((first_miniblock.0 - 1) as u32))
    }
}

/// Whether the code slot with the hashed key `hashed_code_key` holds the
/// hash of deployed code: its last write wrote a hash other than zero.
pub open spec fn code_is_deployed(logs: Seq<DbStorageLog>, hashed_code_key: H256) -> bool {
    match value_at(logs, hashed_code_key, MiniblockNumber(u32::MAX)) {
        Some(value) => value != H256::of_bytes(zero_bytes(32)),
        None => false,
    }
}

} // verus!
