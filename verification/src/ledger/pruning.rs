//! What is left of the log when writes are removed from it.

use crate::basic_types::MiniblockNumber;
use crate::ledger::{operations_fit, positions_unique};
use crate::models::DbStorageLog;
use vstd::prelude::*;

verus! {

/// The writes made in the miniblock `cutoff` or before it.
pub open spec fn up_to(cutoff: MiniblockNumber) -> spec_fn(DbStorageLog) -> bool {
    |entry: DbStorageLog| entry.miniblock_number.0 <= cutoff.0
}

/// The log without the writes made after the miniblock `cutoff`.
pub open spec fn truncated(logs: Seq<DbStorageLog>, cutoff: MiniblockNumber) -> Seq<
    DbStorageLog,
> {
    logs.filter(up_to(cutoff))
}

/// The writes that stay when the miniblock `miniblock_number` is pruned down
/// to the operation numbers `operation_numbers`: the writes of other
/// miniblocks, and those of the miniblock at one of the numbers.
pub open spec fn retained(
    miniblock_number: MiniblockNumber,
    operation_numbers: Seq<i32>,
) -> spec_fn(DbStorageLog) -> bool {
    |entry: DbStorageLog|
        entry.miniblock_number != miniblock_number || exists|k: int|
            0 <= k < operation_numbers.len() && #[trigger] operation_numbers[k]
                == entry.operation_number
}

/// What is kept of a log is again a log: positions stay unique and
/// operation numbers still fit.
pub proof fn lemma_filter_keeps_log(logs: Seq<DbStorageLog>, pred: spec_fn(DbStorageLog) -> bool)
    requires
        positions_unique(logs),
        operations_fit(logs),
    ensures
        positions_unique(logs.filter(pred)),
        operations_fit(logs.filter(pred)),
    decreases logs.len(),
{
    reveal(Seq::filter);
    let kept = logs.filter(pred);
    if logs.len() > 0 {
        let front = logs.drop_last();
        let last = logs.last();
        assert forall|i: int| 0 <= i < front.len() implies front[i] == logs[i] by {}
        lemma_filter_keeps_log(front, pred);
        let sub = front.filter(pred);
        assert forall|i: int| 0 <= i < sub.len() implies exists|k: int|
            0 <= k < front.len() && front[k] == #[trigger] sub[i] by {
            assert(sub.contains(sub[i]));
            front.lemma_filter_contains_rev(pred, sub[i]);
        }
        if pred(last) {
            assert(kept == sub.push(last));
            assert forall|i: int, j: int|
                0 <= i < kept.len() && 0 <= j < kept.len() && i != j implies !(#[trigger] kept[i]).same_position(
                #[trigger] kept[j],
            ) by {
                if i < sub.len() && j < sub.len() {
                    assert(!sub[i].same_position(sub[j]));
                } else if i < sub.len() {
                    let k = choose|k: int| 0 <= k < front.len() && front[k] == sub[i];
                    assert(!logs[k].same_position(logs[logs.len() - 1]));
                } else {
                    let k = choose|k: int| 0 <= k < front.len() && front[k] == sub[j];
                    assert(!logs[logs.len() - 1].same_position(logs[k]));
                }
            }
            assert forall|i: int| 0 <= i < kept.len() implies (#[trigger] kept[i]).operation_number
                <= u32::MAX by {
                if i < sub.len() {
                    assert(sub[i].operation_number <= u32::MAX);
                } else {
                    assert(logs[logs.len() - 1].operation_number <= u32::MAX);
                }
            }
        }
    }
}

} // verus!
