//! What holds of the ledger's operations taken together.

use crate::basic_types::{H256, L1BatchNumber, MiniblockNumber};
use crate::ledger::appending::rows_of;
use crate::ledger::listing::{is_listed_as, is_miniblock_listing, is_write_of, lists_write};
use crate::ledger::pruning::{lemma_filter_keeps_log, truncated, up_to};
use crate::ledger::recovery::{
    chunk_is_written, chunk_start, first_chunk_key, in_chunk, is_chunk_key, is_first_chunk_key,
    is_tree_listing, lemma_first_chunk_key, ranges_ascend, recovery_entry,
};
use crate::ledger::reverting::{
    deduplicated_keys, existed_by, is_modified_since, is_reverted, keys_to_delete, keys_to_restore,
    modified_since, revert_plan, reverted, state_as_of,
};
use crate::ledger::values::{
    is_latest, lemma_value_at_latest, lemma_value_at_some_iff_written, lemma_value_at_unwritten,
    value_at, visible,
};
use crate::ledger::{Ledger, operations_fit, positions_unique};
use crate::models::{DbStorageLog, KeyRange, StorageRecoveryLogEntry};
use crate::sequences::{
    lemma_ascending_lists_agree, lemma_filter_drops_all, lemma_filter_idempotent,
    lemma_filter_keeps_all, numbers_ascend,
};
use crate::storage::StorageLog;
use vstd::prelude::*;

verus! {

/// Of the writes to a key within one miniblock, the one with the highest
/// operation number gives the key's value as of that miniblock.
pub proof fn lemma_highest_operation_wins(
    logs: Seq<DbStorageLog>,
    key: H256,
    miniblock_number: MiniblockNumber,
    i: int,
)
    requires
        positions_unique(logs),
        0 <= i < logs.len(),
        logs[i].hashed_key == key,
        logs[i].miniblock_number == miniblock_number,
        forall|j: int|
            0 <= j < logs.len() && (#[trigger] logs[j]).hashed_key == key
                && logs[j].miniblock_number == miniblock_number ==> logs[j].operation_number
                <= logs[i].operation_number,
    ensures
        value_at(logs, key, miniblock_number) == Some(logs[i].value),
{
    assert(is_latest(logs, key, miniblock_number, i));
    lemma_value_at_latest(logs, key, miniblock_number, i);
}

/// Cutting the log off after a miniblock a second time changes nothing: the
/// log is as it was after the first cut.
pub proof fn lemma_truncate_idempotent(logs: Seq<DbStorageLog>, cutoff: MiniblockNumber)
    ensures
        truncated(truncated(logs, cutoff), cutoff) == truncated(logs, cutoff),
{
    lemma_filter_idempotent(logs, up_to(cutoff));
}

/// Cutting the log off undoes what was appended after the cutoff: where the
/// writes of `before` were all made up to the miniblock `cutoff` and those of
/// `rows` all after it, the cut of the longer log is `before`.
pub proof fn lemma_truncate_undoes_append(
    before: Seq<DbStorageLog>,
    rows: Seq<DbStorageLog>,
    cutoff: MiniblockNumber,
)
    requires
        forall|i: int|
            0 <= i < before.len() ==> (#[trigger] before[i]).miniblock_number.0 <= cutoff.0,
        forall|i: int| 0 <= i < rows.len() ==> (#[trigger] rows[i]).miniblock_number.0 > cutoff.0,
    ensures
        truncated(before + rows, cutoff) == before,
{
    Seq::filter_distributes_over_add(before, rows, up_to(cutoff));
    lemma_filter_keeps_all(before, up_to(cutoff));
    lemma_filter_drops_all(rows, up_to(cutoff));
    assert(before + Seq::<DbStorageLog>::empty() =~= before);
}

/// What is left of a log after a cut is a log, and holds no write made after
/// the cutoff.
pub proof fn lemma_truncate_keeps_log(logs: Seq<DbStorageLog>, cutoff: MiniblockNumber)
    requires
        positions_unique(logs),
        operations_fit(logs),
    ensures
        positions_unique(truncated(logs, cutoff)),
        operations_fit(truncated(logs, cutoff)),
        forall|i: int|
            0 <= i < truncated(logs, cutoff).len() ==> (#[trigger] truncated(
                logs,
                cutoff,
            )[i]).miniblock_number.0 <= cutoff.0,
{
    lemma_filter_keeps_log(logs, up_to(cutoff));
    assert forall|i: int| 0 <= i < truncated(logs, cutoff).len() implies (#[trigger] truncated(
        logs,
        cutoff,
    )[i]).miniblock_number.0 <= cutoff.0 by {
        logs.lemma_filter_pred(up_to(cutoff), i);
    }
}

/// A value that was just appended is the value that is read back. Where
/// `rows` were appended to the log `before` as the writes of the miniblock
/// `block_number`, at operation numbers that count up from `base` and lie
/// above those already logged for the miniblock, the value as of that
/// miniblock of a key written by `rows` is the value of the last of `rows`
/// that writes the key.
pub proof fn lemma_append_then_resolve(
    before: Seq<DbStorageLog>,
    rows: Seq<DbStorageLog>,
    block_number: MiniblockNumber,
    base: int,
    i: int,
)
    requires
        positions_unique(before + rows),
        forall|j: int|
            0 <= j < before.len() && (#[trigger] before[j]).miniblock_number == block_number
                ==> before[j].operation_number < base,
        forall|j: int|
            0 <= j < rows.len() ==> (#[trigger] rows[j]).miniblock_number == block_number
                && rows[j].operation_number == base + j,
        0 <= i < rows.len(),
        forall|j: int| i < j < rows.len() ==> (#[trigger] rows[j]).hashed_key != rows[i].hashed_key,
    ensures
        value_at(before + rows, rows[i].hashed_key, block_number) == Some(rows[i].value),
{
    let after = before + rows;
    let at = before.len() + i;
    assert(after[at] == rows[i]);
    assert forall|j: int|
        0 <= j < after.len() && visible(
            #[trigger] after[j],
            rows[i].hashed_key,
            block_number,
        ) implies !after[at].precedes(after[j]) by {
        if j < before.len() {
            assert(after[j] == before[j]);
        } else {
            assert(after[j] == rows[j - before.len()]);
        }
    }
    assert(is_latest(after, rows[i].hashed_key, block_number, at));
    lemma_value_at_latest(after, rows[i].hashed_key, block_number, at);
}

/// The same, said of the writes themselves: where the rows of `writes` were
/// appended to the log `before`, the value of the key of a write that no
/// later one of `writes` overwrites is the value written.
pub proof fn lemma_logged_write_is_read_back(
    before: Seq<DbStorageLog>,
    writes: Seq<(H256, StorageLog)>,
    block_number: MiniblockNumber,
    base: int,
    i: int,
)
    requires
        0 <= base,
        base + writes.len() <= u32::MAX + 1,
        positions_unique(before + rows_of(writes, block_number, base)),
        forall|j: int|
            0 <= j < before.len() && (#[trigger] before[j]).miniblock_number == block_number
                ==> before[j].operation_number < base,
        0 <= i < writes.len(),
        forall|j: int|
            i < j < writes.len() ==> (#[trigger] writes[j]).1.key.spec_hashed_key()
                != writes[i].1.key.spec_hashed_key(),
    ensures
        value_at(
            before + rows_of(writes, block_number, base),
            writes[i].1.key.spec_hashed_key(),
            block_number,
        ) == Some(writes[i].1.value),
{
    let rows = rows_of(writes, block_number, base);
    assert forall|j: int| i < j < rows.len() implies (#[trigger] rows[j]).hashed_key
        != rows[i].hashed_key by {
        assert(writes[j].1.key.spec_hashed_key() != writes[i].1.key.spec_hashed_key());
    }
    lemma_append_then_resolve(before, rows, block_number, base, i);
}

/// The keys written after a miniblock are finitely many.
pub proof fn lemma_modified_since_is_finite(
    logs: Seq<DbStorageLog>,
    miniblock_number: MiniblockNumber,
)
    ensures
        modified_since(logs, miniblock_number).finite(),
{
    let keys = logs.map_values(|entry: DbStorageLog| entry.hashed_key);
    vstd::seq_lib::seq_to_set_is_finite(keys);
    assert(modified_since(logs, miniblock_number).subset_of(keys.to_set())) by {
        assert forall|key: H256|
            modified_since(logs, miniblock_number).contains(key) implies keys.to_set().contains(
            key,
        ) by {
            let i = choose|i: int|
                0 <= i < logs.len() && i < logs.len() && (#[trigger] logs[i]).hashed_key == key
                    && logs[i].miniblock_number.0 > miniblock_number.0;
            assert(keys[i] == key);
        }
    }
    vstd::set_lib::lemma_set_subset_finite(
        keys.to_set(),
        modified_since(logs, miniblock_number),
    );
}

/// The keys written after the last miniblock of a batch fall into three
/// kinds, each key into one: those that are not indexed, which the plan
/// leaves out; those first written after the batch, which the plan deletes;
/// and those that existed by the end of the batch, which the plan restores.
/// The sizes of the three add up to the number of keys written, and the
/// plan's keys are those of the last two.
pub proof fn lemma_revert_partition(
    ledger: Ledger,
    last_miniblock: MiniblockNumber,
    l1_batch_number: L1BatchNumber,
)
    ensures
        modified_since(ledger.logs, last_miniblock).finite(),
        deduplicated_keys(ledger, last_miniblock).disjoint(
            keys_to_delete(ledger, last_miniblock, l1_batch_number),
        ),
        deduplicated_keys(ledger, last_miniblock).disjoint(
            keys_to_restore(ledger, last_miniblock, l1_batch_number),
        ),
        keys_to_delete(ledger, last_miniblock, l1_batch_number).disjoint(
            keys_to_restore(ledger, last_miniblock, l1_batch_number),
        ),
        deduplicated_keys(ledger, last_miniblock) + keys_to_delete(
            ledger,
            last_miniblock,
            l1_batch_number,
        ) + keys_to_restore(ledger, last_miniblock, l1_batch_number) == modified_since(
            ledger.logs,
            last_miniblock,
        ),
        deduplicated_keys(ledger, last_miniblock).len() + keys_to_delete(
            ledger,
            last_miniblock,
            l1_batch_number,
        ).len() + keys_to_restore(ledger, last_miniblock, l1_batch_number).len()
            == modified_since(ledger.logs, last_miniblock).len(),
        revert_plan(ledger, last_miniblock, l1_batch_number).dom() == keys_to_delete(
            ledger,
            last_miniblock,
            l1_batch_number,
        ) + keys_to_restore(ledger, last_miniblock, l1_batch_number),
{
    let all = modified_since(ledger.logs, last_miniblock);
    let left_out = deduplicated_keys(ledger, last_miniblock);
    let deleted = keys_to_delete(ledger, last_miniblock, l1_batch_number);
    let restored = keys_to_restore(ledger, last_miniblock, l1_batch_number);
    lemma_modified_since_is_finite(ledger.logs, last_miniblock);
    assert(left_out + deleted + restored =~= all);
    assert(revert_plan(ledger, last_miniblock, l1_batch_number).dom() =~= deleted + restored);
    assert(left_out.subset_of(all));
    assert(deleted.subset_of(all));
    assert(restored.subset_of(all));
    assert((left_out + deleted).subset_of(all));
    vstd::set_lib::lemma_set_subset_finite(all, left_out);
    vstd::set_lib::lemma_set_subset_finite(all, deleted);
    vstd::set_lib::lemma_set_subset_finite(all, restored);
    vstd::set_lib::lemma_set_subset_finite(all, left_out + deleted);
    assert(left_out.disjoint(deleted));
    assert(left_out.disjoint(restored));
    assert(deleted.disjoint(restored));
    assert((left_out + deleted).disjoint(restored));
    vstd::set_lib::lemma_set_disjoint_lens(left_out, deleted);
    vstd::set_lib::lemma_set_disjoint_lens(left_out + deleted, restored);
}

/// What the plan says of one key. A key that is not indexed is not in the
/// plan, whatever was written to it. A key written after the batch and first
/// written after it is deleted. A key written after the batch that existed
/// by its end is restored to the value it had at the batch's last miniblock,
/// with its leaf.
pub proof fn lemma_revert_plan_of_key(
    ledger: Ledger,
    last_miniblock: MiniblockNumber,
    l1_batch_number: L1BatchNumber,
    key: H256,
)
    ensures
        !ledger.initial_writes.dom().contains(key) ==> !revert_plan(
            ledger,
            last_miniblock,
            l1_batch_number,
        ).dom().contains(key),
        !is_modified_since(ledger.logs, key, last_miniblock) ==> !revert_plan(
            ledger,
            last_miniblock,
            l1_batch_number,
        ).dom().contains(key),
        is_reverted(ledger, last_miniblock, key) && !existed_by(ledger, l1_batch_number, key) ==> {
            &&& revert_plan(ledger, last_miniblock, l1_batch_number).dom().contains(key)
            &&& revert_plan(ledger, last_miniblock, l1_batch_number)[key] is None
        },
        is_reverted(ledger, last_miniblock, key) && existed_by(ledger, l1_batch_number, key)
            && value_at(ledger.logs, key, last_miniblock) is Some ==> {
            &&& revert_plan(ledger, last_miniblock, l1_batch_number).dom().contains(key)
            &&& revert_plan(ledger, last_miniblock, l1_batch_number)[key] == Some(
                (
                    value_at(ledger.logs, key, last_miniblock).unwrap(),
                    ledger.initial_writes[key].1,
                ),
            )
        },
{
}

/// A chunk in which a key was written has a smallest key.
pub proof fn lemma_first_chunk_key_exists(
    logs: Seq<DbStorageLog>,
    miniblock_number: MiniblockNumber,
    range: KeyRange,
)
    requires
        chunk_is_written(logs, miniblock_number, range),
    ensures
        is_first_chunk_key(
            logs,
            miniblock_number,
            range,
            first_chunk_key(logs, miniblock_number, range),
        ),
{
    let i = lemma_smallest_in_chunk(logs, miniblock_number, range, logs.len() as int);
    let key = logs[i].hashed_key;
    assert(is_chunk_key(logs, miniblock_number, range, key));
    assert forall|other: H256| #[trigger]
        is_chunk_key(logs, miniblock_number, range, other) implies key.as_nat()
        <= other.as_nat() by {
        let j = choose|j: int|
            0 <= j < logs.len() && in_chunk(#[trigger] logs[j], miniblock_number, range)
                && logs[j].hashed_key == other;
    }
    lemma_first_chunk_key(logs, miniblock_number, range, key);
}

/// The place of a write with the smallest key among the writes of the chunk
/// in the first `n` writes of the log.
proof fn lemma_smallest_in_chunk(
    logs: Seq<DbStorageLog>,
    miniblock_number: MiniblockNumber,
    range: KeyRange,
    n: int,
) -> (best: int)
    requires
        0 <= n <= logs.len(),
        exists|j: int| 0 <= j < n && in_chunk(#[trigger] logs[j], miniblock_number, range),
    ensures
        0 <= best < n,
        in_chunk(logs[best], miniblock_number, range),
        forall|j: int|
            0 <= j < n && in_chunk(#[trigger] logs[j], miniblock_number, range)
                ==> logs[best].hashed_key.as_nat() <= logs[j].hashed_key.as_nat(),
    decreases n,
{
    let last = n - 1;
    if exists|j: int| 0 <= j < last && in_chunk(#[trigger] logs[j], miniblock_number, range) {
        let before = lemma_smallest_in_chunk(logs, miniblock_number, range, last);
        if in_chunk(logs[last], miniblock_number, range) && logs[last].hashed_key.as_nat()
            < logs[before].hashed_key.as_nat() {
            last
        } else {
            before
        }
    } else {
        assert(in_chunk(logs[last], miniblock_number, range));
        last
    }
}

/// A chunk starts with an entry exactly where a key of its range was
/// written in the miniblock, and the entry's key is then a key of the range:
/// never one of a neighbouring range.
pub proof fn lemma_chunk_start_lies_in_range(
    ledger: Ledger,
    miniblock_number: MiniblockNumber,
    range: KeyRange,
)
    ensures
        chunk_start(ledger, miniblock_number, range) is Some <==> chunk_is_written(
            ledger.logs,
            miniblock_number,
            range,
        ),
        chunk_start(ledger, miniblock_number, range) matches Some(entry) ==> range.spec_contains(
            entry.key,
        ) && is_first_chunk_key(ledger.logs, miniblock_number, range, entry.key),
{
    if chunk_is_written(ledger.logs, miniblock_number, range) {
        lemma_first_chunk_key_exists(ledger.logs, miniblock_number, range);
        let key = first_chunk_key(ledger.logs, miniblock_number, range);
        let j = choose|j: int|
            0 <= j < ledger.logs.len() && in_chunk(
                #[trigger] ledger.logs[j],
                miniblock_number,
                range,
            ) && ledger.logs[j].hashed_key == key;
        assert(range.spec_contains(key));
    }
}

/// Where the ranges are sorted and do not overlap, the keys with which their
/// chunks start ascend with the ranges.
pub proof fn lemma_chunk_starts_ascend(
    ledger: Ledger,
    miniblock_number: MiniblockNumber,
    ranges: Seq<KeyRange>,
    a: int,
    b: int,
)
    requires
        ranges_ascend(ranges),
        0 <= a < b < ranges.len(),
        chunk_start(ledger, miniblock_number, ranges[a]) is Some,
        chunk_start(ledger, miniblock_number, ranges[b]) is Some,
    ensures
        chunk_start(ledger, miniblock_number, ranges[a]).unwrap().key.as_nat() < chunk_start(
            ledger,
            miniblock_number,
            ranges[b],
        ).unwrap().key.as_nat(),
{
    lemma_chunk_start_lies_in_range(ledger, miniblock_number, ranges[a]);
    lemma_chunk_start_lies_in_range(ledger, miniblock_number, ranges[b]);
    assert(ranges[a].end.as_nat() < ranges[b].start.as_nat());
}

/// A cut leaves no key written after the cutoff.
pub proof fn lemma_truncate_leaves_nothing_modified(
    logs: Seq<DbStorageLog>,
    cutoff: MiniblockNumber,
)
    ensures
        modified_since(truncated(logs, cutoff), cutoff) == Set::<H256>::empty(),
{
    let kept = truncated(logs, cutoff);
    assert forall|key: H256| !modified_since(kept, cutoff).contains(key) by {
        if is_modified_since(kept, key, cutoff) {
            let i = choose|i: int|
                0 <= i < kept.len() && i < kept.len() && (#[trigger] kept[i]).hashed_key == key
                    && kept[i].miniblock_number.0 > cutoff.0;
            logs.lemma_filter_pred(up_to(cutoff), i);
        }
    }
    assert(modified_since(kept, cutoff) =~= Set::<H256>::empty());
}

/// A cut changes no value as of the cutoff or of a miniblock before it.
pub proof fn lemma_truncate_keeps_values(
    logs: Seq<DbStorageLog>,
    cutoff: MiniblockNumber,
    key: H256,
    as_of: MiniblockNumber,
)
    requires
        positions_unique(logs),
        operations_fit(logs),
        as_of.0 <= cutoff.0,
    ensures
        value_at(truncated(logs, cutoff), key, as_of) == value_at(logs, key, as_of),
{
    let kept = truncated(logs, cutoff);
    lemma_filter_keeps_log(logs, up_to(cutoff));
    assert forall|j: int| 0 <= j < kept.len() implies exists|k: int|
        0 <= k < logs.len() && logs[k] == #[trigger] kept[j] by {
        assert(kept.contains(kept[j]));
        logs.lemma_filter_contains_rev(up_to(cutoff), kept[j]);
    }
    if exists|i: int| is_latest(logs, key, as_of, i) {
        let i = choose|i: int| is_latest(logs, key, as_of, i);
        lemma_value_at_latest(logs, key, as_of, i);
        logs.lemma_filter_contains(up_to(cutoff), i);
        let at = choose|at: int| 0 <= at < kept.len() && kept[at] == logs[i];
        assert forall|j: int|
            0 <= j < kept.len() && visible(#[trigger] kept[j], key, as_of) implies !kept[at].precedes(
            kept[j],
        ) by {
            let k = choose|k: int| 0 <= k < logs.len() && logs[k] == kept[j];
            assert(visible(logs[k], key, as_of));
        }
        assert(is_latest(kept, key, as_of, at));
        lemma_value_at_latest(kept, key, as_of, at);
    } else {
        assert forall|j: int| 0 <= j < kept.len() implies !visible(
            #[trigger] kept[j],
            key,
            as_of,
        ) by {
            let k = choose|k: int| 0 <= k < logs.len() && logs[k] == kept[j];
            if visible(logs[k], key, as_of) {
                lemma_value_at_some_iff_written(logs, key, as_of);
            }
        }
        lemma_value_at_unwritten(kept, key, as_of);
    }
}

/// A chunk has one listing of its tree entries.
pub proof fn lemma_tree_listing_is_unique(
    ledger: Ledger,
    miniblock_number: MiniblockNumber,
    range: KeyRange,
    first: Seq<StorageRecoveryLogEntry>,
    second: Seq<StorageRecoveryLogEntry>,
)
    requires
        is_tree_listing(ledger, miniblock_number, range, first),
        is_tree_listing(ledger, miniblock_number, range, second),
    ensures
        first == second,
{
    let xs = Seq::new(first.len(), |a: int| first[a].key.as_nat());
    let ys = Seq::new(second.len(), |a: int| second[a].key.as_nat());
    assert forall|v: nat| xs.contains(v) <==> ys.contains(v) by {
        if xs.contains(v) {
            let a = choose|a: int| 0 <= a < xs.len() && xs[a] == v;
            let key = first[a].key;
            assert(is_chunk_key(ledger.logs, miniblock_number, range, key));
            let b = choose|b: int| 0 <= b < second.len() && (#[trigger] second[b]).key == key;
            assert(ys[b] == v);
        }
        if ys.contains(v) {
            let b = choose|b: int| 0 <= b < ys.len() && ys[b] == v;
            let key = second[b].key;
            assert(is_chunk_key(ledger.logs, miniblock_number, range, key));
            let a = choose|a: int| 0 <= a < first.len() && (#[trigger] first[a]).key == key;
            assert(xs[a] == v);
        }
    }
    assert(numbers_ascend(xs)) by {
        assert forall|a: int, b: int| 0 <= a < b < xs.len() implies xs[a] < xs[b] by {
            assert(first[a].key.as_nat() < first[b].key.as_nat());
        }
    }
    assert(numbers_ascend(ys)) by {
        assert forall|a: int, b: int| 0 <= a < b < ys.len() implies ys[a] < ys[b] by {
            assert(second[a].key.as_nat() < second[b].key.as_nat());
        }
    }
    lemma_ascending_lists_agree(xs, ys);
    assert(xs.len() == first.len());
    assert(ys.len() == second.len());
    assert forall|a: int| 0 <= a < first.len() implies first[a] == second[a] by {
        assert(xs[a] == ys[a]);
        H256::lemma_as_nat_injective(first[a].key, second[a].key);
        assert(first[a] == recovery_entry(ledger, miniblock_number, first[a].key));
        assert(second[a] == recovery_entry(ledger, miniblock_number, second[a].key));
    }
    assert(first =~= second);
}

/// A miniblock has one listing of its writes.
pub proof fn lemma_miniblock_listing_is_unique(
    logs: Seq<DbStorageLog>,
    miniblock_number: MiniblockNumber,
    first: Seq<(H256, H256, u32)>,
    second: Seq<(H256, H256, u32)>,
)
    requires
        positions_unique(logs),
        is_miniblock_listing(logs, miniblock_number, first),
        is_miniblock_listing(logs, miniblock_number, second),
    ensures
        first == second,
{
    let xs = Seq::new(first.len(), |a: int| first[a].2 as nat);
    let ys = Seq::new(second.len(), |a: int| second[a].2 as nat);
    assert forall|v: nat| xs.contains(v) <==> ys.contains(v) by {
        if xs.contains(v) {
            let a = choose|a: int| 0 <= a < xs.len() && xs[a] == v;
            assert(is_write_of(logs, miniblock_number, first[a]));
            let j = choose|j: int|
                0 <= j < logs.len() && (#[trigger] logs[j]).miniblock_number == miniblock_number
                    && is_listed_as(logs[j], first[a]);
            assert(lists_write(second, logs[j]));
            let b = choose|b: int|
                0 <= b < second.len() && is_listed_as(logs[j], #[trigger] second[b]);
            assert(ys[b] == v);
        }
        if ys.contains(v) {
            let b = choose|b: int| 0 <= b < ys.len() && ys[b] == v;
            assert(is_write_of(logs, miniblock_number, second[b]));
            let j = choose|j: int|
                0 <= j < logs.len() && (#[trigger] logs[j]).miniblock_number == miniblock_number
                    && is_listed_as(logs[j], second[b]);
            assert(lists_write(first, logs[j]));
            let a = choose|a: int|
                0 <= a < first.len() && is_listed_as(logs[j], #[trigger] first[a]);
            assert(xs[a] == v);
        }
    }
    assert(numbers_ascend(xs)) by {
        assert forall|a: int, b: int| 0 <= a < b < xs.len() implies xs[a] < xs[b] by {
            assert(first[a].2 < first[b].2);
        }
    }
    assert(numbers_ascend(ys)) by {
        assert forall|a: int, b: int| 0 <= a < b < ys.len() implies ys[a] < ys[b] by {
            assert(second[a].2 < second[b].2);
        }
    }
    lemma_ascending_lists_agree(xs, ys);
    assert(xs.len() == first.len());
    assert(ys.len() == second.len());
    assert forall|a: int| 0 <= a < first.len() implies first[a] == second[a] by {
        assert(xs[a] == ys[a]);
        assert(is_write_of(logs, miniblock_number, first[a]));
        assert(is_write_of(logs, miniblock_number, second[a]));
        let j = choose|j: int|
            0 <= j < logs.len() && (#[trigger] logs[j]).miniblock_number == miniblock_number
                && is_listed_as(logs[j], first[a]);
        let k = choose|k: int|
            0 <= k < logs.len() && (#[trigger] logs[k]).miniblock_number == miniblock_number
                && is_listed_as(logs[k], second[a]);
        if j != k {
            assert(logs[j].same_position(logs[k]));
        }
    }
    assert(first =~= second);
}

/// A key that was not written after a miniblock has, as of every later
/// miniblock, the value that it had as of that one.
pub proof fn lemma_unmodified_key_keeps_value(
    logs: Seq<DbStorageLog>,
    key: H256,
    earlier: MiniblockNumber,
    later: MiniblockNumber,
)
    requires
        positions_unique(logs),
        earlier.0 <= later.0,
        !is_modified_since(logs, key, earlier),
    ensures
        value_at(logs, key, later) == value_at(logs, key, earlier),
{
    assert forall|j: int| 0 <= j < logs.len() implies (visible(#[trigger] logs[j], key, later)
        <==> visible(logs[j], key, earlier)) by {
        if visible(logs[j], key, later) && !visible(logs[j], key, earlier) {
            assert(is_modified_since(logs, key, earlier));
        }
    }
    if exists|i: int| is_latest(logs, key, earlier, i) {
        let i = choose|i: int| is_latest(logs, key, earlier, i);
        assert(is_latest(logs, key, later, i));
        lemma_value_at_latest(logs, key, earlier, i);
        lemma_value_at_latest(logs, key, later, i);
    } else {
        if exists|i: int| is_latest(logs, key, later, i) {
            let i = choose|i: int| is_latest(logs, key, later, i);
            assert(is_latest(logs, key, earlier, i));
        }
    }
}

/// The plan does what it is for: carried out on the state as of a later
/// batch, it gives the state as of the batch that it reverts to. This holds
/// of every ledger in which a key that came to exist between the two batches
/// was written after the earlier one.
pub proof fn lemma_plan_reverts_the_state(
    ledger: Ledger,
    target_miniblock: MiniblockNumber,
    target_batch: L1BatchNumber,
    later_miniblock: MiniblockNumber,
    later_batch: L1BatchNumber,
)
    requires
        positions_unique(ledger.logs),
        target_miniblock.0 <= later_miniblock.0,
        target_batch.0 <= later_batch.0,
        forall|key: H256|
            #![trigger existed_by(ledger, later_batch, key)]
            existed_by(ledger, later_batch, key) && !existed_by(ledger, target_batch, key)
                ==> is_modified_since(ledger.logs, key, target_miniblock),
    ensures
        reverted(
            state_as_of(ledger, later_miniblock, later_batch),
            revert_plan(ledger, target_miniblock, target_batch),
        ) == state_as_of(ledger, target_miniblock, target_batch),
{
    let plan = revert_plan(ledger, target_miniblock, target_batch);
    let now = state_as_of(ledger, later_miniblock, later_batch);
    let then = state_as_of(ledger, target_miniblock, target_batch);
    let after = reverted(now, plan);
    assert forall|key: H256| after.dom().contains(key) <==> then.dom().contains(key) by {
        if !plan.dom().contains(key) {
            if existed_by(ledger, later_batch, key) && !existed_by(ledger, target_batch, key) {
                assert(is_modified_since(ledger.logs, key, target_miniblock));
            }
        }
    }
    assert forall|key: H256| after.dom().contains(key) implies #[trigger] after[key]
        == then[key] by {
        if !plan.dom().contains(key) {
            lemma_unmodified_key_keeps_value(
                ledger.logs,
                key,
                target_miniblock,
                later_miniblock,
            );
        }
    }
    assert(after =~= then);
}

/// Once the log is cut off after the last miniblock of a batch, nothing is
/// left to revert: the plan for that batch is empty.
pub proof fn lemma_nothing_to_revert_after_truncate(
    ledger: Ledger,
    last_miniblock: MiniblockNumber,
    l1_batch_number: L1BatchNumber,
)
    ensures
        revert_plan(
            Ledger { logs: truncated(ledger.logs, last_miniblock), ..ledger },
            last_miniblock,
            l1_batch_number,
        ) == Map::<H256, Option<(H256, u64)>>::empty(),
{
    let cut = Ledger { logs: truncated(ledger.logs, last_miniblock), ..ledger };
    lemma_truncate_leaves_nothing_modified(ledger.logs, last_miniblock);
    assert forall|key: H256| !is_reverted(cut, last_miniblock, key) by {
        assert(!modified_since(cut.logs, last_miniblock).contains(key));
    }
    assert(revert_plan(cut, last_miniblock, l1_batch_number) =~= Map::<
        H256,
        Option<(H256, u64)>,
    >::empty());
}

} // verus!
