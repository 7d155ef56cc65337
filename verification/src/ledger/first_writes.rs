//! The index of first writes: which keys and leaves it accepts, and what it
//! holds afterwards.

use crate::basic_types::{H256, L1BatchNumber};
use crate::models::{InitialWrite, SnapshotStorageLog};
use vstd::prelude::*;

verus! {

/// Whether `m` is the largest leaf in the index of first writes, or zero
/// where the index is empty.
pub open spec fn is_max_leaf(initial_writes: Map<H256, (L1BatchNumber, u64)>, m: int) -> bool {
    &&& forall|key: H256|
        initial_writes.dom().contains(key) ==> (#[trigger] initial_writes[key]).1 <= m
    &&& m == 0 || exists|key: H256|
        initial_writes.dom().contains(key) && (#[trigger] initial_writes[key]).1 == m
}

/// The largest leaf in the index of first writes; zero where the index is
/// empty.
pub open spec fn max_leaf(initial_writes: Map<H256, (L1BatchNumber, u64)>) -> int {
    choose|m: int| is_max_leaf(initial_writes, m)
}

/// An index has one largest leaf.
pub proof fn lemma_max_leaf(initial_writes: Map<H256, (L1BatchNumber, u64)>, m: int)
    requires
        is_max_leaf(initial_writes, m),
    ensures
        max_leaf(initial_writes) == m,
{
    let n = max_leaf(initial_writes);
    assert(is_max_leaf(initial_writes, n));
}

/// Whether the index of first writes accepts `keys` as keys first written
/// now: none of them is indexed yet, none occurs twice, and there are leaves
/// left for all of them.
pub open spec fn accepts_initial_writes(
    initial_writes: Map<H256, (L1BatchNumber, u64)>,
    keys: Seq<H256>,
) -> bool {
    &&& keys.no_duplicates()
    &&& forall|i: int| 0 <= i < keys.len() ==> !initial_writes.dom().contains(#[trigger] keys[i])
    &&& max_leaf(initial_writes) + keys.len() <= u64::MAX
}

/// Whether `after` is the index `before` with `keys` added as first written
/// in the batch `l1_batch_number`: the old records stand, and the new keys
/// get the leaves that follow the largest old one, in their order.
pub open spec fn records_initial_writes(
    before: Map<H256, (L1BatchNumber, u64)>,
    after: Map<H256, (L1BatchNumber, u64)>,
    l1_batch_number: L1BatchNumber,
    keys: Seq<H256>,
) -> bool {
    &&& after.dom() == before.dom().union(keys.to_set())
    &&& forall|key: H256| before.dom().contains(key) ==> #[trigger] after[key] == before[key]
    &&& forall|i: int|
        0 <= i < keys.len() ==> after[#[trigger] keys[i]] == (
            l1_batch_number,
            (max_leaf(before) + 1 + i) as u64,
        )
}

/// Whether some key of the index has the leaf `leaf`.
pub open spec fn leaf_is_taken(initial_writes: Map<H256, (L1BatchNumber, u64)>, leaf: u64) -> bool {
    exists|key: H256| initial_writes.dom().contains(key) && (#[trigger] initial_writes[key]).1 == leaf
}

/// Whether the index of first writes accepts `records`: no key and no leaf
/// of theirs is in the index, and none occurs twice among them.
pub open spec fn accepts_records(
    initial_writes: Map<H256, (L1BatchNumber, u64)>,
    records: Seq<InitialWrite>,
) -> bool {
    &&& forall|i: int|
        0 <= i < records.len() ==> !initial_writes.dom().contains((#[trigger] records[i]).hashed_key)
            && !leaf_is_taken(initial_writes, records[i].index)
    &&& forall|i: int, j: int|
        0 <= i < j < records.len() ==> (#[trigger] records[i]).hashed_key != (
        #[trigger] records[j]).hashed_key && records[i].index != records[j].index
}

/// Whether `after` is the index `before` with `records` added to it.
pub open spec fn holds_records(
    before: Map<H256, (L1BatchNumber, u64)>,
    after: Map<H256, (L1BatchNumber, u64)>,
    records: Seq<InitialWrite>,
) -> bool {
    &&& forall|key: H256|
        after.dom().contains(key) <==> (before.dom().contains(key) || exists|i: int|
            0 <= i < records.len() && (#[trigger] records[i]).hashed_key == key)
    &&& forall|key: H256| before.dom().contains(key) ==> #[trigger] after[key] == before[key]
    &&& forall|i: int|
        0 <= i < records.len() ==> after[(#[trigger] records[i]).hashed_key] == (
            records[i].l1_batch_number,
            records[i].index,
        )
}

/// The records of the first writes that the entries `snapshot` of a
/// snapshot tell of.
pub open spec fn snapshot_records_of(snapshot: Seq<SnapshotStorageLog>) -> Seq<InitialWrite> {
    Seq::new(
        snapshot.len(),
        |i: int|
            InitialWrite {
                hashed_key: snapshot[i].key.spec_hashed_key(),
                l1_batch_number: snapshot[i].l1_batch_number_of_initial_write,
                index: snapshot[i].enumeration_index,
            },
    )
}

} // verus!
