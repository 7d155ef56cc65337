//! Listing the writes of a miniblock and the slots touched in a batch.

use crate::basic_types::{H256, L1BatchNumber, MiniblockNumber};
use crate::blocks_web3_dal::{BlocksWeb3Dal, miniblock_range};
use crate::keyed_map::{
    distinct_keys, has_key, index_of_key, lemma_map_of_entry, map_of, StorageKeyMap,
};
use crate::ledger::listing::{
    in_miniblock, is_last_touch, is_listed_as, is_miniblock_listing, is_touched, is_write_of,
    lemma_last_touch, lists_write, touched_slots, touches,
};
use crate::ledger::{operations_fit, positions_unique};
use crate::models::DbStorageLog;
use crate::sequences::lemma_filter_step;
use crate::storage::{AccountTreeId, StorageKey};
use crate::storage_logs_dal::rows::written_before;
use crate::storage_logs_dal::StorageLogsDal;
use vstd::prelude::*;

verus! {

impl StorageLogsDal {
    /// The number of writes logged for the miniblock `miniblock_number`.
    pub fn count_miniblock_storage_logs(&self, miniblock_number: MiniblockNumber) -> (r: u64)
        ensures
            r == self@.logs.filter(in_miniblock(miniblock_number)).len(),
    {
        let mut count: usize = 0;
        let mut i: usize = 0;
        proof {
            reveal(Seq::filter);
            assert(self.logs@.take(0).filter(in_miniblock(miniblock_number)).len() == 0);
        }
        while i < self.logs.len()
            invariant
                i <= self.logs@.len(),
                count <= i,
                count == self.logs@.take(i as int).filter(in_miniblock(miniblock_number)).len(),
            decreases self.logs@.len() - i,
        {
            proof {
                lemma_filter_step(self.logs@, in_miniblock(miniblock_number), i as int);
            }
            if self.logs[i].miniblock_number.0 == miniblock_number.0 {
                count += 1;
            }
            i += 1;
        }
        proof {
            assert(self.logs@.take(i as int) =~= self.logs@);
        }
        count as u64
    }

    /// The writes of the miniblock `miniblock_number`: the hashed key, the
    /// value and the operation number of each, in the order of the operation
    /// numbers.
    pub fn get_miniblock_storage_logs(&self, miniblock_number: MiniblockNumber) -> (r: Vec<
        (H256, H256, u32),
    >)
        ensures
            is_miniblock_listing(self@.logs, miniblock_number, r@),
    {
        proof {
            use_type_invariant(self);
        }
        let mut listing: Vec<(H256, H256, u32)> = Vec::new();
        let mut i: usize = 0;
        while i < self.logs.len()
            invariant
                i <= self.logs@.len(),
                self@.well_formed(),
                lists_miniblock(self.logs@, miniblock_number, listing@, i as int),
            decreases self.logs@.len() - i,
        {
            let entry = &self.logs[i];
            if entry.miniblock_number.0 == miniblock_number.0 {
                let item = (entry.hashed_key, entry.value, entry.operation_number as u32);
                let p = place_of_operation(&listing, item.2);
                proof {
                    lemma_list_inserts(
                        self.logs@,
                        miniblock_number,
                        listing@,
                        p as int,
                        i as int,
                        item,
                    );
                }
                listing.insert(p, item);
            } else {
                proof {
                    lemma_list_skips(self.logs@, miniblock_number, listing@, i as int);
                }
            }
            i += 1;
        }
        proof {
            lemma_lists_all(self.logs@, miniblock_number, listing@);
        }
        listing
    }

    /// The last value written to each storage slot that was written in the
    /// batch `l1_batch_number`, going by the log alone: a slot counts as
    /// written whether or not its key is indexed. A batch without miniblocks
    /// has no such slot.
    pub fn get_touched_slots_for_l1_batch(
        &self,
        blocks: &BlocksWeb3Dal,
        l1_batch_number: L1BatchNumber,
    ) -> (r: StorageKeyMap<H256>)
        ensures
            r@ == match miniblock_range(blocks@, l1_batch_number) {
                Some((first, last)) => touched_slots(self@.logs, first, last),
                None => Map::<StorageKey, H256>::empty(),
            },
    {
        proof {
            use_type_invariant(self);
        }
        let (first, last) = match blocks.get_miniblock_range_of_l1_batch(l1_batch_number) {
            Some(range) => range,
            None => {
                return StorageKeyMap::new();
            },
        };
        let mut latest: StorageKeyMap<usize> = StorageKeyMap::new();
        let mut i: usize = 0;
        while i < self.logs.len()
            invariant
                i <= self.logs@.len(),
                self@.well_formed(),
                forall|slot: StorageKey|
                    latest@.dom().contains(slot) <==> exists|j: int|
                        0 <= j < i && touches(#[trigger] self.logs@[j], slot, first, last),
                forall|slot: StorageKey|
                    latest@.dom().contains(slot) ==> {
                        &&& (#[trigger] latest@[slot]) < i
                        &&& touches(self.logs@[latest@[slot] as int], slot, first, last)
                        &&& forall|j: int|
                            0 <= j < i && touches(#[trigger] self.logs@[j], slot, first, last)
                                ==> !self.logs@[latest@[slot] as int].precedes(self.logs@[j])
                    },
            decreases self.logs@.len() - i,
        {
            let entry = &self.logs[i];
            if first.0 <= entry.miniblock_number.0 && entry.miniblock_number.0 <= last.0 {
                let slot = StorageKey::new(AccountTreeId::new(entry.address), entry.key);
                let ghost before = latest@;
                let newer = match latest.get(&slot) {
                    Some(held) => written_before(&self.logs[*held], entry),
                    None => true,
                };
                if newer {
                    latest.insert(slot, i);
                }
                proof {
                    assert(touches(self.logs@[i as int], slot, first, last));
                    assert forall|other: StorageKey|
                        touches(self.logs@[i as int], other, first, last) implies other == slot by {
                        assert(other.account == slot.account);
                    }
                }
            }
            i += 1;
        }
        let entries = latest.entries();
        let mut values: StorageKeyMap<H256> = StorageKeyMap::new();
        let mut a: usize = 0;
        while a < entries.len()
            invariant
                a <= entries@.len(),
                self@.well_formed(),
                distinct_keys(entries@),
                map_of(entries@) == latest@,
                forall|slot: StorageKey|
                    latest@.dom().contains(slot) <==> is_touched(self@.logs, slot, first, last),
                forall|slot: StorageKey|
                    latest@.dom().contains(slot) ==> is_last_touch(
                        self@.logs,
                        slot,
                        first,
                        last,
                        (#[trigger] latest@[slot]) as int,
                    ),
                forall|slot: StorageKey|
                    values@.dom().contains(slot) <==> exists|x: int|
                        0 <= x < a && (#[trigger] entries@[x]).0 == slot,
                forall|slot: StorageKey|
                    values@.dom().contains(slot) ==> #[trigger] values@[slot] == touched_slots(
                        self@.logs,
                        first,
                        last,
                    )[slot],
            decreases entries@.len() - a,
        {
            let slot = entries[a].0;
            let at = entries[a].1;
            proof {
                lemma_map_of_entry(entries@, a as int);
                lemma_last_touch(self@.logs, slot, first, last, at as int);
            }
            values.insert(slot, self.logs[at].value);
            a += 1;
        }
        proof {
            assert(values@ =~= touched_slots(self@.logs, first, last)) by {
                assert forall|slot: StorageKey|
                    values@.dom().contains(slot) <==> is_touched(self@.logs, slot, first, last) by {
                    if latest@.dom().contains(slot) {
                        let x = index_of_key(entries@, slot);
                        assert(has_key(entries@, slot));
                        assert(0 <= x < a && entries@[x].0 == slot);
                    }
                    if values@.dom().contains(slot) {
                        let x = choose|x: int| 0 <= x < a && (#[trigger] entries@[x]).0 == slot;
                        lemma_map_of_entry(entries@, x);
                    }
                }
            }
        }
        values
    }
}

/// Whether `listing` lists the writes of the miniblock among the first `n`
/// writes of the log, in the order of their operation numbers.
spec fn lists_miniblock(
    logs: Seq<DbStorageLog>,
    miniblock_number: MiniblockNumber,
    listing: Seq<(H256, H256, u32)>,
    n: int,
) -> bool {
    &&& 0 <= n <= logs.len()
    &&& forall|a: int, b: int|
        0 <= a < b < listing.len() ==> (#[trigger] listing[a]).2 < (#[trigger] listing[b]).2
    &&& forall|a: int|
        0 <= a < listing.len() ==> is_item_of(logs, miniblock_number, n, #[trigger] listing[a])
    &&& forall|j: int|
        0 <= j < n && (#[trigger] logs[j]).miniblock_number == miniblock_number ==> lists_write(
            listing,
            logs[j],
        )
}

/// Whether `item` lists one of the first `n` writes of the log, a write of
/// the miniblock.
spec fn is_item_of(
    logs: Seq<DbStorageLog>,
    miniblock_number: MiniblockNumber,
    n: int,
    item: (H256, H256, u32),
) -> bool {
    exists|j: int|
        0 <= j < n && j < logs.len() && (#[trigger] logs[j]).miniblock_number == miniblock_number
            && is_listed_as(logs[j], item)
}

/// The place in `listing` of the first item whose operation number is not
/// below `operation_number`.
fn place_of_operation(listing: &Vec<(H256, H256, u32)>, operation_number: u32) -> (p: usize)
    ensures
        p <= listing@.len(),
        forall|a: int| 0 <= a < p ==> (#[trigger] listing@[a]).2 < operation_number,
        p < listing@.len() ==> operation_number <= listing@[p as int].2,
{
    let mut p: usize = 0;
    while p < listing.len()
        invariant
            p <= listing@.len(),
            forall|a: int| 0 <= a < p ==> (#[trigger] listing@[a]).2 < operation_number,
        decreases listing@.len() - p,
    {
        if listing[p].2 >= operation_number {
            return p;
        }
        p += 1;
    }
    p
}

/// A write of another miniblock changes nothing for the listing.
proof fn lemma_list_skips(
    logs: Seq<DbStorageLog>,
    miniblock_number: MiniblockNumber,
    listing: Seq<(H256, H256, u32)>,
    n: int,
)
    requires
        lists_miniblock(logs, miniblock_number, listing, n),
        n < logs.len(),
        logs[n].miniblock_number != miniblock_number,
    ensures
        lists_miniblock(logs, miniblock_number, listing, n + 1),
{
    assert forall|a: int| 0 <= a < listing.len() implies is_item_of(
        logs,
        miniblock_number,
        n + 1,
        #[trigger] listing[a],
    ) by {
        assert(is_item_of(logs, miniblock_number, n, listing[a]));
        let j = choose|j: int|
            0 <= j < n && j < logs.len() && (#[trigger] logs[j]).miniblock_number
                == miniblock_number && is_listed_as(logs[j], listing[a]);
        assert(0 <= j < n + 1);
    }
}

/// The listing with the next write of the miniblock put at its place lists
/// one write more.
proof fn lemma_list_inserts(
    logs: Seq<DbStorageLog>,
    miniblock_number: MiniblockNumber,
    listing: Seq<(H256, H256, u32)>,
    p: int,
    n: int,
    item: (H256, H256, u32),
)
    requires
        positions_unique(logs),
        operations_fit(logs),
        lists_miniblock(logs, miniblock_number, listing, n),
        n < logs.len(),
        logs[n].miniblock_number == miniblock_number,
        is_listed_as(logs[n], item),
        0 <= p <= listing.len(),
        forall|a: int| 0 <= a < p ==> (#[trigger] listing[a]).2 < item.2,
        p < listing.len() ==> item.2 <= listing[p].2,
    ensures
        lists_miniblock(logs, miniblock_number, listing.insert(p, item), n + 1),
{
    let after = listing.insert(p, item);
    assert forall|a: int| p <= a < listing.len() implies item.2 < (#[trigger] listing[a]).2 by {
        if a > p {
            assert(listing[p].2 < listing[a].2);
        }
        if listing[p].2 == item.2 {
            assert(is_item_of(logs, miniblock_number, n, listing[p]));
            let j = choose|j: int|
                0 <= j < n && j < logs.len() && (#[trigger] logs[j]).miniblock_number
                    == miniblock_number && is_listed_as(logs[j], listing[p]);
            assert(logs[j].same_position(logs[n]));
        }
    }
    assert forall|a: int, b: int| 0 <= a < b < after.len() implies (#[trigger] after[a]).2 < (
    #[trigger] after[b]).2 by {
        if a < p && b < p {
            assert(after[a] == listing[a] && after[b] == listing[b]);
        } else if a < p && b == p {
            assert(after[a] == listing[a]);
        } else if a < p && b > p {
            assert(after[a] == listing[a] && after[b] == listing[b - 1]);
        } else if a == p {
            assert(after[b] == listing[b - 1]);
        } else {
            assert(after[a] == listing[a - 1] && after[b] == listing[b - 1]);
        }
    }
    assert forall|a: int| 0 <= a < after.len() implies is_item_of(
        logs,
        miniblock_number,
        n + 1,
        #[trigger] after[a],
    ) by {
        if a == p {
            assert(is_listed_as(logs[n], after[a]));
        } else {
            let b = if a < p {
                a
            } else {
                a - 1
            };
            assert(after[a] == listing[b]);
            assert(is_item_of(logs, miniblock_number, n, listing[b]));
            let j = choose|j: int|
                0 <= j < n && j < logs.len() && (#[trigger] logs[j]).miniblock_number
                    == miniblock_number && is_listed_as(logs[j], listing[b]);
            assert(0 <= j < n + 1);
        }
    }
    assert forall|j: int|
        0 <= j < n + 1 && (#[trigger] logs[j]).miniblock_number
            == miniblock_number implies lists_write(after, logs[j]) by {
        if j == n {
            assert(is_listed_as(logs[j], after[p]));
        } else {
            assert(lists_write(listing, logs[j]));
            let a = choose|a: int|
                0 <= a < listing.len() && is_listed_as(logs[j], #[trigger] listing[a]);
            if a < p {
                assert(after[a] == listing[a]);
            } else {
                assert(after[a + 1] == listing[a]);
            }
        }
    }
}

/// A listing of all the log's writes of the miniblock is the miniblock's
/// listing.
proof fn lemma_lists_all(
    logs: Seq<DbStorageLog>,
    miniblock_number: MiniblockNumber,
    listing: Seq<(H256, H256, u32)>,
)
    requires
        lists_miniblock(logs, miniblock_number, listing, logs.len() as int),
    ensures
        is_miniblock_listing(logs, miniblock_number, listing),
{
    assert forall|a: int| 0 <= a < listing.len() implies is_write_of(
        logs,
        miniblock_number,
        #[trigger] listing[a],
    ) by {
        assert(is_item_of(logs, miniblock_number, logs.len() as int, listing[a]));
        let j = choose|j: int|
            0 <= j < logs.len() && j < logs.len() && (#[trigger] logs[j]).miniblock_number
                == miniblock_number && is_listed_as(logs[j], listing[a]);
        assert(0 <= j < logs.len() && logs[j].miniblock_number == miniblock_number
            && is_listed_as(logs[j], listing[a]));
    }
}

} // verus!
