//! Writing and reading the index of first writes.

use crate::basic_types::{H256, L1BatchNumber};
use crate::error::DalError;
use crate::keyed_map::{distinct_keys, HashedKeyMap, index_of_key, lemma_map_of_entry, map_of};
use crate::ledger::first_writes::{
    accepts_initial_writes, accepts_records, holds_records, is_max_leaf, leaf_is_taken,
    lemma_max_leaf, max_leaf, records_initial_writes, snapshot_records_of,
};
use crate::ledger::leaves_unique;
use crate::models::{InitialWrite, SnapshotStorageLog};
use crate::storage_logs_dal::rows::snapshot_records;
use crate::storage_logs_dal::StorageLogsDal;
use vstd::prelude::*;

verus! {

impl StorageLogsDal {
    /// The largest leaf in the index of first writes; zero where the index is
    /// empty.
    pub fn max_enumeration_index(&self) -> (r: u64)
        ensures
            r == max_leaf(self@.initial_writes),
            is_max_leaf(self@.initial_writes, r as int),
    {
        let entries = self.initial_writes.entries();
        let mut max: u64 = 0;
        let mut i: usize = 0;
        while i < entries.len()
            invariant
                i <= entries@.len(),
                forall|j: int| 0 <= j < i ==> (#[trigger] entries@[j]).1.1 <= max,
                max == 0 || exists|j: int| 0 <= j < i && (#[trigger] entries@[j]).1.1 == max,
            decreases entries@.len() - i,
        {
            if entries[i].1.1 > max {
                max = entries[i].1.1;
            }
            i += 1;
        }
        proof {
            let index = self@.initial_writes;
            assert forall|key: H256| index.dom().contains(key) implies (#[trigger] index[key]).1
                <= max by {
                let j = index_of_key(entries@, key);
                lemma_map_of_entry(entries@, j);
            }
            if max != 0 {
                let j = choose|j: int| 0 <= j < i && (#[trigger] entries@[j]).1.1 == max;
                lemma_map_of_entry(entries@, j);
                assert(index.dom().contains(entries@[j].0) && index[entries@[j].0].1 == max);
            }
            assert(is_max_leaf(index, max as int));
            lemma_max_leaf(index, max as int);
        }
        max
    }

    /// Records `hashed_keys` as first written in the batch `l1_batch_number`,
    /// all of them or none. Each key gets a leaf: the leaves that follow the
    /// largest leaf of the index, in the order of the keys. The write is
    /// rejected where a key is indexed already or occurs twice, or where the
    /// leaves run out.
    pub fn insert_initial_writes(
        &mut self,
        l1_batch_number: L1BatchNumber,
        hashed_keys: &[H256],
    ) -> (r: Result<(), DalError>)
        ensures
            final(self)@.well_formed(),
            final(self)@.logs == old(self)@.logs,
            match r {
                Ok(()) => {
                    &&& accepts_initial_writes(old(self)@.initial_writes, hashed_keys@)
                    &&& records_initial_writes(
                        old(self)@.initial_writes,
                        final(self)@.initial_writes,
                        l1_batch_number,
                        hashed_keys@,
                    )
                },
                Err(e) => {
                    &&& e == DalError::StorageFault
                    &&& !accepts_initial_writes(old(self)@.initial_writes, hashed_keys@)
                    &&& final(self)@ == old(self)@
                },
            },
    {
        proof {
            use_type_invariant(&*self);
        }
        let max = self.max_enumeration_index();
        if hashed_keys.len() as u64 > u64::MAX - max {
            return Err(DalError::StorageFault);
        }
        let mut i: usize = 0;
        while i < hashed_keys.len()
            invariant
                i <= hashed_keys@.len(),
                self@ == old(self)@,
                self@.well_formed(),
                forall|a: int|
                    0 <= a < i ==> !self@.initial_writes.dom().contains(#[trigger] hashed_keys@[a]),
                forall|a: int, b: int| 0 <= a < b < i ==> hashed_keys@[a] != hashed_keys@[b],
            decreases hashed_keys@.len() - i,
        {
            if self.initial_writes.contains_key(&hashed_keys[i]) {
                return Err(DalError::StorageFault);
            }
            let mut k: usize = 0;
            while k < i
                invariant
                    k <= i < hashed_keys@.len(),
                    self@ == old(self)@,
                    self@.well_formed(),
                    forall|a: int| 0 <= a < k ==> hashed_keys@[a] != hashed_keys@[i as int],
                decreases i - k,
            {
                if hashed_keys[k] == hashed_keys[i] {
                    return Err(DalError::StorageFault);
                }
                k += 1;
            }
            i += 1;
        }
        let ghost before = self@.initial_writes;
        let mut index: HashedKeyMap<(L1BatchNumber, u64)> = HashedKeyMap::new();
        std::mem::swap(&mut index, &mut self.initial_writes);
        let mut i: usize = 0;
        while i < hashed_keys.len()
            invariant
                i <= hashed_keys@.len(),
                hashed_keys@.len() <= u64::MAX - max,
                hashed_keys@.no_duplicates(),
                forall|a: int| 0 <= a < hashed_keys@.len() ==> !before.dom().contains(
                    #[trigger] hashed_keys@[a],
                ),
                is_max_leaf(before, max as int),
                leaves_unique(before),
                index@.dom().finite(),
                forall|key: H256|
                    index@.dom().contains(key) <==> (before.dom().contains(key) || exists|a: int|
                        0 <= a < i && hashed_keys@[a] == key),
                forall|key: H256| before.dom().contains(key) ==> #[trigger] index@[key] == before[key],
                forall|a: int|
                    0 <= a < i ==> index@[#[trigger] hashed_keys@[a]] == (
                        l1_batch_number,
                        (max + 1 + a) as u64,
                    ),
            decreases hashed_keys@.len() - i,
        {
            let leaf: u64 = max + 1 + i as u64;
            index.insert(hashed_keys[i], (l1_batch_number, leaf));
            i += 1;
        }
        proof {
            assert(index@.dom() =~= before.dom().union(hashed_keys@.to_set()));
            assert forall|a: H256, b: H256|
                index@.dom().contains(a) && index@.dom().contains(b) && a != b implies (
            #[trigger] index@[a]).1 != (#[trigger] index@[b]).1 by {
                if !before.dom().contains(a) {
                    let x = choose|x: int| 0 <= x < i && hashed_keys@[x] == a;
                    assert(index@[hashed_keys@[x]].1 == max + 1 + x);
                }
                if !before.dom().contains(b) {
                    let y = choose|y: int| 0 <= y < i && hashed_keys@[y] == b;
                    assert(index@[hashed_keys@[y]].1 == max + 1 + y);
                }
            }
        }
        self.initial_writes = index;
        Ok(())
    }

    /// Whether some key of the index has the leaf `leaf`.
    fn leaf_is_used(&self, leaf: u64) -> (r: bool)
        ensures
            r == leaf_is_taken(self@.initial_writes, leaf),
    {
        let entries = self.initial_writes.entries();
        let mut i: usize = 0;
        while i < entries.len()
            invariant
                i <= entries@.len(),
                distinct_keys(entries@),
                map_of(entries@) == self@.initial_writes,
                forall|j: int| 0 <= j < i ==> (#[trigger] entries@[j]).1.1 != leaf,
            decreases entries@.len() - i,
        {
            if entries[i].1.1 == leaf {
                proof {
                    lemma_map_of_entry(entries@, i as int);
                }
                return true;
            }
            i += 1;
        }
        proof {
            assert forall|key: H256| self@.initial_writes.dom().contains(key) implies (
            #[trigger] self@.initial_writes[key]).1 != leaf by {
                let j = index_of_key(entries@, key);
                lemma_map_of_entry(entries@, j);
            }
        }
        false
    }

    /// Adds `records` to the index of first writes, all of them or none. The
    /// records are accepted where none of their keys and leaves is in the
    /// index and none occurs twice among them; otherwise the write is
    /// rejected and the ledger stays as it was.
    pub fn insert_initial_write_records(&mut self, records: &[InitialWrite]) -> (r: Result<
        (),
        DalError,
    >)
        ensures
            final(self)@.well_formed(),
            final(self)@.logs == old(self)@.logs,
            match r {
                Ok(()) => {
                    &&& accepts_records(old(self)@.initial_writes, records@)
                    &&& holds_records(
                        old(self)@.initial_writes,
                        final(self)@.initial_writes,
                        records@,
                    )
                },
                Err(e) => {
                    &&& e == DalError::StorageFault
                    &&& !accepts_records(old(self)@.initial_writes, records@)
                    &&& final(self)@ == old(self)@
                },
            },
    {
        proof {
            use_type_invariant(&*self);
        }
        let mut i: usize = 0;
        while i < records.len()
            invariant
                i <= records@.len(),
                self@ == old(self)@,
                self@.well_formed(),
                forall|a: int|
                    0 <= a < i ==> !self@.initial_writes.dom().contains(
                        (#[trigger] records@[a]).hashed_key,
                    ) && !leaf_is_taken(self@.initial_writes, records@[a].index),
                forall|a: int, b: int|
                    0 <= a < b < i ==> (#[trigger] records@[a]).hashed_key != (
                    #[trigger] records@[b]).hashed_key && records@[a].index != records@[b].index,
            decreases records@.len() - i,
        {
            let record = &records[i];
            if self.initial_writes.contains_key(&record.hashed_key) {
                return Err(DalError::StorageFault);
            }
            if self.leaf_is_used(record.index) {
                return Err(DalError::StorageFault);
            }
            let mut k: usize = 0;
            while k < i
                invariant
                    k <= i < records@.len(),
                    self@ == old(self)@,
                    self@.well_formed(),
                    *record == records@[i as int],
                    forall|a: int|
                        0 <= a < k ==> (#[trigger] records@[a]).hashed_key != record.hashed_key
                            && records@[a].index != record.index,
                decreases i - k,
            {
                if records[k].hashed_key == record.hashed_key || records[k].index == record.index {
                    return Err(DalError::StorageFault);
                }
                k += 1;
            }
            i += 1;
        }
        let ghost before = self@.initial_writes;
        let mut index: HashedKeyMap<(L1BatchNumber, u64)> = HashedKeyMap::new();
        std::mem::swap(&mut index, &mut self.initial_writes);
        let mut i: usize = 0;
        while i < records.len()
            invariant
                i <= records@.len(),
                accepts_records(before, records@),
                leaves_unique(before),
                index@.dom().finite(),
                forall|key: H256|
                    index@.dom().contains(key) <==> (before.dom().contains(key) || exists|a: int|
                        0 <= a < i && (#[trigger] records@[a]).hashed_key == key),
                forall|key: H256| before.dom().contains(key) ==> #[trigger] index@[key] == before[key],
                forall|a: int|
                    0 <= a < i ==> index@[(#[trigger] records@[a]).hashed_key] == (
                        records@[a].l1_batch_number,
                        records@[a].index,
                    ),
            decreases records@.len() - i,
        {
            let record = &records[i];
            index.insert(record.hashed_key, (record.l1_batch_number, record.index));
            i += 1;
        }
        proof {
            assert forall|a: H256, b: H256|
                index@.dom().contains(a) && index@.dom().contains(b) && a != b implies (
            #[trigger] index@[a]).1 != (#[trigger] index@[b]).1 by {
                if before.dom().contains(a) && !before.dom().contains(b) {
                    let y = choose|y: int| 0 <= y < i && (#[trigger] records@[y]).hashed_key == b;
                    assert(!leaf_is_taken(before, records@[y].index));
                    assert(before[a].1 != records@[y].index);
                } else if !before.dom().contains(a) && before.dom().contains(b) {
                    let x = choose|x: int| 0 <= x < i && (#[trigger] records@[x]).hashed_key == a;
                    assert(!leaf_is_taken(before, records@[x].index));
                    assert(before[b].1 != records@[x].index);
                } else if !before.dom().contains(a) && !before.dom().contains(b) {
                    let x = choose|x: int| 0 <= x < i && (#[trigger] records@[x]).hashed_key == a;
                    let y = choose|y: int| 0 <= y < i && (#[trigger] records@[y]).hashed_key == b;
                    if x < y {
                        assert(records@[x].index != records@[y].index);
                    } else {
                        assert(records@[y].index != records@[x].index);
                    }
                }
            }
        }
        self.initial_writes = index;
        Ok(())
    }

    /// Adds to the index of first writes what the entries of a snapshot of
    /// the state tell of the first writes of their keys, all of it or
    /// nothing.
    pub fn insert_initial_writes_from_snapshot(
        &mut self,
        snapshot_storage_logs: &[SnapshotStorageLog],
    ) -> (r: Result<(), DalError>)
        ensures
            final(self)@.well_formed(),
            final(self)@.logs == old(self)@.logs,
            match r {
                Ok(()) => {
                    &&& accepts_records(
                        old(self)@.initial_writes,
                        snapshot_records_of(snapshot_storage_logs@),
                    )
                    &&& holds_records(
                        old(self)@.initial_writes,
                        final(self)@.initial_writes,
                        snapshot_records_of(snapshot_storage_logs@),
                    )
                },
                Err(e) => {
                    &&& e == DalError::StorageFault
                    &&& !accepts_records(
                        old(self)@.initial_writes,
                        snapshot_records_of(snapshot_storage_logs@),
                    )
                    &&& final(self)@ == old(self)@
                },
            },
    {
        let records = snapshot_records(snapshot_storage_logs);
        self.insert_initial_write_records(records.as_slice())
    }

    /// For each of `hashed_keys` that was ever truly created, the batch of its
    /// first write and the leaf that the state tree gave it. A key that is not
    /// indexed is not a key of the result.
    pub fn get_l1_batches_and_indices_for_initial_writes(&self, hashed_keys: &[H256]) -> (r:
        HashedKeyMap<(L1BatchNumber, u64)>)
        ensures
            r@ == self@.initial_writes.restrict(hashed_keys@.to_set()),
    {
        let mut found: HashedKeyMap<(L1BatchNumber, u64)> = HashedKeyMap::new();
        if hashed_keys.len() == 0 {
            proof {
                assert(found@ =~= self@.initial_writes.restrict(hashed_keys@.to_set()));
            }
            return found;
        }
        let mut i: usize = 0;
        while i < hashed_keys.len()
            invariant
                i <= hashed_keys@.len(),
                forall|key: H256|
                    found@.dom().contains(key) <==> (self@.initial_writes.dom().contains(key)
                        && exists|j: int| 0 <= j < i && hashed_keys@[j] == key),
                forall|key: H256|
                    found@.dom().contains(key) ==> #[trigger] found@[key]
                        == self@.initial_writes[key],
            decreases hashed_keys@.len() - i,
        {
            let key = hashed_keys[i];
            match self.initial_writes.get(&key) {
                Some(record) => {
                    found.insert(key, *record);
                },
                None => {},
            }
            i += 1;
        }
        proof {
            assert(found@ =~= self@.initial_writes.restrict(hashed_keys@.to_set())) by {
                assert forall|key: H256|
                    found@.dom().contains(key) <==> (self@.initial_writes.dom().contains(key)
                        && hashed_keys@.to_set().contains(key)) by {
                    if hashed_keys@.to_set().contains(key) {
                        let j = choose|j: int|
                            0 <= j < hashed_keys@.len() && hashed_keys@[j] == key;
                        assert(0 <= j < i && hashed_keys@[j] == key);
                    }
                }
            }
        }
        found
    }
}

} // verus!
