//! Scanning the chunks of a miniblock for the recovery of the state tree.

use crate::basic_types::{H256, MiniblockNumber};
use crate::error::DalError;
use crate::ledger::recovery::{
    chunk_is_indexed, chunk_is_written, chunk_start, chunk_start_is_indexed, in_chunk, is_chunk_key,
    is_first_chunk_key, is_tree_listing, lemma_first_chunk_key, ranges_ascend, recovery_entry,
};
use crate::ledger::values::{is_latest, lemma_last_in_miniblock_is_latest, lemma_value_at_latest};
use crate::models::{DbStorageLog, KeyRange, StorageRecoveryLogEntry};
use crate::storage_logs_dal::rows::written_before;
use crate::storage_logs_dal::StorageLogsDal;
use vstd::prelude::*;

verus! {

impl StorageLogsDal {
    /// The place of the last write to the smallest key of the chunk.
    fn chunk_start_index(&self, miniblock_number: MiniblockNumber, range: &KeyRange) -> (r: Option<
        usize,
    >)
        ensures
            match r {
                Some(b) => {
                    &&& b < self@.logs.len()
                    &&& is_first_chunk_key(
                        self@.logs,
                        miniblock_number,
                        *range,
                        self@.logs[b as int].hashed_key,
                    )
                    &&& is_latest(
                        self@.logs,
                        self@.logs[b as int].hashed_key,
                        miniblock_number,
                        b as int,
                    )
                },
                None => !chunk_is_written(self@.logs, miniblock_number, *range),
            },
    {
        let mut best: Option<usize> = None;
        let mut i: usize = 0;
        while i < self.logs.len()
            invariant
                i <= self.logs@.len(),
                match best {
                    Some(b) => {
                        &&& b < i
                        &&& in_chunk(self.logs@[b as int], miniblock_number, *range)
                        &&& forall|j: int|
                            0 <= j < i && in_chunk(#[trigger] self.logs@[j], miniblock_number, *range)
                                ==> self.logs@[b as int].hashed_key.as_nat()
                                < self.logs@[j].hashed_key.as_nat() || (self.logs@[b as int].hashed_key
                                == self.logs@[j].hashed_key && !self.logs@[b as int].precedes(
                                self.logs@[j],
                            ))
                    },
                    None => forall|j: int|
                        0 <= j < i ==> !in_chunk(#[trigger] self.logs@[j], miniblock_number, *range),
                },
            decreases self.logs@.len() - i,
        {
            let entry = &self.logs[i];
            if entry.miniblock_number.0 == miniblock_number.0 && range.contains(&entry.hashed_key) {
                match best {
                    Some(b) => {
                        let held = &self.logs[b];
                        if entry.hashed_key.lt(&held.hashed_key) {
                            best = Some(i);
                        } else if entry.hashed_key == held.hashed_key {
                            if written_before(held, entry) {
                                best = Some(i);
                            }
                        } else {
                            proof {
                                if entry.hashed_key.as_nat() == held.hashed_key.as_nat() {
                                    H256::lemma_as_nat_injective(entry.hashed_key, held.hashed_key);
                                }
                            }
                        }
                    },
                    None => {
                        best = Some(i);
                    },
                }
            }
            i += 1;
        }
        proof {
            match best {
                Some(b) => {
                    let key = self.logs@[b as int].hashed_key;
                    assert(is_chunk_key(self@.logs, miniblock_number, *range, key));
                    assert forall|other: H256| #[trigger]
                        is_chunk_key(
                            self@.logs,
                            miniblock_number,
                            *range,
                            other,
                        ) implies key.as_nat() <= other.as_nat() by {
                        let j = choose|j: int|
                            0 <= j < self@.logs.len() && in_chunk(
                                #[trigger] self@.logs[j],
                                miniblock_number,
                                *range,
                            ) && self@.logs[j].hashed_key == other;
                    }
                    lemma_last_in_miniblock_is_latest(self@.logs, miniblock_number, b as int);
                },
                None => {},
            }
        }
        best
    }

    /// The entry with which each chunk of the miniblock `miniblock_number`
    /// starts: for each of `key_ranges`, the tree entry of the smallest key
    /// of the range that was written in the miniblock, or nothing where no
    /// key of the range was. Where such a smallest key is not indexed, the
    /// log and the index have diverged and nothing is returned.
    ///
    /// Where the ranges are sorted and do not overlap, the keys of the
    /// entries ascend with the ranges.
    pub fn get_chunk_starts_for_miniblock(
        &self,
        miniblock_number: MiniblockNumber,
        key_ranges: &[KeyRange],
    ) -> (r: Result<Vec<Option<StorageRecoveryLogEntry>>, DalError>)
        ensures
            match r {
                Ok(starts) => {
                    &&& forall|i: int|
                        0 <= i < key_ranges@.len() ==> chunk_start_is_indexed(
                            self@,
                            miniblock_number,
                            #[trigger] key_ranges@[i],
                        )
                    &&& starts@.len() == key_ranges@.len()
                    &&& forall|i: int|
                        0 <= i < starts@.len() ==> #[trigger] starts@[i] == chunk_start(
                            self@,
                            miniblock_number,
                            key_ranges@[i],
                        )
                    &&& forall|i: int|
                        0 <= i < starts@.len() ==> ((#[trigger] starts@[i]) matches Some(entry)
                            ==> key_ranges@[i].spec_contains(entry.key))
                    &&& ranges_ascend(key_ranges@) ==> forall|a: int, b: int|
                        0 <= a < b < starts@.len() && (#[trigger] starts@[a]) is Some && (
                        #[trigger] starts@[b]) is Some ==> starts@[a].unwrap().key.as_nat()
                            < starts@[b].unwrap().key.as_nat()
                },
                Err(e) => {
                    &&& e == DalError::ConsistencyFault
                    &&& exists|i: int|
                        0 <= i < key_ranges@.len() && !chunk_start_is_indexed(
                            self@,
                            miniblock_number,
                            #[trigger] key_ranges@[i],
                        )
                },
            },
    {
        proof {
            use_type_invariant(self);
        }
        let mut starts: Vec<Option<StorageRecoveryLogEntry>> = Vec::new();
        let mut i: usize = 0;
        while i < key_ranges.len()
            invariant
                i <= key_ranges@.len(),
                self@.well_formed(),
                starts@.len() == i,
                forall|j: int|
                    0 <= j < i ==> chunk_start_is_indexed(
                        self@,
                        miniblock_number,
                        #[trigger] key_ranges@[j],
                    ),
                forall|j: int|
                    0 <= j < i ==> #[trigger] starts@[j] == chunk_start(
                        self@,
                        miniblock_number,
                        key_ranges@[j],
                    ),
                forall|j: int|
                    0 <= j < i ==> ((#[trigger] starts@[j]) matches Some(entry)
                        ==> key_ranges@[j].spec_contains(entry.key)),
            decreases key_ranges@.len() - i,
        {
            let range = &key_ranges[i];
            match self.chunk_start_index(miniblock_number, range) {
                Some(b) => {
                    let entry = &self.logs[b];
                    proof {
                        lemma_first_chunk_key(
                            self@.logs,
                            miniblock_number,
                            *range,
                            entry.hashed_key,
                        );
                        lemma_value_at_latest(
                            self@.logs,
                            entry.hashed_key,
                            miniblock_number,
                            b as int,
                        );
                        assert(chunk_is_written(self@.logs, miniblock_number, *range)) by {
                            let j = choose|j: int|
                                0 <= j < self@.logs.len() && in_chunk(
                                    #[trigger] self@.logs[j],
                                    miniblock_number,
                                    *range,
                                ) && self@.logs[j].hashed_key == entry.hashed_key;
                        }
                    }
                    match self.initial_writes.get(&entry.hashed_key) {
                        Some(record) => {
                            starts.push(
                                Some(
                                    StorageRecoveryLogEntry {
                                        key: entry.hashed_key,
                                        value: entry.value,
                                        leaf_index: record.1,
                                    },
                                ),
                            );
                        },
                        None => {
                            return Err(DalError::ConsistencyFault);
                        },
                    }
                },
                None => {
                    starts.push(None);
                },
            }
            i += 1;
        }
        proof {
            if ranges_ascend(key_ranges@) {
                assert forall|a: int, b: int|
                    0 <= a < b < starts@.len() && (#[trigger] starts@[a]) is Some && (
                    #[trigger] starts@[b]) is Some implies starts@[a].unwrap().key.as_nat()
                    < starts@[b].unwrap().key.as_nat() by {
                    assert(key_ranges@[a].spec_contains(starts@[a].unwrap().key));
                    assert(key_ranges@[b].spec_contains(starts@[b].unwrap().key));
                    assert(key_ranges@[a].end.as_nat() < key_ranges@[b].start.as_nat());
                }
            }
        }
        Ok(starts)
    }

    /// The tree entries of the chunk `key_range` of the miniblock
    /// `miniblock_number`: for each key of the range that was written in the
    /// miniblock, the key, its value as of the miniblock and its leaf, in the
    /// order of the keys. Where one of these keys is not indexed, the log
    /// and the index have diverged and nothing is returned.
    pub fn get_tree_entries_for_miniblock(
        &self,
        miniblock_number: MiniblockNumber,
        key_range: KeyRange,
    ) -> (r: Result<Vec<StorageRecoveryLogEntry>, DalError>)
        ensures
            match r {
                Ok(entries) => {
                    &&& chunk_is_indexed(self@, miniblock_number, key_range)
                    &&& is_tree_listing(self@, miniblock_number, key_range, entries@)
                },
                Err(e) => {
                    &&& e == DalError::ConsistencyFault
                    &&& !chunk_is_indexed(self@, miniblock_number, key_range)
                },
            },
    {
        proof {
            use_type_invariant(self);
        }
        let mut held: Vec<DbStorageLog> = Vec::new();
        let mut i: usize = 0;
        while i < self.logs.len()
            invariant
                i <= self.logs@.len(),
                holds_chunk(self.logs@, miniblock_number, key_range, held@, i as int),
            decreases self.logs@.len() - i,
        {
            let entry = &self.logs[i];
            proof {
                lemma_holds_chunk_grows(self.logs@, miniblock_number, key_range, held@, i as int);
            }
            if entry.miniblock_number.0 == miniblock_number.0 && key_range.contains(
                &entry.hashed_key,
            ) {
                hold(
                    &mut held,
                    entry,
                    Ghost(self.logs@),
                    Ghost(i as int),
                    Ghost(miniblock_number),
                    Ghost(key_range),
                );
            }
            i += 1;
        }
        let mut entries: Vec<StorageRecoveryLogEntry> = Vec::new();
        let mut a: usize = 0;
        while a < held.len()
            invariant
                a <= held@.len(),
                entries@.len() == a,
                self@.well_formed(),
                holds_chunk(
                    self.logs@,
                    miniblock_number,
                    key_range,
                    held@,
                    self.logs@.len() as int,
                ),
                forall|x: int|
                    0 <= x < a ==> (#[trigger] entries@[x]).key == held@[x].hashed_key
                        && entries@[x] == recovery_entry(self@, miniblock_number, entries@[x].key)
                        && self@.initial_writes.dom().contains(entries@[x].key),
            decreases held@.len() - a,
        {
            let entry = &held[a];
            proof {
                let j = lemma_held_is_latest(
                    self.logs@,
                    miniblock_number,
                    key_range,
                    held@,
                    a as int,
                );
                lemma_value_at_latest(self@.logs, entry.hashed_key, miniblock_number, j);
            }
            match self.initial_writes.get(&entry.hashed_key) {
                Some(record) => {
                    entries.push(
                        StorageRecoveryLogEntry {
                            key: entry.hashed_key,
                            value: entry.value,
                            leaf_index: record.1,
                        },
                    );
                },
                None => {
                    proof {
                        lemma_held_is_chunk_key(
                            self.logs@,
                            miniblock_number,
                            key_range,
                            held@,
                            a as int,
                        );
                    }
                    return Err(DalError::ConsistencyFault);
                },
            }
            a += 1;
        }
        proof {
            assert forall|x: int, y: int| 0 <= x < y < entries@.len() implies (
            #[trigger] entries@[x]).key.as_nat() < (#[trigger] entries@[y]).key.as_nat() by {
                assert(held@[x].hashed_key.as_nat() < held@[y].hashed_key.as_nat());
            }
            assert forall|x: int| 0 <= x < entries@.len() implies is_chunk_key(
                self@.logs,
                miniblock_number,
                key_range,
                (#[trigger] entries@[x]).key,
            ) by {
                lemma_held_is_chunk_key(self.logs@, miniblock_number, key_range, held@, x);
            }
            assert forall|key: H256| #[trigger]
                is_chunk_key(self@.logs, miniblock_number, key_range, key) implies (exists|x: int|
                0 <= x < entries@.len() && (#[trigger] entries@[x]).key == key)
                && self@.initial_writes.dom().contains(key) by {
                let j = choose|j: int|
                    0 <= j < self@.logs.len() && in_chunk(
                        #[trigger] self@.logs[j],
                        miniblock_number,
                        key_range,
                    ) && self@.logs[j].hashed_key == key;
                assert(covers(held@, self.logs@[j]));
                let x = choose|x: int|
                    0 <= x < held@.len() && (#[trigger] held@[x]).hashed_key
                        == self.logs@[j].hashed_key && !held@[x].precedes(self.logs@[j]);
                assert(entries@[x].key == key);
            }
        }
        Ok(entries)
    }
}

/// Whether the writes `held` stand in the order of their keys, each key once.
spec fn ascends(held: Seq<DbStorageLog>) -> bool {
    forall|a: int, b: int|
        0 <= a < b < held.len() ==> (#[trigger] held[a]).hashed_key.as_nat() < (
        #[trigger] held[b]).hashed_key.as_nat()
}

/// Whether `held` has a write to the key of `entry` that `entry` does not
/// follow.
spec fn covers(held: Seq<DbStorageLog>, entry: DbStorageLog) -> bool {
    exists|a: int|
        0 <= a < held.len() && (#[trigger] held[a]).hashed_key == entry.hashed_key
            && !held[a].precedes(entry)
}

/// Whether `entry` is one of the first `n` writes of the log.
spec fn is_logged(logs: Seq<DbStorageLog>, n: int, entry: DbStorageLog) -> bool {
    exists|j: int| 0 <= j < n && j < logs.len() && #[trigger] logs[j] == entry
}

/// Whether every write of `held` is one of the first `n` writes of the log and
/// belongs to the chunk.
spec fn held_from_chunk(
    logs: Seq<DbStorageLog>,
    miniblock_number: MiniblockNumber,
    range: KeyRange,
    held: Seq<DbStorageLog>,
    n: int,
) -> bool {
    forall|a: int|
        0 <= a < held.len() ==> is_logged(logs, n, #[trigger] held[a]) && in_chunk(
            held[a],
            miniblock_number,
            range,
        )
}

/// Whether `held` covers every write of the chunk among the first `n` writes
/// of the log.
spec fn covers_chunk(
    logs: Seq<DbStorageLog>,
    miniblock_number: MiniblockNumber,
    range: KeyRange,
    held: Seq<DbStorageLog>,
    n: int,
) -> bool {
    forall|j: int|
        0 <= j < n && j < logs.len() && in_chunk(#[trigger] logs[j], miniblock_number, range)
            ==> covers(held, logs[j])
}

/// Whether `held` holds, for each key of the chunk written among the first
/// `n` writes of the log, the last of these writes to the key, in the order
/// of the keys.
spec fn holds_chunk(
    logs: Seq<DbStorageLog>,
    miniblock_number: MiniblockNumber,
    range: KeyRange,
    held: Seq<DbStorageLog>,
    n: int,
) -> bool {
    &&& 0 <= n <= logs.len()
    &&& held_from_chunk(logs, miniblock_number, range, held, n)
    &&& ascends(held)
    &&& covers_chunk(logs, miniblock_number, range, held, n)
}

/// What is held of the first `n` writes is held of the first `n + 1`, and
/// covers them where the next write is none of the chunk.
proof fn lemma_holds_chunk_grows(
    logs: Seq<DbStorageLog>,
    miniblock_number: MiniblockNumber,
    range: KeyRange,
    held: Seq<DbStorageLog>,
    n: int,
)
    requires
        holds_chunk(logs, miniblock_number, range, held, n),
        n < logs.len(),
    ensures
        held_from_chunk(logs, miniblock_number, range, held, n + 1),
        !in_chunk(logs[n], miniblock_number, range) ==> holds_chunk(
            logs,
            miniblock_number,
            range,
            held,
            n + 1,
        ),
{
    assert forall|a: int| 0 <= a < held.len() implies is_logged(logs, n + 1, #[trigger] held[a]) by {
        assert(is_logged(logs, n, held[a]));
        let j = choose|j: int| 0 <= j < n && j < logs.len() && #[trigger] logs[j] == held[a];
        assert(0 <= j < n + 1 && logs[j] == held[a]);
    }
}

/// A write put between the smaller keys and the larger keeps the order.
proof fn lemma_insert_ascends(held: Seq<DbStorageLog>, p: int, entry: DbStorageLog)
    requires
        ascends(held),
        0 <= p <= held.len(),
        forall|a: int| 0 <= a < p ==> (#[trigger] held[a]).hashed_key.as_nat()
            < entry.hashed_key.as_nat(),
        forall|a: int| p <= a < held.len() ==> entry.hashed_key.as_nat() < (
        #[trigger] held[a]).hashed_key.as_nat(),
    ensures
        ascends(held.insert(p, entry)),
{
    let after = held.insert(p, entry);
    assert forall|a: int, b: int| 0 <= a < b < after.len() implies (
    #[trigger] after[a]).hashed_key.as_nat() < (#[trigger] after[b]).hashed_key.as_nat() by {
        if a < p && b < p {
            assert(after[a] == held[a] && after[b] == held[b]);
        } else if a < p && b == p {
            assert(after[a] == held[a]);
        } else if a < p && b > p {
            assert(after[a] == held[a] && after[b] == held[b - 1]);
        } else if a == p {
            assert(after[b] == held[b - 1]);
        } else {
            assert(after[a] == held[a - 1] && after[b] == held[b - 1]);
        }
    }
}

/// A write put into `held` is covered, and so is what was covered before.
proof fn lemma_insert_covers(
    held: Seq<DbStorageLog>,
    p: int,
    entry: DbStorageLog,
    other: DbStorageLog,
)
    requires
        0 <= p <= held.len(),
    ensures
        covers(held, other) ==> covers(held.insert(p, entry), other),
        covers(held.insert(p, entry), entry),
{
    let after = held.insert(p, entry);
    assert(after[p] == entry);
    if covers(held, other) {
        let a = choose|a: int|
            0 <= a < held.len() && (#[trigger] held[a]).hashed_key == other.hashed_key
                && !held[a].precedes(other);
        if a < p {
            assert(after[a] == held[a]);
        } else {
            assert(after[a + 1] == held[a]);
        }
    }
}

/// A later write to the same key put in the place of an earlier one is
/// covered, and so is what was covered before.
proof fn lemma_update_covers(
    held: Seq<DbStorageLog>,
    p: int,
    entry: DbStorageLog,
    other: DbStorageLog,
)
    requires
        0 <= p < held.len(),
        held[p].hashed_key == entry.hashed_key,
        held[p].precedes(entry),
    ensures
        covers(held, other) ==> covers(held.update(p, entry), other),
        covers(held.update(p, entry), entry),
{
    let after = held.update(p, entry);
    assert(after[p] == entry);
    if covers(held, other) {
        let a = choose|a: int|
            0 <= a < held.len() && (#[trigger] held[a]).hashed_key == other.hashed_key
                && !held[a].precedes(other);
        if a != p {
            assert(after[a] == held[a]);
        }
    }
}

/// Taking the next write in the place of an earlier write to its key.
proof fn lemma_hold_replaces(
    logs: Seq<DbStorageLog>,
    miniblock_number: MiniblockNumber,
    range: KeyRange,
    held: Seq<DbStorageLog>,
    p: int,
    n: int,
)
    requires
        0 <= n < logs.len(),
        in_chunk(logs[n], miniblock_number, range),
        holds_chunk(logs, miniblock_number, range, held, n),
        0 <= p < held.len(),
        held[p].hashed_key == logs[n].hashed_key,
        held[p].precedes(logs[n]),
    ensures
        holds_chunk(logs, miniblock_number, range, held.update(p, logs[n]), n + 1),
{
    let entry = logs[n];
    let after = held.update(p, entry);
    lemma_holds_chunk_grows(logs, miniblock_number, range, held, n);
    assert(ascends(after)) by {
        assert forall|a: int, b: int| 0 <= a < b < after.len() implies (
        #[trigger] after[a]).hashed_key.as_nat() < (#[trigger] after[b]).hashed_key.as_nat() by {
            assert(held[a].hashed_key.as_nat() < held[b].hashed_key.as_nat());
        }
    }
    assert(held_from_chunk(logs, miniblock_number, range, after, n + 1)) by {
        assert forall|a: int| 0 <= a < after.len() implies is_logged(
            logs,
            n + 1,
            #[trigger] after[a],
        ) && in_chunk(after[a], miniblock_number, range) by {
            if a != p {
                assert(after[a] == held[a]);
            }
        }
    }
    assert(covers_chunk(logs, miniblock_number, range, after, n + 1)) by {
        assert forall|j: int|
            0 <= j < n + 1 && j < logs.len() && in_chunk(
                #[trigger] logs[j],
                miniblock_number,
                range,
            ) implies covers(after, logs[j]) by {
            lemma_update_covers(held, p, entry, logs[j]);
        }
    }
}

/// Leaving the next write out where a later write to its key is held.
proof fn lemma_hold_keeps(
    logs: Seq<DbStorageLog>,
    miniblock_number: MiniblockNumber,
    range: KeyRange,
    held: Seq<DbStorageLog>,
    p: int,
    n: int,
)
    requires
        0 <= n < logs.len(),
        in_chunk(logs[n], miniblock_number, range),
        holds_chunk(logs, miniblock_number, range, held, n),
        0 <= p < held.len(),
        held[p].hashed_key == logs[n].hashed_key,
        !held[p].precedes(logs[n]),
    ensures
        holds_chunk(logs, miniblock_number, range, held, n + 1),
{
    lemma_holds_chunk_grows(logs, miniblock_number, range, held, n);
    assert(covers(held, logs[n]));
}

/// Taking the next write in where no write to its key is held.
proof fn lemma_hold_inserts(
    logs: Seq<DbStorageLog>,
    miniblock_number: MiniblockNumber,
    range: KeyRange,
    held: Seq<DbStorageLog>,
    p: int,
    n: int,
)
    requires
        0 <= n < logs.len(),
        in_chunk(logs[n], miniblock_number, range),
        holds_chunk(logs, miniblock_number, range, held, n),
        0 <= p <= held.len(),
        forall|a: int|
            0 <= a < p ==> (#[trigger] held[a]).hashed_key.as_nat() < logs[n].hashed_key.as_nat(),
        p < held.len() ==> logs[n].hashed_key.as_nat() <= held[p].hashed_key.as_nat()
            && logs[n].hashed_key != held[p].hashed_key,
    ensures
        holds_chunk(logs, miniblock_number, range, held.insert(p, logs[n]), n + 1),
{
    let entry = logs[n];
    let after = held.insert(p, entry);
    lemma_holds_chunk_grows(logs, miniblock_number, range, held, n);
    assert forall|a: int| p <= a < held.len() implies entry.hashed_key.as_nat() < (
    #[trigger] held[a]).hashed_key.as_nat() by {
        let first = held[p].hashed_key;
        if first.as_nat() == entry.hashed_key.as_nat() {
            H256::lemma_as_nat_injective(first, entry.hashed_key);
        }
        if a > p {
            assert(held[p].hashed_key.as_nat() < held[a].hashed_key.as_nat());
        }
    }
    lemma_insert_ascends(held, p, entry);
    assert(held_from_chunk(logs, miniblock_number, range, after, n + 1)) by {
        assert forall|a: int| 0 <= a < after.len() implies is_logged(
            logs,
            n + 1,
            #[trigger] after[a],
        ) && in_chunk(after[a], miniblock_number, range) by {
            if a < p {
                assert(after[a] == held[a]);
            } else if a > p {
                assert(after[a] == held[a - 1]);
            }
        }
    }
    assert(covers_chunk(logs, miniblock_number, range, after, n + 1)) by {
        assert forall|j: int|
            0 <= j < n + 1 && j < logs.len() && in_chunk(
                #[trigger] logs[j],
                miniblock_number,
                range,
            ) implies covers(after, logs[j]) by {
            lemma_insert_covers(held, p, entry, logs[j]);
        }
    }
}

/// The place in `held` of the first write whose key does not come before
/// `key`.
fn place_for(held: &Vec<DbStorageLog>, key: &H256) -> (p: usize)
    ensures
        p <= held@.len(),
        forall|a: int| 0 <= a < p ==> (#[trigger] held@[a]).hashed_key.as_nat() < key.as_nat(),
        p < held@.len() ==> key.as_nat() <= held@[p as int].hashed_key.as_nat(),
{
    let mut p: usize = 0;
    while p < held.len()
        invariant
            p <= held@.len(),
            forall|a: int| 0 <= a < p ==> (#[trigger] held@[a]).hashed_key.as_nat() < key.as_nat(),
        decreases held@.len() - p,
    {
        if !held[p].hashed_key.lt(key) {
            return p;
        }
        p += 1;
    }
    p
}

/// Takes the write `entry`, which is the write at the place `n` of the log
/// and belongs to the chunk, into `held`.
fn hold(
    held: &mut Vec<DbStorageLog>,
    entry: &DbStorageLog,
    Ghost(logs): Ghost<Seq<DbStorageLog>>,
    Ghost(n): Ghost<int>,
    Ghost(miniblock_number): Ghost<MiniblockNumber>,
    Ghost(range): Ghost<KeyRange>,
)
    requires
        0 <= n < logs.len(),
        logs[n] == *entry,
        in_chunk(*entry, miniblock_number, range),
        holds_chunk(logs, miniblock_number, range, old(held)@, n),
    ensures
        holds_chunk(logs, miniblock_number, range, final(held)@, n + 1),
{
    let p = place_for(held, &entry.hashed_key);
    if p < held.len() && held[p].hashed_key == entry.hashed_key {
        if written_before(&held[p], entry) {
            proof {
                lemma_hold_replaces(logs, miniblock_number, range, held@, p as int, n);
            }
            held[p] = *entry;
        } else {
            proof {
                lemma_hold_keeps(logs, miniblock_number, range, held@, p as int, n);
            }
        }
    } else {
        proof {
            lemma_hold_inserts(logs, miniblock_number, range, held@, p as int, n);
        }
        held.insert(p, *entry);
    }
}

/// The key of each held write is a key of the chunk.
proof fn lemma_held_is_chunk_key(
    logs: Seq<DbStorageLog>,
    miniblock_number: MiniblockNumber,
    range: KeyRange,
    held: Seq<DbStorageLog>,
    a: int,
)
    requires
        holds_chunk(logs, miniblock_number, range, held, logs.len() as int),
        0 <= a < held.len(),
    ensures
        is_chunk_key(logs, miniblock_number, range, held[a].hashed_key),
{
    assert(is_logged(logs, logs.len() as int, held[a]));
    let j = choose|j: int| 0 <= j < logs.len() && j < logs.len() && #[trigger] logs[j] == held[a];
    assert(in_chunk(logs[j], miniblock_number, range));
}

/// Each held write is the last write to its key as of the miniblock; the
/// result is its place in the log.
proof fn lemma_held_is_latest(
    logs: Seq<DbStorageLog>,
    miniblock_number: MiniblockNumber,
    range: KeyRange,
    held: Seq<DbStorageLog>,
    a: int,
) -> (i: int)
    requires
        holds_chunk(logs, miniblock_number, range, held, logs.len() as int),
        0 <= a < held.len(),
    ensures
        0 <= i < logs.len(),
        logs[i] == held[a],
        is_latest(logs, held[a].hashed_key, miniblock_number, i),
{
    assert(is_logged(logs, logs.len() as int, held[a]));
    let i = choose|j: int| 0 <= j < logs.len() && j < logs.len() && #[trigger] logs[j] == held[a];
    assert forall|j: int|
        0 <= j < logs.len() && (#[trigger] logs[j]).miniblock_number == miniblock_number
            && logs[j].hashed_key == logs[i].hashed_key implies !logs[i].precedes(logs[j]) by {
        assert(in_chunk(logs[j], miniblock_number, range));
        assert(covers(held, logs[j]));
        let x = choose|x: int|
            0 <= x < held.len() && (#[trigger] held[x]).hashed_key == logs[j].hashed_key
                && !held[x].precedes(logs[j]);
        if x < a {
            assert(held[x].hashed_key.as_nat() < held[a].hashed_key.as_nat());
        }
        if a < x {
            assert(held[a].hashed_key.as_nat() < held[x].hashed_key.as_nat());
        }
    }
    lemma_last_in_miniblock_is_latest(logs, miniblock_number, i);
    i
}

} // verus!
