//! The table of miniblocks, and how miniblocks map to L1 batches.

use crate::basic_types::{H256, L1BatchNumber, MiniblockNumber};
use crate::error::DalError;
use crate::sequences::lemma_filter_step;
use vstd::prelude::*;

verus! {

/// What is stored of a miniblock when it is sealed.
#[derive(Clone, Copy, Debug, PartialEq, Eq)]
pub struct MiniblockHeader {
    pub number: MiniblockNumber,
    pub timestamp: u64,
    pub hash: H256,
    pub l1_tx_count: u16,
    pub l2_tx_count: u16,
    pub base_fee_per_gas: u64,
}

/// A miniblock of the table: its header, and the L1 batch that it belongs
/// to once that batch is sealed.
#[derive(Clone, Copy, Debug, PartialEq, Eq)]
pub struct StoredMiniblock {
    pub header: MiniblockHeader,
    pub l1_batch_number: Option<L1BatchNumber>,
}

/// Where a node that was recovered from a snapshot starts: the last batch
/// and the last miniblock that the snapshot covers.
#[derive(Clone, Copy, Debug, PartialEq, Eq)]
pub struct SnapshotRecoveryStatus {
    pub l1_batch_number: L1BatchNumber,
    pub miniblock_number: MiniblockNumber,
}

/// The batch of a miniblock as far as it is known: the batch that the
/// miniblock belongs to where that batch is sealed, and the batch that is
/// being built now.
#[derive(Clone, Copy, Debug, PartialEq, Eq)]
pub struct ResolvedL1BatchForMiniblock {
    pub miniblock_l1_batch: Option<L1BatchNumber>,
    pub pending_l1_batch: L1BatchNumber,
}

/// Whether the miniblocks stand in the order of their numbers, each number
/// once.
pub open spec fn numbers_increase(rows: Seq<StoredMiniblock>) -> bool {
    forall|i: int, j: int|
        0 <= i < j < rows.len() ==> (#[trigger] rows[i]).header.number.0 < (
        #[trigger] rows[j]).header.number.0
}

/// Whether the table holds a miniblock with the number `number`.
pub open spec fn has_miniblock(rows: Seq<StoredMiniblock>, number: MiniblockNumber) -> bool {
    exists|i: int| 0 <= i < rows.len() && (#[trigger] rows[i]).header.number == number
}

/// Whether the miniblock `row` belongs to the batch `l1_batch_number`.
pub open spec fn in_batch(row: StoredMiniblock, l1_batch_number: L1BatchNumber) -> bool {
    row.l1_batch_number == Some(l1_batch_number)
}

/// Whether some miniblock of the table belongs to the batch
/// `l1_batch_number`.
pub open spec fn batch_has_miniblocks(
    rows: Seq<StoredMiniblock>,
    l1_batch_number: L1BatchNumber,
) -> bool {
    exists|i: int| 0 <= i < rows.len() && in_batch(#[trigger] rows[i], l1_batch_number)
}

/// Whether `first` and `last` are the smallest and the largest number of a
/// miniblock of the batch `l1_batch_number`.
pub open spec fn is_range_of_batch(
    rows: Seq<StoredMiniblock>,
    l1_batch_number: L1BatchNumber,
    first: MiniblockNumber,
    last: MiniblockNumber,
) -> bool {
    &&& exists|i: int|
        0 <= i < rows.len() && in_batch(#[trigger] rows[i], l1_batch_number)
            && rows[i].header.number == first
    &&& exists|i: int|
        0 <= i < rows.len() && in_batch(#[trigger] rows[i], l1_batch_number)
            && rows[i].header.number == last
    &&& forall|i: int|
        0 <= i < rows.len() && in_batch(#[trigger] rows[i], l1_batch_number) ==> first.0
            <= rows[i].header.number.0 <= last.0
}

/// The range of miniblock numbers of the batch `l1_batch_number`, both ends
/// included; nothing where no miniblock belongs to the batch.
pub open spec fn miniblock_range(
    rows: Seq<StoredMiniblock>,
    l1_batch_number: L1BatchNumber,
) -> Option<(MiniblockNumber, MiniblockNumber)> {
    if batch_has_miniblocks(rows, l1_batch_number) {
        Some(
            choose|range: (MiniblockNumber, MiniblockNumber)|
                is_range_of_batch(rows, l1_batch_number, range.0, range.1),
        )
    } else {
        None
    }
}

/// A batch has one range of miniblocks.
pub proof fn lemma_miniblock_range(
    rows: Seq<StoredMiniblock>,
    l1_batch_number: L1BatchNumber,
    first: MiniblockNumber,
    last: MiniblockNumber,
)
    requires
        is_range_of_batch(rows, l1_batch_number, first, last),
    ensures
        miniblock_range(rows, l1_batch_number) == Some((first, last)),
{
    let range = choose|range: (MiniblockNumber, MiniblockNumber)|
        is_range_of_batch(rows, l1_batch_number, range.0, range.1);
    assert(is_range_of_batch(rows, l1_batch_number, (first, last).0, (first, last).1));
    assert(is_range_of_batch(rows, l1_batch_number, range.0, range.1));
    assert(range.0.0 == first.0);
    assert(range.1.0 == last.0);
}

/// Whether a miniblock with the number `number` belongs at the place `p` of
/// the table: behind every smaller number, before every larger.
pub open spec fn is_insertion_point(
    rows: Seq<StoredMiniblock>,
    number: MiniblockNumber,
    p: int,
) -> bool {
    &&& 0 <= p <= rows.len()
    &&& forall|i: int| 0 <= i < p ==> (#[trigger] rows[i]).header.number.0 < number.0
    &&& forall|i: int| p <= i < rows.len() ==> number.0 < (#[trigger] rows[i]).header.number.0
}

/// The place at which a miniblock with the new number `number` belongs.
pub open spec fn insertion_point(rows: Seq<StoredMiniblock>, number: MiniblockNumber) -> int {
    choose|p: int| is_insertion_point(rows, number, p)
}

/// A new number belongs at one place.
pub proof fn lemma_insertion_point(rows: Seq<StoredMiniblock>, number: MiniblockNumber, p: int)
    requires
        is_insertion_point(rows, number, p),
    ensures
        insertion_point(rows, number) == p,
{
    let q = insertion_point(rows, number);
    assert(is_insertion_point(rows, number, q));
    if q < p {
        assert(rows[q].header.number.0 < number.0);
    }
    if p < q {
        assert(rows[p].header.number.0 < number.0);
    }
}

/// The miniblock `row`, put into the batch `l1_batch_number` unless it
/// belongs to a batch already.
pub open spec fn sealed_in(
    row: StoredMiniblock,
    l1_batch_number: L1BatchNumber,
) -> StoredMiniblock {
    if row.l1_batch_number is None {
        StoredMiniblock { header: row.header, l1_batch_number: Some(l1_batch_number) }
    } else {
        row
    }
}

/// The miniblock with the number `number`; nothing where the table has no
/// such miniblock.
pub open spec fn miniblock_with(rows: Seq<StoredMiniblock>, number: int) -> Option<
    StoredMiniblock,
> {
    if exists|i: int| 0 <= i < rows.len() && (#[trigger] rows[i]).header.number.0 == number {
        Some(
            rows[choose|i: int|
                0 <= i < rows.len() && (#[trigger] rows[i]).header.number.0 == number],
        )
    } else {
        None
    }
}

/// A table in the order of its numbers has one miniblock with each of them.
pub proof fn lemma_miniblock_with(rows: Seq<StoredMiniblock>, i: int)
    requires
        numbers_increase(rows),
        0 <= i < rows.len(),
    ensures
        miniblock_with(rows, rows[i].header.number.0 as int) == Some(rows[i]),
{
    let number = rows[i].header.number.0 as int;
    let at = choose|j: int| 0 <= j < rows.len() && (#[trigger] rows[j]).header.number.0 == number;
    if at < i {
        assert(rows[at].header.number.0 < rows[i].header.number.0);
    }
    if i < at {
        assert(rows[i].header.number.0 < rows[at].header.number.0);
    }
}

/// The timestamp of the miniblock with the number `number`; nothing where
/// the table has no such miniblock.
pub open spec fn timestamp_of(rows: Seq<StoredMiniblock>, number: int) -> Option<u64> {
    match miniblock_with(rows, number) {
        Some(row) => Some(row.header.timestamp),
        None => None,
    }
}

/// The timestamp that the batch of a miniblock has or will have: the
/// timestamp of the batch's first miniblock. For a sealed batch that
/// miniblock is in the table. For the batch that is being built it is the
/// miniblock behind the last one of the batch before, or behind the snapshot
/// where the batch before is the snapshot's; there is no timestamp before the
/// first batch, nor where that miniblock is not sealed yet.
pub open spec fn expected_l1_batch_timestamp(
    rows: Seq<StoredMiniblock>,
    snapshot_recovery: Option<SnapshotRecoveryStatus>,
    l1_batch_number: ResolvedL1BatchForMiniblock,
) -> Option<u64> {
    match l1_batch_number.miniblock_l1_batch {
        Some(batch) => match miniblock_range(rows, batch) {
            Some((first, _)) => timestamp_of(rows, first.0 as int),
            None => None,
        },
        None => if l1_batch_number.pending_l1_batch.0 == 0 {
            None
        } else {
            let previous = L1BatchNumber((l1_batch_number.pending_l1_batch.0 - 1) as u32);
            match miniblock_range(rows, previous) {
                Some((_, last)) => timestamp_of(rows, last.0 + 1),
                None => match snapshot_recovery {
                    Some(status) => if status.l1_batch_number == previous {
                        timestamp_of(rows, status.miniblock_number.0 + 1)
                    } else {
                        None
                    },
                    None => None,
                },
            }
        },
    }
}

/// The miniblocks with the number `newest_block` or a smaller one.
pub open spec fn until(newest_block: MiniblockNumber) -> spec_fn(StoredMiniblock) -> bool {
    |row: StoredMiniblock| row.header.number.0 <= newest_block.0
}

/// The base fees of the last `block_count` of the miniblocks `found`, or of
/// all of them where they are fewer, the last miniblock first.
pub open spec fn newest_fees(found: Seq<StoredMiniblock>, block_count: int) -> Seq<u64> {
    Seq::new(
        if block_count < found.len() {
            block_count as nat
        } else {
            found.len()
        },
        |i: int| found[found.len() - 1 - i].header.base_fee_per_gas,
    )
}

/// The miniblocks with the number `from_block` or a larger one.
pub open spec fn since(from_block: MiniblockNumber) -> spec_fn(StoredMiniblock) -> bool {
    |row: StoredMiniblock| row.header.number.0 >= from_block.0
}

/// The first `limit` of the rows `found`, or all of them where they are
/// fewer.
pub open spec fn first_of(found: Seq<StoredMiniblock>, limit: int) -> Seq<StoredMiniblock> {
    if limit < found.len() {
        found.take(limit)
    } else {
        found
    }
}

/// The hashes of the miniblocks `rows`, in their order.
pub open spec fn hashes_of(rows: Seq<StoredMiniblock>) -> Seq<H256> {
    Seq::new(rows.len(), |i: int| rows[i].header.hash)
}

/// The number of the last of the miniblocks `rows`; nothing where there is
/// none.
pub open spec fn last_number_of(rows: Seq<StoredMiniblock>) -> Option<MiniblockNumber> {
    if rows.len() == 0 {
        None
    } else {
        Some(rows.last().header.number)
    }
}

/// The table of miniblocks, in the order of their numbers.
#[derive(Debug)]
pub struct BlocksWeb3Dal {
    miniblocks: Vec<StoredMiniblock>,
    snapshot_recovery: Option<SnapshotRecoveryStatus>,
}

impl View for BlocksWeb3Dal {
    type V = Seq<StoredMiniblock>;

    closed spec fn view(&self) -> Seq<StoredMiniblock> {
        self.miniblocks@
    }
}

impl BlocksWeb3Dal {
    #[verifier::type_invariant]
    spec fn miniblocks_are_ordered(self) -> bool {
        numbers_increase(self.miniblocks@)
    }

    /// Where the node started from, if it was recovered from a snapshot.
    pub closed spec fn spec_snapshot_recovery(&self) -> Option<SnapshotRecoveryStatus> {
        self.snapshot_recovery
    }

    /// A table without miniblocks, of a node that starts from the genesis.
    pub fn new() -> (r: BlocksWeb3Dal)
        ensures
            r@ == Seq::<StoredMiniblock>::empty(),
            r.spec_snapshot_recovery() is None,
    {
        BlocksWeb3Dal { miniblocks: Vec::new(), snapshot_recovery: None }
    }

    /// Records that the node was recovered from a snapshot that covers the
    /// chain up to the batch and the miniblock of `status`.
    pub fn insert_initial_recovery_status(&mut self, status: SnapshotRecoveryStatus)
        ensures
            final(self)@ == old(self)@,
            final(self).spec_snapshot_recovery() == Some(status),
    {
        proof {
            use_type_invariant(&*self);
        }
        self.snapshot_recovery = Some(status);
    }

    /// Stores a sealed miniblock, which belongs to no batch yet. A miniblock
    /// whose number the table holds already is rejected.
    pub fn insert_miniblock(&mut self, header: MiniblockHeader) -> (r: Result<(), DalError>)
        ensures
            numbers_increase(final(self)@),
            final(self).spec_snapshot_recovery() == old(self).spec_snapshot_recovery(),
            match r {
                Ok(()) => {
                    &&& !has_miniblock(old(self)@, header.number)
                    &&& final(self)@ == old(self)@.insert(
                        insertion_point(old(self)@, header.number),
                        StoredMiniblock { header, l1_batch_number: None },
                    )
                },
                Err(e) => {
                    &&& e == DalError::StorageFault
                    &&& has_miniblock(old(self)@, header.number)
                    &&& final(self)@ == old(self)@
                },
            },
    {
        self.insert_stored_miniblock(StoredMiniblock { header, l1_batch_number: None })
    }

    /// Stores a miniblock together with the batch that it belongs to, if it
    /// belongs to one. A miniblock whose number the table holds already is
    /// rejected.
    pub fn insert_stored_miniblock(&mut self, row: StoredMiniblock) -> (r: Result<(), DalError>)
        ensures
            numbers_increase(final(self)@),
            final(self).spec_snapshot_recovery() == old(self).spec_snapshot_recovery(),
            match r {
                Ok(()) => {
                    &&& !has_miniblock(old(self)@, row.header.number)
                    &&& final(self)@ == old(self)@.insert(
                        insertion_point(old(self)@, row.header.number),
                        row,
                    )
                },
                Err(e) => {
                    &&& e == DalError::StorageFault
                    &&& has_miniblock(old(self)@, row.header.number)
                    &&& final(self)@ == old(self)@
                },
            },
    {
        let header = row.header;
        proof {
            use_type_invariant(&*self);
        }
        let mut p: usize = 0;
        while p < self.miniblocks.len() && self.miniblocks[p].header.number.0 < header.number.0
            invariant
                p <= self.miniblocks@.len(),
                self@ == old(self)@,
                self.spec_snapshot_recovery() == old(self).spec_snapshot_recovery(),
                numbers_increase(self.miniblocks@),
                forall|i: int|
                    0 <= i < p ==> (#[trigger] self.miniblocks@[i]).header.number.0
                        < header.number.0,
            decreases self.miniblocks@.len() - p,
        {
            p += 1;
        }
        if p < self.miniblocks.len() && self.miniblocks[p].header.number.0 == header.number.0 {
            assert(self.miniblocks@[p as int].header.number == header.number);
            return Err(DalError::StorageFault);
        }
        proof {
            assert(is_insertion_point(self@, header.number, p as int)) by {
                assert forall|i: int| p <= i < self@.len() implies header.number.0 < (
                #[trigger] self@[i]).header.number.0 by {
                    if i > p {
                        assert(self@[p as int].header.number.0 < self@[i].header.number.0);
                    }
                }
            }
            lemma_insertion_point(self@, header.number, p as int);
            assert(!has_miniblock(self@, header.number)) by {
                if has_miniblock(self@, header.number) {
                    let i = choose|i: int|
                        0 <= i < self@.len() && (#[trigger] self@[i]).header.number
                            == header.number;
                    if i < p {
                        assert(self@[i].header.number.0 < header.number.0);
                    } else {
                        assert(header.number.0 < self@[i].header.number.0);
                    }
                }
            }
        }
        let mut rows: Vec<StoredMiniblock> = Vec::new();
        std::mem::swap(&mut rows, &mut self.miniblocks);
        let ghost before = rows@;
        rows.insert(p, row);
        proof {
            assert forall|i: int, j: int| 0 <= i < j < rows@.len() implies (
            #[trigger] rows@[i]).header.number.0 < (#[trigger] rows@[j]).header.number.0 by {
                let a = if i < p {
                    i
                } else {
                    i - 1
                };
                let b = if j < p {
                    j
                } else {
                    j - 1
                };
                if i != p && j != p {
                    assert(before[a].header.number.0 < before[b].header.number.0);
                } else if i == p {
                    assert(header.number.0 < before[b].header.number.0);
                } else {
                    assert(before[a].header.number.0 < header.number.0);
                }
            }
        }
        self.miniblocks = rows;
        Ok(())
    }

    /// Puts every miniblock that belongs to no batch yet into the batch
    /// `l1_batch_number`.
    pub fn mark_miniblocks_as_executed_in_l1_batch(&mut self, l1_batch_number: L1BatchNumber)
        ensures
            numbers_increase(final(self)@),
            final(self).spec_snapshot_recovery() == old(self).spec_snapshot_recovery(),
            final(self)@ == Seq::new(
                old(self)@.len(),
                |i: int| sealed_in(old(self)@[i], l1_batch_number),
            ),
    {
        proof {
            use_type_invariant(&*self);
        }
        let mut rows: Vec<StoredMiniblock> = Vec::new();
        std::mem::swap(&mut rows, &mut self.miniblocks);
        let ghost before = rows@;
        let mut i: usize = 0;
        while i < rows.len()
            invariant
                i <= rows@.len(),
                rows@.len() == before.len(),
                forall|j: int| 0 <= j < i ==> rows@[j] == sealed_in(before[j], l1_batch_number),
                forall|j: int| i <= j < rows@.len() ==> rows@[j] == before[j],
            decreases rows@.len() - i,
        {
            if rows[i].l1_batch_number.is_none() {
                let header = rows[i].header;
                rows[i] = StoredMiniblock { header, l1_batch_number: Some(l1_batch_number) };
            }
            i += 1;
        }
        proof {
            assert(rows@ =~= Seq::new(
                before.len(),
                |i: int| sealed_in(before[i], l1_batch_number),
            ));
            assert forall|i: int, j: int| 0 <= i < j < rows@.len() implies (
            #[trigger] rows@[i]).header.number.0 < (#[trigger] rows@[j]).header.number.0 by {
                assert(before[i].header.number.0 < before[j].header.number.0);
            }
        }
        self.miniblocks = rows;
    }

    /// The range of miniblock numbers of the batch `l1_batch_number`, both
    /// ends included; nothing where no miniblock belongs to the batch.
    pub fn get_miniblock_range_of_l1_batch(&self, l1_batch_number: L1BatchNumber) -> (r: Option<
        (MiniblockNumber, MiniblockNumber),
    >)
        ensures
            r == miniblock_range(self@, l1_batch_number),
            match r {
                Some((first, last)) => is_range_of_batch(self@, l1_batch_number, first, last),
                None => !batch_has_miniblocks(self@, l1_batch_number),
            },
    {
        let mut range: Option<(u32, u32)> = None;
        let mut i: usize = 0;
        while i < self.miniblocks.len()
            invariant
                i <= self.miniblocks@.len(),
                match range {
                    Some((first, last)) => {
                        &&& exists|j: int|
                            0 <= j < i && in_batch(#[trigger] self.miniblocks@[j], l1_batch_number)
                                && self.miniblocks@[j].header.number.0 == first
                        &&& exists|j: int|
                            0 <= j < i && in_batch(#[trigger] self.miniblocks@[j], l1_batch_number)
                                && self.miniblocks@[j].header.number.0 == last
                        &&& forall|j: int|
                            0 <= j < i && in_batch(#[trigger] self.miniblocks@[j], l1_batch_number)
                                ==> first <= self.miniblocks@[j].header.number.0 <= last
                    },
                    None => forall|j: int|
                        0 <= j < i ==> !in_batch(#[trigger] self.miniblocks@[j], l1_batch_number),
                },
            decreases self.miniblocks@.len() - i,
        {
            let row = &self.miniblocks[i];
            let belongs = match row.l1_batch_number {
                Some(batch) => batch.0 == l1_batch_number.0,
                None => false,
            };
            if belongs {
                let number = row.header.number.0;
                range = match range {
                    Some((first, last)) => Some(
                        (
                            if number < first {
                                number
                            } else {
                                first
                            },
                            if number > last {
                                number
                            } else {
                                last
                            },
                        ),
                    ),
                    None => Some((number, number)),
                };
            }
            i += 1;
        }
        match range {
            Some((first, last)) => {
                proof {
                    let j = choose|j: int|
                        0 <= j < i && in_batch(#[trigger] self.miniblocks@[j], l1_batch_number)
                            && self.miniblocks@[j].header.number.0 == first;
                    assert(self@[j].header.number == MiniblockNumber(first));
                    let k = choose|k: int|
                        0 <= k < i && in_batch(#[trigger] self.miniblocks@[k], l1_batch_number)
                            && self.miniblocks@[k].header.number.0 == last;
                    assert(self@[k].header.number == MiniblockNumber(last));
                    assert(is_range_of_batch(
                        self@,
                        l1_batch_number,
                        MiniblockNumber(first),
                        MiniblockNumber(last),
                    ));
                    lemma_miniblock_range(
                        self@,
                        l1_batch_number,
                        MiniblockNumber(first),
                        MiniblockNumber(last),
                    );
                }
                Some((MiniblockNumber(first), MiniblockNumber(last)))
            },
            None => None,
        }
    }

    /// The place of the miniblock with the number `number`.
    fn find(&self, number: u64) -> (r: Option<usize>)
        ensures
            match r {
                Some(i) => i < self@.len() && miniblock_with(self@, number as int) == Some(
                    self@[i as int],
                ),
                None => miniblock_with(self@, number as int) is None,
            },
    {
        proof {
            use_type_invariant(self);
        }
        let mut i: usize = 0;
        while i < self.miniblocks.len()
            invariant
                i <= self.miniblocks@.len(),
                numbers_increase(self.miniblocks@),
                forall|j: int|
                    0 <= j < i ==> (#[trigger] self.miniblocks@[j]).header.number.0 != number,
            decreases self.miniblocks@.len() - i,
        {
            if self.miniblocks[i].header.number.0 as u64 == number {
                proof {
                    lemma_miniblock_with(self@, i as int);
                }
                return Some(i);
            }
            i += 1;
        }
        None
    }

    /// The batch that the miniblock `miniblock_number` belongs to; nothing
    /// where the table has no such miniblock or it belongs to no batch yet.
    pub fn get_l1_batch_number_of_miniblock(&self, miniblock_number: MiniblockNumber) -> (r: Option<
        L1BatchNumber,
    >)
        ensures
            r == match miniblock_with(self@, miniblock_number.0 as int) {
                Some(row) => row.l1_batch_number,
                None => None,
            },
    {
        match self.find(miniblock_number.0 as u64) {
            Some(i) => self.miniblocks[i].l1_batch_number,
            None => None,
        }
    }

    /// The hash of the miniblock `block_number`; nothing where the table has
    /// no such miniblock.
    pub fn get_miniblock_hash(&self, block_number: MiniblockNumber) -> (r: Option<H256>)
        ensures
            r == match miniblock_with(self@, block_number.0 as int) {
                Some(row) => Some(row.header.hash),
                None => None,
            },
    {
        match self.find(block_number.0 as u64) {
            Some(i) => Some(self.miniblocks[i].header.hash),
            None => None,
        }
    }

    /// The hashes of the first `limit` miniblocks from the number
    /// `from_block` on, in the order of their numbers, and the number of the
    /// last of them.
    pub fn get_block_hashes_since(&self, from_block: MiniblockNumber, limit: usize) -> (r: (
        Vec<H256>,
        Option<MiniblockNumber>,
    ))
        ensures
            r.0@ == hashes_of(first_of(self@.filter(since(from_block)), limit as int)),
            r.1 == last_number_of(first_of(self@.filter(since(from_block)), limit as int)),
    {
        let mut hashes: Vec<H256> = Vec::new();
        let mut last: Option<MiniblockNumber> = None;
        let ghost mut found: Seq<StoredMiniblock> = Seq::empty();
        let mut i: usize = 0;
        proof {
            reveal(Seq::filter);
            assert(self.miniblocks@.take(0).filter(since(from_block)) =~= found);
            assert(hashes@ =~= hashes_of(first_of(found, limit as int)));
        }
        while i < self.miniblocks.len()
            invariant
                i <= self.miniblocks@.len(),
                found == self.miniblocks@.take(i as int).filter(since(from_block)),
                hashes@ == hashes_of(first_of(found, limit as int)),
                last == last_number_of(first_of(found, limit as int)),
            decreases self.miniblocks@.len() - i,
        {
            let row = &self.miniblocks[i];
            proof {
                lemma_filter_step(self.miniblocks@, since(from_block), i as int);
            }
            if row.header.number.0 >= from_block.0 {
                let ghost grown = found.push(*row);
                if hashes.len() < limit {
                    hashes.push(row.header.hash);
                    last = Some(row.header.number);
                    proof {
                        assert(first_of(found, limit as int) == found);
                        assert(first_of(grown, limit as int) == grown);
                        assert(hashes@ =~= hashes_of(grown));
                    }
                } else {
                    proof {
                        assert(first_of(grown, limit as int) =~= first_of(found, limit as int));
                    }
                }
                proof {
                    found = grown;
                }
            }
            i += 1;
        }
        proof {
            assert(self.miniblocks@.take(i as int) =~= self.miniblocks@);
        }
        (hashes, last)
    }

    /// The timestamp of the miniblock with the number `number`.
    fn timestamp_at(&self, number: u64) -> (r: Option<u64>)
        ensures
            r == timestamp_of(self@, number as int),
    {
        match self.find(number) {
            Some(i) => Some(self.miniblocks[i].header.timestamp),
            None => None,
        }
    }

    /// The timestamp that the batch of a miniblock has or will have, whether
    /// the batch is sealed or is being built: the timestamp of the batch's
    /// first miniblock, where that miniblock is in the table.
    pub fn get_expected_l1_batch_timestamp(
        &self,
        l1_batch_number: &ResolvedL1BatchForMiniblock,
    ) -> (r: Option<u64>)
        ensures
            r == expected_l1_batch_timestamp(
                self@,
                self.spec_snapshot_recovery(),
                *l1_batch_number,
            ),
    {
        match l1_batch_number.miniblock_l1_batch {
            Some(miniblock_l1_batch) => {
                match self.get_miniblock_range_of_l1_batch(miniblock_l1_batch) {
                    Some((first, _)) => self.timestamp_at(first.0 as u64),
                    None => None,
                }
            },
            None => {
                if l1_batch_number.pending_l1_batch.0 == 0 {
                    return None;
                }
                let previous = L1BatchNumber(l1_batch_number.pending_l1_batch.0 - 1);
                match self.get_miniblock_range_of_l1_batch(previous) {
                    Some((_, last)) => self.timestamp_at(last.0 as u64 + 1),
                    None => match self.snapshot_recovery {
                        Some(status) => {
                            if status.l1_batch_number.0 == previous.0 {
                                self.timestamp_at(status.miniblock_number.0 as u64 + 1)
                            } else {
                                None
                            }
                        },
                        None => None,
                    },
                }
            },
        }
    }

    /// The base fees of the last `block_count` miniblocks up to the number
    /// `newest_block`, the newest miniblock first.
    pub fn get_fee_history(&self, newest_block: MiniblockNumber, block_count: u64) -> (r: Vec<u64>)
        ensures
            r@ == newest_fees(self@.filter(until(newest_block)), block_count as int),
    {
        let mut found: Vec<u64> = Vec::new();
        let ghost mut rows: Seq<StoredMiniblock> = Seq::empty();
        let mut i: usize = 0;
        proof {
            reveal(Seq::filter);
            assert(self.miniblocks@.take(0).filter(until(newest_block)) =~= rows);
        }
        while i < self.miniblocks.len()
            invariant
                i <= self.miniblocks@.len(),
                rows == self.miniblocks@.take(i as int).filter(until(newest_block)),
                found@.len() == rows.len(),
                forall|k: int|
                    0 <= k < rows.len() ==> found@[k] == (
                    #[trigger] rows[k]).header.base_fee_per_gas,
            decreases self.miniblocks@.len() - i,
        {
            let row = &self.miniblocks[i];
            proof {
                lemma_filter_step(self.miniblocks@, until(newest_block), i as int);
            }
            if row.header.number.0 <= newest_block.0 {
                found.push(row.header.base_fee_per_gas);
                proof {
                    rows = rows.push(*row);
                }
            }
            i += 1;
        }
        proof {
            assert(self.miniblocks@.take(i as int) =~= self.miniblocks@);
        }
        let mut fees: Vec<u64> = Vec::new();
        let mut k: usize = found.len();
        while k > 0 && (fees.len() as u64) < block_count
            invariant
                k <= found@.len(),
                fees@.len() == found@.len() - k,
                fees@.len() <= block_count,
                found@.len() == rows.len(),
                forall|m: int|
                    0 <= m < rows.len() ==> found@[m] == (
                    #[trigger] rows[m]).header.base_fee_per_gas,
                forall|m: int|
                    0 <= m < fees@.len() ==> #[trigger] fees@[m] == rows[rows.len() - 1
                        - m].header.base_fee_per_gas,
            decreases k,
        {
            k -= 1;
            fees.push(found[k]);
        }
        proof {
            assert(fees@ =~= newest_fees(rows, block_count as int));
        }
        fees
    }
}

} // verus!
