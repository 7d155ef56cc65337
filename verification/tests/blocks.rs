use zksync_dal::basic_types::{L1BatchNumber, MiniblockNumber, H256};
use zksync_dal::blocks_web3_dal::{
    BlocksWeb3Dal, MiniblockHeader, ResolvedL1BatchForMiniblock, SnapshotRecoveryStatus,
    StoredMiniblock,
};
use zksync_dal::error::DalError;

fn header(number: u32) -> MiniblockHeader {
    MiniblockHeader {
        number: MiniblockNumber(number),
        timestamp: 1000 + u64::from(number),
        hash: H256::from_low_u64_be(u64::from(number) + 1),
        l1_tx_count: 1,
        l2_tx_count: 2,
        base_fee_per_gas: 250_000_000,
    }
}

fn chain() -> BlocksWeb3Dal {
    // Batch 0: miniblock 0. Batch 1: miniblocks 1 to 3. Pending: 4 and 5.
    let mut blocks = BlocksWeb3Dal::new();
    blocks.insert_miniblock(header(0)).unwrap();
    blocks.mark_miniblocks_as_executed_in_l1_batch(L1BatchNumber(0));
    for number in [2, 1, 3] {
        blocks.insert_miniblock(header(number)).unwrap();
    }
    blocks.mark_miniblocks_as_executed_in_l1_batch(L1BatchNumber(1));
    blocks.insert_miniblock(header(5)).unwrap();
    blocks.insert_miniblock(header(4)).unwrap();
    blocks
}

#[test]
fn batch_ranges_span_their_miniblocks() {
    let blocks = chain();
    assert_eq!(
        blocks.get_miniblock_range_of_l1_batch(L1BatchNumber(0)),
        Some((MiniblockNumber(0), MiniblockNumber(0)))
    );
    assert_eq!(
        blocks.get_miniblock_range_of_l1_batch(L1BatchNumber(1)),
        Some((MiniblockNumber(1), MiniblockNumber(3)))
    );
}

#[test]
fn batch_without_miniblocks_has_no_range() {
    let blocks = chain();
    assert_eq!(blocks.get_miniblock_range_of_l1_batch(L1BatchNumber(2)), None);
    assert_eq!(
        BlocksWeb3Dal::new().get_miniblock_range_of_l1_batch(L1BatchNumber(0)),
        None
    );
}

#[test]
fn miniblocks_know_their_batch_once_it_is_sealed() {
    let mut blocks = chain();
    assert_eq!(
        blocks.get_l1_batch_number_of_miniblock(MiniblockNumber(0)),
        Some(L1BatchNumber(0))
    );
    assert_eq!(
        blocks.get_l1_batch_number_of_miniblock(MiniblockNumber(2)),
        Some(L1BatchNumber(1))
    );
    assert_eq!(blocks.get_l1_batch_number_of_miniblock(MiniblockNumber(4)), None);
    assert_eq!(blocks.get_l1_batch_number_of_miniblock(MiniblockNumber(9)), None);

    blocks.mark_miniblocks_as_executed_in_l1_batch(L1BatchNumber(2));
    assert_eq!(
        blocks.get_l1_batch_number_of_miniblock(MiniblockNumber(4)),
        Some(L1BatchNumber(2))
    );
    // Miniblocks of sealed batches stay where they are.
    assert_eq!(
        blocks.get_l1_batch_number_of_miniblock(MiniblockNumber(2)),
        Some(L1BatchNumber(1))
    );
    assert_eq!(
        blocks.get_miniblock_range_of_l1_batch(L1BatchNumber(2)),
        Some((MiniblockNumber(4), MiniblockNumber(5)))
    );
}

#[test]
fn a_miniblock_number_is_stored_once() {
    let mut blocks = chain();
    assert_eq!(blocks.insert_miniblock(header(2)), Err(DalError::StorageFault));
    assert_eq!(blocks.insert_miniblock(header(5)), Err(DalError::StorageFault));
    assert_eq!(blocks.insert_miniblock(header(6)), Ok(()));
    assert_eq!(
        blocks.get_miniblock_hash(MiniblockNumber(6)),
        Some(H256::from_low_u64_be(7))
    );
}

#[test]
fn miniblock_hash_is_found_by_number() {
    let blocks = chain();
    assert_eq!(
        blocks.get_miniblock_hash(MiniblockNumber(3)),
        Some(H256::from_low_u64_be(4))
    );
    assert_eq!(blocks.get_miniblock_hash(MiniblockNumber(7)), None);
}

#[test]
fn block_hashes_come_in_the_order_of_the_numbers() {
    let blocks = chain();
    let (hashes, last) = blocks.get_block_hashes_since(MiniblockNumber(2), 3);
    assert_eq!(
        hashes,
        vec![
            H256::from_low_u64_be(3),
            H256::from_low_u64_be(4),
            H256::from_low_u64_be(5)
        ]
    );
    assert_eq!(last, Some(MiniblockNumber(4)));

    let (hashes, last) = blocks.get_block_hashes_since(MiniblockNumber(4), 10);
    assert_eq!(
        hashes,
        vec![H256::from_low_u64_be(5), H256::from_low_u64_be(6)]
    );
    assert_eq!(last, Some(MiniblockNumber(5)));

    let (hashes, last) = blocks.get_block_hashes_since(MiniblockNumber(0), 0);
    assert!(hashes.is_empty());
    assert_eq!(last, None);

    let (hashes, last) = blocks.get_block_hashes_since(MiniblockNumber(6), 10);
    assert!(hashes.is_empty());
    assert_eq!(last, None);
}

#[test]
fn stored_miniblocks_come_with_their_batch() {
    let mut blocks = BlocksWeb3Dal::new();
    for (number, batch) in [(7, Some(3)), (5, Some(2)), (6, Some(3)), (8, None)] {
        blocks
            .insert_stored_miniblock(StoredMiniblock {
                header: header(number),
                l1_batch_number: batch.map(L1BatchNumber),
            })
            .unwrap();
    }
    assert_eq!(
        blocks.insert_stored_miniblock(StoredMiniblock {
            header: header(6),
            l1_batch_number: None,
        }),
        Err(DalError::StorageFault)
    );
    assert_eq!(
        blocks.get_miniblock_range_of_l1_batch(L1BatchNumber(3)),
        Some((MiniblockNumber(6), MiniblockNumber(7)))
    );
    assert_eq!(
        blocks.get_l1_batch_number_of_miniblock(MiniblockNumber(5)),
        Some(L1BatchNumber(2))
    );
    assert_eq!(blocks.get_l1_batch_number_of_miniblock(MiniblockNumber(8)), None);
    let (hashes, last) = blocks.get_block_hashes_since(MiniblockNumber(0), 2);
    assert_eq!(hashes, vec![H256::from_low_u64_be(6), H256::from_low_u64_be(7)]);
    assert_eq!(last, Some(MiniblockNumber(6)));
}

#[test]
fn sealed_batch_has_the_timestamp_of_its_first_miniblock() {
    let blocks = chain();
    let resolved = |batch: u32| ResolvedL1BatchForMiniblock {
        miniblock_l1_batch: Some(L1BatchNumber(batch)),
        pending_l1_batch: L1BatchNumber(2),
    };
    assert_eq!(blocks.get_expected_l1_batch_timestamp(&resolved(0)), Some(1000));
    assert_eq!(blocks.get_expected_l1_batch_timestamp(&resolved(1)), Some(1001));
    assert_eq!(blocks.get_expected_l1_batch_timestamp(&resolved(2)), None);
}

#[test]
fn pending_batch_has_the_timestamp_of_the_first_pending_miniblock() {
    let blocks = chain();
    let pending = |batch: u32| ResolvedL1BatchForMiniblock {
        miniblock_l1_batch: None,
        pending_l1_batch: L1BatchNumber(batch),
    };
    // The batch before holds the miniblocks 1 to 3: the pending one starts at 4.
    assert_eq!(blocks.get_expected_l1_batch_timestamp(&pending(2)), Some(1004));
    // The batch before holds the miniblock 0.
    assert_eq!(blocks.get_expected_l1_batch_timestamp(&pending(1)), Some(1001));
    // Nothing comes before the first batch.
    assert_eq!(blocks.get_expected_l1_batch_timestamp(&pending(0)), None);
    // The batch before has no miniblocks.
    assert_eq!(blocks.get_expected_l1_batch_timestamp(&pending(4)), None);

    // The first pending miniblock is not sealed yet.
    let mut sealed = chain();
    sealed.mark_miniblocks_as_executed_in_l1_batch(L1BatchNumber(2));
    assert_eq!(sealed.get_expected_l1_batch_timestamp(&pending(3)), None);
}

#[test]
fn pending_batch_after_a_snapshot_starts_behind_the_snapshot() {
    let mut blocks = BlocksWeb3Dal::new();
    blocks.insert_initial_recovery_status(SnapshotRecoveryStatus {
        l1_batch_number: L1BatchNumber(23),
        miniblock_number: MiniblockNumber(42),
    });
    let pending = ResolvedL1BatchForMiniblock {
        miniblock_l1_batch: None,
        pending_l1_batch: L1BatchNumber(24),
    };
    assert_eq!(blocks.get_expected_l1_batch_timestamp(&pending), None);
    blocks.insert_miniblock(header(43)).unwrap();
    assert_eq!(blocks.get_expected_l1_batch_timestamp(&pending), Some(1043));
    let other = ResolvedL1BatchForMiniblock {
        miniblock_l1_batch: None,
        pending_l1_batch: L1BatchNumber(25),
    };
    assert_eq!(blocks.get_expected_l1_batch_timestamp(&other), None);
}

#[test]
fn fee_history_starts_at_the_newest_miniblock() {
    let mut blocks = BlocksWeb3Dal::new();
    for number in [3, 1, 2, 5] {
        let mut sealed = header(number);
        sealed.base_fee_per_gas = 100 * u64::from(number);
        blocks.insert_miniblock(sealed).unwrap();
    }
    assert_eq!(blocks.get_fee_history(MiniblockNumber(5), 10), vec![500, 300, 200, 100]);
    assert_eq!(blocks.get_fee_history(MiniblockNumber(4), 2), vec![300, 200]);
    assert_eq!(blocks.get_fee_history(MiniblockNumber(3), 1), vec![300]);
    assert_eq!(blocks.get_fee_history(MiniblockNumber(3), 0), Vec::<u64>::new());
    assert_eq!(blocks.get_fee_history(MiniblockNumber(0), 5), Vec::<u64>::new());
}
