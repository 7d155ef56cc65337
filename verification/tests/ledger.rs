use zksync_dal::basic_types::{Address, L1BatchNumber, MiniblockNumber, H160, H256};
use zksync_dal::blocks_web3_dal::{BlocksWeb3Dal, MiniblockHeader};
use zksync_dal::error::DalError;
use zksync_dal::keyed_map::HashedKeyMap;
use zksync_dal::models::{
    DbStorageLog, InitialWrite, KeyRange, SnapshotStorageLog, StorageRecoveryLogEntry,
};
use zksync_dal::storage::{get_code_key, AccountTreeId, StorageKey, StorageLog};
use zksync_dal::storage_logs_dal::rows::{
    snapshot_log_rows, snapshot_records, storage_log_rows, written_before,
};
use zksync_dal::storage_logs_dal::StorageLogsDal;

fn key(n: u64) -> H256 {
    H256::from_low_u64_be(n)
}

fn value(n: u8) -> H256 {
    H256::repeat_byte(n)
}

fn row(hashed_key: H256, written: H256, miniblock: u32, operation: u64) -> DbStorageLog {
    DbStorageLog {
        hashed_key,
        address: H160::repeat_byte(1),
        key: hashed_key,
        value: written,
        operation_number: operation,
        tx_hash: H256::zero(),
        miniblock_number: MiniblockNumber(miniblock),
    }
}

fn header(number: u32) -> MiniblockHeader {
    MiniblockHeader {
        number: MiniblockNumber(number),
        timestamp: u64::from(number),
        hash: H256::from_low_u64_be(u64::from(number)),
        l1_tx_count: 0,
        l2_tx_count: 0,
        base_fee_per_gas: 0,
    }
}

/// One miniblock per batch, with the same number, for the batches given.
fn blocks_with_batches(batches: &[u32]) -> BlocksWeb3Dal {
    let mut blocks = BlocksWeb3Dal::new();
    for &number in batches {
        blocks.insert_miniblock(header(number)).unwrap();
        blocks.mark_miniblocks_as_executed_in_l1_batch(L1BatchNumber(number));
    }
    blocks
}

fn slot(n: u64) -> StorageKey {
    StorageKey::new(AccountTreeId::new(Address::repeat_byte(1)), key(n))
}

#[test]
fn empty_ledger_has_no_values() {
    let dal = StorageLogsDal::new();
    assert_eq!(dal.get_storage_value(&key(1), MiniblockNumber(10)), None);
    assert_eq!(dal.count_miniblock_storage_logs(MiniblockNumber(0)), 0);
    assert!(dal.dump_all_storage_logs_for_tests().is_empty());
    assert!(dal.modified_keys_since_miniblock(MiniblockNumber(0)).is_empty());
    assert_eq!(dal.max_enumeration_index(), 0);
    assert_eq!(dal.next_operation_number(MiniblockNumber(0)), 0);
}

#[test]
fn highest_operation_number_in_a_miniblock_wins() {
    let mut dal = StorageLogsDal::new();
    // The later write is appended first: the operation number decides, not
    // the place in the log.
    dal.insert_log_rows(vec![
        row(key(1), value(2), 1, 1),
        row(key(1), value(1), 1, 0),
        row(key(2), value(9), 1, 2),
    ])
    .unwrap();
    assert_eq!(dal.get_storage_value(&key(1), MiniblockNumber(1)), Some(value(2)));
    assert_eq!(dal.get_storage_value(&key(2), MiniblockNumber(1)), Some(value(9)));
}

#[test]
fn later_miniblock_wins_over_higher_operation_number() {
    let mut dal = StorageLogsDal::new();
    dal.insert_log_rows(vec![
        row(key(1), value(1), 1, 7),
        row(key(1), value(2), 2, 0),
        row(key(1), value(3), 4, 0),
    ])
    .unwrap();
    assert_eq!(dal.get_storage_value(&key(1), MiniblockNumber(0)), None);
    assert_eq!(dal.get_storage_value(&key(1), MiniblockNumber(1)), Some(value(1)));
    assert_eq!(dal.get_storage_value(&key(1), MiniblockNumber(2)), Some(value(2)));
    assert_eq!(dal.get_storage_value(&key(1), MiniblockNumber(3)), Some(value(2)));
    assert_eq!(dal.get_storage_value(&key(1), MiniblockNumber(4)), Some(value(3)));
    assert_eq!(
        dal.get_storage_value(&key(1), MiniblockNumber(u32::MAX)),
        Some(value(3))
    );
}

#[test]
fn resolving_gives_an_entry_for_every_key_asked() {
    let mut dal = StorageLogsDal::new();
    dal.insert_log_rows(vec![row(key(1), value(1), 1, 0), row(key(2), value(2), 2, 0)])
        .unwrap();
    let values = dal.get_storage_values(&[key(1), key(2), key(3), key(1)], MiniblockNumber(1));
    assert_eq!(values.len(), 3);
    assert_eq!(*values.get(&key(1)).unwrap(), Some(value(1)));
    assert_eq!(*values.get(&key(2)).unwrap(), None);
    assert_eq!(*values.get(&key(3)).unwrap(), None);
    assert!(!values.contains_key(&key(4)));

    let nothing = dal.get_storage_values(&[], MiniblockNumber(1));
    assert!(nothing.is_empty());
}

#[test]
fn two_writes_in_one_miniblock_and_a_third_in_the_next() {
    // Two writes to K1 in miniblock 1, then a write in miniblock 2.
    let k1 = slot(1);
    let mut dal = StorageLogsDal::new();
    let mut blocks = BlocksWeb3Dal::new();
    blocks.insert_miniblock(header(1)).unwrap();
    blocks.mark_miniblocks_as_executed_in_l1_batch(L1BatchNumber(1));
    dal.insert_storage_logs(
        MiniblockNumber(1),
        &[(
            H256::zero(),
            vec![
                StorageLog::new_write_log(k1, key(0x01)),
                StorageLog::new_write_log(k1, key(0x02)),
            ],
        )],
    )
    .unwrap();
    let rows = dal.dump_all_storage_logs_for_tests();
    assert_eq!(rows[0].operation_number, 0);
    assert_eq!(rows[1].operation_number, 1);

    let values = dal.get_storage_values(&[k1.hashed_key()], MiniblockNumber(1));
    assert_eq!(values.len(), 1);
    assert_eq!(*values.get(&k1.hashed_key()).unwrap(), Some(key(0x02)));

    blocks.insert_miniblock(header(2)).unwrap();
    blocks.mark_miniblocks_as_executed_in_l1_batch(L1BatchNumber(2));
    dal.append_storage_logs(
        MiniblockNumber(2),
        &[(H256::zero(), vec![StorageLog::new_write_log(k1, key(0x03))])],
    )
    .unwrap();
    let previous = dal.get_previous_storage_values(&blocks, &[k1.hashed_key()], L1BatchNumber(2));
    assert_eq!(previous.len(), 1);
    assert_eq!(*previous.get(&k1.hashed_key()).unwrap(), Some(key(0x02)));
}

#[test]
fn previous_values_before_the_genesis_miniblock_are_absent() {
    let mut dal = StorageLogsDal::new();
    dal.insert_log_rows(vec![row(key(1), value(1), 0, 0)]).unwrap();
    let blocks = blocks_with_batches(&[0, 1]);
    let previous = dal.get_previous_storage_values(&blocks, &[key(1), key(2)], L1BatchNumber(0));
    assert_eq!(previous.len(), 2);
    assert_eq!(*previous.get(&key(1)).unwrap(), None);
    assert_eq!(*previous.get(&key(2)).unwrap(), None);

    let previous = dal.get_previous_storage_values(&blocks, &[key(1), key(2)], L1BatchNumber(1));
    assert_eq!(*previous.get(&key(1)).unwrap(), Some(value(1)));
    assert_eq!(*previous.get(&key(2)).unwrap(), None);
}

#[test]
fn previous_values_leave_out_the_writes_of_the_batch() {
    let mut dal = StorageLogsDal::new();
    dal.insert_log_rows(vec![
        row(key(1), value(1), 1, 0),
        row(key(1), value(2), 2, 0),
        row(key(1), value(3), 3, 0),
    ])
    .unwrap();
    // Batch 2 holds the miniblocks 2 and 3.
    let mut blocks = blocks_with_batches(&[1]);
    blocks.insert_miniblock(header(2)).unwrap();
    blocks.insert_miniblock(header(3)).unwrap();
    blocks.mark_miniblocks_as_executed_in_l1_batch(L1BatchNumber(2));
    let previous = dal.get_previous_storage_values(&blocks, &[key(1)], L1BatchNumber(2));
    assert_eq!(*previous.get(&key(1)).unwrap(), Some(value(1)));
}

#[test]
fn rows_count_up_from_the_base_across_transactions() {
    let logs = [
        (
            value(0xa1),
            vec![
                StorageLog::new_write_log(slot(1), value(1)),
                StorageLog::new_write_log(slot(2), value(2)),
            ],
        ),
        (value(0xa2), vec![]),
        (value(0xa3), vec![StorageLog::new_write_log(slot(1), value(3))]),
    ];
    let rows = storage_log_rows(MiniblockNumber(7), &logs, 5).unwrap();
    assert_eq!(rows.len(), 3);
    let operations: Vec<u64> = rows.iter().map(|row| row.operation_number).collect();
    assert_eq!(operations, vec![5, 6, 7]);
    let transactions: Vec<H256> = rows.iter().map(|row| row.tx_hash).collect();
    assert_eq!(transactions, vec![value(0xa1), value(0xa1), value(0xa3)]);
    for row in &rows {
        assert_eq!(row.miniblock_number, MiniblockNumber(7));
        assert_eq!(row.address, Address::repeat_byte(1));
    }
    assert_eq!(rows[0].hashed_key, slot(1).hashed_key());
    assert_eq!(rows[1].hashed_key, slot(2).hashed_key());
    assert_eq!(rows[2].hashed_key, slot(1).hashed_key());
    assert_eq!(rows[0].key, key(1));
    assert_eq!(rows[1].key, key(2));
    assert_eq!(rows[2].value, value(3));
}

#[test]
fn rows_are_refused_when_operation_numbers_run_out() {
    let one = [(H256::zero(), vec![StorageLog::new_write_log(slot(1), value(1))])];
    let two = [(
        H256::zero(),
        vec![
            StorageLog::new_write_log(slot(1), value(1)),
            StorageLog::new_write_log(slot(2), value(2)),
        ],
    )];
    let rows = storage_log_rows(MiniblockNumber(1), &one, u32::MAX).unwrap();
    assert_eq!(rows[0].operation_number, u64::from(u32::MAX));
    assert!(storage_log_rows(MiniblockNumber(1), &two, u32::MAX).is_none());
    assert_eq!(
        storage_log_rows(MiniblockNumber(1), &[], u32::MAX).unwrap().len(),
        0
    );

    let mut dal = StorageLogsDal::new();
    assert_eq!(
        dal.insert_storage_logs_inner(MiniblockNumber(1), &two, u32::MAX),
        Err(DalError::StorageFault)
    );
    assert!(dal.dump_all_storage_logs_for_tests().is_empty());
}

#[test]
fn appended_values_are_read_back() {
    let mut dal = StorageLogsDal::new();
    dal.insert_storage_logs(
        MiniblockNumber(1),
        &[(value(0xa1), vec![StorageLog::new_write_log(slot(1), value(1))])],
    )
    .unwrap();
    dal.append_storage_logs(
        MiniblockNumber(1),
        &[
            (
                value(0xa2),
                vec![
                    StorageLog::new_write_log(slot(1), value(2)),
                    StorageLog::new_write_log(slot(2), value(3)),
                ],
            ),
            (value(0xa3), vec![StorageLog::new_write_log(slot(2), value(4))]),
        ],
    )
    .unwrap();
    let keys = [slot(1).hashed_key(), slot(2).hashed_key()];
    let values = dal.get_storage_values(&keys, MiniblockNumber(1));
    assert_eq!(*values.get(&keys[0]).unwrap(), Some(value(2)));
    assert_eq!(*values.get(&keys[1]).unwrap(), Some(value(4)));

    let listing = dal.get_miniblock_storage_logs(MiniblockNumber(1));
    assert_eq!(
        listing,
        vec![
            (keys[0], value(1), 0),
            (keys[0], value(2), 1),
            (keys[1], value(3), 2),
            (keys[1], value(4), 3),
        ]
    );
}

#[test]
fn appending_continues_after_the_largest_operation_number() {
    let mut dal = StorageLogsDal::new();
    dal.insert_log_rows(vec![row(key(1), value(1), 3, 10), row(key(2), value(2), 3, 4)])
        .unwrap();
    assert_eq!(dal.next_operation_number(MiniblockNumber(3)), 11);
    assert_eq!(dal.next_operation_number(MiniblockNumber(2)), 0);
    dal.append_storage_logs(
        MiniblockNumber(3),
        &[(H256::zero(), vec![StorageLog::new_write_log(slot(5), value(5))])],
    )
    .unwrap();
    let rows = dal.dump_all_storage_logs_for_tests();
    assert_eq!(rows.len(), 3);
    assert_eq!(rows[2].operation_number, 11);
    assert_eq!(dal.next_operation_number(MiniblockNumber(3)), 12);
}

#[test]
fn appending_to_a_full_miniblock_is_a_storage_fault() {
    let mut dal = StorageLogsDal::new();
    dal.insert_log_rows(vec![row(key(1), value(1), 3, u64::from(u32::MAX))])
        .unwrap();
    assert_eq!(
        dal.next_operation_number(MiniblockNumber(3)),
        u64::from(u32::MAX) + 1
    );
    assert_eq!(
        dal.append_storage_logs(
            MiniblockNumber(3),
            &[(H256::zero(), vec![StorageLog::new_write_log(slot(5), value(5))])],
        ),
        Err(DalError::StorageFault)
    );
    assert_eq!(dal.dump_all_storage_logs_for_tests().len(), 1);
    // Nothing to append is no fault.
    assert_eq!(
        dal.append_storage_logs(MiniblockNumber(3), &[(H256::zero(), vec![])]),
        Ok(())
    );
    assert_eq!(dal.append_storage_logs(MiniblockNumber(3), &[]), Ok(()));
    assert_eq!(dal.dump_all_storage_logs_for_tests().len(), 1);
}

#[test]
fn inserting_over_taken_operation_numbers_is_a_storage_fault() {
    let mut dal = StorageLogsDal::new();
    let logs = [(
        H256::zero(),
        vec![
            StorageLog::new_write_log(slot(1), value(1)),
            StorageLog::new_write_log(slot(2), value(2)),
        ],
    )];
    dal.insert_storage_logs(MiniblockNumber(1), &logs).unwrap();
    let before = dal.dump_all_storage_logs_for_tests();
    assert_eq!(
        dal.insert_storage_logs(MiniblockNumber(1), &logs),
        Err(DalError::StorageFault)
    );
    assert_eq!(
        dal.insert_storage_logs_inner(MiniblockNumber(1), &logs, 1),
        Err(DalError::StorageFault)
    );
    assert_eq!(dal.dump_all_storage_logs_for_tests(), before);
    // Another miniblock, or free numbers of the same one, are fine.
    assert_eq!(dal.insert_storage_logs(MiniblockNumber(2), &logs), Ok(()));
    assert_eq!(dal.insert_storage_logs_inner(MiniblockNumber(1), &logs, 2), Ok(()));
    assert_eq!(dal.dump_all_storage_logs_for_tests().len(), 6);
}

#[test]
fn rows_that_clash_are_refused_whole() {
    let mut dal = StorageLogsDal::new();
    dal.insert_log_rows(vec![row(key(1), value(1), 1, 0)]).unwrap();
    // A clash with the log.
    assert_eq!(
        dal.insert_log_rows(vec![row(key(2), value(2), 1, 1), row(key(3), value(3), 1, 0)]),
        Err(DalError::StorageFault)
    );
    // A clash among the rows.
    assert_eq!(
        dal.insert_log_rows(vec![row(key(2), value(2), 2, 5), row(key(3), value(3), 2, 5)]),
        Err(DalError::StorageFault)
    );
    // An operation number beyond 32 bits.
    assert_eq!(
        dal.insert_log_rows(vec![row(key(2), value(2), 2, u64::from(u32::MAX) + 1)]),
        Err(DalError::StorageFault)
    );
    assert_eq!(dal.dump_all_storage_logs_for_tests().len(), 1);
    assert_eq!(
        dal.insert_log_rows(vec![row(key(2), value(2), 2, u64::from(u32::MAX))]),
        Ok(())
    );
    assert_eq!(dal.insert_log_rows(vec![]), Ok(()));
    assert_eq!(dal.dump_all_storage_logs_for_tests().len(), 2);
}

#[test]
fn truncating_twice_is_truncating_once() {
    let mut dal = StorageLogsDal::new();
    dal.insert_log_rows(vec![
        row(key(1), value(1), 1, 0),
        row(key(2), value(2), 3, 0),
        row(key(1), value(3), 2, 0),
        row(key(3), value(4), 2, 1),
        row(key(1), value(5), 5, 0),
    ])
    .unwrap();
    dal.rollback_storage_logs(MiniblockNumber(2));
    let once = dal.dump_all_storage_logs_for_tests();
    assert_eq!(
        once,
        vec![
            row(key(1), value(1), 1, 0),
            row(key(1), value(3), 2, 0),
            row(key(3), value(4), 2, 1),
        ]
    );
    dal.rollback_storage_logs(MiniblockNumber(2));
    assert_eq!(dal.dump_all_storage_logs_for_tests(), once);
    assert_eq!(dal.get_storage_value(&key(1), MiniblockNumber(9)), Some(value(3)));
    assert_eq!(dal.get_storage_value(&key(2), MiniblockNumber(9)), None);

    dal.rollback_storage_logs(MiniblockNumber(9));
    assert_eq!(dal.dump_all_storage_logs_for_tests(), once);
    dal.rollback_storage_logs(MiniblockNumber(0));
    assert!(dal.dump_all_storage_logs_for_tests().is_empty());
}

#[test]
fn truncating_keeps_the_index_of_first_writes() {
    let mut dal = StorageLogsDal::new();
    dal.insert_log_rows(vec![row(key(1), value(1), 1, 0)]).unwrap();
    dal.insert_initial_writes(L1BatchNumber(1), &[key(1)]).unwrap();
    dal.rollback_storage_logs(MiniblockNumber(0));
    let found = dal.get_l1_batches_and_indices_for_initial_writes(&[key(1)]);
    assert_eq!(*found.get(&key(1)).unwrap(), (L1BatchNumber(1), 1));
}

#[test]
fn modified_keys_are_listed_once() {
    let mut dal = StorageLogsDal::new();
    dal.insert_log_rows(vec![
        row(key(1), value(1), 1, 0),
        row(key(2), value(2), 2, 0),
        row(key(2), value(3), 2, 1),
        row(key(3), value(4), 3, 0),
        row(key(2), value(5), 3, 1),
    ])
    .unwrap();
    let mut keys = dal.modified_keys_since_miniblock(MiniblockNumber(1));
    keys.sort();
    assert_eq!(keys, vec![key(2), key(3)]);
    let mut keys = dal.modified_keys_since_miniblock(MiniblockNumber(0));
    keys.sort();
    assert_eq!(keys, vec![key(1), key(2), key(3)]);
    assert_eq!(dal.modified_keys_since_miniblock(MiniblockNumber(2)).len(), 2);
    assert!(dal.modified_keys_since_miniblock(MiniblockNumber(3)).is_empty());
}

#[test]
fn first_writes_get_the_next_leaves() {
    let mut dal = StorageLogsDal::new();
    assert_eq!(dal.max_enumeration_index(), 0);
    dal.insert_initial_writes(L1BatchNumber(1), &[key(5), key(3)]).unwrap();
    assert_eq!(dal.max_enumeration_index(), 2);
    dal.insert_initial_writes(L1BatchNumber(4), &[key(9)]).unwrap();
    assert_eq!(dal.max_enumeration_index(), 3);
    dal.insert_initial_writes(L1BatchNumber(4), &[]).unwrap();

    let found = dal.get_l1_batches_and_indices_for_initial_writes(&[key(3), key(9), key(5), key(7)]);
    assert_eq!(found.len(), 3);
    assert_eq!(*found.get(&key(5)).unwrap(), (L1BatchNumber(1), 1));
    assert_eq!(*found.get(&key(3)).unwrap(), (L1BatchNumber(1), 2));
    assert_eq!(*found.get(&key(9)).unwrap(), (L1BatchNumber(4), 3));
    assert!(found.get(&key(7)).is_none());
}

#[test]
fn a_key_is_first_written_once() {
    let mut dal = StorageLogsDal::new();
    dal.insert_initial_writes(L1BatchNumber(1), &[key(1)]).unwrap();
    assert_eq!(
        dal.insert_initial_writes(L1BatchNumber(2), &[key(2), key(1)]),
        Err(DalError::StorageFault)
    );
    assert_eq!(
        dal.insert_initial_writes(L1BatchNumber(2), &[key(2), key(3), key(2)]),
        Err(DalError::StorageFault)
    );
    // Nothing of a refused write is kept.
    let found = dal.get_l1_batches_and_indices_for_initial_writes(&[key(1), key(2), key(3)]);
    assert_eq!(found.len(), 1);
    assert_eq!(dal.max_enumeration_index(), 1);
}

#[test]
fn looking_up_no_keys_finds_nothing() {
    let mut dal = StorageLogsDal::new();
    dal.insert_initial_writes(L1BatchNumber(1), &[key(1)]).unwrap();
    let found = dal.get_l1_batches_and_indices_for_initial_writes(&[]);
    assert!(found.is_empty());
    assert_eq!(found.len(), 0);
}

/// Writes to K at the miniblocks 1 (value A) and 2 (value B).
fn ledger_with_two_writes() -> StorageLogsDal {
    let mut dal = StorageLogsDal::new();
    dal.insert_log_rows(vec![row(key(1), value(0xa), 1, 0), row(key(1), value(0xb), 2, 0)])
        .unwrap();
    dal
}

#[test]
fn revert_restores_a_key_that_existed_before() {
    let mut dal = ledger_with_two_writes();
    dal.insert_initial_writes(L1BatchNumber(1), &[key(1)]).unwrap();
    let blocks = blocks_with_batches(&[1, 2]);
    let plan = dal.get_storage_logs_for_revert(&blocks, L1BatchNumber(1)).unwrap();
    assert_eq!(plan.len(), 1);
    assert_eq!(*plan.get(&key(1)).unwrap(), Some((value(0xa), 1)));
}

#[test]
fn revert_leaves_out_a_key_that_was_never_created() {
    let mut dal = StorageLogsDal::new();
    dal.insert_log_rows(vec![row(key(1), value(0xb), 2, 0), row(key(1), value(0xc), 3, 0)])
        .unwrap();
    let blocks = blocks_with_batches(&[1, 2, 3]);
    let plan = dal.get_storage_logs_for_revert(&blocks, L1BatchNumber(1)).unwrap();
    assert!(plan.is_empty());
    assert!(!plan.contains_key(&key(1)));
}

#[test]
fn revert_deletes_a_key_created_after_the_target() {
    let mut dal = ledger_with_two_writes();
    dal.insert_initial_writes(L1BatchNumber(2), &[key(1)]).unwrap();
    let blocks = blocks_with_batches(&[1, 2]);
    let plan = dal.get_storage_logs_for_revert(&blocks, L1BatchNumber(1)).unwrap();
    assert_eq!(plan.len(), 1);
    assert_eq!(*plan.get(&key(1)).unwrap(), None);
}

#[test]
fn revert_to_a_batch_without_miniblocks_is_empty() {
    let mut dal = ledger_with_two_writes();
    dal.insert_initial_writes(L1BatchNumber(1), &[key(1)]).unwrap();
    let blocks = blocks_with_batches(&[1, 2]);
    let plan = dal.get_storage_logs_for_revert(&blocks, L1BatchNumber(7)).unwrap();
    assert!(plan.is_empty());
    let plan = dal
        .get_storage_logs_for_revert(&BlocksWeb3Dal::new(), L1BatchNumber(1))
        .unwrap();
    assert!(plan.is_empty());
}

#[test]
fn revert_to_the_last_batch_changes_nothing() {
    let mut dal = ledger_with_two_writes();
    dal.insert_initial_writes(L1BatchNumber(1), &[key(1)]).unwrap();
    let blocks = blocks_with_batches(&[1, 2]);
    let plan = dal.get_storage_logs_for_revert(&blocks, L1BatchNumber(2)).unwrap();
    assert!(plan.is_empty());
}

#[test]
fn revert_of_a_key_indexed_without_a_value_is_a_consistency_fault() {
    // The index says that the key existed by batch 1, the log has no write
    // to it up to there.
    let mut dal = StorageLogsDal::new();
    dal.insert_log_rows(vec![row(key(1), value(0xb), 2, 0)]).unwrap();
    dal.insert_initial_writes(L1BatchNumber(1), &[key(1)]).unwrap();
    let blocks = blocks_with_batches(&[1, 2]);
    assert_eq!(
        dal.get_storage_logs_for_revert(&blocks, L1BatchNumber(1)).err(),
        Some(DalError::ConsistencyFault)
    );
}

#[test]
fn revert_plan_partitions_the_modified_keys() {
    let mut dal = StorageLogsDal::new();
    let mut rows = Vec::new();
    for n in 0..12u64 {
        rows.push(row(key(n), value(1), 1, n));
    }
    for n in 4..30u64 {
        rows.push(row(key(n), value(2), 2, n));
        rows.push(row(key(n), value(3), 3, n));
    }
    dal.insert_log_rows(rows).unwrap();
    // Existed by batch 1: the keys 0 to 9. Created in batch 2: 12 to 19.
    // Never created: 10, 11 and 20 to 29.
    let existed: Vec<H256> = (0..10u64).map(key).collect();
    let created: Vec<H256> = (12..20u64).map(key).collect();
    dal.insert_initial_writes(L1BatchNumber(1), &existed).unwrap();
    dal.insert_initial_writes(L1BatchNumber(2), &created).unwrap();
    let blocks = blocks_with_batches(&[1, 2, 3]);

    let modified = dal.modified_keys_since_miniblock(MiniblockNumber(1));
    let plan = dal.get_storage_logs_for_revert(&blocks, L1BatchNumber(1)).unwrap();
    let indexed = dal.get_l1_batches_and_indices_for_initial_writes(&modified);

    let left_out = modified.iter().filter(|key| !indexed.contains_key(key)).count();
    let deleted = modified
        .iter()
        .filter(|key| matches!(plan.get(key), Some(None)))
        .count();
    let restored = modified
        .iter()
        .filter(|key| matches!(plan.get(key), Some(Some(_))))
        .count();
    assert_eq!(modified.len(), 26);
    assert_eq!(left_out, 12);
    assert_eq!(deleted, 8);
    assert_eq!(restored, 6);
    assert_eq!(left_out + deleted + restored, modified.len());
    assert_eq!(plan.len(), deleted + restored);
    for n in 4..10u64 {
        assert_eq!(*plan.get(&key(n)).unwrap(), Some((value(1), n + 1)));
    }
    for n in 12..20u64 {
        assert_eq!(*plan.get(&key(n)).unwrap(), None);
    }
    for n in (0..4u64).chain(10..12).chain(20..30) {
        assert!(!plan.contains_key(&key(n)));
    }
}

fn recovered_ledger() -> StorageLogsDal {
    let mut dal = StorageLogsDal::new();
    dal.insert_log_rows(vec![
        row(value(0x30), value(1), 1, 0),
        row(value(0x10), value(2), 1, 1),
        row(value(0x50), value(3), 1, 2),
        row(value(0x10), value(4), 1, 3),
        row(value(0x70), value(5), 2, 0),
        row(value(0x20), value(6), 0, 0),
    ])
    .unwrap();
    dal.insert_initial_writes(L1BatchNumber(1), &[value(0x50), value(0x10), value(0x30)])
        .unwrap();
    dal
}

#[test]
fn chunk_starts_ascend_with_sorted_ranges() {
    let dal = recovered_ledger();
    let ranges = [
        KeyRange::new(value(0x00), value(0x0f)),
        KeyRange::new(value(0x10), value(0x2f)),
        KeyRange::new(value(0x30), value(0x4f)),
        KeyRange::new(value(0x51), value(0x6f)),
        KeyRange::new(value(0x70), value(0xff)),
    ];
    let starts = dal.get_chunk_starts_for_miniblock(MiniblockNumber(1), &ranges).unwrap();
    assert_eq!(
        starts,
        vec![
            None,
            Some(StorageRecoveryLogEntry {
                key: value(0x10),
                value: value(4),
                leaf_index: 2,
            }),
            Some(StorageRecoveryLogEntry {
                key: value(0x30),
                value: value(1),
                leaf_index: 3,
            }),
            // 0x50 lies just below the range, 0x70 was written in another
            // miniblock: neither may show up here.
            None,
            None,
        ]
    );
    let keys: Vec<H256> = starts.iter().flatten().map(|entry| entry.key).collect();
    assert!(keys.windows(2).all(|pair| pair[0] < pair[1]));
}

#[test]
fn chunk_start_is_the_smallest_key_of_the_range() {
    let dal = recovered_ledger();
    let starts = dal
        .get_chunk_starts_for_miniblock(
            MiniblockNumber(1),
            &[
                KeyRange::new(H256::zero(), value(0xff)),
                KeyRange::new(value(0x11), value(0xff)),
                KeyRange::new(value(0x50), value(0x50)),
            ],
        )
        .unwrap();
    assert_eq!(starts[0].unwrap().key, value(0x10));
    assert_eq!(starts[1].unwrap().key, value(0x30));
    assert_eq!(
        starts[2],
        Some(StorageRecoveryLogEntry {
            key: value(0x50),
            value: value(3),
            leaf_index: 1,
        })
    );
    assert_eq!(
        dal.get_chunk_starts_for_miniblock(MiniblockNumber(1), &[]).unwrap(),
        vec![]
    );
}

#[test]
fn chunk_start_without_a_leaf_is_a_consistency_fault() {
    let dal = recovered_ledger();
    // Miniblock 2 holds the key 0x70, which is not indexed.
    assert_eq!(
        dal.get_chunk_starts_for_miniblock(
            MiniblockNumber(2),
            &[KeyRange::new(H256::zero(), value(0xff))]
        ),
        Err(DalError::ConsistencyFault)
    );
    assert_eq!(
        dal.get_chunk_starts_for_miniblock(
            MiniblockNumber(2),
            &[KeyRange::new(H256::zero(), value(0x6f))]
        ),
        Ok(vec![None])
    );
}

#[test]
fn tree_entries_list_each_key_once_in_order() {
    let dal = recovered_ledger();
    let entries = dal
        .get_tree_entries_for_miniblock(MiniblockNumber(1), KeyRange::new(H256::zero(), value(0xff)))
        .unwrap();
    assert_eq!(
        entries,
        vec![
            StorageRecoveryLogEntry {
                key: value(0x10),
                value: value(4),
                leaf_index: 2,
            },
            StorageRecoveryLogEntry {
                key: value(0x30),
                value: value(1),
                leaf_index: 3,
            },
            StorageRecoveryLogEntry {
                key: value(0x50),
                value: value(3),
                leaf_index: 1,
            },
        ]
    );
    let entries = dal
        .get_tree_entries_for_miniblock(MiniblockNumber(1), KeyRange::new(value(0x11), value(0x4f)))
        .unwrap();
    assert_eq!(entries.len(), 1);
    assert_eq!(entries[0].key, value(0x30));
    let entries = dal
        .get_tree_entries_for_miniblock(MiniblockNumber(3), KeyRange::new(H256::zero(), value(0xff)))
        .unwrap();
    assert!(entries.is_empty());
}

#[test]
fn tree_entry_without_a_leaf_is_a_consistency_fault() {
    let dal = recovered_ledger();
    assert_eq!(
        dal.get_tree_entries_for_miniblock(MiniblockNumber(0), KeyRange::new(H256::zero(), value(0xff))),
        Err(DalError::ConsistencyFault)
    );
    assert_eq!(
        dal.get_tree_entries_for_miniblock(MiniblockNumber(0), KeyRange::new(value(0x21), value(0xff))),
        Ok(vec![])
    );
}

#[test]
fn counting_and_listing_the_writes_of_a_miniblock() {
    let dal = recovered_ledger();
    assert_eq!(dal.count_miniblock_storage_logs(MiniblockNumber(1)), 4);
    assert_eq!(dal.count_miniblock_storage_logs(MiniblockNumber(2)), 1);
    assert_eq!(dal.count_miniblock_storage_logs(MiniblockNumber(3)), 0);

    let mut shuffled = StorageLogsDal::new();
    shuffled
        .insert_log_rows(vec![
            row(key(1), value(1), 1, 4),
            row(key(2), value(2), 2, 0),
            row(key(3), value(3), 1, 0),
            row(key(1), value(4), 1, 2),
        ])
        .unwrap();
    assert_eq!(
        shuffled.get_miniblock_storage_logs(MiniblockNumber(1)),
        vec![(key(3), value(3), 0), (key(1), value(4), 2), (key(1), value(1), 4)]
    );
    assert!(shuffled.get_miniblock_storage_logs(MiniblockNumber(5)).is_empty());
}

#[test]
fn retaining_prunes_one_miniblock() {
    let mut dal = StorageLogsDal::new();
    dal.insert_log_rows(vec![
        row(key(1), value(1), 1, 0),
        row(key(2), value(2), 1, 1),
        row(key(3), value(3), 1, 2),
        row(key(4), value(4), 2, 1),
    ])
    .unwrap();
    dal.retain_storage_logs(MiniblockNumber(1), &[2, 0, -1, 7]);
    assert_eq!(
        dal.dump_all_storage_logs_for_tests(),
        vec![
            row(key(1), value(1), 1, 0),
            row(key(3), value(3), 1, 2),
            row(key(4), value(4), 2, 1),
        ]
    );
    dal.retain_storage_logs(MiniblockNumber(1), &[]);
    assert_eq!(dal.dump_all_storage_logs_for_tests(), vec![row(key(4), value(4), 2, 1)]);
}

#[test]
fn snapshot_entries_are_logged_at_their_leaves() {
    let snapshot = [
        SnapshotStorageLog {
            key: slot(1),
            value: value(1),
            l1_batch_number_of_initial_write: L1BatchNumber(1),
            enumeration_index: 7,
        },
        SnapshotStorageLog {
            key: slot(2),
            value: value(2),
            l1_batch_number_of_initial_write: L1BatchNumber(2),
            enumeration_index: 3,
        },
    ];
    let rows = snapshot_log_rows(MiniblockNumber(5), &snapshot);
    assert_eq!(rows.len(), 2);
    assert_eq!(rows[0].hashed_key, slot(1).hashed_key());
    assert_eq!(rows[0].operation_number, 7);
    assert_eq!(rows[1].operation_number, 3);
    assert_eq!(rows[1].tx_hash, H256::zero());
    assert_eq!(rows[1].key, key(2));
    assert_eq!(rows[1].miniblock_number, MiniblockNumber(5));

    let mut dal = StorageLogsDal::new();
    dal.insert_storage_logs_from_snapshot(MiniblockNumber(5), &snapshot).unwrap();
    assert_eq!(dal.dump_all_storage_logs_for_tests(), rows);
    assert_eq!(
        dal.get_storage_value(&slot(2).hashed_key(), MiniblockNumber(5)),
        Some(value(2))
    );
    assert_eq!(dal.count_miniblock_storage_logs(MiniblockNumber(5)), 2);
}

#[test]
fn snapshot_with_clashing_leaves_is_a_storage_fault() {
    let entry = |n: u64, leaf: u64| SnapshotStorageLog {
        key: slot(n),
        value: value(1),
        l1_batch_number_of_initial_write: L1BatchNumber(1),
        enumeration_index: leaf,
    };
    let mut dal = StorageLogsDal::new();
    assert_eq!(
        dal.insert_storage_logs_from_snapshot(MiniblockNumber(5), &[entry(1, 4), entry(2, 4)]),
        Err(DalError::StorageFault)
    );
    assert_eq!(
        dal.insert_storage_logs_from_snapshot(
            MiniblockNumber(5),
            &[entry(1, u64::from(u32::MAX) + 1)]
        ),
        Err(DalError::StorageFault)
    );
    assert_eq!(
        dal.insert_storage_logs_from_snapshot(MiniblockNumber(5), &[entry(1, 4)]),
        Ok(())
    );
    assert_eq!(
        dal.insert_storage_logs_from_snapshot(MiniblockNumber(5), &[entry(2, 4)]),
        Err(DalError::StorageFault)
    );
    assert_eq!(
        dal.insert_storage_logs_from_snapshot(MiniblockNumber(6), &[entry(2, 4)]),
        Ok(())
    );
    assert_eq!(dal.dump_all_storage_logs_for_tests().len(), 2);
}

#[test]
fn touched_slots_hold_the_last_value_of_the_batch() {
    let mut dal = StorageLogsDal::new();
    let mut blocks = BlocksWeb3Dal::new();
    for number in [1, 2, 3] {
        blocks.insert_miniblock(header(number)).unwrap();
    }
    blocks.mark_miniblocks_as_executed_in_l1_batch(L1BatchNumber(1));
    blocks.insert_miniblock(header(4)).unwrap();
    blocks.mark_miniblocks_as_executed_in_l1_batch(L1BatchNumber(2));
    let write = |n: u64, v: u8| (H256::zero(), vec![StorageLog::new_write_log(slot(n), value(v))]);
    dal.insert_storage_logs(MiniblockNumber(1), &[write(1, 1), write(2, 2)]).unwrap();
    dal.insert_storage_logs(MiniblockNumber(3), &[write(1, 3)]).unwrap();
    dal.insert_storage_logs(MiniblockNumber(2), &[write(1, 4), write(3, 5)]).unwrap();
    dal.insert_storage_logs(MiniblockNumber(4), &[write(1, 6), write(4, 7)]).unwrap();

    let touched = dal.get_touched_slots_for_l1_batch(&blocks, L1BatchNumber(1));
    assert_eq!(touched.len(), 3);
    assert_eq!(*touched.get(&slot(1)).unwrap(), value(3));
    assert_eq!(*touched.get(&slot(2)).unwrap(), value(2));
    assert_eq!(*touched.get(&slot(3)).unwrap(), value(5));
    assert!(!touched.contains_key(&slot(4)));

    let touched = dal.get_touched_slots_for_l1_batch(&blocks, L1BatchNumber(2));
    assert_eq!(touched.len(), 2);
    assert_eq!(*touched.get(&slot(1)).unwrap(), value(6));
    assert!(dal.get_touched_slots_for_l1_batch(&blocks, L1BatchNumber(3)).is_empty());
}

#[test]
fn contract_is_deployed_while_its_code_hash_is_not_zero() {
    let address = Address::repeat_byte(0x11);
    let code_key = get_code_key(&address);
    let mut dal = StorageLogsDal::new();
    assert!(!dal.is_contract_deployed_at_address(address));

    let write = |v: H256| [(H256::zero(), vec![StorageLog::new_write_log(code_key, v)])];
    dal.insert_storage_logs(MiniblockNumber(1), &write(value(9))).unwrap();
    assert!(dal.is_contract_deployed_at_address(address));
    assert!(dal.is_code_deployed_at(&code_key.hashed_key()));
    assert!(!dal.is_contract_deployed_at_address(Address::repeat_byte(0x12)));

    // A failed deployment writes the zero hash.
    dal.insert_storage_logs(MiniblockNumber(2), &write(H256::zero())).unwrap();
    assert!(!dal.is_contract_deployed_at_address(address));
    dal.rollback_storage_logs(MiniblockNumber(1));
    assert!(dal.is_contract_deployed_at_address(address));
}

#[test]
fn writes_are_ordered_by_miniblock_then_operation() {
    assert!(written_before(
        &row(key(1), value(1), 1, 9),
        &row(key(2), value(1), 2, 0)
    ));
    assert!(written_before(
        &row(key(1), value(1), 2, 0),
        &row(key(2), value(1), 2, 1)
    ));
    assert!(!written_before(
        &row(key(1), value(1), 2, 1),
        &row(key(2), value(1), 2, 1)
    ));
    assert!(!written_before(
        &row(key(1), value(1), 3, 0),
        &row(key(2), value(1), 2, 1)
    ));
}

#[test]
fn keyed_map_keeps_the_last_value_of_a_key() {
    let mut map: HashedKeyMap<u32> = HashedKeyMap::new();
    assert!(map.is_empty());
    map.insert(key(1), 10);
    map.insert(key(2), 20);
    map.insert(key(1), 30);
    assert_eq!(map.len(), 2);
    assert!(!map.is_empty());
    assert_eq!(map.get(&key(1)), Some(&30));
    assert_eq!(map.get(&key(2)), Some(&20));
    assert_eq!(map.get(&key(3)), None);
    assert!(map.contains_key(&key(2)));
    assert!(!map.contains_key(&key(3)));
    assert_eq!(map.entries(), &vec![(key(1), 30), (key(2), 20)]);
}

#[test]
fn errors_describe_themselves() {
    assert_ne!(DalError::StorageFault, DalError::ConsistencyFault);
    assert!(DalError::StorageFault.message().contains("rejected"));
    assert!(DalError::ConsistencyFault.message().contains("disagree"));
}

#[test]
fn records_of_first_writes_keep_their_leaves() {
    let record = |n: u64, batch: u32, index: u64| InitialWrite {
        hashed_key: key(n),
        l1_batch_number: L1BatchNumber(batch),
        index,
    };
    let mut dal = StorageLogsDal::new();
    dal.insert_initial_write_records(&[record(1, 3, 40), record(2, 1, 7)]).unwrap();
    let found = dal.get_l1_batches_and_indices_for_initial_writes(&[key(1), key(2)]);
    assert_eq!(*found.get(&key(1)).unwrap(), (L1BatchNumber(3), 40));
    assert_eq!(*found.get(&key(2)).unwrap(), (L1BatchNumber(1), 7));
    assert_eq!(dal.max_enumeration_index(), 40);

    // A key or a leaf that is taken, in the index or among the records.
    assert_eq!(
        dal.insert_initial_write_records(&[record(3, 1, 8), record(1, 1, 9)]),
        Err(DalError::StorageFault)
    );
    assert_eq!(
        dal.insert_initial_write_records(&[record(3, 1, 7)]),
        Err(DalError::StorageFault)
    );
    assert_eq!(
        dal.insert_initial_write_records(&[record(3, 1, 8), record(3, 1, 9)]),
        Err(DalError::StorageFault)
    );
    assert_eq!(
        dal.insert_initial_write_records(&[record(3, 1, 8), record(4, 1, 8)]),
        Err(DalError::StorageFault)
    );
    assert_eq!(dal.get_l1_batches_and_indices_for_initial_writes(&[key(3), key(4)]).len(), 0);

    // The next first writes get the leaves behind the largest.
    dal.insert_initial_writes(L1BatchNumber(4), &[key(3)]).unwrap();
    let found = dal.get_l1_batches_and_indices_for_initial_writes(&[key(3)]);
    assert_eq!(*found.get(&key(3)).unwrap(), (L1BatchNumber(4), 41));
}

#[test]
fn snapshot_entries_tell_of_first_writes() {
    let snapshot = [
        SnapshotStorageLog {
            key: slot(1),
            value: value(1),
            l1_batch_number_of_initial_write: L1BatchNumber(2),
            enumeration_index: 7,
        },
        SnapshotStorageLog {
            key: slot(2),
            value: value(2),
            l1_batch_number_of_initial_write: L1BatchNumber(5),
            enumeration_index: 3,
        },
    ];
    let records = snapshot_records(&snapshot);
    assert_eq!(
        records,
        vec![
            InitialWrite {
                hashed_key: slot(1).hashed_key(),
                l1_batch_number: L1BatchNumber(2),
                index: 7,
            },
            InitialWrite {
                hashed_key: slot(2).hashed_key(),
                l1_batch_number: L1BatchNumber(5),
                index: 3,
            },
        ]
    );
    let mut dal = StorageLogsDal::new();
    dal.insert_storage_logs_from_snapshot(MiniblockNumber(9), &snapshot).unwrap();
    dal.insert_initial_writes_from_snapshot(&snapshot).unwrap();
    assert_eq!(
        dal.insert_initial_writes_from_snapshot(&snapshot),
        Err(DalError::StorageFault)
    );
    let entries = dal
        .get_tree_entries_for_miniblock(MiniblockNumber(9), KeyRange::new(H256::zero(), value(0xff)))
        .unwrap();
    assert_eq!(entries.len(), 2);
    for entry in &entries {
        let from = snapshot
            .iter()
            .find(|log| log.key.hashed_key() == entry.key)
            .unwrap();
        assert_eq!(entry.value, from.value);
        assert_eq!(entry.leaf_index, from.enumeration_index);
    }
    assert!(entries[0].key < entries[1].key);
}

/// The keys that existed by the end of the batch, each with its value at the
/// batch's last miniblock and its leaf.
fn state_as_of(
    dal: &StorageLogsDal,
    keys: &[H256],
    last_miniblock: u32,
    l1_batch: u32,
) -> std::collections::BTreeMap<H256, (H256, u64)> {
    let indexed = dal.get_l1_batches_and_indices_for_initial_writes(keys);
    let mut state = std::collections::BTreeMap::new();
    for key in keys {
        if let Some((batch, leaf)) = indexed.get(key) {
            if batch.0 <= l1_batch {
                let written = dal
                    .get_storage_value(key, MiniblockNumber(last_miniblock))
                    .unwrap();
                state.insert(*key, (written, *leaf));
            }
        }
    }
    state
}

#[test]
fn carrying_out_the_plan_gives_the_earlier_state() {
    let mut dal = StorageLogsDal::new();
    let mut rows = Vec::new();
    for n in 0..6u64 {
        rows.push(row(key(n), value(1), 1, n));
    }
    for n in 3..12u64 {
        rows.push(row(key(n), value(2), 2, n));
    }
    for n in 5..15u64 {
        rows.push(row(key(n), value(3), 3, n));
    }
    dal.insert_log_rows(rows).unwrap();
    // The key 0 is written with a value that never becomes state.
    let first: Vec<H256> = (1..6u64).map(key).collect();
    let second: Vec<H256> = (6..12u64).map(key).collect();
    let third: Vec<H256> = (12..14u64).map(key).collect();
    dal.insert_initial_writes(L1BatchNumber(1), &first).unwrap();
    dal.insert_initial_writes(L1BatchNumber(2), &second).unwrap();
    dal.insert_initial_writes(L1BatchNumber(3), &third).unwrap();
    let blocks = blocks_with_batches(&[1, 2, 3]);
    let keys: Vec<H256> = (0..20u64).map(key).collect();

    for target in 1..=3u32 {
        let mut state = state_as_of(&dal, &keys, 3, 3);
        let plan = dal
            .get_storage_logs_for_revert(&blocks, L1BatchNumber(target))
            .unwrap();
        for (hashed_key, entry) in plan.entries() {
            match entry {
                Some(restored) => {
                    state.insert(*hashed_key, *restored);
                }
                None => {
                    state.remove(hashed_key);
                }
            }
        }
        assert_eq!(state, state_as_of(&dal, &keys, target, target));
    }
    assert_eq!(state_as_of(&dal, &keys, 1, 1).len(), 5);
    assert_eq!(state_as_of(&dal, &keys, 2, 2).len(), 11);
    assert_eq!(state_as_of(&dal, &keys, 3, 3).len(), 13);

    // Once the log is cut off, nothing is left to revert.
    dal.rollback_storage_logs(MiniblockNumber(2));
    let plan = dal.get_storage_logs_for_revert(&blocks, L1BatchNumber(2)).unwrap();
    assert!(plan.is_empty());
}

#[test]
fn hashes_made_from_numbers_are_ordered_like_the_numbers() {
    let numbers = [0u64, 1, 255, 256, 65_535, 65_536, u64::MAX - 1, u64::MAX];
    for a in numbers {
        for b in numbers {
            assert_eq!(key(a).lt(&key(b)), a < b);
            assert_eq!(key(a).le(&key(b)), a <= b);
        }
    }
}

#[test]
fn cutting_the_log_off_undoes_an_append() {
    let mut dal = StorageLogsDal::new();
    dal.insert_log_rows(vec![row(key(1), value(1), 1, 0), row(key(2), value(2), 2, 0)])
        .unwrap();
    let before = dal.dump_all_storage_logs_for_tests();
    dal.insert_storage_logs(
        MiniblockNumber(3),
        &[(
            H256::zero(),
            vec![
                StorageLog::new_write_log(slot(1), value(3)),
                StorageLog::new_write_log(slot(2), value(4)),
            ],
        )],
    )
    .unwrap();
    assert_eq!(dal.dump_all_storage_logs_for_tests().len(), 4);
    dal.rollback_storage_logs(MiniblockNumber(2));
    assert_eq!(dal.dump_all_storage_logs_for_tests(), before);
}
