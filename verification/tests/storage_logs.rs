use zksync_dal::basic_types::{Address, L1BatchNumber, MiniblockNumber, H256};
use zksync_dal::blocks_web3_dal::{BlocksWeb3Dal, MiniblockHeader};
use zksync_dal::models::KeyRange;
use zksync_dal::storage::{AccountTreeId, StorageKey, StorageLog};
use zksync_dal::storage_logs_dal::StorageLogsDal;

struct Storage {
    blocks: BlocksWeb3Dal,
    logs: StorageLogsDal,
}

impl Storage {
    fn new() -> Storage {
        Storage {
            blocks: BlocksWeb3Dal::new(),
            logs: StorageLogsDal::new(),
        }
    }

    fn get_value(&self, key: &StorageKey) -> H256 {
        self.logs
            .get_storage_value(&key.hashed_key(), MiniblockNumber(u32::MAX))
            .unwrap_or(H256::zero())
    }

    fn insert_initial_writes(&mut self, l1_batch: L1BatchNumber, keys: &[StorageKey]) {
        let hashed_keys: Vec<_> = keys.iter().map(|key| key.hashed_key()).collect();
        self.logs
            .insert_initial_writes(l1_batch, &hashed_keys)
            .unwrap();
    }
}

fn create_miniblock_header(number: u32) -> MiniblockHeader {
    MiniblockHeader {
        number: MiniblockNumber(number),
        timestamp: 0,
        hash: H256::from_low_u64_be(u64::from(number)),
        l1_tx_count: 0,
        l2_tx_count: 0,
        base_fee_per_gas: 100,
    }
}

fn insert_miniblock(conn: &mut Storage, number: u32, logs: Vec<StorageLog>) {
    conn.blocks
        .insert_miniblock(create_miniblock_header(number))
        .unwrap();

    let logs = [(H256::zero(), logs)];
    conn.logs
        .insert_storage_logs(MiniblockNumber(number), &logs)
        .unwrap();
    conn.blocks
        .mark_miniblocks_as_executed_in_l1_batch(L1BatchNumber(number));
}

#[test]
fn inserting_storage_logs() {
    let mut conn = Storage::new();

    let account = AccountTreeId::new(Address::repeat_byte(1));
    let first_key = StorageKey::new(account, H256::zero());
    let second_key = StorageKey::new(account, H256::from_low_u64_be(1));
    let log = StorageLog::new_write_log(first_key, H256::repeat_byte(1));
    let other_log = StorageLog::new_write_log(second_key, H256::repeat_byte(2));
    insert_miniblock(&mut conn, 1, vec![log, other_log]);

    let touched_slots = conn
        .logs
        .get_touched_slots_for_l1_batch(&conn.blocks, L1BatchNumber(1));
    assert_eq!(touched_slots.len(), 2);
    assert_eq!(*touched_slots.get(&first_key).unwrap(), H256::repeat_byte(1));
    assert_eq!(
        *touched_slots.get(&second_key).unwrap(),
        H256::repeat_byte(2)
    );

    // Add more logs and check log ordering.
    let third_log = StorageLog::new_write_log(first_key, H256::repeat_byte(3));
    let more_logs = [(H256::repeat_byte(1), vec![third_log])];
    conn.logs
        .append_storage_logs(MiniblockNumber(1), &more_logs)
        .unwrap();

    let touched_slots = conn
        .logs
        .get_touched_slots_for_l1_batch(&conn.blocks, L1BatchNumber(1));
    assert_eq!(touched_slots.len(), 2);
    assert_eq!(*touched_slots.get(&first_key).unwrap(), H256::repeat_byte(3));
    assert_eq!(
        *touched_slots.get(&second_key).unwrap(),
        H256::repeat_byte(2)
    );

    test_rollback(&mut conn, first_key, second_key);
}

fn test_rollback(conn: &mut Storage, key: StorageKey, second_key: StorageKey) {
    let new_account = AccountTreeId::new(Address::repeat_byte(2));
    let new_key = StorageKey::new(new_account, H256::zero());
    let log = StorageLog::new_write_log(key, H256::repeat_byte(0xff));
    let other_log = StorageLog::new_write_log(second_key, H256::zero());
    let new_key_log = StorageLog::new_write_log(new_key, H256::repeat_byte(0xfe));
    let logs = vec![log, other_log, new_key_log];
    insert_miniblock(conn, 2, logs);

    let value = conn.get_value(&key);
    assert_eq!(value, H256::repeat_byte(0xff));
    let value = conn.get_value(&second_key);
    assert_eq!(value, H256::zero());
    let value = conn.get_value(&new_key);
    assert_eq!(value, H256::repeat_byte(0xfe));

    let prev_keys = vec![key.hashed_key(), new_key.hashed_key(), H256::zero()];
    let prev_values =
        conn.logs
            .get_previous_storage_values(&conn.blocks, &prev_keys, L1BatchNumber(2));
    assert_eq!(prev_values.len(), 3);
    assert_eq!(
        *prev_values.get(&prev_keys[0]).unwrap(),
        Some(H256::repeat_byte(3))
    );
    assert_eq!(*prev_values.get(&prev_keys[1]).unwrap(), None);
    assert_eq!(*prev_values.get(&prev_keys[2]).unwrap(), None);

    conn.logs.rollback_storage_logs(MiniblockNumber(1));

    let value = conn.get_value(&key);
    assert_eq!(value, H256::repeat_byte(3));
    let value = conn.get_value(&second_key);
    assert_eq!(value, H256::repeat_byte(2));
    let value = conn.get_value(&new_key);
    assert_eq!(value, H256::zero());
}

#[test]
fn getting_storage_logs_for_revert() {
    let mut conn = Storage::new();

    let account = AccountTreeId::new(Address::repeat_byte(1));
    let logs: Vec<_> = (0_u8..10)
        .map(|i| {
            let key = StorageKey::new(account, H256::from_low_u64_be(u64::from(i)));
            StorageLog::new_write_log(key, H256::repeat_byte(i))
        })
        .collect();
    insert_miniblock(&mut conn, 1, logs.clone());
    let written_keys: Vec<_> = logs.iter().map(|log| log.key).collect();
    conn.insert_initial_writes(L1BatchNumber(1), &written_keys);

    let new_logs: Vec<_> = (5_u64..20)
        .map(|i| {
            let key = StorageKey::new(account, H256::from_low_u64_be(i));
            StorageLog::new_write_log(key, H256::from_low_u64_be(i))
        })
        .collect();
    insert_miniblock(&mut conn, 2, new_logs.clone());
    let new_written_keys: Vec<_> = new_logs[5..].iter().map(|log| log.key).collect();
    conn.insert_initial_writes(L1BatchNumber(2), &new_written_keys);

    let logs_for_revert = conn
        .logs
        .get_storage_logs_for_revert(&conn.blocks, L1BatchNumber(1))
        .unwrap();
    assert_eq!(logs_for_revert.len(), 15); // 5 updated + 10 new keys
    for log in &logs[5..] {
        let prev_value = logs_for_revert
            .get(&log.key.hashed_key())
            .unwrap()
            .unwrap()
            .0;
        assert_eq!(prev_value, log.value);
    }
    for log in &new_logs[5..] {
        assert!(logs_for_revert
            .get(&log.key.hashed_key())
            .unwrap()
            .is_none());
    }
}

#[test]
fn reverting_keys_without_initial_write() {
    let mut conn = Storage::new();

    let account = AccountTreeId::new(Address::repeat_byte(1));
    let mut logs: Vec<_> = [0_u8, 1, 2, 3]
        .iter()
        .map(|&i| {
            let key = StorageKey::new(account, H256::from_low_u64_be(u64::from(i)));
            StorageLog::new_write_log(key, H256::repeat_byte(i % 3))
        })
        .collect();

    for l1_batch in [1, 2] {
        if l1_batch == 2 {
            for log in &mut logs[1..] {
                log.value = H256::repeat_byte(0xff);
            }
        }
        insert_miniblock(&mut conn, l1_batch, logs.clone());

        let all_keys: Vec<_> = logs.iter().map(|log| log.key.hashed_key()).collect();
        let non_initial = conn
            .logs
            .get_l1_batches_and_indices_for_initial_writes(&all_keys);
        // Pretend that dedup logic eliminates all writes with zero values.
        let initial_keys: Vec<_> = logs
            .iter()
            .filter_map(|log| {
                (!log.value.is_zero() && !non_initial.contains_key(&log.key.hashed_key()))
                    .then_some(log.key)
            })
            .collect();

        assert!(initial_keys.len() < logs.len());
        conn.insert_initial_writes(L1BatchNumber(l1_batch), &initial_keys);
    }

    let logs_for_revert = conn
        .logs
        .get_storage_logs_for_revert(&conn.blocks, L1BatchNumber(1))
        .unwrap();
    assert_eq!(logs_for_revert.len(), 3);
    for (i, log) in logs.iter().enumerate() {
        let hashed_key = log.key.hashed_key();
        match i {
            // Key is deduped.
            0 => assert!(!logs_for_revert.contains_key(&hashed_key)),
            // Key is present in both batches as per the log and the index.
            1 | 2 => assert!(logs_for_revert.get(&hashed_key).unwrap().is_some()),
            // Key is present in both batches as per the log, but the index
            // indicates that the first write was deduped.
            3 => assert!(logs_for_revert.get(&hashed_key).unwrap().is_none()),
            _ => unreachable!("we only have 4 keys"),
        }
    }
}

#[test]
fn getting_starting_entries_in_chunks() {
    let mut conn = Storage::new();
    let sorted_hashed_keys = prepare_tree_entries(&mut conn, 100);

    let key_ranges = [
        KeyRange::new(H256::zero(), H256::repeat_byte(0xff)),
        KeyRange::new(H256::repeat_byte(0x40), H256::repeat_byte(0x80)),
        KeyRange::new(H256::repeat_byte(0x50), H256::repeat_byte(0x60)),
        KeyRange::new(H256::repeat_byte(0x50), H256::repeat_byte(0x51)),
        KeyRange::new(H256::repeat_byte(0xb0), H256::repeat_byte(0xfe)),
        KeyRange::new(H256::repeat_byte(0x11), H256::repeat_byte(0x11)),
    ];

    let chunk_starts = conn
        .logs
        .get_chunk_starts_for_miniblock(MiniblockNumber(1), &key_ranges)
        .unwrap();

    for (chunk_start, key_range) in chunk_starts.into_iter().zip(key_ranges) {
        let expected_start_key = sorted_hashed_keys
            .iter()
            .find(|&key| key_range.contains(key));
        if let Some(chunk_start) = chunk_start {
            assert_eq!(chunk_start.key, *expected_start_key.unwrap());
            assert_ne!(chunk_start.value, H256::zero());
            assert_ne!(chunk_start.leaf_index, 0);
        } else {
            assert_eq!(expected_start_key, None);
        }
    }
}

fn prepare_tree_entries(conn: &mut Storage, count: u8) -> Vec<H256> {
    let account = AccountTreeId::new(Address::repeat_byte(1));
    let logs: Vec<_> = (0..count)
        .map(|i| {
            let key = StorageKey::new(account, H256::repeat_byte(i));
            StorageLog::new_write_log(key, H256::repeat_byte(i))
        })
        .collect();
    insert_miniblock(conn, 1, logs.clone());

    let mut initial_keys: Vec<_> = logs.iter().map(|log| log.key).collect();
    initial_keys.sort_unstable();
    conn.insert_initial_writes(L1BatchNumber(1), &initial_keys);

    let mut sorted_hashed_keys: Vec<_> = logs.iter().map(|log| log.key.hashed_key()).collect();
    sorted_hashed_keys.sort_unstable();
    sorted_hashed_keys
}

#[test]
fn getting_tree_entries() {
    let mut conn = Storage::new();
    let sorted_hashed_keys = prepare_tree_entries(&mut conn, 10);

    let key_range = KeyRange::new(H256::zero(), H256::repeat_byte(0xff));
    let tree_entries = conn
        .logs
        .get_tree_entries_for_miniblock(MiniblockNumber(1), key_range)
        .unwrap();
    assert_eq!(tree_entries.len(), 10);
    assert_eq!(
        tree_entries
            .iter()
            .map(|entry| entry.key)
            .collect::<Vec<_>>(),
        sorted_hashed_keys
    );

    let key_range = KeyRange::new(H256::repeat_byte(0x80), H256::repeat_byte(0xbf));
    let tree_entries = conn
        .logs
        .get_tree_entries_for_miniblock(MiniblockNumber(1), key_range)
        .unwrap();
    assert!(!tree_entries.is_empty() && tree_entries.len() < 10);
    for entry in &tree_entries {
        assert!(key_range.contains(&entry.key));
    }
}
