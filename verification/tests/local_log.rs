use bifrost::Error;
use bifrost::LocalLogletProvider;
use bifrost::LogState;
use bifrost::LogStateUpdate;
use bifrost::LogStoreWriteCommand;
use bifrost::LogletPayload;
use bifrost::ReadyStorageTask;
use bifrost::RocksDbLogStore;
use bifrost::StorageTaskKind;
use bifrost::StorageTaskPriority;
use bifrost::WriterState;
use bifrost::cf_data_options;
use bifrost::cf_metadata_options;
use bifrost::db_options;
use bifrost::log_state_full_merge;
use bifrost::log_state_partial_merge;

#[test]
fn local_append_assigns_contiguous_offsets() {
    let mut provider = LocalLogletProvider::new();
    for expected in 1..=5u64 {
        let offset = provider.append_to(7, vec![expected as u8]);
        assert_eq!(offset, expected);
    }
    assert_eq!(provider.find_tail_of(7), Some(5));
    assert_eq!(provider.get_trim_point_of(7), None);
    // Another log is untouched.
    assert_eq!(provider.find_tail_of(8), None);
}

#[test]
fn local_reads_see_only_durable_records() {
    let mut provider = LocalLogletProvider::new();
    provider.append_to(3, vec![42]);
    match provider.read_from(3, 0) {
        Some(item) => {
            assert_eq!(item.offset, 1);
            assert!(matches!(item.payload, LogletPayload::Data(ref b) if *b == vec![42]));
        }
        None => panic!("the committed record must be readable"),
    }
    assert!(provider.read_from(3, 1).is_none());
}

#[test]
fn local_trim_leaves_a_gap_and_clamps() {
    let mut provider = LocalLogletProvider::new();
    for i in 0..4u8 {
        provider.append_to(1, vec![i]);
    }
    provider.trim_to(1, 2);
    assert_eq!(provider.get_trim_point_of(1), Some(2));
    match provider.read_from(1, 0) {
        Some(item) => {
            assert_eq!(item.offset, 1);
            assert!(matches!(item.payload, LogletPayload::Gap { until: 2 }));
        }
        None => panic!("a gap must be reported below the trim point"),
    }
    // Over-large trims clamp to the release pointer.
    provider.trim_to(1, u64::MAX);
    assert_eq!(provider.get_trim_point_of(1), Some(4));
    assert_eq!(provider.find_tail_of(1), None);
}

#[test]
fn local_state_survives_restart() {
    // Durability before acknowledgment: what an append returned stays
    // readable after a clean shutdown and reopen, recovered from the
    // metadata column family alone.
    let mut provider = LocalLogletProvider::new();
    provider.append_to(9, vec![1]);
    provider.append_to(9, vec![2]);
    provider.trim_to(9, 1);
    provider.shutdown();
    assert_eq!(provider.log_writer.state, WriterState::Stopped);
    assert!(provider.log_store.db().wal_flushed);

    let store = provider.log_store.clone();
    assert_eq!(
        store.get_log_state(9).unwrap(),
        Some(LogState { trim_point: 1, release_pointer: 2 })
    );

    let reopened = LocalLogletProvider::open(store);
    assert_eq!(reopened.find_tail_of(9), Some(2));
    assert_eq!(reopened.get_trim_point_of(9), Some(1));
    match reopened.read_from(9, 1) {
        Some(item) => {
            assert_eq!(item.offset, 2);
            assert!(matches!(item.payload, LogletPayload::Data(ref b) if *b == vec![2]));
        }
        None => panic!("record appended before restart must be readable"),
    }
}

#[test]
fn writer_drains_pending_and_rejects_new_commands() {
    // Shutdown mid-flight: pending commands may complete, new ones are
    // rejected.
    let mut store = RocksDbLogStore::new();
    let mut writer = store.create_writer(true);
    let pending = LogStoreWriteCommand { log_id: 4, first_offset: 1, payloads: vec![vec![8]] };
    assert!(writer.enqueue(pending).is_ok());

    writer.state = WriterState::Draining;
    let refused = LogStoreWriteCommand { log_id: 4, first_offset: 2, payloads: vec![vec![9]] };
    assert!(matches!(writer.enqueue(refused), Err(Error::Shutdown)));

    // The queued command still commits, and its ack fires.
    let ack = writer.apply_next(&mut store).expect("the pending command completes");
    assert_eq!(ack.log_id, 4);
    assert_eq!(ack.first_offset, 1);
    assert_eq!(
        store.get_log_state(4).unwrap(),
        Some(LogState { trim_point: 0, release_pointer: 1 })
    );
}

#[test]
fn store_column_families_are_reachable() {
    let mut store = RocksDbLogStore::new();
    assert_eq!(store.data_cf().entries.len(), 0);
    assert_eq!(store.metadata_cf().entries.len(), 0);
    assert!(!store.db().wal_flushed);
    assert_eq!(store.get_log_state(11).unwrap(), None);
    let writer = store.create_writer(false);
    assert_eq!(writer.state, WriterState::Running);
    assert!(!writer.manual_wal_flush);
    store.shutdown();
    assert!(store.db().wal_flushed);
}

#[test]
fn merge_operator_advances_and_never_decreases() {
    let merged = log_state_full_merge(None, &vec![LogStateUpdate::ReleasePointer(5)]);
    assert_eq!(merged, LogState { trim_point: 0, release_pointer: 5 });

    let merged = log_state_full_merge(
        Some(merged),
        &vec![
            LogStateUpdate::TrimPoint(3),
            LogStateUpdate::ReleasePointer(2),
            LogStateUpdate::TrimPoint(1),
        ],
    );
    assert_eq!(merged, LogState { trim_point: 3, release_pointer: 5 });
}

#[test]
fn merge_operands_commute() {
    let a = LogStateUpdate::ReleasePointer(9);
    let b = LogStateUpdate::TrimPoint(4);
    let s = LogState { trim_point: 2, release_pointer: 6 };
    let ab = log_state_full_merge(Some(s), &vec![a, b]);
    let ba = log_state_full_merge(Some(s), &vec![b, a]);
    assert_eq!(ab, ba);
}

#[test]
fn partial_merge_folds_operands() {
    let operands = vec![
        LogStateUpdate::ReleasePointer(3),
        LogStateUpdate::TrimPoint(2),
        LogStateUpdate::ReleasePointer(7),
        LogStateUpdate::TrimPoint(1),
    ];
    let folded = log_state_partial_merge(&operands);
    assert!(folded.len() <= 2);
    let s = LogState { trim_point: 0, release_pointer: 0 };
    assert_eq!(
        log_state_full_merge(Some(s), &folded),
        log_state_full_merge(Some(s), &operands)
    );
}

#[test]
fn storage_task_kinds_have_stable_names() {
    assert_eq!(StorageTaskKind::WriteBatch.as_static_str(), "write-batch");
    assert_eq!(StorageTaskKind::OpenColumnFamily.as_static_str(), "open-column-family");
    assert_eq!(StorageTaskKind::FlushWal.as_static_str(), "flush-wal");
    assert_eq!(StorageTaskKind::Shutdown.as_static_str(), "shutdown");
    assert_eq!(StorageTaskKind::OpenDb.as_static_str(), "open-db");
}

#[test]
fn ready_storage_task_runs_its_operation() {
    let task = ReadyStorageTask {
        op: || 41 + 1,
        db_name: String::from("local-loglet"),
        priority: StorageTaskPriority::default(),
        kind: StorageTaskKind::WriteBatch,
    };
    assert_eq!(task.priority, StorageTaskPriority::Low);
    assert_eq!(task.run(), 42);
}

#[test]
fn store_names_are_stable() {
    assert_eq!(bifrost::DB_NAME, "local-loglet");
    assert_eq!(bifrost::DATA_CF, "logstore_data");
    assert_eq!(bifrost::METADATA_CF, "logstore_metadata");
}

#[test]
fn store_options_carry_the_semantic_knobs() {
    let db = db_options();
    assert_eq!(db.keep_log_file_num, 10);
    assert!(db.use_direct_reads);

    let data = cf_data_options();
    assert_eq!(data.num_levels, 7);
    assert_eq!(data.compression_per_level.len(), 7);
    assert!(!data.advise_random_on_open);
    assert!(!data.log_state_merge_operator);

    let meta = cf_metadata_options();
    assert_eq!(meta.num_levels, 3);
    assert_eq!(meta.compression_per_level.len(), 3);
    assert_eq!(meta.max_write_buffer_number, 3);
    assert_eq!(meta.min_write_buffer_number_to_merge, 3);
    assert_eq!(meta.max_successive_merges, 10);
    assert!(meta.log_state_merge_operator);
}
