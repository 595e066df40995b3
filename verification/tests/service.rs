use state_consumer::config::{
    default_max_wait_time_in_secs, default_metrics_port, default_pgpoolsize, default_pgport,
    default_port, default_start_rollback_depth, default_updates_per_request, PostgresConfig,
};
use state_consumer::data_entries::daemon::{
    append_data_entries, resume, starting_height, BlockUidWithDataEntry,
};
use state_consumer::data_entries::entity::same_entity;
use state_consumer::data_entries::repo::MemoryRepo;
use state_consumer::data_entries::memory::MemoryStore;
use state_consumer::data_entries::{
    BlockMicroblock, DataEntriesRepoOperations, DataEntry, DataEntryUpdate, MAX_UID,
};
use state_consumer::error::AppError;
use state_consumer::readiness::{
    LastBlock, Poll, Readiness, MAX_BLOCK_AGE_SECS, POLL_INTERVAL_SECS,
};

#[test]
fn defaults_of_the_configuration() {
    assert_eq!(default_port(), 8080);
    assert_eq!(default_metrics_port(), 9090);
    assert_eq!(default_pgport(), 5432);
    assert_eq!(default_updates_per_request(), 256);
    assert_eq!(default_max_wait_time_in_secs(), 5);
    assert_eq!(default_start_rollback_depth(), 1);
    assert_eq!(default_pgpoolsize(), 2);
}

#[test]
fn url_of_the_database() {
    let config = PostgresConfig {
        host: "db.local".to_string(),
        port: 5432,
        database: "entries".to_string(),
        user: "reader".to_string(),
        password: "pw".to_string(),
        poolsize: 2,
    };
    assert_eq!(config.database_url(), "postgres://reader:pw@db.local:5432/entries");
    let config = PostgresConfig { port: 0, ..config };
    assert_eq!(config.database_url(), "postgres://reader:pw@db.local:0/entries");
}

#[test]
fn largest_uid_is_two_below_the_top() {
    assert_eq!(MAX_UID, i64::MAX - 1);
    assert_eq!(MAX_UID as i128, (1i128 << 63) - 2);
}

#[test]
fn errors_as_text() {
    let text = |e: AppError| e.message();
    let m = || "why".to_string();
    assert_eq!(text(AppError::LoadConfigFailed(m())), "LoadConfigFailed: why");
    assert_eq!(text(AppError::GrpcTransportError(m())), "GrpcTransportError: why");
    assert_eq!(text(AppError::GrpcError(m())), "GrpcError: why");
    assert_eq!(text(AppError::InvalidMessage(m())), "InvalidMessage: why");
    assert_eq!(text(AppError::InvalidBase58String(m())), "InvalidBase58String: why");
    assert_eq!(text(AppError::DbError(m())), "DbError: why");
    assert_eq!(text(AppError::ConnectionError(m())), "ConnectionError: why");
    assert_eq!(text(AppError::SendError(m())), "SendError: why");
    assert_eq!(text(AppError::JoinError(m())), "JoinError: why");
    assert_eq!(text(AppError::StreamClosed(m())), "StreamClosed: why");
    assert_eq!(text(AppError::LivenessCheckFailed(m())), "LivenessCheckFailed: why");
    assert_eq!(text(AppError::SequenceExhausted(m())), "SequenceExhausted: why");
    assert_eq!(text(AppError::DbError(String::new())), "DbError: ");
}

#[test]
fn readiness_constants() {
    assert_eq!(POLL_INTERVAL_SECS, 60);
    assert_eq!(MAX_BLOCK_AGE_SECS, 300);
}

#[test]
fn later_time_stamp_is_ready_and_remembered() {
    let mut last = LastBlock::new(100);
    assert_eq!(last.timestamp, 0);
    assert_eq!(last.last_change, 100);
    assert_eq!(last.observe(Poll::Timestamp(5000), 160, 300), Readiness::Ready);
    assert_eq!(last.timestamp, 5000);
    assert_eq!(last.last_change, 160);
}

#[test]
fn same_time_stamp_is_dead_once_it_is_too_old() {
    let mut last = LastBlock::new(0);
    assert_eq!(last.observe(Poll::Timestamp(5000), 60, 300), Readiness::Ready);
    assert_eq!(last.observe(Poll::Timestamp(5000), 360, 300), Readiness::Ready);
    assert_eq!(last.observe(Poll::Timestamp(5000), 361, 300), Readiness::Dead);
    assert_eq!(last.observe(Poll::Timestamp(4000), 400, 300), Readiness::Dead);
    assert_eq!(last.timestamp, 5000);
    assert_eq!(last.last_change, 60);
    assert_eq!(last.observe(Poll::Timestamp(5001), 420, 300), Readiness::Ready);
    assert_eq!(last.last_change, 420);
}

#[test]
fn failed_poll_is_dead() {
    let mut last = LastBlock::new(0);
    assert_eq!(last.observe(Poll::Failed, 1, 300), Readiness::Dead);
    assert_eq!(last.timestamp, 0);
    assert_eq!(last.last_change, 0);
}

#[test]
fn store_without_key_block_is_judged_by_age() {
    let mut last = LastBlock::new(10);
    assert_eq!(last.observe(Poll::NoBlock, 310, 300), Readiness::Ready);
    assert_eq!(last.observe(Poll::NoBlock, 311, 300), Readiness::Dead);
    assert_eq!(last.observe(Poll::NoBlock, 5, 300), Readiness::Ready);
}

fn stored(id: &str, height: i32, time_stamp: Option<i64>) -> BlockMicroblock {
    BlockMicroblock { id: id.to_string(), time_stamp, height }
}

fn filled() -> MemoryStore {
    let mut store = MemoryStore::new();
    let uids = store
        .insert_blocks_or_microblocks(&vec![
            stored("a", 1, Some(100)),
            stored("b", 2, Some(200)),
            stored("m1", 2, None),
            stored("m2", 2, None),
        ])
        .unwrap();
    assert_eq!(uids, vec![1, 2, 3, 4]);
    store
}

#[test]
fn queries_of_an_empty_store() {
    let store = MemoryStore::new();
    assert!(store.get_handled_height(0).unwrap().is_none());
    assert_eq!(store.get_last_block_timestamp().unwrap(), None);
    assert!(matches!(store.get_block_uid("a"), Err(AppError::DbError(_))));
    assert!(matches!(store.get_key_block_uid(), Err(AppError::DbError(_))));
    assert_eq!(store.get_total_block_id().unwrap(), None);
    assert_eq!(store.get_next_update_uid().unwrap(), 1);
}

#[test]
fn queries_of_a_store_with_microblocks() {
    let store = filled();
    let at_top = store.get_handled_height(0).unwrap().unwrap();
    assert_eq!((at_top.uid, at_top.height), (2, 2));
    let below = store.get_handled_height(1).unwrap().unwrap();
    assert_eq!((below.uid, below.height), (1, 1));
    assert!(store.get_handled_height(2).unwrap().is_none());
    assert_eq!(store.get_last_block_timestamp().unwrap(), Some(200));
    assert_eq!(store.get_block_uid("m1").unwrap(), 3);
    assert_eq!(store.get_key_block_uid().unwrap(), 2);
    assert_eq!(store.get_total_block_id().unwrap(), Some("m2".to_string()));
}

#[test]
fn block_operations_of_the_store() {
    let mut store = filled();
    store.change_block_id(&2, "renamed").unwrap();
    assert_eq!(store.blocks[1].id, "renamed");
    assert_eq!(store.blocks[0].id, "a");
    store.delete_microblocks().unwrap();
    assert_eq!(store.blocks.len(), 2);
    store.rollback_blocks_microblocks(&1).unwrap();
    assert_eq!(store.blocks.len(), 1);
    assert_eq!(store.blocks[0].id, "a");
    let uids = store.insert_blocks_or_microblocks(&vec![stored("c", 2, Some(300))]).unwrap();
    assert_eq!(uids, vec![5]);
    store.block_seq = i64::MAX;
    let full = store.insert_blocks_or_microblocks(&vec![stored("d", 3, Some(400))]);
    assert!(matches!(full, Err(AppError::SequenceExhausted(_))));
    assert_eq!(store.blocks.len(), 2);
    assert_eq!(store.insert_blocks_or_microblocks(&vec![]).unwrap(), Vec::<i64>::new());
}

#[test]
fn closing_touches_current_rows_only() {
    let entry = |address: &str, value: i64| BlockUidWithDataEntry {
        block_uid: 1,
        data_entry: DataEntry {
            address: address.to_string(),
            key: "k".to_string(),
            transaction_id: "t".to_string(),
            value_binary: None,
            value_bool: None,
            value_integer: Some(value),
            value_string: None,
        },
    };
    let mut store = MemoryStore::new();
    append_data_entries(&mut store, vec![entry("a", 1), entry("a", 2), entry("b", 3)]).unwrap();
    store
        .close_superseded_by(&vec![DataEntryUpdate {
            superseded_by: 77,
            address: "a".to_string(),
            key: "k".to_string(),
        }])
        .unwrap();
    let links: Vec<i64> = store.entries.iter().map(|e| e.superseded_by).collect();
    assert_eq!(links, vec![2, 77, MAX_UID]);
    store.reopen_superseded_by(&vec![77, 1000]).unwrap();
    let links: Vec<i64> = store.entries.iter().map(|e| e.superseded_by).collect();
    assert_eq!(links, vec![2, MAX_UID, MAX_UID]);
    store.update_data_entries_block_references(&0).unwrap();
    assert!(store.entries.iter().all(|e| e.block_uid == 0));
    store.set_next_update_uid(50).unwrap();
    assert_eq!(store.get_next_update_uid().unwrap(), 50);
    let deleted = store.rollback_data_entries(&-1).unwrap();
    assert_eq!(deleted.len(), 3);
    assert_eq!(deleted[2].uid, 3);
    assert_eq!(deleted[2].address, "b");
    assert_eq!(store.entries.len(), 0);
}

fn written(address: &str, key: &str, value: i64) -> DataEntry {
    DataEntry {
        address: address.to_string(),
        key: key.to_string(),
        transaction_id: "t".to_string(),
        value_binary: None,
        value_bool: None,
        value_integer: Some(value),
        value_string: None,
    }
}

#[test]
fn records_are_equal_by_address_and_key() {
    assert!(written("a", "k", 1) == written("a", "k", 2));
    assert!(written("a", "k", 1) != written("b", "k", 1));
    assert!(written("a", "k", 1) != written("a", "j", 1));
    assert!(same_entity(&written("a", "k", 1), &written("a", "k", 2)));
    assert!(!same_entity(&written("ak", "", 1), &written("a", "k", 1)));
}

#[test]
fn resume_of_an_empty_repository() {
    let mut repo = MemoryRepo::new();
    assert_eq!(resume(&mut repo, 1).unwrap(), 1);
    assert_eq!(repo.store.blocks.len(), 0);
}

#[test]
fn resume_rolls_the_repository_back() {
    let mut repo = MemoryRepo::new();
    repo.store
        .insert_blocks_or_microblocks(&vec![
            stored("a", 1, Some(100)),
            stored("b", 2, Some(200)),
            stored("c", 3, Some(300)),
        ])
        .unwrap();
    assert_eq!(resume(&mut repo, 2).unwrap(), 2);
    assert_eq!(repo.store.blocks.len(), 1);
    assert_eq!(repo.store.blocks[0].id, "a");
}

#[test]
fn resume_fails_at_the_last_height() {
    let mut store = MemoryStore::new();
    store.insert_blocks_or_microblocks(&vec![stored("a", -1, Some(100))]).unwrap();
    assert!(matches!(starting_height(&mut store, 0), Err(AppError::DbError(_))));
    assert_eq!(store.blocks.len(), 1);
}
