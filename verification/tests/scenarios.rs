use state_consumer::data_entries::daemon::{apply_updates, ingest, starting_height};
use state_consumer::data_entries::memory::MemoryStore;
use state_consumer::data_entries::repo::{DataEntriesRepo, MemoryRepo};
use state_consumer::data_entries::{
    BlockMicroblockAppend, BlockchainUpdate, DataEntry, InsertableDataEntry, MAX_UID,
};
use state_consumer::error::AppError;

fn integer_entry(address: &str, key: &str, value: i64) -> DataEntry {
    DataEntry {
        address: address.to_string(),
        key: key.to_string(),
        transaction_id: "tx".to_string(),
        value_binary: None,
        value_bool: None,
        value_integer: Some(value),
        value_string: None,
    }
}

fn string_entry(address: &str, key: &str, value: &str) -> DataEntry {
    DataEntry {
        address: address.to_string(),
        key: key.to_string(),
        transaction_id: "tx".to_string(),
        value_binary: None,
        value_bool: None,
        value_integer: None,
        value_string: Some(value.to_string()),
    }
}

fn block(id: &str, height: u32, time_stamp: i64, data_entries: Vec<DataEntry>) -> BlockchainUpdate {
    BlockchainUpdate::Block(BlockMicroblockAppend {
        id: id.to_string(),
        time_stamp: Some(time_stamp),
        height,
        data_entries,
    })
}

fn microblock(id: &str, height: u32, data_entries: Vec<DataEntry>) -> BlockchainUpdate {
    BlockchainUpdate::Microblock(BlockMicroblockAppend {
        id: id.to_string(),
        time_stamp: None,
        height,
        data_entries,
    })
}

fn rollback_to(id: &str) -> BlockchainUpdate {
    BlockchainUpdate::Rollback(id.to_string())
}

fn first_block() -> BlockchainUpdate {
    block(
        "A",
        1,
        1000,
        vec![integer_entry("x", "#__42", 1), string_entry("y", "$__hello", "v")],
    )
}

fn second_block() -> BlockchainUpdate {
    block("B", 2, 2000, vec![integer_entry("x", "#__42", 7)])
}

fn after_first_block() -> MemoryStore {
    let mut store = MemoryStore::new();
    apply_updates(&mut store, vec![first_block()]).unwrap();
    store
}

fn after_second_block() -> MemoryStore {
    let mut store = after_first_block();
    apply_updates(&mut store, vec![second_block()]).unwrap();
    store
}

fn blocks_of(store: &MemoryStore) -> Vec<(i64, String, i32, Option<i64>)> {
    store.blocks.iter().map(|b| (b.uid, b.id.clone(), b.height, b.time_stamp)).collect()
}

fn entries_of(store: &MemoryStore) -> Vec<(i64, i64, i64, String, String, Option<i64>)> {
    store
        .entries
        .iter()
        .map(|e| {
            (e.uid, e.block_uid, e.superseded_by, e.address.clone(), e.key.clone(), e.value_integer)
        })
        .collect()
}

fn current_rows(entries: &Vec<InsertableDataEntry>, address: &str, key: &str) -> usize {
    entries
        .iter()
        .filter(|e| e.address == address && e.key == key && e.superseded_by == MAX_UID)
        .count()
}

fn holds_the_invariants(store: &MemoryStore) -> bool {
    let entries = &store.entries;
    for (i, e) in entries.iter().enumerate() {
        if current_rows(entries, &e.address, &e.key) != 1 {
            return false;
        }
        if e.uid >= store.next_uid {
            return false;
        }
        let next =
            entries.iter().skip(i + 1).find(|o| o.address == e.address && o.key == e.key);
        match next {
            Some(o) => {
                if e.superseded_by != o.uid || o.uid <= e.uid {
                    return false;
                }
            }
            None => {
                if e.superseded_by != MAX_UID {
                    return false;
                }
            }
        }
        for o in entries.iter().skip(i + 1) {
            if o.uid <= e.uid {
                return false;
            }
        }
    }
    for (i, b) in store.blocks.iter().enumerate() {
        for o in store.blocks.iter().skip(i + 1) {
            if o.uid <= b.uid {
                return false;
            }
            if b.time_stamp.is_none() && o.time_stamp.is_some() {
                return false;
            }
        }
    }
    true
}

#[test]
fn single_block_with_two_entries() {
    let store = after_first_block();
    assert_eq!(blocks_of(&store), vec![(1, "A".to_string(), 1, Some(1000))]);
    assert_eq!(store.entries.len(), 2);
    assert_eq!(store.entries[0].uid, 1);
    assert_eq!(store.entries[1].uid, 2);
    assert_eq!(store.entries[0].block_uid, 1);
    assert_eq!(store.entries[1].block_uid, 1);
    assert_eq!(store.entries[0].superseded_by, MAX_UID);
    assert_eq!(store.entries[1].superseded_by, MAX_UID);
    assert_eq!(store.entries[0].address, "x");
    assert_eq!(store.entries[0].fragment_0_integer, Some(42));
    assert_eq!(store.entries[0].fragment_0_string, None);
    assert_eq!(store.entries[1].address, "y");
    assert_eq!(store.entries[1].fragment_0_string, Some("hello".to_string()));
    assert_eq!(store.entries[1].fragment_0_integer, None);
    assert_eq!(store.entries[1].value_string, Some("v".to_string()));
    assert_eq!(store.entries[1].value_fragment_0_string, None);
    assert_eq!(store.next_uid, 3);
    assert_eq!(store.block_seq, 2);
    assert!(holds_the_invariants(&store));
}

#[test]
fn overwrite_closes_the_previous_row() {
    let store = after_second_block();
    assert_eq!(store.entries.len(), 3);
    assert_eq!(store.entries[0].superseded_by, 3);
    assert_eq!(store.entries[1].superseded_by, MAX_UID);
    assert_eq!(store.entries[2].uid, 3);
    assert_eq!(store.entries[2].block_uid, 2);
    assert_eq!(store.entries[2].value_integer, Some(7));
    assert_eq!(store.entries[2].superseded_by, MAX_UID);
    assert_eq!(store.next_uid, 4);
    assert!(holds_the_invariants(&store));
}

#[test]
fn microblock_is_squashed_into_its_key_block() {
    let mut store = MemoryStore::new();
    let e1 = integer_entry("x", "k", 1);
    let e2 = integer_entry("x", "k", 2);
    apply_updates(&mut store, vec![block("A", 1, 1000, vec![])]).unwrap();
    apply_updates(&mut store, vec![microblock("m", 1, vec![e1])]).unwrap();
    assert_eq!(
        blocks_of(&store),
        vec![(1, "A".to_string(), 1, Some(1000)), (2, "m".to_string(), 1, None)]
    );
    assert_eq!(store.entries[0].block_uid, 2);
    apply_updates(&mut store, vec![block("B", 2, 2000, vec![e2])]).unwrap();
    assert!(store.blocks.iter().all(|b| b.time_stamp.is_some()));
    assert_eq!(
        blocks_of(&store),
        vec![(1, "m".to_string(), 1, Some(1000)), (3, "B".to_string(), 2, Some(2000))]
    );
    assert_eq!(store.entries[0].block_uid, 1);
    assert_eq!(store.entries[0].superseded_by, 2);
    assert_eq!(store.entries[1].block_uid, 3);
    assert_eq!(store.entries[1].superseded_by, MAX_UID);
    assert!(holds_the_invariants(&store));
}

#[test]
fn rollback_to_the_first_block_undoes_the_second() {
    let mut store = after_second_block();
    apply_updates(&mut store, vec![rollback_to("A")]).unwrap();
    assert_eq!(blocks_of(&store), vec![(1, "A".to_string(), 1, Some(1000))]);
    assert_eq!(store.entries.len(), 2);
    assert_eq!(store.entries[0].uid, 1);
    assert_eq!(store.entries[0].superseded_by, MAX_UID);
    assert_eq!(store.entries[1].superseded_by, MAX_UID);
    assert_eq!(store.next_uid, 4);
    let before = after_first_block();
    assert_eq!(blocks_of(&store), blocks_of(&before));
    assert_eq!(entries_of(&store), entries_of(&before));
    assert!(holds_the_invariants(&store));
}

#[test]
fn rollback_keeps_the_block_it_names() {
    let mut store = after_second_block();
    let before = after_second_block();
    apply_updates(&mut store, vec![rollback_to("B")]).unwrap();
    assert_eq!(blocks_of(&store), blocks_of(&before));
    assert_eq!(entries_of(&store), entries_of(&before));
}

#[test]
fn rollback_to_an_unknown_block_fails() {
    let mut store = after_second_block();
    let r = apply_updates(&mut store, vec![rollback_to("C")]);
    assert!(matches!(r, Err(AppError::DbError(_))));
}

#[test]
fn batch_with_a_rollback_in_it() {
    let b1 = block("h1", 1, 1000, vec![integer_entry("x", "k", 1)]);
    let b2 = block("h2", 2, 2000, vec![integer_entry("x", "k", 2)]);
    let b2_again = block("h2'", 2, 2500, vec![integer_entry("x", "k", 3)]);
    let mut store = MemoryStore::new();
    apply_updates(&mut store, vec![b1.clone(), b2, rollback_to("h1"), b2_again.clone()]).unwrap();
    let mut sequential = MemoryStore::new();
    apply_updates(&mut sequential, vec![b1]).unwrap();
    apply_updates(&mut sequential, vec![b2_again]).unwrap();
    let shape = |s: &MemoryStore| -> Vec<(String, i32, Option<i64>)> {
        s.blocks.iter().map(|b| (b.id.clone(), b.height, b.time_stamp)).collect()
    };
    assert_eq!(shape(&store), shape(&sequential));
    let values = |s: &MemoryStore| -> Vec<(String, String, Option<i64>, bool)> {
        s.entries
            .iter()
            .map(|e| {
                (e.address.clone(), e.key.clone(), e.value_integer, e.superseded_by == MAX_UID)
            })
            .collect()
    };
    assert_eq!(values(&store), values(&sequential));
    assert_eq!(store.entries[0].superseded_by, store.entries[1].uid);
    assert_eq!(store.entries[1].uid, 3);
    assert_eq!(store.blocks[1].uid, 3);
    assert_eq!(store.entries[1].block_uid, 3);
    assert!(holds_the_invariants(&store));
}

#[test]
fn restart_rolls_back_by_the_configured_depth() {
    let mut store = after_second_block();
    let height = starting_height(&mut store, 1).unwrap();
    assert_eq!(height, 2);
    let before = after_first_block();
    assert_eq!(blocks_of(&store), blocks_of(&before));
    assert_eq!(entries_of(&store), entries_of(&before));
}

#[test]
fn restart_with_depth_zero_keeps_the_last_block() {
    let mut store = after_second_block();
    let height = starting_height(&mut store, 0).unwrap();
    assert_eq!(height, 3);
    assert_eq!(store.blocks.len(), 2);
    assert_eq!(store.entries.len(), 3);
}

#[test]
fn restart_of_an_empty_store_begins_at_height_one() {
    let mut store = MemoryStore::new();
    assert_eq!(starting_height(&mut store, 1).unwrap(), 1);
    assert_eq!(store.blocks.len(), 0);
}

#[test]
fn restart_deeper_than_the_history_changes_nothing() {
    let mut store = after_second_block();
    let height = starting_height(&mut store, 5).unwrap();
    assert_eq!(height, 1);
    assert_eq!(store.blocks.len(), 2);
    assert_eq!(store.entries.len(), 3);
}

#[test]
fn restart_drops_the_microblocks_of_the_resumed_height() {
    let mut store = MemoryStore::new();
    apply_updates(&mut store, vec![block("A", 1, 1000, vec![])]).unwrap();
    apply_updates(&mut store, vec![microblock("m", 1, vec![integer_entry("x", "k", 1)])])
        .unwrap();
    let height = starting_height(&mut store, 0).unwrap();
    assert_eq!(height, 2);
    assert_eq!(blocks_of(&store), vec![(1, "A".to_string(), 1, Some(1000))]);
    assert_eq!(store.entries.len(), 0);
}

#[test]
fn entries_of_one_batch_are_chained() {
    let mut store = MemoryStore::new();
    let batch = vec![
        block("A", 1, 1000, vec![integer_entry("x", "k", 1), integer_entry("y", "k", 10)]),
        block("B", 2, 2000, vec![integer_entry("x", "k", 2)]),
        block("C", 3, 3000, vec![integer_entry("x", "k", 3), integer_entry("y", "k", 30)]),
    ];
    apply_updates(&mut store, batch).unwrap();
    let links: Vec<(i64, i64, i64)> =
        store.entries.iter().map(|e| (e.uid, e.block_uid, e.superseded_by)).collect();
    assert_eq!(
        links,
        vec![(1, 1, 3), (2, 1, 5), (3, 2, 4), (4, 3, MAX_UID), (5, 3, MAX_UID)]
    );
    assert_eq!(store.next_uid, 6);
    assert!(holds_the_invariants(&store));
}

#[test]
fn every_entity_keeps_exactly_one_current_row() {
    let mut store = after_second_block();
    apply_updates(
        &mut store,
        vec![
            block("C", 3, 3000, vec![integer_entry("x", "#__42", 8), integer_entry("z", "q", 1)]),
            microblock("m1", 3, vec![integer_entry("z", "q", 2)]),
            microblock("m2", 3, vec![integer_entry("x", "#__42", 9)]),
        ],
    )
    .unwrap();
    assert_eq!(current_rows(&store.entries, "x", "#__42"), 1);
    assert_eq!(current_rows(&store.entries, "y", "$__hello"), 1);
    assert_eq!(current_rows(&store.entries, "z", "q"), 1);
    assert!(holds_the_invariants(&store));
    apply_updates(&mut store, vec![rollback_to("C")]).unwrap();
    assert_eq!(current_rows(&store.entries, "x", "#__42"), 1);
    assert_eq!(current_rows(&store.entries, "z", "q"), 1);
    assert!(holds_the_invariants(&store));
    apply_updates(&mut store, vec![rollback_to("A")]).unwrap();
    assert_eq!(current_rows(&store.entries, "x", "#__42"), 1);
    assert_eq!(current_rows(&store.entries, "z", "q"), 0);
    assert!(holds_the_invariants(&store));
}

#[test]
fn uids_are_distinct_and_without_gaps_until_a_rollback() {
    let mut store = after_second_block();
    let uids: Vec<i64> = store.entries.iter().map(|e| e.uid).collect();
    assert_eq!(uids, vec![1, 2, 3]);
    assert_eq!(store.next_uid, 4);
    apply_updates(&mut store, vec![rollback_to("A")]).unwrap();
    apply_updates(&mut store, vec![block("B'", 2, 2100, vec![integer_entry("x", "#__42", 5)])])
        .unwrap();
    let uids: Vec<i64> = store.entries.iter().map(|e| e.uid).collect();
    assert_eq!(uids, vec![1, 2, 4]);
    assert_eq!(store.entries[0].superseded_by, 4);
    assert_eq!(store.next_uid, 5);
}

#[test]
fn rollback_is_a_left_inverse_of_appends() {
    let mut store = after_first_block();
    let before = after_first_block();
    apply_updates(&mut store, vec![second_block()]).unwrap();
    apply_updates(
        &mut store,
        vec![block("C", 3, 3000, vec![string_entry("y", "$__hello", "w"), integer_entry("n", "k", 0)])],
    )
    .unwrap();
    apply_updates(&mut store, vec![rollback_to("A")]).unwrap();
    assert_eq!(blocks_of(&store), blocks_of(&before));
    assert_eq!(entries_of(&store), entries_of(&before));
}

#[test]
fn squash_without_microblocks_changes_nothing() {
    let mut store = after_second_block();
    let before = after_second_block();
    state_consumer::data_entries::daemon::squash_microblocks(&mut store).unwrap();
    assert_eq!(blocks_of(&store), blocks_of(&before));
    assert_eq!(entries_of(&store), entries_of(&before));
    state_consumer::data_entries::daemon::squash_microblocks(&mut store).unwrap();
    assert_eq!(blocks_of(&store), blocks_of(&before));
}

#[test]
fn squash_of_microblocks_without_key_block_fails() {
    let mut store = MemoryStore::new();
    apply_updates(&mut store, vec![microblock("m", 1, vec![])]).unwrap();
    let r = state_consumer::data_entries::daemon::squash_microblocks(&mut store);
    assert!(matches!(r, Err(AppError::DbError(_))));
}

#[test]
fn exhausted_sequence_fails_the_append() {
    let mut store = MemoryStore::new();
    store.next_uid = MAX_UID;
    let r = apply_updates(&mut store, vec![first_block()]);
    assert!(matches!(r, Err(AppError::SequenceExhausted(_))));
    let mut store = MemoryStore::new();
    store.next_uid = MAX_UID - 2;
    apply_updates(&mut store, vec![first_block()]).unwrap();
    assert_eq!(store.next_uid, MAX_UID);
    assert_eq!(store.entries[1].uid, MAX_UID - 1);
}

#[test]
fn failed_transaction_commits_nothing() {
    let mut repo = MemoryRepo::new();
    ingest(&mut repo, vec![first_block()]).unwrap();
    let r = ingest(&mut repo, vec![second_block(), rollback_to("nowhere")]);
    assert!(r.is_err());
    assert_eq!(blocks_of(&repo.store), blocks_of(&after_first_block()));
    assert_eq!(entries_of(&repo.store), entries_of(&after_first_block()));
    ingest(&mut repo, vec![second_block()]).unwrap();
    assert_eq!(entries_of(&repo.store), entries_of(&after_second_block()));
    let seen = repo.execute(|ops| Ok(ops.entries.len())).unwrap();
    assert_eq!(seen, 3);
}

#[test]
fn rollback_undoes_blocks_and_microblocks() {
    let mut store = after_second_block();
    let before = after_second_block();
    apply_updates(
        &mut store,
        vec![
            block("C", 3, 3000, vec![integer_entry("x", "#__42", 8)]),
            microblock("m1", 3, vec![integer_entry("x", "#__42", 9), integer_entry("z", "q", 1)]),
        ],
    )
    .unwrap();
    apply_updates(&mut store, vec![microblock("m2", 3, vec![integer_entry("z", "q", 2)])])
        .unwrap();
    assert!(holds_the_invariants(&store));
    apply_updates(
        &mut store,
        vec![
            block("D", 4, 4000, vec![integer_entry("y", "$__hello", 3)]),
            block("E", 5, 5000, vec![]),
        ],
    )
    .unwrap();
    assert!(holds_the_invariants(&store));
    assert_eq!(store.blocks.len(), 5);
    assert_eq!(store.blocks[2].id, "m2");
    assert!(store.blocks.iter().all(|b| b.time_stamp.is_some()));
    apply_updates(&mut store, vec![rollback_to("B")]).unwrap();
    assert_eq!(blocks_of(&store), blocks_of(&before));
    assert_eq!(entries_of(&store), entries_of(&before));
    assert!(holds_the_invariants(&store));
}

#[test]
fn squash_into_the_record_of_a_rollback_is_not_undone() {
    let mut store = after_second_block();
    apply_updates(&mut store, vec![microblock("m", 2, vec![integer_entry("x", "#__42", 9)])])
        .unwrap();
    apply_updates(&mut store, vec![block("C", 3, 3000, vec![])]).unwrap();
    apply_updates(&mut store, vec![rollback_to("m")]).unwrap();
    assert_eq!(store.blocks.len(), 2);
    assert_eq!(store.blocks[1].id, "m");
    assert_eq!(store.blocks[1].uid, 2);
    assert_eq!(store.entries.len(), 4);
    assert_eq!(store.entries[3].block_uid, 2);
    assert!(holds_the_invariants(&store));
}

#[test]
fn empty_batch_succeeds_and_changes_nothing() {
    let mut store = after_second_block();
    let before = after_second_block();
    apply_updates(&mut store, vec![]).unwrap();
    assert_eq!(blocks_of(&store), blocks_of(&before));
    assert_eq!(entries_of(&store), entries_of(&before));
    assert_eq!(store.next_uid, before.next_uid);
    let mut repo = MemoryRepo::new();
    ingest(&mut repo, vec![]).unwrap();
    assert_eq!(repo.store.blocks.len(), 0);
}

#[test]
fn steps_succeed_while_the_sequences_last() {
    let mut store = MemoryStore::new();
    store.block_seq = i64::MAX;
    let r = apply_updates(&mut store, vec![first_block()]);
    assert!(matches!(r, Err(AppError::SequenceExhausted(_))));
    assert_eq!(store.blocks.len(), 0);
    let mut store = MemoryStore::new();
    store.block_seq = i64::MAX - 1;
    store.next_uid = MAX_UID;
    apply_updates(&mut store, vec![block("A", 1, 1000, vec![])]).unwrap();
    assert_eq!(store.blocks[0].uid, i64::MAX - 1);
    assert_eq!(store.block_seq, i64::MAX);
    let mut store = MemoryStore::new();
    store.next_uid = -3;
    apply_updates(&mut store, vec![first_block()]).unwrap();
    let uids: Vec<i64> = store.entries.iter().map(|e| e.uid).collect();
    assert_eq!(uids, vec![-3, -2]);
    assert_eq!(store.next_uid, -1);
}
