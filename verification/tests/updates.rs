use state_consumer::data_entries::daemon::{
    build_row, coalesce, column_to_height, height_to_column, in_uid_order, lowest_deleted_uids,
    UpdatesItem,
};
use state_consumer::data_entries::repo::{chunk_bounds, INSERT_CHUNK_SIZE};
use state_consumer::data_entries::updates::{
    data_entry_of, escape_nul, keep_last_writes, Batcher, RawBlockchainUpdated, RawBody,
    RawDataEntry, RawUpdate, RawValue,
};
use state_consumer::data_entries::{
    BlockMicroblockAppend, BlockchainUpdate, DataEntry, DeletedDataEntry,
};
use state_consumer::error::AppError;

fn raw_entry(address: &[u8], key: &str, value: RawValue) -> RawDataEntry {
    RawDataEntry { address: address.to_vec(), key: key.to_string(), value }
}

fn append(body: RawBody, ids: Vec<Vec<u8>>, updates: Vec<Vec<RawDataEntry>>) -> RawUpdate {
    RawUpdate::Append { body, transaction_ids: ids, transaction_state_updates: updates }
}

fn message(id: &[u8], height: i32, update: RawUpdate) -> RawBlockchainUpdated {
    RawBlockchainUpdated { id: id.to_vec(), height, update }
}

fn block_update(id: &str, height: u32) -> BlockchainUpdate {
    BlockchainUpdate::Block(BlockMicroblockAppend {
        id: id.to_string(),
        time_stamp: Some(1),
        height,
        data_entries: vec![],
    })
}

fn microblock_update(id: &str, height: u32) -> BlockchainUpdate {
    BlockchainUpdate::Microblock(BlockMicroblockAppend {
        id: id.to_string(),
        time_stamp: None,
        height,
        data_entries: vec![],
    })
}

fn entry(address: &str, key: &str, value: i64) -> DataEntry {
    DataEntry {
        address: address.to_string(),
        key: key.to_string(),
        transaction_id: "t".to_string(),
        value_binary: None,
        value_bool: None,
        value_integer: Some(value),
        value_string: None,
    }
}

const HELLO: [u8; 8] = [0x04, 0x30, 0x5e, 0x2b, 0x24, 0x73, 0xf0, 0x58];

#[test]
fn rollback_message_carries_the_base58_id() {
    let decoded = BlockchainUpdate::try_from(message(&HELLO, 5, RawUpdate::Rollback)).unwrap();
    match decoded {
        BlockchainUpdate::Rollback(id) => assert_eq!(id, "he11owor1d"),
        _ => panic!("not a rollback"),
    }
}

#[test]
fn block_message_is_decoded() {
    let raw = message(
        &HELLO,
        7,
        append(
            RawBody::Block { time_stamp: Some(1234) },
            vec![vec![1], vec![0, 0, 1]],
            vec![
                vec![
                    raw_entry(&[1, 2], "k\0ey", RawValue::Integer(5)),
                    raw_entry(&[1, 2], "b", RawValue::Binary(vec![9, 8])),
                ],
                vec![
                    raw_entry(&[3], "t", RawValue::Text("a\0b".to_string())),
                    raw_entry(&[3], "f", RawValue::Bool(true)),
                    raw_entry(&[3], "gone", RawValue::Absent),
                ],
            ],
        ),
    );
    let decoded = BlockchainUpdate::try_from(raw).unwrap();
    let block = match decoded {
        BlockchainUpdate::Block(block) => block,
        _ => panic!("not a block"),
    };
    assert_eq!(block.id, "he11owor1d");
    assert_eq!(block.time_stamp, Some(1234));
    assert_eq!(block.height, 7);
    assert_eq!(block.data_entries.len(), 5);
    let first = &block.data_entries[0];
    assert_eq!(first.address, bs58::encode(vec![1u8, 2]).into_string());
    assert_eq!(first.address, "5T");
    assert_eq!(first.key, "k\\0ey");
    assert_eq!(first.transaction_id, "2");
    assert_eq!(first.value_integer, Some(5));
    assert_eq!(first.value_binary, None);
    let second = &block.data_entries[1];
    assert_eq!(second.value_binary, Some(vec![9, 8]));
    assert_eq!(second.value_integer, None);
    let third = &block.data_entries[2];
    assert_eq!(third.address, "4");
    assert_eq!(third.transaction_id, "112");
    assert_eq!(third.value_string, Some("a\\0b".to_string()));
    let fourth = &block.data_entries[3];
    assert_eq!(fourth.value_bool, Some(true));
    let fifth = &block.data_entries[4];
    assert_eq!(fifth.key, "gone");
    assert_eq!(fifth.value_binary, None);
    assert_eq!(fifth.value_bool, None);
    assert_eq!(fifth.value_integer, None);
    assert_eq!(fifth.value_string, None);
}

#[test]
fn block_without_header_has_no_time_stamp() {
    let raw = message(&[1], 1, append(RawBody::Block { time_stamp: None }, vec![], vec![]));
    match BlockchainUpdate::try_from(raw).unwrap() {
        BlockchainUpdate::Block(block) => assert_eq!(block.time_stamp, None),
        _ => panic!("not a block"),
    }
}

#[test]
fn microblock_message_takes_the_total_block_id() {
    let raw = message(
        &[1, 1, 1],
        9,
        append(
            RawBody::MicroBlock { total_block_id: HELLO.to_vec() },
            vec![vec![7]],
            vec![vec![raw_entry(&[1], "k", RawValue::Integer(1))]],
        ),
    );
    match BlockchainUpdate::try_from(raw).unwrap() {
        BlockchainUpdate::Microblock(micro) => {
            assert_eq!(micro.id, "he11owor1d");
            assert_eq!(micro.time_stamp, None);
            assert_eq!(micro.height, 9);
            assert_eq!(micro.data_entries.len(), 1);
            assert_eq!(micro.data_entries[0].transaction_id, "8");
        }
        _ => panic!("not a microblock"),
    }
}

#[test]
fn messages_of_another_shape_are_invalid() {
    let empty = BlockchainUpdate::try_from(message(&[1], 1, RawUpdate::Missing));
    assert!(matches!(empty, Err(AppError::InvalidMessage(_))));
    let bodiless =
        BlockchainUpdate::try_from(message(&[1], 1, append(RawBody::Missing, vec![], vec![])));
    assert!(matches!(bodiless, Err(AppError::InvalidMessage(_))));
    let without_id = BlockchainUpdate::try_from(message(
        &[1],
        1,
        append(
            RawBody::Block { time_stamp: Some(1) },
            vec![],
            vec![vec![raw_entry(&[1], "k", RawValue::Integer(1))]],
        ),
    ));
    assert!(matches!(without_id, Err(AppError::InvalidMessage(_))));
}

#[test]
fn one_record_for_each_entity_of_an_event() {
    let raw = message(
        &[1],
        1,
        append(
            RawBody::Block { time_stamp: Some(1) },
            vec![vec![1], vec![2]],
            vec![
                vec![
                    raw_entry(&[1], "k", RawValue::Integer(1)),
                    raw_entry(&[1], "other", RawValue::Integer(2)),
                    raw_entry(&[1], "k", RawValue::Integer(3)),
                ],
                vec![
                    raw_entry(&[2], "k", RawValue::Integer(4)),
                    raw_entry(&[1], "k", RawValue::Integer(5)),
                ],
            ],
        ),
    );
    match BlockchainUpdate::try_from(raw).unwrap() {
        BlockchainUpdate::Block(block) => {
            let written: Vec<(String, String, Option<i64>)> = block
                .data_entries
                .iter()
                .map(|e| (e.address.clone(), e.key.clone(), e.value_integer))
                .collect();
            assert_eq!(
                written,
                vec![
                    ("2".to_string(), "other".to_string(), Some(2)),
                    ("3".to_string(), "k".to_string(), Some(4)),
                    ("2".to_string(), "k".to_string(), Some(5)),
                ]
            );
        }
        _ => panic!("not a block"),
    }
}

#[test]
fn last_writes_are_kept_in_order() {
    let entries = vec![entry("a", "k", 1), entry("b", "k", 2), entry("a", "k", 3), entry("a", "j", 4)];
    let kept: Vec<Option<i64>> =
        keep_last_writes(&entries).iter().map(|e| e.value_integer).collect();
    assert_eq!(kept, vec![Some(2), Some(3), Some(4)]);
    assert_eq!(keep_last_writes(&vec![]).len(), 0);
}

#[test]
fn nul_is_escaped() {
    assert_eq!(escape_nul("a\0b\0"), "a\\0b\\0");
    assert_eq!(escape_nul("plain"), "plain");
    assert_eq!(escape_nul(""), "");
    assert_eq!(escape_nul("\\0"), "\\0");
}

#[test]
fn data_entry_of_a_raw_entry() {
    let built = data_entry_of(
        "addr".to_string(),
        "tx".to_string(),
        &raw_entry(&[0], "%s__\0", RawValue::Text("\0".to_string())),
    );
    assert_eq!(built.address, "addr");
    assert_eq!(built.transaction_id, "tx");
    assert_eq!(built.key, "%s__\\0");
    assert_eq!(built.value_string, Some("\\0".to_string()));
    assert_eq!(built.value_integer, None);
}

#[test]
fn negative_heights_wrap_like_the_column() {
    assert_eq!(height_to_column(0), 0);
    assert_eq!(height_to_column(2147483647), 2147483647);
    assert_eq!(height_to_column(2147483648), -2147483648);
    assert_eq!(height_to_column(u32::MAX), -1);
    assert_eq!(column_to_height(-1), u32::MAX);
    assert_eq!(column_to_height(-2147483648), 2147483648);
    assert_eq!(column_to_height(5), 5);
    for h in [0u32, 1, 77, 2147483647, 2147483648, u32::MAX] {
        assert_eq!(height_to_column(h), h as i32);
        assert_eq!(column_to_height(height_to_column(h)), h);
    }
}

#[test]
fn consecutive_blocks_are_merged() {
    let items = coalesce(vec![
        block_update("a", 1),
        block_update("b", 2),
        microblock_update("m", 2),
        block_update("c", 3),
        BlockchainUpdate::Rollback("b".to_string()),
        BlockchainUpdate::Rollback("a".to_string()),
        block_update("d", 2),
        block_update("e", 3),
        block_update("f", 4),
    ]);
    let shape: Vec<String> = items
        .iter()
        .map(|item| match item {
            UpdatesItem::Blocks(blocks) => {
                let ids: Vec<&str> = blocks.iter().map(|b| b.id.as_str()).collect();
                format!("blocks {}", ids.join(","))
            }
            UpdatesItem::Microblock(micro) => format!("microblock {}", micro.id),
            UpdatesItem::Rollback(id) => format!("rollback {}", id),
        })
        .collect();
    assert_eq!(
        shape,
        vec!["blocks a,b", "microblock m", "blocks c", "rollback b", "rollback a", "blocks d,e,f"]
    );
    assert_eq!(coalesce(vec![]).len(), 0);
}

#[test]
fn lowest_uid_of_each_deleted_entity() {
    let deleted = |uid: i64, address: &str, key: &str| DeletedDataEntry {
        uid,
        address: address.to_string(),
        key: key.to_string(),
    };
    let mut lowest = lowest_deleted_uids(&vec![
        deleted(9, "a", "k"),
        deleted(5, "b", "k"),
        deleted(7, "a", "k"),
        deleted(8, "a", "j"),
        deleted(6, "b", "k"),
    ]);
    lowest.sort();
    assert_eq!(lowest, vec![5, 7, 8]);
    assert_eq!(lowest_deleted_uids(&vec![]).len(), 0);
}

#[test]
fn chunks_cover_the_rows() {
    assert_eq!(INSERT_CHUNK_SIZE, 2000);
    assert_eq!(chunk_bounds(0, 2000), vec![]);
    assert_eq!(chunk_bounds(1, 2000), vec![(0, 1)]);
    assert_eq!(chunk_bounds(2000, 2000), vec![(0, 2000)]);
    assert_eq!(chunk_bounds(2001, 2000), vec![(0, 2000), (2000, 2001)]);
    assert_eq!(chunk_bounds(5000, 2000), vec![(0, 2000), (2000, 4000), (4000, 5000)]);
    assert_eq!(chunk_bounds(3, 1), vec![(0, 1), (1, 2), (2, 3)]);
    assert_eq!(chunk_bounds(usize::MAX, usize::MAX), vec![(0, usize::MAX)]);
}

#[test]
fn blocks_are_batched_until_the_batch_is_full() {
    let mut batcher = Batcher::new(1, 3, 1000, 0);
    assert!(batcher.push(block_update("a", 1), 1, 10).is_none());
    assert!(batcher.push(block_update("b", 2), 2, 20).is_none());
    let batch = batcher.push(block_update("c", 3), 3, 30).unwrap();
    assert_eq!(batch.last_height, 3);
    assert_eq!(batch.updates.len(), 3);
    assert_eq!(batcher.pending.len(), 0);
    assert_eq!(batcher.started_at, 30);
    assert_eq!(batcher.last_height, 3);
    assert!(batcher.push(block_update("d", 4), 4, 40).is_none());
    assert_eq!(batcher.pending.len(), 1);
    assert_eq!(batcher.started_at, 30);
}

#[test]
fn blocks_are_flushed_once_the_wait_is_over() {
    let mut batcher = Batcher::new(1, 100, 1000, 500);
    assert!(batcher.push(block_update("a", 1), 1, 1499).is_none());
    let batch = batcher.push(block_update("b", 2), 2, 1500).unwrap();
    assert_eq!(batch.updates.len(), 2);
    assert_eq!(batch.last_height, 2);
    assert_eq!(batcher.started_at, 1500);
    assert!(batcher.push(block_update("c", 3), 3, 100).is_none());
}

#[test]
fn microblocks_and_rollbacks_are_flushed_at_once() {
    let mut batcher = Batcher::new(1, 100, 1000, 0);
    assert!(batcher.push(block_update("a", 1), 1, 1).is_none());
    let batch = batcher.push(microblock_update("m", 1), 1, 2).unwrap();
    assert_eq!(batch.updates.len(), 2);
    let batch = batcher.push(BlockchainUpdate::Rollback("a".to_string()), 1, 3).unwrap();
    assert_eq!(batch.updates.len(), 1);
    assert_eq!(batch.last_height, 1);
    assert_eq!(batcher.started_at, 3);
}

#[test]
fn batch_of_size_zero_or_one_flushes_every_block() {
    let mut batcher = Batcher::new(1, 0, 1000, 0);
    assert!(batcher.push(block_update("a", 1), 1, 1).is_some());
    let mut batcher = Batcher::new(1, 1, 1000, 0);
    assert!(batcher.push(block_update("a", 1), 1, 1).is_some());
}

#[test]
fn received_messages_are_decoded_and_batched() {
    let mut batcher = Batcher::new(1, 2, 1000, 0);
    let first = message(&[1], 4, append(RawBody::Block { time_stamp: Some(1) }, vec![], vec![]));
    assert!(batcher.receive(Some(first), 1).unwrap().is_none());
    assert_eq!(batcher.last_height, 4);
    let second = message(&HELLO, 5, RawUpdate::Rollback);
    let batch = batcher.receive(Some(second), 2).unwrap().unwrap();
    assert_eq!(batch.last_height, 5);
    assert_eq!(batch.updates.len(), 2);
    match &batch.updates[1] {
        BlockchainUpdate::Rollback(id) => assert_eq!(id, "he11owor1d"),
        _ => panic!("not a rollback"),
    }
}

#[test]
fn closed_stream_and_invalid_message_fail() {
    let mut batcher = Batcher::new(1, 2, 1000, 0);
    assert!(batcher.push(block_update("a", 1), 1, 1).is_none());
    assert!(matches!(batcher.receive(None, 2), Err(AppError::StreamClosed(_))));
    let invalid = message(&[1], 9, RawUpdate::Missing);
    assert!(matches!(batcher.receive(Some(invalid), 3), Err(AppError::InvalidMessage(_))));
    assert_eq!(batcher.pending.len(), 1);
    assert_eq!(batcher.last_height, 1);
    assert_eq!(batcher.started_at, 0);
}

#[test]
fn rows_are_put_into_the_order_of_their_uids() {
    let row = |uid: i64, address: &str| build_row(1, &entry(address, "k", uid), uid, -1);
    let sorted = in_uid_order(vec![row(3, "c"), row(1, "a"), row(2, "b"), row(1, "z"), row(0, "o")]);
    let order: Vec<(i64, &str)> = sorted.iter().map(|r| (r.uid, r.address.as_str())).collect();
    assert_eq!(order, vec![(0, "o"), (1, "a"), (1, "z"), (2, "b"), (3, "c")]);
    let kept = in_uid_order(vec![row(5, "a"), row(6, "b")]);
    let order: Vec<i64> = kept.iter().map(|r| r.uid).collect();
    assert_eq!(order, vec![5, 6]);
    assert_eq!(in_uid_order(vec![]).len(), 0);
}

#[test]
fn row_of_a_data_entry() {
    let built = build_row(
        4,
        &DataEntry {
            address: "a".to_string(),
            key: "%s%d%s__x__-7__".to_string(),
            transaction_id: "t".to_string(),
            value_binary: Some(vec![1, 2]),
            value_bool: None,
            value_integer: None,
            value_string: Some("%d%s__12__y__z".to_string()),
        },
        9,
        10,
    );
    assert_eq!((built.block_uid, built.uid, built.superseded_by), (4, 9, 10));
    assert_eq!(built.transaction_id, "t");
    assert_eq!(built.value_binary, Some(vec![1, 2]));
    assert_eq!(built.fragment_0_string, Some("x".to_string()));
    assert_eq!(built.fragment_0_integer, None);
    assert_eq!(built.fragment_1_integer, Some(-7));
    assert_eq!(built.fragment_1_string, None);
    assert_eq!(built.fragment_2_string, None);
    assert_eq!(built.fragment_2_integer, None);
    assert_eq!(built.fragment_10_string, None);
    assert_eq!(built.value_fragment_0_integer, Some(12));
    assert_eq!(built.value_fragment_1_string, Some("y".to_string()));
    assert_eq!(built.value_fragment_2_string, None);
    assert_eq!(built.value_fragment_10_integer, None);
}
