//! Data entries: the records, the repository they are kept in and the rules
//! by which blockchain updates change it.
pub mod daemon;
pub mod entity;
pub mod fragments;
pub mod laws;
pub mod memory;
pub mod repo;
pub mod store;
pub mod updates;

use crate::data_entries::fragments::text;
use crate::data_entries::store::Store;
use crate::error::AppError;
use vstd::prelude::*;

verus! {

/// The `superseded_by` of a data entry that is still current: 2^63 - 2.
pub const MAX_UID: i64 = 9223372036854775806;

/// How the stream of blockchain updates is read.
#[derive(Debug, Clone)]
pub struct Config {
    pub blockchain_updates_url: String,
    pub updates_per_request: usize,
    pub max_wait_time_in_secs: u64,
}

/// The view of an optional byte string.
pub open spec fn bytes(o: Option<Vec<u8>>) -> Option<Seq<u8>> {
    match o {
        Some(b) => Some(b@),
        None => None,
    }
}

/// A key/value pair written by a transaction. At most one of the four values
/// is set; none is set where the transaction deletes the key.
#[derive(Clone, Debug)]
pub struct DataEntry {
    pub address: String,
    pub key: String,
    pub transaction_id: String,
    pub value_binary: Option<Vec<u8>>,
    pub value_bool: Option<bool>,
    pub value_integer: Option<i64>,
    pub value_string: Option<String>,
}

/// What a [`DataEntry`] holds.
pub struct DataEntryView {
    pub address: Seq<char>,
    pub key: Seq<char>,
    pub transaction_id: Seq<char>,
    pub value_binary: Option<Seq<u8>>,
    pub value_bool: Option<bool>,
    pub value_integer: Option<i64>,
    pub value_string: Option<Seq<char>>,
}

impl View for DataEntry {
    type V = DataEntryView;

    open spec fn view(&self) -> DataEntryView {
        DataEntryView {
            address: self.address@,
            key: self.key@,
            transaction_id: self.transaction_id@,
            value_binary: bytes(self.value_binary),
            value_bool: self.value_bool,
            value_integer: self.value_integer,
            value_string: text(self.value_string),
        }
    }
}

/// A row of the table of data entries.
#[derive(Clone, Debug)]
pub struct InsertableDataEntry {
    pub block_uid: i64,
    pub transaction_id: String,
    pub uid: i64,
    pub superseded_by: i64,
    pub address: String,
    pub key: String,
    pub value_binary: Option<Vec<u8>>,
    pub value_bool: Option<bool>,
    pub value_integer: Option<i64>,
    pub value_string: Option<String>,
    pub fragment_0_integer: Option<i64>,
    pub fragment_0_string: Option<String>,
    pub fragment_1_integer: Option<i64>,
    pub fragment_1_string: Option<String>,
    pub fragment_2_integer: Option<i64>,
    pub fragment_2_string: Option<String>,
    pub fragment_3_integer: Option<i64>,
    pub fragment_3_string: Option<String>,
    pub fragment_4_integer: Option<i64>,
    pub fragment_4_string: Option<String>,
    pub fragment_5_integer: Option<i64>,
    pub fragment_5_string: Option<String>,
    pub fragment_6_integer: Option<i64>,
    pub fragment_6_string: Option<String>,
    pub fragment_7_integer: Option<i64>,
    pub fragment_7_string: Option<String>,
    pub fragment_8_integer: Option<i64>,
    pub fragment_8_string: Option<String>,
    pub fragment_9_integer: Option<i64>,
    pub fragment_9_string: Option<String>,
    pub fragment_10_integer: Option<i64>,
    pub fragment_10_string: Option<String>,
    pub value_fragment_0_integer: Option<i64>,
    pub value_fragment_0_string: Option<String>,
    pub value_fragment_1_integer: Option<i64>,
    pub value_fragment_1_string: Option<String>,
    pub value_fragment_2_integer: Option<i64>,
    pub value_fragment_2_string: Option<String>,
    pub value_fragment_3_integer: Option<i64>,
    pub value_fragment_3_string: Option<String>,
    pub value_fragment_4_integer: Option<i64>,
    pub value_fragment_4_string: Option<String>,
    pub value_fragment_5_integer: Option<i64>,
    pub value_fragment_5_string: Option<String>,
    pub value_fragment_6_integer: Option<i64>,
    pub value_fragment_6_string: Option<String>,
    pub value_fragment_7_integer: Option<i64>,
    pub value_fragment_7_string: Option<String>,
    pub value_fragment_8_integer: Option<i64>,
    pub value_fragment_8_string: Option<String>,
    pub value_fragment_9_integer: Option<i64>,
    pub value_fragment_9_string: Option<String>,
    pub value_fragment_10_integer: Option<i64>,
    pub value_fragment_10_string: Option<String>,
}

/// What a row of the table of data entries holds.
pub struct EntryRow {
    pub block_uid: int,
    pub transaction_id: Seq<char>,
    pub uid: int,
    pub superseded_by: int,
    pub address: Seq<char>,
    pub key: Seq<char>,
    pub value_binary: Option<Seq<u8>>,
    pub value_bool: Option<bool>,
    pub value_integer: Option<i64>,
    pub value_string: Option<Seq<char>>,
    pub fragment_0_integer: Option<i64>,
    pub fragment_0_string: Option<Seq<char>>,
    pub fragment_1_integer: Option<i64>,
    pub fragment_1_string: Option<Seq<char>>,
    pub fragment_2_integer: Option<i64>,
    pub fragment_2_string: Option<Seq<char>>,
    pub fragment_3_integer: Option<i64>,
    pub fragment_3_string: Option<Seq<char>>,
    pub fragment_4_integer: Option<i64>,
    pub fragment_4_string: Option<Seq<char>>,
    pub fragment_5_integer: Option<i64>,
    pub fragment_5_string: Option<Seq<char>>,
    pub fragment_6_integer: Option<i64>,
    pub fragment_6_string: Option<Seq<char>>,
    pub fragment_7_integer: Option<i64>,
    pub fragment_7_string: Option<Seq<char>>,
    pub fragment_8_integer: Option<i64>,
    pub fragment_8_string: Option<Seq<char>>,
    pub fragment_9_integer: Option<i64>,
    pub fragment_9_string: Option<Seq<char>>,
    pub fragment_10_integer: Option<i64>,
    pub fragment_10_string: Option<Seq<char>>,
    pub value_fragment_0_integer: Option<i64>,
    pub value_fragment_0_string: Option<Seq<char>>,
    pub value_fragment_1_integer: Option<i64>,
    pub value_fragment_1_string: Option<Seq<char>>,
    pub value_fragment_2_integer: Option<i64>,
    pub value_fragment_2_string: Option<Seq<char>>,
    pub value_fragment_3_integer: Option<i64>,
    pub value_fragment_3_string: Option<Seq<char>>,
    pub value_fragment_4_integer: Option<i64>,
    pub value_fragment_4_string: Option<Seq<char>>,
    pub value_fragment_5_integer: Option<i64>,
    pub value_fragment_5_string: Option<Seq<char>>,
    pub value_fragment_6_integer: Option<i64>,
    pub value_fragment_6_string: Option<Seq<char>>,
    pub value_fragment_7_integer: Option<i64>,
    pub value_fragment_7_string: Option<Seq<char>>,
    pub value_fragment_8_integer: Option<i64>,
    pub value_fragment_8_string: Option<Seq<char>>,
    pub value_fragment_9_integer: Option<i64>,
    pub value_fragment_9_string: Option<Seq<char>>,
    pub value_fragment_10_integer: Option<i64>,
    pub value_fragment_10_string: Option<Seq<char>>,
}

impl View for InsertableDataEntry {
    type V = EntryRow;

    open spec fn view(&self) -> EntryRow {
        EntryRow {
            block_uid: self.block_uid as int,
            transaction_id: self.transaction_id@,
            uid: self.uid as int,
            superseded_by: self.superseded_by as int,
            address: self.address@,
            key: self.key@,
            value_binary: bytes(self.value_binary),
            value_bool: self.value_bool,
            value_integer: self.value_integer,
            value_string: text(self.value_string),
            fragment_0_integer: self.fragment_0_integer,
            fragment_0_string: text(self.fragment_0_string),
            fragment_1_integer: self.fragment_1_integer,
            fragment_1_string: text(self.fragment_1_string),
            fragment_2_integer: self.fragment_2_integer,
            fragment_2_string: text(self.fragment_2_string),
            fragment_3_integer: self.fragment_3_integer,
            fragment_3_string: text(self.fragment_3_string),
            fragment_4_integer: self.fragment_4_integer,
            fragment_4_string: text(self.fragment_4_string),
            fragment_5_integer: self.fragment_5_integer,
            fragment_5_string: text(self.fragment_5_string),
            fragment_6_integer: self.fragment_6_integer,
            fragment_6_string: text(self.fragment_6_string),
            fragment_7_integer: self.fragment_7_integer,
            fragment_7_string: text(self.fragment_7_string),
            fragment_8_integer: self.fragment_8_integer,
            fragment_8_string: text(self.fragment_8_string),
            fragment_9_integer: self.fragment_9_integer,
            fragment_9_string: text(self.fragment_9_string),
            fragment_10_integer: self.fragment_10_integer,
            fragment_10_string: text(self.fragment_10_string),
            value_fragment_0_integer: self.value_fragment_0_integer,
            value_fragment_0_string: text(self.value_fragment_0_string),
            value_fragment_1_integer: self.value_fragment_1_integer,
            value_fragment_1_string: text(self.value_fragment_1_string),
            value_fragment_2_integer: self.value_fragment_2_integer,
            value_fragment_2_string: text(self.value_fragment_2_string),
            value_fragment_3_integer: self.value_fragment_3_integer,
            value_fragment_3_string: text(self.value_fragment_3_string),
            value_fragment_4_integer: self.value_fragment_4_integer,
            value_fragment_4_string: text(self.value_fragment_4_string),
            value_fragment_5_integer: self.value_fragment_5_integer,
            value_fragment_5_string: text(self.value_fragment_5_string),
            value_fragment_6_integer: self.value_fragment_6_integer,
            value_fragment_6_string: text(self.value_fragment_6_string),
            value_fragment_7_integer: self.value_fragment_7_integer,
            value_fragment_7_string: text(self.value_fragment_7_string),
            value_fragment_8_integer: self.value_fragment_8_integer,
            value_fragment_8_string: text(self.value_fragment_8_string),
            value_fragment_9_integer: self.value_fragment_9_integer,
            value_fragment_9_string: text(self.value_fragment_9_string),
            value_fragment_10_integer: self.value_fragment_10_integer,
            value_fragment_10_string: text(self.value_fragment_10_string),
        }
    }
}

/// The order to close the current row of `(address, key)` with `superseded_by`.
#[derive(Clone, Debug)]
pub struct DataEntryUpdate {
    pub superseded_by: i64,
    pub address: String,
    pub key: String,
}

/// What a [`DataEntryUpdate`] holds.
pub struct UpdateView {
    pub superseded_by: int,
    pub address: Seq<char>,
    pub key: Seq<char>,
}

impl View for DataEntryUpdate {
    type V = UpdateView;

    open spec fn view(&self) -> UpdateView {
        UpdateView {
            superseded_by: self.superseded_by as int,
            address: self.address@,
            key: self.key@,
        }
    }
}

/// A row that a rollback has deleted from the table of data entries.
#[derive(Clone, Debug)]
pub struct DeletedDataEntry {
    pub uid: i64,
    pub address: String,
    pub key: String,
}

/// What a [`DeletedDataEntry`] holds.
pub struct DeletedView {
    pub uid: int,
    pub address: Seq<char>,
    pub key: Seq<char>,
}

impl View for DeletedDataEntry {
    type V = DeletedView;

    open spec fn view(&self) -> DeletedView {
        DeletedView { uid: self.uid as int, address: self.address@, key: self.key@ }
    }
}

/// A block or microblock as it is inserted; a microblock has no time stamp.
#[derive(Clone, Debug)]
pub struct BlockMicroblock {
    pub id: String,
    pub time_stamp: Option<i64>,
    pub height: i32,
}

/// What a [`BlockMicroblock`] holds.
pub struct BlockView {
    pub id: Seq<char>,
    pub time_stamp: Option<i64>,
    pub height: i32,
}

impl View for BlockMicroblock {
    type V = BlockView;

    open spec fn view(&self) -> BlockView {
        BlockView { id: self.id@, time_stamp: self.time_stamp, height: self.height }
    }
}

/// A block or microblock of the stream, with the data entries it carries.
#[derive(Clone, Debug)]
pub struct BlockMicroblockAppend {
    pub id: String,
    pub time_stamp: Option<i64>,
    pub height: u32,
    pub data_entries: Vec<DataEntry>,
}

/// What a [`BlockMicroblockAppend`] holds.
pub struct AppendView {
    pub id: Seq<char>,
    pub time_stamp: Option<i64>,
    pub height: u32,
    pub data_entries: Seq<DataEntryView>,
}

/// The views of a sequence of data entries.
pub open spec fn entry_views(v: Seq<DataEntry>) -> Seq<DataEntryView> {
    v.map_values(|e: DataEntry| e@)
}

impl View for BlockMicroblockAppend {
    type V = AppendView;

    open spec fn view(&self) -> AppendView {
        AppendView {
            id: self.id@,
            time_stamp: self.time_stamp,
            height: self.height,
            data_entries: entry_views(self.data_entries@),
        }
    }
}

/// One event of the stream of blockchain updates.
#[derive(Clone, Debug)]
pub enum BlockchainUpdate {
    Block(BlockMicroblockAppend),
    Microblock(BlockMicroblockAppend),
    Rollback(String),
}

/// What a [`BlockchainUpdate`] holds.
pub enum UpdateEvent {
    Block(AppendView),
    Microblock(AppendView),
    Rollback(Seq<char>),
}

impl View for BlockchainUpdate {
    type V = UpdateEvent;

    open spec fn view(&self) -> UpdateEvent {
        match self {
            BlockchainUpdate::Block(b) => UpdateEvent::Block(b@),
            BlockchainUpdate::Microblock(b) => UpdateEvent::Microblock(b@),
            BlockchainUpdate::Rollback(id) => UpdateEvent::Rollback(id@),
        }
    }
}

/// The views of a sequence of updates.
pub open spec fn update_views(v: Seq<BlockchainUpdate>) -> Seq<UpdateEvent> {
    v.map_values(|u: BlockchainUpdate| u@)
}

/// A batch of updates, with the height of the last one in it.
#[derive(Debug)]
pub struct BlockchainUpdatesWithLastHeight {
    pub last_height: u32,
    pub updates: Vec<BlockchainUpdate>,
}

/// The record from which ingestion resumes.
#[derive(Debug)]
pub struct PrevHandledHeight {
    pub uid: i64,
    pub height: i32,
}

/// The views of a sequence of rows.
pub open spec fn row_views(v: Seq<InsertableDataEntry>) -> Seq<EntryRow> {
    v.map_values(|e: InsertableDataEntry| e@)
}

/// The views of a sequence of closing orders.
pub open spec fn closing_views(v: Seq<DataEntryUpdate>) -> Seq<UpdateView> {
    v.map_values(|u: DataEntryUpdate| u@)
}

/// The views of a sequence of deleted rows.
pub open spec fn deleted_views(v: Seq<DeletedDataEntry>) -> Seq<DeletedView> {
    v.map_values(|d: DeletedDataEntry| d@)
}

/// The views of a sequence of blocks.
pub open spec fn block_views(v: Seq<BlockMicroblock>) -> Seq<BlockView> {
    v.map_values(|b: BlockMicroblock| b@)
}

/// The uids of a sequence, as a set.
pub open spec fn uid_set(v: Seq<i64>) -> Set<int> {
    Set::new(|uid: int| exists|i: int| 0 <= i < v.len() && v[i] == uid)
}

/// The operations of the store. Each one that succeeds has done to the
/// store, and returns of it, what the model says; one that fails promises
/// nothing about the store, whose transaction is then to be abandoned.
///
/// A store may fail for reasons of its own: a connection, a statement. One
/// that does not is dependable: its operations fail only where the model
/// leaves them nothing to return, and each clause that begins with
/// `Self::dependable()` says where that is.
pub trait DataEntriesRepoOperations {
    /// Whether the operations of this kind of store fail only where the
    /// model leaves them nothing to return. An implementation says so; where
    /// it does not, they may fail at any time.
    open spec fn dependable() -> bool {
        false
    }

    /// The state of the store. An implementation says what it is; where it
    /// does not, the state is unknown.
    open spec fn store(&self) -> Store {
        arbitrary()
    }

    /// The record of lowest uid at the greatest height less `depth`.
    fn get_handled_height(&self, depth: u32) -> (r: Result<Option<PrevHandledHeight>, AppError>)
        ensures
            r matches Ok(found) ==> match self.store().handled_height(depth as int) {
                Some(block) => found matches Some(prev) && prev.uid == block.uid && prev.height
                    == block.height,
                None => found is None,
            },
            Self::dependable() ==> r is Ok,
    ;

    /// The time stamp of the key block of highest uid.
    fn get_last_block_timestamp(&self) -> (r: Result<Option<i64>, AppError>)
        ensures
            r matches Ok(found) ==> match self.store().last_key_block() {
                Some(block) => found == block.time_stamp,
                None => found is None,
            },
            Self::dependable() ==> r is Ok,
    ;

    /// The uid of the record whose id is `block_id`; fails where there is none.
    fn get_block_uid(&self, block_id: &str) -> (r: Result<i64, AppError>)
        ensures
            r matches Ok(uid) ==> self.store().block_with_id(block_id@) matches Some(block)
                && block.uid == uid,
            Self::dependable() ==> (r is Ok <==> self.store().block_with_id(block_id@) is Some),
    ;

    /// The uid of the key block of highest uid; fails where there is none.
    fn get_key_block_uid(&self) -> (r: Result<i64, AppError>)
        ensures
            r matches Ok(uid) ==> self.store().last_key_block() matches Some(block) && block.uid
                == uid,
            Self::dependable() ==> (r is Ok <==> self.store().last_key_block() is Some),
    ;

    /// The id of the microblock of highest uid.
    fn get_total_block_id(&self) -> (r: Result<Option<String>, AppError>)
        ensures
            r matches Ok(found) ==> match self.store().last_microblock() {
                Some(block) => text(found) == Some(block.id),
                None => found is None,
            },
            Self::dependable() ==> r is Ok,
    ;

    /// The uid that the next data entry gets; the sequence does not move.
    fn get_next_update_uid(&self) -> (r: Result<i64, AppError>)
        ensures
            r matches Ok(uid) ==> uid == self.store().next_uid,
            Self::dependable() ==> r is Ok,
    ;

    /// Inserts `blocks` and returns their uids, in the order of `blocks`.
    fn insert_blocks_or_microblocks(&mut self, blocks: &Vec<BlockMicroblock>) -> (r: Result<
        Vec<i64>,
        AppError,
    >)
        ensures
            r matches Ok(uids) ==> {
                &&& final(self).store() == old(self).store().insert_blocks(block_views(blocks@))
                &&& uids.len() == blocks.len()
                &&& forall|i: int|
                    0 <= i < uids.len() ==> #[trigger] uids[i] == old(self).store().block_seq + i
            },
            Self::dependable() ==> (r is Ok <==> old(self).store().block_seq + blocks.len()
                <= i64::MAX),
            Self::dependable() && r is Err ==> final(self).store() == old(self).store(),
    ;

    /// Inserts `entries`.
    fn insert_data_entries(&mut self, entries: &Vec<InsertableDataEntry>) -> (r: Result<
        (),
        AppError,
    >)
        ensures
            r is Ok ==> final(self).store() == old(self).store().insert_entries(
                row_views(entries@),
            ),
            Self::dependable() ==> r is Ok,
    ;

    /// Closes the current row of each `(address, key)` that `updates` name.
    /// No two updates may name the same `(address, key)`.
    fn close_superseded_by(&mut self, updates: &Vec<DataEntryUpdate>) -> (r: Result<(), AppError>)
        requires
            forall|i: int, j: int|
                0 <= i < j < updates.len() ==> !(updates[i].address@ == updates[j].address@
                    && updates[i].key@ == updates[j].key@),
        ensures
            r is Ok ==> final(self).store() == old(self).store().close_superseded(
                closing_views(updates@),
            ),
            Self::dependable() ==> r is Ok,
    ;

    /// Makes every row current again that one of `current_superseded_by`
    /// supersedes.
    fn reopen_superseded_by(&mut self, current_superseded_by: &Vec<i64>) -> (r: Result<
        (),
        AppError,
    >)
        ensures
            r is Ok ==> final(self).store() == old(self).store().reopen_superseded(
                uid_set(current_superseded_by@),
            ),
            Self::dependable() ==> r is Ok,
    ;

    /// Sets the sequence of data entries, so that its next value is `uid`.
    fn set_next_update_uid(&mut self, uid: i64) -> (r: Result<(), AppError>)
        ensures
            r is Ok ==> final(self).store() == old(self).store().set_next_uid(uid as int),
            Self::dependable() ==> r is Ok,
    ;

    /// Renames the record `block_uid`.
    fn change_block_id(&mut self, block_uid: &i64, new_block_id: &str) -> (r: Result<(), AppError>)
        ensures
            r is Ok ==> final(self).store() == old(self).store().change_block_id(
                *block_uid as int,
                new_block_id@,
            ),
            Self::dependable() ==> r is Ok,
    ;

    /// Hands the data entries of records above `block_uid` to that record.
    fn update_data_entries_block_references(&mut self, block_uid: &i64) -> (r: Result<
        (),
        AppError,
    >)
        ensures
            r is Ok ==> final(self).store() == old(self).store().repoint_entries(
                *block_uid as int,
            ),
            Self::dependable() ==> r is Ok,
    ;

    /// Deletes every microblock.
    fn delete_microblocks(&mut self) -> (r: Result<(), AppError>)
        ensures
            r is Ok ==> final(self).store() == old(self).store().delete_microblocks(),
            Self::dependable() ==> r is Ok,
    ;

    /// Deletes the records above `block_uid`.
    fn rollback_blocks_microblocks(&mut self, block_uid: &i64) -> (r: Result<(), AppError>)
        ensures
            r is Ok ==> final(self).store() == old(self).store().rollback_blocks(
                *block_uid as int,
            ),
            Self::dependable() ==> r is Ok,
    ;

    /// Deletes the data entries of records above `block_uid` and returns
    /// them, in any order.
    fn rollback_data_entries(&mut self, block_uid: &i64) -> (r: Result<
        Vec<DeletedDataEntry>,
        AppError,
    >)
        ensures
            r matches Ok(deleted) ==> {
                &&& final(self).store() == old(self).store().rollback_entries(*block_uid as int)
                &&& deleted_views(deleted@).to_multiset() == old(self).store().deleted_entries(
                    *block_uid as int,
                ).to_multiset()
            },
            Self::dependable() ==> r is Ok,
    ;
}

} // verus!
