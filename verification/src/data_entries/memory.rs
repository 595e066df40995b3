//! A store kept in memory: the operations of the store, carried out on vectors.
use crate::data_entries::{
    block_views, closing_views, deleted_views, row_views, uid_set, BlockMicroblock,
    DataEntriesRepoOperations, DataEntryUpdate, DeletedDataEntry, EntryRow, InsertableDataEntry,
    PrevHandledHeight, MAX_UID,
};
use crate::data_entries::daemon::{clone_bytes, clone_text};
use crate::data_entries::store::{
    blocks_up_to, close_row, deleted_of, entries_above, entries_up_to, first_at_height,
    first_update, first_with_id, key_blocks, last_of_kind, max_height, rename_row, reopen_row,
    repoint_row, BlockRow, Store,
};
use crate::error::AppError;
use vstd::prelude::*;

verus! {

/// A record of the table of blocks and microblocks.
#[derive(Clone, Debug)]
pub struct StoredBlock {
    pub uid: i64,
    pub id: String,
    pub height: i32,
    pub time_stamp: Option<i64>,
}

impl View for StoredBlock {
    type V = BlockRow;

    open spec fn view(&self) -> BlockRow {
        BlockRow {
            uid: self.uid as int,
            id: self.id@,
            height: self.height,
            time_stamp: self.time_stamp,
        }
    }
}

/// The views of a sequence of records.
pub open spec fn stored_views(v: Seq<StoredBlock>) -> Seq<BlockRow> {
    v.map_values(|b: StoredBlock| b@)
}

/// The two tables and the two sequences, in memory.
#[derive(Debug)]
pub struct MemoryStore {
    pub blocks: Vec<StoredBlock>,
    pub entries: Vec<InsertableDataEntry>,
    pub block_seq: i64,
    pub next_uid: i64,
}

impl View for MemoryStore {
    type V = Store;

    open spec fn view(&self) -> Store {
        Store {
            blocks: stored_views(self.blocks@),
            entries: row_views(self.entries@),
            block_seq: self.block_seq as int,
            next_uid: self.next_uid as int,
        }
    }
}

/// A copy of a row.
pub fn clone_row(row: &InsertableDataEntry) -> (copy: InsertableDataEntry)
    ensures
        copy@ == row@,
{
    InsertableDataEntry {
        block_uid: row.block_uid,
        transaction_id: row.transaction_id.clone(),
        uid: row.uid,
        superseded_by: row.superseded_by,
        address: row.address.clone(),
        key: row.key.clone(),
        value_binary: clone_bytes(&row.value_binary),
        value_bool: row.value_bool,
        value_integer: row.value_integer,
        value_string: clone_text(&row.value_string),
        fragment_0_integer: row.fragment_0_integer,
        fragment_0_string: clone_text(&row.fragment_0_string),
        fragment_1_integer: row.fragment_1_integer,
        fragment_1_string: clone_text(&row.fragment_1_string),
        fragment_2_integer: row.fragment_2_integer,
        fragment_2_string: clone_text(&row.fragment_2_string),
        fragment_3_integer: row.fragment_3_integer,
        fragment_3_string: clone_text(&row.fragment_3_string),
        fragment_4_integer: row.fragment_4_integer,
        fragment_4_string: clone_text(&row.fragment_4_string),
        fragment_5_integer: row.fragment_5_integer,
        fragment_5_string: clone_text(&row.fragment_5_string),
        fragment_6_integer: row.fragment_6_integer,
        fragment_6_string: clone_text(&row.fragment_6_string),
        fragment_7_integer: row.fragment_7_integer,
        fragment_7_string: clone_text(&row.fragment_7_string),
        fragment_8_integer: row.fragment_8_integer,
        fragment_8_string: clone_text(&row.fragment_8_string),
        fragment_9_integer: row.fragment_9_integer,
        fragment_9_string: clone_text(&row.fragment_9_string),
        fragment_10_integer: row.fragment_10_integer,
        fragment_10_string: clone_text(&row.fragment_10_string),
        value_fragment_0_integer: row.value_fragment_0_integer,
        value_fragment_0_string: clone_text(&row.value_fragment_0_string),
        value_fragment_1_integer: row.value_fragment_1_integer,
        value_fragment_1_string: clone_text(&row.value_fragment_1_string),
        value_fragment_2_integer: row.value_fragment_2_integer,
        value_fragment_2_string: clone_text(&row.value_fragment_2_string),
        value_fragment_3_integer: row.value_fragment_3_integer,
        value_fragment_3_string: clone_text(&row.value_fragment_3_string),
        value_fragment_4_integer: row.value_fragment_4_integer,
        value_fragment_4_string: clone_text(&row.value_fragment_4_string),
        value_fragment_5_integer: row.value_fragment_5_integer,
        value_fragment_5_string: clone_text(&row.value_fragment_5_string),
        value_fragment_6_integer: row.value_fragment_6_integer,
        value_fragment_6_string: clone_text(&row.value_fragment_6_string),
        value_fragment_7_integer: row.value_fragment_7_integer,
        value_fragment_7_string: clone_text(&row.value_fragment_7_string),
        value_fragment_8_integer: row.value_fragment_8_integer,
        value_fragment_8_string: clone_text(&row.value_fragment_8_string),
        value_fragment_9_integer: row.value_fragment_9_integer,
        value_fragment_9_string: clone_text(&row.value_fragment_9_string),
        value_fragment_10_integer: row.value_fragment_10_integer,
        value_fragment_10_string: clone_text(&row.value_fragment_10_string),
    }
}

/// What the first update that names `(address, key)` supersedes with.
pub fn find_update(updates: &Vec<DataEntryUpdate>, address: &String, key: &String) -> (found:
    Option<i64>)
    ensures
        match first_update(closing_views(updates@), address@, key@) {
            Some(update) => found == Some(update.superseded_by as i64) && found->0
                == update.superseded_by,
            None => found is None,
        },
{
    let ghost views = closing_views(updates@);
    assert(views.skip(0) =~= views);
    let mut i: usize = 0;
    while i < updates.len()
        invariant
            i <= updates.len(),
            views == closing_views(updates@),
            first_update(views, address@, key@) == first_update(
                views.skip(i as int),
                address@,
                key@,
            ),
        decreases updates.len() - i,
    {
        assert(views.skip(i as int)[0] == updates@[i as int]@);
        if updates[i].address == *address && updates[i].key == *key {
            return Some(updates[i].superseded_by);
        }
        assert(views.skip(i as int).drop_first() =~= views.skip(i + 1));
        i = i + 1;
    }
    None
}

/// Whether `uid` is one of `uids`.
pub fn holds_uid(uids: &Vec<i64>, uid: i64) -> (found: bool)
    ensures
        found == uid_set(uids@).contains(uid as int),
{
    let mut i: usize = 0;
    while i < uids.len()
        invariant
            i <= uids.len(),
            forall|k: int| 0 <= k < i ==> uids@[k] != uid,
        decreases uids.len() - i,
    {
        if uids[i] == uid {
            return true;
        }
        i = i + 1;
    }
    false
}

impl MemoryStore {
    /// A store that nothing was written to.
    pub fn new() -> (store: MemoryStore)
        ensures
            store@ == Store::empty(),
    {
        let store = MemoryStore {
            blocks: Vec::new(),
            entries: Vec::new(),
            block_seq: 1,
            next_uid: 1,
        };
        assert(store@.blocks =~= Seq::<BlockRow>::empty());
        assert(store@.entries =~= Seq::<EntryRow>::empty());
        store
    }

    /// The last key block, where `key` holds, or the last microblock, where
    /// it does not.
    pub fn last_of_kind(&self, key: bool) -> (found: Option<usize>)
        ensures
            match last_of_kind(self@.blocks, key) {
                Some(block) => found matches Some(i) && i < self.blocks.len() && self.blocks[i as int]@
                    == block,
                None => found is None,
            },
    {
        let ghost views = self@.blocks;
        let mut found: Option<usize> = None;
        let mut i: usize = 0;
        while i < self.blocks.len()
            invariant
                i <= self.blocks.len(),
                views == stored_views(self.blocks@),
                match last_of_kind(views.take(i as int), key) {
                    Some(block) => found matches Some(at) && at < i && self.blocks[at as int]@
                        == block,
                    None => found is None,
                },
            decreases self.blocks.len() - i,
        {
            proof {
                let upto = views.take(i + 1);
                assert(upto.drop_last() =~= views.take(i as int));
                assert(upto.last() == self.blocks[i as int]@);
            }
            if self.blocks[i].time_stamp.is_some() == key {
                found = Some(i);
            }
            i = i + 1;
        }
        assert(views.take(self.blocks.len() as int) =~= views);
        found
    }
}

impl DataEntriesRepoOperations for MemoryStore {
    open spec fn dependable() -> bool {
        true
    }

    open spec fn store(&self) -> Store {
        self@
    }

    fn get_handled_height(&self, depth: u32) -> (r: Result<Option<PrevHandledHeight>, AppError>)
        ensures
            r is Ok,
    {
        let ghost views = self@.blocks;
        let mut highest: i32 = 0;
        let mut i: usize = 0;
        while i < self.blocks.len()
            invariant
                i <= self.blocks.len(),
                views == stored_views(self.blocks@),
                highest == max_height(views.take(i as int)),
            decreases self.blocks.len() - i,
        {
            proof {
                let upto = views.take(i + 1);
                assert(upto.drop_last() =~= views.take(i as int));
                assert(upto.last() == self.blocks[i as int]@);
            }
            if i == 0 || self.blocks[i].height > highest {
                highest = self.blocks[i].height;
            }
            i = i + 1;
        }
        assert(views.take(self.blocks.len() as int) =~= views);
        let target: i64 = (highest as i64) - (depth as i64);
        assert(views.skip(0) =~= views);
        let mut i: usize = 0;
        while i < self.blocks.len()
            invariant
                i <= self.blocks.len(),
                views == stored_views(self.blocks@),
                target == max_height(views) - depth,
                first_at_height(views, target as int) == first_at_height(
                    views.skip(i as int),
                    target as int,
                ),
            decreases self.blocks.len() - i,
        {
            assert(views.skip(i as int)[0] == self.blocks[i as int]@);
            if (self.blocks[i].height as i64) == target {
                return Ok(
                    Some(
                        PrevHandledHeight {
                            uid: self.blocks[i].uid,
                            height: self.blocks[i].height,
                        },
                    ),
                );
            }
            assert(views.skip(i as int).drop_first() =~= views.skip(i + 1));
            i = i + 1;
        }
        Ok(None)
    }

    fn get_last_block_timestamp(&self) -> (r: Result<Option<i64>, AppError>)
        ensures
            r is Ok,
    {
        match self.last_of_kind(true) {
            Some(i) => Ok(self.blocks[i].time_stamp),
            None => Ok(None),
        }
    }

    fn get_block_uid(&self, block_id: &str) -> (r: Result<i64, AppError>)
        ensures
            r is Ok <==> self@.block_with_id(block_id@) is Some,
    {
        let ghost views = self@.blocks;
        let wanted = String::from_str(block_id);
        assert(views.skip(0) =~= views);
        let mut i: usize = 0;
        while i < self.blocks.len()
            invariant
                i <= self.blocks.len(),
                views == stored_views(self.blocks@),
                wanted@ == block_id@,
                first_with_id(views, block_id@) == first_with_id(views.skip(i as int), block_id@),
            decreases self.blocks.len() - i,
        {
            assert(views.skip(i as int)[0] == self.blocks[i as int]@);
            if self.blocks[i].id == wanted {
                return Ok(self.blocks[i].uid);
            }
            assert(views.skip(i as int).drop_first() =~= views.skip(i + 1));
            i = i + 1;
        }
        Err(AppError::DbError(String::from_str("Cannot get block_uid by block id.")))
    }

    fn get_key_block_uid(&self) -> (r: Result<i64, AppError>)
        ensures
            r is Ok <==> self@.last_key_block() is Some,
    {
        match self.last_of_kind(true) {
            Some(i) => Ok(self.blocks[i].uid),
            None => Err(AppError::DbError(String::from_str("Cannot get key block uid."))),
        }
    }

    fn get_total_block_id(&self) -> (r: Result<Option<String>, AppError>)
        ensures
            r is Ok,
    {
        match self.last_of_kind(false) {
            Some(i) => Ok(Some(self.blocks[i].id.clone())),
            None => Ok(None),
        }
    }

    fn get_next_update_uid(&self) -> (r: Result<i64, AppError>)
        ensures
            r is Ok,
    {
        Ok(self.next_uid)
    }

    fn insert_blocks_or_microblocks(&mut self, blocks: &Vec<BlockMicroblock>) -> (r: Result<
        Vec<i64>,
        AppError,
    >)
        ensures
            r is Ok <==> old(self)@.block_seq + blocks.len() <= i64::MAX,
            r is Err ==> final(self)@ == old(self)@,
    {
        let count: u64 = blocks.len() as u64;
        if (self.block_seq as i128) + (count as i128) > 9223372036854775807 {
            return Err(
                AppError::SequenceExhausted(String::from_str("blocks_microblocks has no uid left")),
            );
        }
        let ghost before = self@;
        let ghost model = before.new_blocks(block_views(blocks@));
        let first: i64 = self.block_seq;
        let mut uids: Vec<i64> = Vec::new();
        let mut i: usize = 0;
        while i < blocks.len()
            invariant
                i <= blocks.len(),
                first == before.block_seq,
                first + blocks.len() <= i64::MAX,
                model == before.new_blocks(block_views(blocks@)),
                self.entries == old(self).entries,
                self.next_uid == old(self).next_uid,
                self.block_seq == first,
                stored_views(self.blocks@) == before.blocks + model.take(i as int),
                uids.len() == i,
                forall|k: int| 0 <= k < i ==> #[trigger] uids[k] == first + k,
            decreases blocks.len() - i,
        {
            let uid: i64 = ((first as i128) + (i as i128)) as i64;
            let block = StoredBlock {
                uid: uid,
                id: blocks[i].id.clone(),
                height: blocks[i].height,
                time_stamp: blocks[i].time_stamp,
            };
            assert(block@ == model[i as int]);
            assert(stored_views(self.blocks@.push(block)) =~= before.blocks + model.take(i + 1)) by {
                let was = stored_views(self.blocks@);
                assert(was == before.blocks + model.take(i as int));
                assert(was.len() == before.blocks.len() + i);
                assert forall|k: int| 0 <= k < was.len() implies stored_views(
                    self.blocks@.push(block),
                )[k] == (before.blocks + model.take(i + 1))[k] by {
                    assert(stored_views(self.blocks@.push(block))[k] == was[k]);
                    assert(was[k] == (before.blocks + model.take(i as int))[k]);
                }
            }
            self.blocks.push(block);
            uids.push(uid);
            i = i + 1;
        }
        assert(model.take(blocks.len() as int) =~= model);
        self.block_seq = ((first as i128) + (count as i128)) as i64;
        Ok(uids)
    }

    fn insert_data_entries(&mut self, entries: &Vec<InsertableDataEntry>) -> (r: Result<
        (),
        AppError,
    >)
        ensures
            r is Ok,
    {
        let ghost before = self@;
        let ghost model = row_views(entries@);
        let mut i: usize = 0;
        while i < entries.len()
            invariant
                i <= entries.len(),
                model == row_views(entries@),
                self.blocks == old(self).blocks,
                self.next_uid == old(self).next_uid,
                self.block_seq == old(self).block_seq,
                row_views(self.entries@) == before.entries + model.take(i as int),
            decreases entries.len() - i,
        {
            let row = clone_row(&entries[i]);
            assert(row_views(self.entries@.push(row)) =~= before.entries + model.take(i + 1)) by {
                let was = row_views(self.entries@);
                assert(was == before.entries + model.take(i as int));
                assert(was.len() == before.entries.len() + i);
                assert forall|k: int| 0 <= k < was.len() implies row_views(
                    self.entries@.push(row),
                )[k] == (before.entries + model.take(i + 1))[k] by {
                    assert(row_views(self.entries@.push(row))[k] == was[k]);
                    assert(was[k] == (before.entries + model.take(i as int))[k]);
                }
            }
            self.entries.push(row);
            i = i + 1;
        }
        assert(model.take(entries.len() as int) =~= model);
        Ok(())
    }

    fn close_superseded_by(&mut self, updates: &Vec<DataEntryUpdate>) -> (r: Result<(), AppError>)
        ensures
            r is Ok,
    {
        let ghost before = self@;
        let ghost orders = closing_views(updates@);
        let mut rows: Vec<InsertableDataEntry> = Vec::new();
        core::mem::swap(&mut self.entries, &mut rows);
        let ghost views = row_views(rows@);
        for row in it: rows
            invariant
                views == row_views(it.seq()),
                views == before.entries,
                orders == closing_views(updates@),
                self.blocks == old(self).blocks,
                self.next_uid == old(self).next_uid,
                self.block_seq == old(self).block_seq,
                row_views(self.entries@) == views.map_values(
                    |r: EntryRow| close_row(r, orders),
                ).take(it.index() as int),
        {
            let ghost was = row_views(self.entries@);
            let ghost model = views.map_values(|r: EntryRow| close_row(r, orders));
            let mut row = row;
            let ghost input = row@;
            assert(input == views[it.index() as int]);
            if row.superseded_by == MAX_UID {
                match find_update(updates, &row.address, &row.key) {
                    Some(superseded_by) => {
                        row.superseded_by = superseded_by;
                    },
                    None => {},
                }
            }
            assert(row@ == close_row(input, orders));
            assert(row_views(self.entries@.push(row)) =~= model.take(it.index() + 1)) by {
                assert(was.len() == it.index());
                assert forall|k: int| 0 <= k < was.len() implies row_views(
                    self.entries@.push(row),
                )[k] == model.take(it.index() + 1)[k] by {
                    assert(row_views(self.entries@.push(row))[k] == was[k]);
                    assert(was[k] == model.take(it.index() as int)[k]);
                }
            }
            self.entries.push(row);
        }
        assert(views.map_values(|r: EntryRow| close_row(r, orders)).take(views.len() as int)
            =~= views.map_values(|r: EntryRow| close_row(r, orders)));
        Ok(())
    }

    fn reopen_superseded_by(&mut self, current_superseded_by: &Vec<i64>) -> (r: Result<
        (),
        AppError,
    >)
        ensures
            r is Ok,
    {
        let ghost before = self@;
        let ghost uids = uid_set(current_superseded_by@);
        let mut rows: Vec<InsertableDataEntry> = Vec::new();
        core::mem::swap(&mut self.entries, &mut rows);
        let ghost views = row_views(rows@);
        for row in it: rows
            invariant
                views == row_views(it.seq()),
                views == before.entries,
                uids == uid_set(current_superseded_by@),
                self.blocks == old(self).blocks,
                self.next_uid == old(self).next_uid,
                self.block_seq == old(self).block_seq,
                row_views(self.entries@) == views.map_values(
                    |r: EntryRow| reopen_row(r, uids),
                ).take(it.index() as int),
        {
            let ghost was = row_views(self.entries@);
            let ghost model = views.map_values(|r: EntryRow| reopen_row(r, uids));
            let mut row = row;
            let ghost input = row@;
            assert(input == views[it.index() as int]);
            if holds_uid(current_superseded_by, row.superseded_by) {
                row.superseded_by = MAX_UID;
            }
            assert(row@ == reopen_row(input, uids));
            assert(row_views(self.entries@.push(row)) =~= model.take(it.index() + 1)) by {
                assert(was.len() == it.index());
                assert forall|k: int| 0 <= k < was.len() implies row_views(
                    self.entries@.push(row),
                )[k] == model.take(it.index() + 1)[k] by {
                    assert(row_views(self.entries@.push(row))[k] == was[k]);
                    assert(was[k] == model.take(it.index() as int)[k]);
                }
            }
            self.entries.push(row);
        }
        assert(views.map_values(|r: EntryRow| reopen_row(r, uids)).take(views.len() as int)
            =~= views.map_values(|r: EntryRow| reopen_row(r, uids)));
        Ok(())
    }

    fn set_next_update_uid(&mut self, uid: i64) -> (r: Result<(), AppError>)
        ensures
            r is Ok,
    {
        self.next_uid = uid;
        Ok(())
    }

    fn change_block_id(&mut self, block_uid: &i64, new_block_id: &str) -> (r: Result<(), AppError>)
        ensures
            r is Ok,
    {
        let ghost before = self@;
        let ghost uid = *block_uid as int;
        let mut blocks: Vec<StoredBlock> = Vec::new();
        core::mem::swap(&mut self.blocks, &mut blocks);
        let ghost views = stored_views(blocks@);
        for block in it: blocks
            invariant
                views == stored_views(it.seq()),
                views == before.blocks,
                uid == *block_uid,
                self.entries == old(self).entries,
                self.next_uid == old(self).next_uid,
                self.block_seq == old(self).block_seq,
                stored_views(self.blocks@) == views.map_values(
                    |b: BlockRow| rename_row(b, uid, new_block_id@),
                ).take(it.index() as int),
        {
            let ghost was = stored_views(self.blocks@);
            let ghost model = views.map_values(|b: BlockRow| rename_row(b, uid, new_block_id@));
            let mut block = block;
            let ghost input = block@;
            assert(input == views[it.index() as int]);
            if block.uid == *block_uid {
                block.id = String::from_str(new_block_id);
            }
            assert(block@ == rename_row(input, uid, new_block_id@));
            assert(stored_views(self.blocks@.push(block)) =~= model.take(it.index() + 1)) by {
                assert(was.len() == it.index());
                assert forall|k: int| 0 <= k < was.len() implies stored_views(
                    self.blocks@.push(block),
                )[k] == model.take(it.index() + 1)[k] by {
                    assert(stored_views(self.blocks@.push(block))[k] == was[k]);
                    assert(was[k] == model.take(it.index() as int)[k]);
                }
            }
            self.blocks.push(block);
        }
        assert(views.map_values(|b: BlockRow| rename_row(b, uid, new_block_id@)).take(
            views.len() as int,
        ) =~= views.map_values(|b: BlockRow| rename_row(b, uid, new_block_id@)));
        Ok(())
    }

    fn update_data_entries_block_references(&mut self, block_uid: &i64) -> (r: Result<
        (),
        AppError,
    >)
        ensures
            r is Ok,
    {
        let ghost before = self@;
        let ghost uid = *block_uid as int;
        let mut rows: Vec<InsertableDataEntry> = Vec::new();
        core::mem::swap(&mut self.entries, &mut rows);
        let ghost views = row_views(rows@);
        for row in it: rows
            invariant
                views == row_views(it.seq()),
                views == before.entries,
                uid == *block_uid,
                self.blocks == old(self).blocks,
                self.next_uid == old(self).next_uid,
                self.block_seq == old(self).block_seq,
                row_views(self.entries@) == views.map_values(
                    |r: EntryRow| repoint_row(r, uid),
                ).take(it.index() as int),
        {
            let ghost was = row_views(self.entries@);
            let ghost model = views.map_values(|r: EntryRow| repoint_row(r, uid));
            let mut row = row;
            let ghost input = row@;
            assert(input == views[it.index() as int]);
            if row.block_uid > *block_uid {
                row.block_uid = *block_uid;
            }
            assert(row@ == repoint_row(input, uid));
            assert(row_views(self.entries@.push(row)) =~= model.take(it.index() + 1)) by {
                assert(was.len() == it.index());
                assert forall|k: int| 0 <= k < was.len() implies row_views(
                    self.entries@.push(row),
                )[k] == model.take(it.index() + 1)[k] by {
                    assert(row_views(self.entries@.push(row))[k] == was[k]);
                    assert(was[k] == model.take(it.index() as int)[k]);
                }
            }
            self.entries.push(row);
        }
        assert(views.map_values(|r: EntryRow| repoint_row(r, uid)).take(views.len() as int)
            =~= views.map_values(|r: EntryRow| repoint_row(r, uid)));
        Ok(())
    }

    fn delete_microblocks(&mut self) -> (r: Result<(), AppError>)
        ensures
            r is Ok,
    {
        let ghost before = self@;
        let mut blocks: Vec<StoredBlock> = Vec::new();
        core::mem::swap(&mut self.blocks, &mut blocks);
        let ghost views = stored_views(blocks@);
        for block in it: blocks
            invariant
                views == stored_views(it.seq()),
                views == before.blocks,
                self.entries == old(self).entries,
                self.next_uid == old(self).next_uid,
                self.block_seq == old(self).block_seq,
                stored_views(self.blocks@) == views.take(it.index() as int).filter(key_blocks()),
        {
            proof {
                assert(views.take(it.index() + 1) =~= views.take(it.index() as int).push(block@));
                views.take(it.index() as int).lemma_filter_push(block@, key_blocks());
            }
            if block.time_stamp.is_some() {
                assert(stored_views(self.blocks@.push(block)) =~= stored_views(self.blocks@).push(
                    block@,
                ));
                self.blocks.push(block);
            }
        }
        assert(views.take(views.len() as int) =~= views);
        Ok(())
    }

    fn rollback_blocks_microblocks(&mut self, block_uid: &i64) -> (r: Result<(), AppError>)
        ensures
            r is Ok,
    {
        let ghost before = self@;
        let ghost uid = *block_uid as int;
        let mut blocks: Vec<StoredBlock> = Vec::new();
        core::mem::swap(&mut self.blocks, &mut blocks);
        let ghost views = stored_views(blocks@);
        for block in it: blocks
            invariant
                views == stored_views(it.seq()),
                views == before.blocks,
                uid == *block_uid,
                self.entries == old(self).entries,
                self.next_uid == old(self).next_uid,
                self.block_seq == old(self).block_seq,
                stored_views(self.blocks@) == views.take(it.index() as int).filter(
                    blocks_up_to(uid),
                ),
        {
            proof {
                assert(views.take(it.index() + 1) =~= views.take(it.index() as int).push(block@));
                views.take(it.index() as int).lemma_filter_push(block@, blocks_up_to(uid));
            }
            if block.uid <= *block_uid {
                assert(stored_views(self.blocks@.push(block)) =~= stored_views(self.blocks@).push(
                    block@,
                ));
                self.blocks.push(block);
            }
        }
        assert(views.take(views.len() as int) =~= views);
        Ok(())
    }

    fn rollback_data_entries(&mut self, block_uid: &i64) -> (r: Result<
        Vec<DeletedDataEntry>,
        AppError,
    >)
        ensures
            r matches Ok(deleted) && deleted_views(deleted@) == old(self)@.deleted_entries(
                *block_uid as int,
            ),
    {
        let ghost before = self@;
        let ghost uid = *block_uid as int;
        let mut rows: Vec<InsertableDataEntry> = Vec::new();
        core::mem::swap(&mut self.entries, &mut rows);
        let ghost views = row_views(rows@);
        let mut deleted: Vec<DeletedDataEntry> = Vec::new();
        for row in it: rows
            invariant
                views == row_views(it.seq()),
                views == before.entries,
                uid == *block_uid,
                self.blocks == old(self).blocks,
                self.next_uid == old(self).next_uid,
                self.block_seq == old(self).block_seq,
                row_views(self.entries@) == views.take(it.index() as int).filter(
                    entries_up_to(uid),
                ),
                deleted_views(deleted@) == views.take(it.index() as int).filter(
                    entries_above(uid),
                ).map_values(|r: EntryRow| deleted_of(r)),
        {
            proof {
                assert(views.take(it.index() + 1) =~= views.take(it.index() as int).push(row@));
                views.take(it.index() as int).lemma_filter_push(row@, entries_up_to(uid));
                views.take(it.index() as int).lemma_filter_push(row@, entries_above(uid));
            }
            if row.block_uid <= *block_uid {
                assert(row_views(self.entries@.push(row)) =~= row_views(self.entries@).push(row@));
                self.entries.push(row);
            } else {
                let gone = DeletedDataEntry { uid: row.uid, address: row.address, key: row.key };
                assert(gone@ == deleted_of(row@));
                let ghost above = views.take(it.index() as int).filter(entries_above(uid));
                assert(deleted_views(deleted@.push(gone)) =~= above.push(row@).map_values(
                    |r: EntryRow| deleted_of(r),
                )) by {
                    let was = deleted_views(deleted@);
                    assert(was == above.map_values(|r: EntryRow| deleted_of(r)));
                    assert(was.len() == above.len());
                    assert forall|k: int| 0 <= k < was.len() implies deleted_views(
                        deleted@.push(gone),
                    )[k] == above.push(row@).map_values(|r: EntryRow| deleted_of(r))[k] by {
                        assert(deleted_views(deleted@.push(gone))[k] == was[k]);
                        assert(was[k] == deleted_of(above[k]));
                    }
                }
                deleted.push(gone);
            }
        }
        assert(views.take(views.len() as int) =~= views);
        Ok(deleted)
    }
}

} // verus!
