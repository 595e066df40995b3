//! The mathematical model of the store: two tables and two sequences.
//!
//! Rows are listed in the order of their insertion, which in a well-formed
//! store is the order of their uids.
use crate::data_entries::{BlockView, DeletedView, EntryRow, UpdateView, MAX_UID};
use vstd::prelude::*;

verus! {

/// A row of the table of blocks and microblocks. A microblock is a row
/// without a time stamp.
pub struct BlockRow {
    pub uid: int,
    pub id: Seq<char>,
    pub height: i32,
    pub time_stamp: Option<i64>,
}

/// The state of the store.
pub struct Store {
    /// The table of blocks and microblocks.
    pub blocks: Seq<BlockRow>,
    /// The table of data entries.
    pub entries: Seq<EntryRow>,
    /// The uid that the next inserted block or microblock gets.
    pub block_seq: int,
    /// The uid that the next inserted data entry gets.
    pub next_uid: int,
}

/// The first row of `blocks` at `height`.
pub open spec fn first_at_height(blocks: Seq<BlockRow>, height: int) -> Option<BlockRow>
    decreases blocks.len(),
{
    if blocks.len() == 0 {
        None
    } else if blocks[0].height == height {
        Some(blocks[0])
    } else {
        first_at_height(blocks.drop_first(), height)
    }
}

/// The first row of `blocks` whose id is `id`.
pub open spec fn first_with_id(blocks: Seq<BlockRow>, id: Seq<char>) -> Option<BlockRow>
    decreases blocks.len(),
{
    if blocks.len() == 0 {
        None
    } else if blocks[0].id == id {
        Some(blocks[0])
    } else {
        first_with_id(blocks.drop_first(), id)
    }
}

/// The last row of `blocks` that is a key block, where `key` holds, or a
/// microblock, where it does not.
pub open spec fn last_of_kind(blocks: Seq<BlockRow>, key: bool) -> Option<BlockRow>
    decreases blocks.len(),
{
    if blocks.len() == 0 {
        None
    } else if (blocks.last().time_stamp is Some) == key {
        Some(blocks.last())
    } else {
        last_of_kind(blocks.drop_last(), key)
    }
}

/// The greatest height among `blocks`; zero where there is none.
pub open spec fn max_height(blocks: Seq<BlockRow>) -> int
    decreases blocks.len(),
{
    if blocks.len() == 0 {
        0
    } else if blocks.len() == 1 || blocks.last().height > max_height(blocks.drop_last()) {
        blocks.last().height as int
    } else {
        max_height(blocks.drop_last())
    }
}

/// The first update that names `(address, key)`.
pub open spec fn first_update(updates: Seq<UpdateView>, address: Seq<char>, key: Seq<char>) -> Option<
    UpdateView,
>
    decreases updates.len(),
{
    if updates.len() == 0 {
        None
    } else if updates[0].address == address && updates[0].key == key {
        Some(updates[0])
    } else {
        first_update(updates.drop_first(), address, key)
    }
}

/// A row after the updates have closed it: a current row named by an update
/// is superseded by what that update says; any other row is unchanged.
pub open spec fn close_row(row: EntryRow, updates: Seq<UpdateView>) -> EntryRow {
    match first_update(updates, row.address, row.key) {
        Some(update) if row.superseded_by == MAX_UID => EntryRow {
            superseded_by: update.superseded_by,
            ..row
        },
        _ => row,
    }
}

/// A row after the rows superseded by one of `uids` have been reopened.
pub open spec fn reopen_row(row: EntryRow, uids: Set<int>) -> EntryRow {
    if uids.contains(row.superseded_by) {
        EntryRow { superseded_by: MAX_UID as int, ..row }
    } else {
        row
    }
}

/// A row after the rows of blocks above `uid` have been handed to block `uid`.
pub open spec fn repoint_row(row: EntryRow, uid: int) -> EntryRow {
    if row.block_uid > uid {
        EntryRow { block_uid: uid, ..row }
    } else {
        row
    }
}

/// A record after the record `uid` has been renamed to `id`.
pub open spec fn rename_row(block: BlockRow, uid: int, id: Seq<char>) -> BlockRow {
    if block.uid == uid {
        BlockRow { id: id, ..block }
    } else {
        block
    }
}

/// The key blocks.
pub open spec fn key_blocks() -> spec_fn(BlockRow) -> bool {
    |b: BlockRow| b.time_stamp is Some
}

/// The records up to `uid`.
pub open spec fn blocks_up_to(uid: int) -> spec_fn(BlockRow) -> bool {
    |b: BlockRow| b.uid <= uid
}

/// The data entries of the records up to `uid`.
pub open spec fn entries_up_to(uid: int) -> spec_fn(EntryRow) -> bool {
    |r: EntryRow| r.block_uid <= uid
}

/// The data entries of the records above `uid`.
pub open spec fn entries_above(uid: int) -> spec_fn(EntryRow) -> bool {
    |r: EntryRow| r.block_uid > uid
}

/// What a rollback reports of a deleted row.
pub open spec fn deleted_of(row: EntryRow) -> DeletedView {
    DeletedView { uid: row.uid, address: row.address, key: row.key }
}

impl Store {
    /// The store before anything was written: sequences start at one.
    pub open spec fn empty() -> Store {
        Store { blocks: Seq::empty(), entries: Seq::empty(), block_seq: 1, next_uid: 1 }
    }

    /// The record from which ingestion resumes: the one of lowest uid at the
    /// greatest height less `depth`.
    pub open spec fn handled_height(self, depth: int) -> Option<BlockRow> {
        first_at_height(self.blocks, max_height(self.blocks) - depth)
    }

    /// The key block of highest uid.
    pub open spec fn last_key_block(self) -> Option<BlockRow> {
        last_of_kind(self.blocks, true)
    }

    /// The microblock of highest uid.
    pub open spec fn last_microblock(self) -> Option<BlockRow> {
        last_of_kind(self.blocks, false)
    }

    /// The record of lowest uid whose id is `id`.
    pub open spec fn block_with_id(self, id: Seq<char>) -> Option<BlockRow> {
        first_with_id(self.blocks, id)
    }

    /// The rows that `blocks` become: uids are taken from the sequence, in
    /// the order of `blocks`.
    pub open spec fn new_blocks(self, blocks: Seq<BlockView>) -> Seq<BlockRow> {
        Seq::new(
            blocks.len(),
            |i: int|
                BlockRow {
                    uid: self.block_seq + i,
                    id: blocks[i].id,
                    height: blocks[i].height,
                    time_stamp: blocks[i].time_stamp,
                },
        )
    }

    /// The store after `blocks` have been inserted.
    pub open spec fn insert_blocks(self, blocks: Seq<BlockView>) -> Store {
        Store {
            blocks: self.blocks + self.new_blocks(blocks),
            block_seq: self.block_seq + blocks.len(),
            ..self
        }
    }

    /// The store after `rows` have been inserted.
    pub open spec fn insert_entries(self, rows: Seq<EntryRow>) -> Store {
        Store { entries: self.entries + rows, ..self }
    }

    /// The store after the current rows named by `updates` have been closed.
    pub open spec fn close_superseded(self, updates: Seq<UpdateView>) -> Store {
        Store { entries: self.entries.map_values(|r: EntryRow| close_row(r, updates)), ..self }
    }

    /// The store after every row superseded by one of `uids` has been
    /// reopened.
    pub open spec fn reopen_superseded(self, uids: Set<int>) -> Store {
        Store { entries: self.entries.map_values(|r: EntryRow| reopen_row(r, uids)), ..self }
    }

    /// The store after the sequence of data entries has been set to `uid`.
    pub open spec fn set_next_uid(self, uid: int) -> Store {
        Store { next_uid: uid, ..self }
    }

    /// The store after the record `uid` has been renamed to `id`.
    pub open spec fn change_block_id(self, uid: int, id: Seq<char>) -> Store {
        Store { blocks: self.blocks.map_values(|b: BlockRow| rename_row(b, uid, id)), ..self }
    }

    /// The store after the data entries of records above `uid` have been
    /// handed to record `uid`.
    pub open spec fn repoint_entries(self, uid: int) -> Store {
        Store { entries: self.entries.map_values(|r: EntryRow| repoint_row(r, uid)), ..self }
    }

    /// The store without its microblocks.
    pub open spec fn delete_microblocks(self) -> Store {
        Store { blocks: self.blocks.filter(key_blocks()), ..self }
    }

    /// The store without the records above `uid`.
    pub open spec fn rollback_blocks(self, uid: int) -> Store {
        Store { blocks: self.blocks.filter(blocks_up_to(uid)), ..self }
    }

    /// The store without the data entries of records above `uid`.
    pub open spec fn rollback_entries(self, uid: int) -> Store {
        Store { entries: self.entries.filter(entries_up_to(uid)), ..self }
    }

    /// The data entries of records above `uid`, as a rollback reports them.
    pub open spec fn deleted_entries(self, uid: int) -> Seq<DeletedView> {
        self.entries.filter(entries_above(uid)).map_values(|r: EntryRow| deleted_of(r))
    }
}

} // verus!
