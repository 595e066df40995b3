//! The repository: where operations on the store run, inside a transaction
//! or outside one.
use crate::data_entries::{row_views, DataEntriesRepoOperations, InsertableDataEntry};
use crate::data_entries::memory::{clone_row, stored_views, MemoryStore, StoredBlock};
use crate::data_entries::store::Store;
use crate::error::AppError;
use vstd::prelude::*;

verus! {

/// A repository of data entries.
///
/// A repository may fail for reasons of its own: no connection is to be
/// had, or the transaction cannot be begun or committed. One that does not
/// is dependable: it always runs what it is given, and returns its result.
pub trait DataEntriesRepo {
    /// The operations that the repository runs.
    type Operations: DataEntriesRepoOperations;

    /// Whether this kind of repository always runs what it is given, and
    /// returns its result. An implementation says so; where it does not, the
    /// repository may fail at any time.
    open spec fn dependable() -> bool {
        false
    }

    /// What the repository holds: the outcome of the transactions that were
    /// committed. An implementation says what it is; where it does not, it
    /// is unknown.
    open spec fn committed(&self) -> Store {
        arbitrary()
    }

    /// Runs `f` on what the repository holds, outside a transaction.
    fn execute<F, R>(&self, f: F) -> (r: Result<R, AppError>) where
        F: FnOnce(Self::Operations) -> Result<R, AppError>,

        requires
            forall|ops: Self::Operations|
                ops.store() == self.committed() ==> #[trigger] call_requires(f, (ops,)),
        ensures
            r is Ok || Self::dependable() ==> exists|ops: Self::Operations|
                ops.store() == self.committed() && #[trigger] call_ensures(f, (ops,), r),
    ;

    /// Runs `f` within a transaction: what `f` has done is committed where
    /// `f` succeeds and abandoned where it fails.
    fn transaction<F, R>(&mut self, f: F) -> (r: Result<R, AppError>) where
        F: FnOnce(&mut Self::Operations) -> Result<R, AppError>,

        requires
            forall|ops: &mut Self::Operations|
                ops.store() == old(self).committed() ==> #[trigger] call_requires(f, (ops,)),
        ensures
            r is Err ==> final(self).committed() == old(self).committed(),
            r is Ok || Self::dependable() ==> exists|ops: &mut Self::Operations|
                ops.store() == old(self).committed() && #[trigger] call_ensures(f, (ops,), r) && (r
                    is Ok ==> final(ops).store() == final(self).committed()),
    ;
}

/// A copy of the records.
pub fn clone_blocks(blocks: &Vec<StoredBlock>) -> (copy: Vec<StoredBlock>)
    ensures
        stored_views(copy@) == stored_views(blocks@),
{
    let mut copy: Vec<StoredBlock> = Vec::new();
    let mut i: usize = 0;
    while i < blocks.len()
        invariant
            i <= blocks.len(),
            copy.len() == i,
            forall|k: int| 0 <= k < i ==> (#[trigger] copy[k])@ == blocks[k]@,
        decreases blocks.len() - i,
    {
        copy.push(
            StoredBlock {
                uid: blocks[i].uid,
                id: blocks[i].id.clone(),
                height: blocks[i].height,
                time_stamp: blocks[i].time_stamp,
            },
        );
        i = i + 1;
    }
    assert(stored_views(copy@) =~= stored_views(blocks@));
    copy
}

/// A copy of the rows.
pub fn clone_rows(rows: &Vec<InsertableDataEntry>) -> (copy: Vec<InsertableDataEntry>)
    ensures
        row_views(copy@) == row_views(rows@),
{
    let mut copy: Vec<InsertableDataEntry> = Vec::new();
    let mut i: usize = 0;
    while i < rows.len()
        invariant
            i <= rows.len(),
            copy.len() == i,
            forall|k: int| 0 <= k < i ==> (#[trigger] copy[k])@ == rows[k]@,
        decreases rows.len() - i,
    {
        copy.push(clone_row(&rows[i]));
        i = i + 1;
    }
    assert(row_views(copy@) =~= row_views(rows@));
    copy
}

/// A copy of a store.
pub fn clone_store(store: &MemoryStore) -> (copy: MemoryStore)
    ensures
        copy@ == store@,
{
    MemoryStore {
        blocks: clone_blocks(&store.blocks),
        entries: clone_rows(&store.entries),
        block_seq: store.block_seq,
        next_uid: store.next_uid,
    }
}

/// A repository kept in memory.
#[derive(Debug)]
pub struct MemoryRepo {
    pub store: MemoryStore,
}

impl MemoryRepo {
    /// A repository that nothing was written to.
    pub fn new() -> (repo: MemoryRepo)
        ensures
            repo.store@ == Store::empty(),
    {
        MemoryRepo { store: MemoryStore::new() }
    }
}

impl DataEntriesRepo for MemoryRepo {
    type Operations = MemoryStore;

    open spec fn dependable() -> bool {
        true
    }

    open spec fn committed(&self) -> Store {
        self.store@
    }

    fn execute<F, R>(&self, f: F) -> (r: Result<R, AppError>) where
        F: FnOnce(MemoryStore) -> Result<R, AppError>,
     {
        let ops = clone_store(&self.store);
        f(ops)
    }

    fn transaction<F, R>(&mut self, f: F) -> (r: Result<R, AppError>) where
        F: FnOnce(&mut MemoryStore) -> Result<R, AppError>,
     {
        let mut ops = clone_store(&self.store);
        let r = f(&mut ops);
        if r.is_ok() {
            self.store = ops;
        }
        r
    }
}

/// The greatest number of rows that one statement inserts.
pub const INSERT_CHUNK_SIZE: usize = 2000;

/// The end of the chunk that begins at `from`.
pub open spec fn chunk_end(from: int, len: int, chunk_size: int) -> int {
    if len - from > chunk_size {
        from + chunk_size
    } else {
        len
    }
}

/// The bounds of the chunks in which `len` rows are inserted: consecutive
/// ranges that cover the rows, each of at most `chunk_size` rows and none
/// empty.
pub fn chunk_bounds(len: usize, chunk_size: usize) -> (bounds: Vec<(usize, usize)>)
    requires
        chunk_size > 0,
    ensures
        len == 0 <==> bounds.len() == 0,
        bounds.len() > 0 ==> bounds[0].0 == 0 && bounds[bounds.len() - 1].1 == len,
        forall|i: int|
            0 <= i < bounds.len() ==> (#[trigger] bounds[i]).0 < bounds[i].1 && bounds[i].1
                == chunk_end(bounds[i].0 as int, len as int, chunk_size as int),
        forall|i: int| 0 < i < bounds.len() ==> (#[trigger] bounds[i]).0 == bounds[i - 1].1,
{
    let mut bounds: Vec<(usize, usize)> = Vec::new();
    let mut from: usize = 0;
    while from < len
        invariant
            chunk_size > 0,
            from <= len,
            from == 0 <==> bounds.len() == 0,
            bounds.len() > 0 ==> bounds[0].0 == 0 && bounds[bounds.len() - 1].1 == from,
            forall|i: int|
                0 <= i < bounds.len() ==> (#[trigger] bounds[i]).0 < bounds[i].1 && bounds[i].1
                    == chunk_end(bounds[i].0 as int, len as int, chunk_size as int),
            forall|i: int| 0 < i < bounds.len() ==> (#[trigger] bounds[i]).0 == bounds[i - 1].1,
        decreases len - from,
    {
        let to: usize = if len - from > chunk_size {
            from + chunk_size
        } else {
            len
        };
        bounds.push((from, to));
        from = to;
    }
    bounds
}

} // verus!
