//! The rules by which blockchain updates change the store.
use crate::data_entries::{
    block_views, bytes, closing_views, deleted_views, entry_views, row_views, uid_set, update_views,
    AppendView, BlockMicroblock, BlockMicroblockAppend, BlockView, BlockchainUpdate,
    DataEntriesRepoOperations, DataEntry, DataEntryUpdate, DataEntryView, DeletedDataEntry,
    DeletedView, EntryRow, InsertableDataEntry, UpdateEvent, UpdateView, MAX_UID,
};
use crate::data_entries::fragments::{
    extract_integer_fragment, extract_string_fragment, fragments_of, integer_fragment, pairs,
    split_to_fragments, string_fragment, text,
};
use crate::data_entries::laws::integrity::{
    lemma_appended_well_formed, lemma_rolled_back_well_formed, lemma_squashed_well_formed,
    well_formed,
};
use crate::data_entries::laws::microblocks::{
    lemma_applied_keeps_microblocks_last, lemma_coalesced_well_timed, microblocks_last,
    squashable, timed_update, well_timed,
};
use crate::data_entries::laws::sequences::lemma_sorted_is_same;
use crate::data_entries::repo::DataEntriesRepo;
use crate::data_entries::store::Store;
use crate::error::AppError;
use itertools::Itertools;
use vstd::prelude::*;

verus! {

/// A data entry with the uid of the block that carries it.
#[derive(Debug)]
pub struct BlockUidWithDataEntry {
    pub block_uid: i64,
    pub data_entry: DataEntry,
}

/// The views of a sequence of data entries with their blocks.
pub open spec fn pair_views(v: Seq<BlockUidWithDataEntry>) -> Seq<(int, DataEntryView)> {
    v.map_values(|p: BlockUidWithDataEntry| (p.block_uid as int, p.data_entry@))
}

/// The `(address, key)` pairs that a sequence of data entries writes.
pub open spec fn entities(pairs: Seq<(int, DataEntryView)>) -> Seq<(Seq<char>, Seq<char>)> {
    pairs.map_values(|p: (int, DataEntryView)| (p.1.address, p.1.key))
}

/// The `(address, key)` pair that a row is the value of.
pub open spec fn entity(row: EntryRow) -> (Seq<char>, Seq<char>) {
    (row.address, row.key)
}

/// The first position at or after `from` at which `keys` holds `entity`;
/// the length of `keys` where there is none.
pub open spec fn next_index(
    keys: Seq<(Seq<char>, Seq<char>)>,
    entity: (Seq<char>, Seq<char>),
    from: int,
) -> int
    decreases keys.len() - from,
{
    if from >= keys.len() {
        keys.len() as int
    } else if from >= 0 && keys[from] == entity {
        from
    } else {
        next_index(keys, entity, from + 1)
    }
}

/// The fragments of an optional structured value.
pub open spec fn value_fragments_of(value: Option<Seq<char>>) -> Seq<(Seq<char>, Seq<char>)> {
    match value {
        Some(v) => fragments_of(v),
        None => Seq::empty(),
    }
}

/// The row that a data entry becomes: its own columns, the fragments of its
/// key and of its string value, and the uids it is given.
pub open spec fn row_of(block_uid: int, entry: DataEntryView, uid: int, superseded_by: int) -> EntryRow {
    let key_fragments = fragments_of(entry.key);
    let value_fragments = value_fragments_of(entry.value_string);
    EntryRow {
        block_uid: block_uid,
        transaction_id: entry.transaction_id,
        uid: uid,
        superseded_by: superseded_by,
        address: entry.address,
        key: entry.key,
        value_binary: entry.value_binary,
        value_bool: entry.value_bool,
        value_integer: entry.value_integer,
        value_string: entry.value_string,
        fragment_0_integer: integer_fragment(key_fragments, 0),
        fragment_0_string: string_fragment(key_fragments, 0),
        fragment_1_integer: integer_fragment(key_fragments, 1),
        fragment_1_string: string_fragment(key_fragments, 1),
        fragment_2_integer: integer_fragment(key_fragments, 2),
        fragment_2_string: string_fragment(key_fragments, 2),
        fragment_3_integer: integer_fragment(key_fragments, 3),
        fragment_3_string: string_fragment(key_fragments, 3),
        fragment_4_integer: integer_fragment(key_fragments, 4),
        fragment_4_string: string_fragment(key_fragments, 4),
        fragment_5_integer: integer_fragment(key_fragments, 5),
        fragment_5_string: string_fragment(key_fragments, 5),
        fragment_6_integer: integer_fragment(key_fragments, 6),
        fragment_6_string: string_fragment(key_fragments, 6),
        fragment_7_integer: integer_fragment(key_fragments, 7),
        fragment_7_string: string_fragment(key_fragments, 7),
        fragment_8_integer: integer_fragment(key_fragments, 8),
        fragment_8_string: string_fragment(key_fragments, 8),
        fragment_9_integer: integer_fragment(key_fragments, 9),
        fragment_9_string: string_fragment(key_fragments, 9),
        fragment_10_integer: integer_fragment(key_fragments, 10),
        fragment_10_string: string_fragment(key_fragments, 10),
        value_fragment_0_integer: integer_fragment(value_fragments, 0),
        value_fragment_0_string: string_fragment(value_fragments, 0),
        value_fragment_1_integer: integer_fragment(value_fragments, 1),
        value_fragment_1_string: string_fragment(value_fragments, 1),
        value_fragment_2_integer: integer_fragment(value_fragments, 2),
        value_fragment_2_string: string_fragment(value_fragments, 2),
        value_fragment_3_integer: integer_fragment(value_fragments, 3),
        value_fragment_3_string: string_fragment(value_fragments, 3),
        value_fragment_4_integer: integer_fragment(value_fragments, 4),
        value_fragment_4_string: string_fragment(value_fragments, 4),
        value_fragment_5_integer: integer_fragment(value_fragments, 5),
        value_fragment_5_string: string_fragment(value_fragments, 5),
        value_fragment_6_integer: integer_fragment(value_fragments, 6),
        value_fragment_6_string: string_fragment(value_fragments, 6),
        value_fragment_7_integer: integer_fragment(value_fragments, 7),
        value_fragment_7_string: string_fragment(value_fragments, 7),
        value_fragment_8_integer: integer_fragment(value_fragments, 8),
        value_fragment_8_string: string_fragment(value_fragments, 8),
        value_fragment_9_integer: integer_fragment(value_fragments, 9),
        value_fragment_9_string: string_fragment(value_fragments, 9),
        value_fragment_10_integer: integer_fragment(value_fragments, 10),
        value_fragment_10_string: string_fragment(value_fragments, 10),
    }
}

/// What supersedes the entry at position `i` of a batch whose uids begin at
/// `start`: the next entry of the batch for the same `(address, key)`, or
/// nothing yet.
pub open spec fn successor(pairs: Seq<(int, DataEntryView)>, i: int, start: int) -> int {
    let next = next_index(entities(pairs), entities(pairs)[i], i + 1);
    if next < pairs.len() {
        start + next
    } else {
        MAX_UID as int
    }
}

/// The rows that a batch of data entries becomes: uids are given in the order
/// of the batch, from `start` on.
pub open spec fn new_rows(pairs: Seq<(int, DataEntryView)>, start: int) -> Seq<EntryRow> {
    Seq::new(
        pairs.len(),
        |i: int| row_of(pairs[i].0, pairs[i].1, start + i, successor(pairs, i, start)),
    )
}

/// Whether a row before position `i` is a value of the same `(address, key)`
/// as the row at `i`.
pub open spec fn seen_before(rows: Seq<EntryRow>, i: int) -> bool {
    exists|j: int| 0 <= j < i && entity(#[trigger] rows[j]) == entity(rows[i])
}

/// The order that closes the row which `row` supersedes.
pub open spec fn closing_of(row: EntryRow) -> UpdateView {
    UpdateView { superseded_by: row.uid, address: row.address, key: row.key }
}

/// For each `(address, key)` of a batch, in the order of first occurrence,
/// the order to close its current row with the first uid that the batch gives
/// it.
pub open spec fn first_uids(rows: Seq<EntryRow>) -> Seq<UpdateView>
    decreases rows.len(),
{
    if rows.len() == 0 {
        Seq::empty()
    } else if seen_before(rows, rows.len() - 1) {
        first_uids(rows.drop_last())
    } else {
        first_uids(rows.drop_last()).push(closing_of(rows.last()))
    }
}

/// The store after a batch of data entries has been appended: the rows that
/// the batch supersedes are closed, the new rows inserted and the sequence
/// moved past them.
pub open spec fn append_entries(store: Store, pairs: Seq<(int, DataEntryView)>) -> Store {
    let rows = new_rows(pairs, store.next_uid);
    store.close_superseded(first_uids(rows)).insert_entries(rows).set_next_uid(
        store.next_uid + pairs.len(),
    )
}

/// A copy of an optional string.
pub fn clone_text(o: &Option<String>) -> (r: Option<String>)
    ensures
        text(r) == text(*o),
{
    match o {
        Some(s) => Some(s.clone()),
        None => None,
    }
}

/// A copy of an optional byte string.
pub fn clone_bytes(o: &Option<Vec<u8>>) -> (r: Option<Vec<u8>>)
    ensures
        bytes(r) == bytes(*o),
{
    match o {
        Some(b) => {
            let c = b.clone();
            assert(c@ =~= b@);
            Some(c)
        },
        None => None,
    }
}

/// Builds the row of a data entry.
pub fn build_row(block_uid: i64, entry: &DataEntry, uid: i64, superseded_by: i64) -> (row:
    InsertableDataEntry)
    ensures
        row@ == row_of(block_uid as int, entry@, uid as int, superseded_by as int),
{
    let key_fragments = split_to_fragments(&entry.key);
    let value_fragments = match &entry.value_string {
        Some(value) => split_to_fragments(value),
        None => Vec::new(),
    };
    assert(pairs(value_fragments@) =~= value_fragments_of(entry@.value_string));
    InsertableDataEntry {
        block_uid: block_uid,
        transaction_id: entry.transaction_id.clone(),
        uid: uid,
        superseded_by: superseded_by,
        address: entry.address.clone(),
        key: entry.key.clone(),
        value_binary: clone_bytes(&entry.value_binary),
        value_bool: entry.value_bool,
        value_integer: entry.value_integer,
        value_string: clone_text(&entry.value_string),
        fragment_0_integer: extract_integer_fragment(&key_fragments, 0),
        fragment_0_string: extract_string_fragment(&key_fragments, 0),
        fragment_1_integer: extract_integer_fragment(&key_fragments, 1),
        fragment_1_string: extract_string_fragment(&key_fragments, 1),
        fragment_2_integer: extract_integer_fragment(&key_fragments, 2),
        fragment_2_string: extract_string_fragment(&key_fragments, 2),
        fragment_3_integer: extract_integer_fragment(&key_fragments, 3),
        fragment_3_string: extract_string_fragment(&key_fragments, 3),
        fragment_4_integer: extract_integer_fragment(&key_fragments, 4),
        fragment_4_string: extract_string_fragment(&key_fragments, 4),
        fragment_5_integer: extract_integer_fragment(&key_fragments, 5),
        fragment_5_string: extract_string_fragment(&key_fragments, 5),
        fragment_6_integer: extract_integer_fragment(&key_fragments, 6),
        fragment_6_string: extract_string_fragment(&key_fragments, 6),
        fragment_7_integer: extract_integer_fragment(&key_fragments, 7),
        fragment_7_string: extract_string_fragment(&key_fragments, 7),
        fragment_8_integer: extract_integer_fragment(&key_fragments, 8),
        fragment_8_string: extract_string_fragment(&key_fragments, 8),
        fragment_9_integer: extract_integer_fragment(&key_fragments, 9),
        fragment_9_string: extract_string_fragment(&key_fragments, 9),
        fragment_10_integer: extract_integer_fragment(&key_fragments, 10),
        fragment_10_string: extract_string_fragment(&key_fragments, 10),
        value_fragment_0_integer: extract_integer_fragment(&value_fragments, 0),
        value_fragment_0_string: extract_string_fragment(&value_fragments, 0),
        value_fragment_1_integer: extract_integer_fragment(&value_fragments, 1),
        value_fragment_1_string: extract_string_fragment(&value_fragments, 1),
        value_fragment_2_integer: extract_integer_fragment(&value_fragments, 2),
        value_fragment_2_string: extract_string_fragment(&value_fragments, 2),
        value_fragment_3_integer: extract_integer_fragment(&value_fragments, 3),
        value_fragment_3_string: extract_string_fragment(&value_fragments, 3),
        value_fragment_4_integer: extract_integer_fragment(&value_fragments, 4),
        value_fragment_4_string: extract_string_fragment(&value_fragments, 4),
        value_fragment_5_integer: extract_integer_fragment(&value_fragments, 5),
        value_fragment_5_string: extract_string_fragment(&value_fragments, 5),
        value_fragment_6_integer: extract_integer_fragment(&value_fragments, 6),
        value_fragment_6_string: extract_string_fragment(&value_fragments, 6),
        value_fragment_7_integer: extract_integer_fragment(&value_fragments, 7),
        value_fragment_7_string: extract_string_fragment(&value_fragments, 7),
        value_fragment_8_integer: extract_integer_fragment(&value_fragments, 8),
        value_fragment_8_string: extract_string_fragment(&value_fragments, 8),
        value_fragment_9_integer: extract_integer_fragment(&value_fragments, 9),
        value_fragment_9_string: extract_string_fragment(&value_fragments, 9),
        value_fragment_10_integer: extract_integer_fragment(&value_fragments, 10),
        value_fragment_10_string: extract_string_fragment(&value_fragments, 10),
    }
}

/// The first position at or after `from` whose entry writes `(address, key)`.
pub fn next_with_entity(
    updates: &Vec<BlockUidWithDataEntry>,
    from: usize,
    address: &String,
    key: &String,
) -> (next: usize)
    ensures
        next == next_index(entities(pair_views(updates@)), (address@, key@), from as int),
        from <= next || next == updates.len(),
        next <= updates.len(),
{
    let ghost keys = entities(pair_views(updates@));
    let mut j: usize = from;
    while j < updates.len()
        invariant
            from <= j,
            keys == entities(pair_views(updates@)),
            next_index(keys, (address@, key@), from as int) == next_index(
                keys,
                (address@, key@),
                j as int,
            ),
        decreases updates.len() - j,
    {
        assert(keys[j as int] == (
            updates@[j as int].data_entry.address@,
            updates@[j as int].data_entry.key@,
        ));
        if updates[j].data_entry.address == *address && updates[j].data_entry.key == *key {
            return j;
        }
        j = j + 1;
    }
    updates.len()
}

/// Whether a row before position `i` has the `(address, key)` of row `i`.
pub fn is_seen_before(rows: &Vec<InsertableDataEntry>, i: usize) -> (seen: bool)
    requires
        i < rows.len(),
    ensures
        seen == seen_before(row_views(rows@), i as int),
{
    let ghost views = row_views(rows@);
    let mut j: usize = 0;
    while j < i
        invariant
            j <= i < rows.len(),
            views == row_views(rows@),
            forall|k: int| 0 <= k < j ==> entity(#[trigger] views[k]) != entity(views[i as int]),
        decreases i - j,
    {
        if rows[j].address == rows[i].address && rows[j].key == rows[i].key {
            assert(entity(views[j as int]) == entity(views[i as int]));
            return true;
        }
        j = j + 1;
    }
    false
}

/// The orders that close the rows which a batch supersedes: one for each
/// `(address, key)` of the batch, with the first uid that the batch gives it.
pub fn first_uids_of(rows: &Vec<InsertableDataEntry>) -> (updates: Vec<DataEntryUpdate>)
    ensures
        closing_views(updates@) == first_uids(row_views(rows@)),
        forall|i: int, j: int|
            0 <= i < j < updates.len() ==> !(updates[i].address@ == updates[j].address@
                && updates[i].key@ == updates[j].key@),
{
    let ghost views = row_views(rows@);
    let mut updates: Vec<DataEntryUpdate> = Vec::new();
    let ghost mut origin: Seq<int> = Seq::empty();
    let mut i: usize = 0;
    while i < rows.len()
        invariant
            i <= rows.len(),
            views == row_views(rows@),
            closing_views(updates@) == first_uids(views.take(i as int)),
            origin.len() == updates.len(),
            forall|k: int|
                0 <= k < updates.len() ==> 0 <= #[trigger] origin[k] < i && (
                updates[k].address@,
                updates[k].key@,
            ) == entity(views[origin[k]]),
            forall|a: int, b: int|
                0 <= a < b < updates.len() ==> !(updates[a].address@ == updates[b].address@
                    && updates[a].key@ == updates[b].key@),
        decreases rows.len() - i,
    {
        let seen = is_seen_before(rows, i);
        proof {
            let upto = views.take(i + 1);
            assert(upto.drop_last() =~= views.take(i as int));
            assert(upto.last() == views[i as int]);
            assert(seen_before(upto, i as int) == seen_before(views, i as int)) by {
                if seen_before(views, i as int) {
                    let j = choose|j: int| 0 <= j < i && entity(#[trigger] views[j]) == entity(views[i as int]);
                    assert(entity(upto[j]) == entity(upto[i as int]));
                }
                if seen_before(upto, i as int) {
                    let j = choose|j: int| 0 <= j < i && entity(#[trigger] upto[j]) == entity(upto[i as int]);
                    assert(entity(views[j]) == entity(views[i as int]));
                }
            }
        }
        if !seen {
            let update = DataEntryUpdate {
                superseded_by: rows[i].uid,
                address: rows[i].address.clone(),
                key: rows[i].key.clone(),
            };
            assert(update@ == closing_of(views[i as int]));
            assert(closing_views(updates@.push(update)) =~= closing_views(updates@).push(update@));
            assert forall|a: int| 0 <= a < updates.len() implies !(updates[a].address@
                == update.address@ && updates[a].key@ == update.key@) by {
                assert(entity(views[origin[a]]) != entity(views[i as int]));
            }
            updates.push(update);
            proof {
                origin = origin.push(i as int);
            }
        }
        i = i + 1;
    }
    assert(views.take(rows.len() as int) =~= views);
    updates
}

/// The rows with the uid `uid`.
pub open spec fn with_uid(uid: i64) -> spec_fn(InsertableDataEntry) -> bool {
    |row: InsertableDataEntry| row.uid == uid
}

/// The uid of a row.
pub open spec fn uid_of() -> spec_fn(InsertableDataEntry) -> int {
    |row: InsertableDataEntry| row.uid as int
}

/// `Itertools::sorted_by_key` on the rows, with the uid as the key: a stable
/// sort. What comes back holds what went in, in growing order of the uids,
/// and rows of one uid keep their order.
#[verifier::external_body]
fn sorted_by_uid(rows: Vec<InsertableDataEntry>) -> (sorted: Vec<InsertableDataEntry>)
    ensures
        sorted@.to_multiset() == rows@.to_multiset(),
        forall|i: int, j: int|
            0 <= i < j < sorted.len() ==> (#[trigger] sorted[i]).uid <= (#[trigger] sorted[j]).uid,
        forall|uid: i64| #[trigger] sorted@.filter(with_uid(uid)) == rows@.filter(with_uid(uid)),
{
    rows.into_iter().sorted_by_key(|row| row.uid).collect()
}

/// Puts rows into the order of their uids. Rows whose uids grow strictly
/// are in that order already.
pub fn in_uid_order(rows: Vec<InsertableDataEntry>) -> (sorted: Vec<InsertableDataEntry>)
    ensures
        sorted@.to_multiset() == rows@.to_multiset(),
        forall|i: int, j: int|
            0 <= i < j < sorted.len() ==> (#[trigger] sorted[i]).uid <= (#[trigger] sorted[j]).uid,
        forall|uid: i64| #[trigger] sorted@.filter(with_uid(uid)) == rows@.filter(with_uid(uid)),
        (forall|i: int, j: int|
            0 <= i < j < rows.len() ==> (#[trigger] rows[i]).uid < (#[trigger] rows[j]).uid)
            ==> sorted@ == rows@,
{
    let ghost given = rows@;
    let sorted = sorted_by_uid(rows);
    proof {
        if forall|i: int, j: int|
            0 <= i < j < given.len() ==> (#[trigger] given[i]).uid < (#[trigger] given[j]).uid {
            assert forall|i: int, j: int| 0 <= i < j < given.len() implies uid_of()(
                #[trigger] given[i],
            ) < uid_of()(#[trigger] given[j]) by {
                assert(given[i].uid < given[j].uid);
            }
            assert forall|i: int, j: int| 0 <= i < j < sorted@.len() implies uid_of()(
                #[trigger] sorted@[i],
            ) <= uid_of()(#[trigger] sorted@[j]) by {
                assert(sorted@[i].uid <= sorted@[j].uid);
            }
            lemma_sorted_is_same(given, sorted@, uid_of());
        }
    }
    sorted
}

/// Appends a batch of data entries: gives them uids from the sequence, links
/// the entries of one `(address, key)` into a chain, closes the rows that the
/// batch supersedes, inserts the new rows and moves the sequence past them.
///
/// Fails, before it changes anything, where the sequence cannot give every
/// entry a uid below `MAX_UID`.
pub fn append_data_entries<U: DataEntriesRepoOperations>(
    dbw: &mut U,
    updates: Vec<BlockUidWithDataEntry>,
) -> (r: Result<(), AppError>)
    ensures
        r is Ok ==> final(dbw).store() == append_entries(
            old(dbw).store(),
            pair_views(updates@),
        ),
        old(dbw).store().next_uid + updates.len() > MAX_UID ==> r is Err && final(dbw).store()
            == old(dbw).store(),
        U::dependable() ==> (r is Ok <==> old(dbw).store().next_uid + updates.len() <= MAX_UID),
{
    let next_uid = match dbw.get_next_update_uid() {
        Ok(uid) => uid,
        Err(e) => {
            return Err(e);
        },
    };
    let count: u64 = updates.len() as u64;
    if (next_uid as i128) + (count as i128) > (MAX_UID as i128) {
        return Err(
            AppError::SequenceExhausted(String::from_str("data_entries_uid_seq has no uid left")),
        );
    }
    let ghost batch = pair_views(updates@);
    let mut rows: Vec<InsertableDataEntry> = Vec::new();
    let mut i: usize = 0;
    while i < updates.len()
        invariant
            i <= updates.len(),
            batch == pair_views(updates@),
            next_uid + updates.len() <= MAX_UID,
            rows.len() == i,
            batch.len() == updates.len(),
            row_views(rows@) == new_rows(batch, next_uid as int).take(i as int),
        decreases updates.len() - i,
    {
        let entry = &updates[i].data_entry;
        let next = next_with_entity(&updates, i + 1, &entry.address, &entry.key);
        let superseded_by: i64 = if next < updates.len() {
            ((next_uid as i128) + (next as i128)) as i64
        } else {
            MAX_UID
        };
        let uid: i64 = ((next_uid as i128) + (i as i128)) as i64;
        let row = build_row(updates[i].block_uid, entry, uid, superseded_by);
        assert(row@ == new_rows(batch, next_uid as int)[i as int]);
        assert(row_views(rows@.push(row)) =~= new_rows(batch, next_uid as int).take(i + 1)) by {
            let before = row_views(rows@);
            let after = row_views(rows@.push(row));
            let model = new_rows(batch, next_uid as int);
            assert(before == model.take(i as int));
            assert forall|k: int| 0 <= k < i + 1 implies after[k] == model.take(i + 1)[k] by {
                if k < i {
                    assert(after[k] == before[k]);
                    assert(model.take(i as int)[k] == model[k]);
                }
            }
        }
        rows.push(row);
        i = i + 1;
    }
    assert(new_rows(batch, next_uid as int).take(updates.len() as int) =~= new_rows(
        batch,
        next_uid as int,
    ));
    proof {
        let model = new_rows(batch, next_uid as int);
        assert forall|i: int, j: int| 0 <= i < j < rows.len() implies (#[trigger] rows[i]).uid < (
        #[trigger] rows[j]).uid by {
            assert(row_views(rows@)[i] == model[i]);
            assert(row_views(rows@)[j] == model[j]);
        }
    }
    let rows = in_uid_order(rows);
    let first_uids = first_uids_of(&rows);
    match dbw.close_superseded_by(&first_uids) {
        Ok(()) => {},
        Err(e) => {
            return Err(e);
        },
    }
    match dbw.insert_data_entries(&rows) {
        Ok(()) => {},
        Err(e) => {
            return Err(e);
        },
    }
    dbw.set_next_update_uid(((next_uid as i128) + (count as i128)) as i64)
}

/// Whether `d` is one of `deleted` and no row of `deleted` for the same
/// `(address, key)` has a lower uid.
pub open spec fn is_lowest(deleted: Seq<DeletedView>, d: DeletedView) -> bool {
    &&& deleted.contains(d)
    &&& forall|o: DeletedView|
        #[trigger] deleted.contains(o) && o.address == d.address && o.key == d.key ==> d.uid
            <= o.uid
}

/// For each `(address, key)` among the deleted rows, the lowest uid deleted.
pub open spec fn lowest_uids(deleted: Seq<DeletedView>) -> Set<int> {
    Set::new(|uid: int| exists|d: DeletedView| #[trigger] is_lowest(deleted, d) && d.uid == uid)
}

/// The store after a rollback to the record `block_uid`: the data entries of
/// later records are deleted, the rows that they had superseded are current
/// again, and the later records are deleted.
pub open spec fn rolled_back(store: Store, block_uid: int) -> Store {
    store.rollback_entries(block_uid).reopen_superseded(
        lowest_uids(store.deleted_entries(block_uid)),
    ).rollback_blocks(block_uid)
}

/// The lowest uids depend on which rows were deleted, not on their order.
pub proof fn lemma_lowest_uids_of_same_rows(a: Seq<DeletedView>, b: Seq<DeletedView>)
    requires
        a.to_multiset() == b.to_multiset(),
    ensures
        lowest_uids(a) == lowest_uids(b),
{
    assert forall|d: DeletedView| a.contains(d) == b.contains(d) by {
        vstd::seq_lib::to_multiset_contains(a, d);
        vstd::seq_lib::to_multiset_contains(b, d);
    }
    assert forall|d: DeletedView| is_lowest(a, d) == is_lowest(b, d) by {
        if is_lowest(a, d) {
            assert forall|o: DeletedView|
                #[trigger] b.contains(o) && o.address == d.address && o.key == d.key implies d.uid
                <= o.uid by {
                assert(a.contains(o));
            }
        }
        if is_lowest(b, d) {
            assert forall|o: DeletedView|
                #[trigger] a.contains(o) && o.address == d.address && o.key == d.key implies d.uid
                <= o.uid by {
                assert(b.contains(o));
            }
        }
    }
    assert(lowest_uids(a) =~= lowest_uids(b));
}

/// Whether no deleted row for the `(address, key)` of row `i` has a lower
/// uid than row `i`.
pub fn is_lowest_at(deletes: &Vec<DeletedDataEntry>, i: usize) -> (lowest: bool)
    requires
        i < deletes.len(),
    ensures
        lowest == is_lowest(deleted_views(deletes@), deleted_views(deletes@)[i as int]),
{
    let ghost views = deleted_views(deletes@);
    let mut j: usize = 0;
    while j < deletes.len()
        invariant
            i < deletes.len(),
            j <= deletes.len(),
            views == deleted_views(deletes@),
            forall|k: int|
                0 <= k < j && (#[trigger] views[k]).address == views[i as int].address && views[k].key
                    == views[i as int].key ==> views[i as int].uid <= views[k].uid,
        decreases deletes.len() - j,
    {
        if deletes[j].address == deletes[i].address && deletes[j].key == deletes[i].key
            && deletes[j].uid < deletes[i].uid {
            assert(views.contains(views[j as int]));
            return false;
        }
        j = j + 1;
    }
    assert(views.contains(views[i as int]));
    true
}

/// For each `(address, key)` among the deleted rows, the lowest uid deleted.
pub fn lowest_deleted_uids(deletes: &Vec<DeletedDataEntry>) -> (uids: Vec<i64>)
    ensures
        uid_set(uids@) == lowest_uids(deleted_views(deletes@)),
{
    let ghost views = deleted_views(deletes@);
    let mut uids: Vec<i64> = Vec::new();
    let mut i: usize = 0;
    while i < deletes.len()
        invariant
            i <= deletes.len(),
            views == deleted_views(deletes@),
            forall|k: int| 0 <= k < uids.len() ==> lowest_uids(views).contains(#[trigger] uids[k] as int),
            forall|k: int|
                0 <= k < i && is_lowest(views, #[trigger] views[k]) ==> uid_set(uids@).contains(
                    views[k].uid,
                ),
        decreases deletes.len() - i,
    {
        if is_lowest_at(deletes, i) {
            let ghost before = uids@;
            uids.push(deletes[i].uid);
            proof {
                assert(uids@[before.len() as int] == views[i as int].uid);
                assert forall|k: int|
                    0 <= k < i + 1 && is_lowest(views, #[trigger] views[k]) implies uid_set(
                    uids@,
                ).contains(views[k].uid) by {
                    if k < i {
                        let at = choose|at: int| 0 <= at < before.len() && before[at] == views[k].uid;
                        assert(uids@[at] == views[k].uid);
                    }
                }
            }
        }
        i = i + 1;
    }
    assert(uid_set(uids@) =~= lowest_uids(views)) by {
        assert forall|uid: int| lowest_uids(views).contains(uid) implies uid_set(uids@).contains(
            uid,
        ) by {
            let d = choose|d: DeletedView| #[trigger] is_lowest(views, d) && d.uid == uid;
            let k = choose|k: int| 0 <= k < views.len() && views[k] == d;
            assert(is_lowest(views, views[k]));
        }
    }
    uids
}

/// Rolls the store back to the record `block_uid`.
pub fn rollback<U: DataEntriesRepoOperations>(dbw: &mut U, block_uid: i64) -> (r: Result<
    (),
    AppError,
>)
    ensures
        r is Ok ==> final(dbw).store() == rolled_back(old(dbw).store(), block_uid as int),
        r is Ok && well_formed(old(dbw).store()) ==> well_formed(final(dbw).store()),
        U::dependable() ==> r is Ok,
{
    proof {
        if well_formed(dbw.store()) {
            lemma_rolled_back_well_formed(dbw.store(), block_uid as int);
        }
    }
    let deletes = match dbw.rollback_data_entries(&block_uid) {
        Ok(deletes) => deletes,
        Err(e) => {
            return Err(e);
        },
    };
    let lowest = lowest_deleted_uids(&deletes);
    proof {
        lemma_lowest_uids_of_same_rows(
            deleted_views(deletes@),
            old(dbw).store().deleted_entries(block_uid as int),
        );
    }
    match dbw.reopen_superseded_by(&lowest) {
        Ok(()) => {},
        Err(e) => {
            return Err(e);
        },
    }
    dbw.rollback_blocks_microblocks(&block_uid)
}

/// The store after its microblocks have been folded into the key block
/// before them: their data entries belong to the key block, they are gone,
/// and the key block bears the id of the last of them. A store without
/// microblocks stays as it is.
pub open spec fn squashed(store: Store) -> Store {
    match (store.last_microblock(), store.last_key_block()) {
        (Some(micro), Some(key)) => store.repoint_entries(key.uid).delete_microblocks().change_block_id(
            key.uid,
            micro.id,
        ),
        _ => store,
    }
}

/// Folds the microblocks into the key block before them. Fails where there
/// are microblocks and no key block.
pub fn squash_microblocks<U: DataEntriesRepoOperations>(dbw: &mut U) -> (r: Result<(), AppError>)
    ensures
        r is Ok ==> final(dbw).store() == squashed(old(dbw).store()),
        old(dbw).store().last_microblock() is Some && old(dbw).store().last_key_block() is None
            ==> r is Err && final(dbw).store() == old(dbw).store(),
        r is Ok && well_formed(old(dbw).store()) ==> well_formed(final(dbw).store()),
        U::dependable() ==> (r is Ok <==> squashable(old(dbw).store())),
{
    proof {
        if well_formed(dbw.store()) {
            lemma_squashed_well_formed(dbw.store());
        }
    }
    let total_block_id = match dbw.get_total_block_id() {
        Ok(id) => id,
        Err(e) => {
            return Err(e);
        },
    };
    match total_block_id {
        Some(total_block_id) => {
            let key_block_uid = match dbw.get_key_block_uid() {
                Ok(uid) => uid,
                Err(e) => {
                    return Err(e);
                },
            };
            match dbw.update_data_entries_block_references(&key_block_uid) {
                Ok(()) => {},
                Err(e) => {
                    return Err(e);
                },
            }
            match dbw.delete_microblocks() {
                Ok(()) => {},
                Err(e) => {
                    return Err(e);
                },
            }
            dbw.change_block_id(&key_block_uid, total_block_id.as_str())
        },
        None => Ok(()),
    }
}

/// The height of a block as the table holds it: the same 32 bits, read as a
/// signed number.
pub open spec fn height_column(height: u32) -> i32 {
    if height <= i32::MAX {
        height as i32
    } else {
        (height - 0x1_0000_0000) as i32
    }
}

/// The height that the table holds as `column`.
pub open spec fn column_height(column: i32) -> u32 {
    if column >= 0 {
        column as u32
    } else {
        (column + 0x1_0000_0000) as u32
    }
}

/// The record that a block or microblock of the stream becomes.
pub open spec fn block_of(append: AppendView) -> BlockView {
    BlockView {
        id: append.id,
        time_stamp: append.time_stamp,
        height: height_column(append.height),
    }
}

/// The data entries of one block, each with the uid of that block.
pub open spec fn tagged(entries: Seq<DataEntryView>, block_uid: int) -> Seq<(int, DataEntryView)> {
    entries.map_values(|e: DataEntryView| (block_uid, e))
}

/// The data entries of `appends`, in order, each with the uid of its block;
/// the blocks have the uids from `first_uid` on.
pub open spec fn flatten_pairs(appends: Seq<AppendView>, first_uid: int) -> Seq<
    (int, DataEntryView),
>
    decreases appends.len(),
{
    if appends.len() == 0 {
        Seq::empty()
    } else {
        flatten_pairs(appends.drop_last(), first_uid) + tagged(
            appends.last().data_entries,
            first_uid + appends.len() - 1,
        )
    }
}

/// The views of a sequence of blocks of the stream.
pub open spec fn append_views(v: Seq<BlockMicroblockAppend>) -> Seq<AppendView> {
    v.map_values(|a: BlockMicroblockAppend| a@)
}

/// The store after blocks or microblocks have been appended: their records
/// are inserted, then their data entries appended.
pub open spec fn appended(store: Store, appends: Seq<AppendView>) -> Store {
    append_entries(
        store.insert_blocks(appends.map_values(|a: AppendView| block_of(a))),
        flatten_pairs(appends, store.block_seq),
    )
}

/// Whether the sequences have a uid for each of the blocks or microblocks
/// and for each of their data entries.
pub open spec fn appendable(store: Store, appends: Seq<AppendView>) -> bool {
    &&& store.block_seq + appends.len() <= i64::MAX
    &&& flatten_pairs(appends, store.block_seq).len() > 0 ==> store.next_uid + flatten_pairs(
        appends,
        store.block_seq,
    ).len() <= MAX_UID
}

/// Appending no data entry changes nothing.
pub proof fn lemma_append_no_entries(store: Store)
    ensures
        append_entries(store, Seq::empty()) == store,
{
    let none = Seq::<(int, DataEntryView)>::empty();
    assert(new_rows(none, store.next_uid) =~= Seq::<EntryRow>::empty());
    let after = append_entries(store, none);
    assert(after.entries =~= store.entries);
}

/// The height of a block as the table holds it.
pub fn height_to_column(height: u32) -> (column: i32)
    ensures
        column == height_column(height),
{
    if height <= 0x7fff_ffff {
        height as i32
    } else {
        ((height - 0x8000_0000) as i32) + i32::MIN
    }
}

/// The height that the table holds as `column`.
pub fn column_to_height(column: i32) -> (height: u32)
    ensures
        height == column_height(column),
{
    if column >= 0 {
        column as u32
    } else {
        ((column - i32::MIN) as u32) + 0x8000_0000
    }
}

/// A copy of a data entry.
pub fn clone_entry(entry: &DataEntry) -> (copy: DataEntry)
    ensures
        copy@ == entry@,
{
    DataEntry {
        address: entry.address.clone(),
        key: entry.key.clone(),
        transaction_id: entry.transaction_id.clone(),
        value_binary: clone_bytes(&entry.value_binary),
        value_bool: entry.value_bool,
        value_integer: entry.value_integer,
        value_string: clone_text(&entry.value_string),
    }
}

/// Appends blocks or microblocks with the data entries they carry.
pub fn append_blocks_or_microblocks<U: DataEntriesRepoOperations>(
    dbw: &mut U,
    appends: &Vec<BlockMicroblockAppend>,
) -> (r: Result<(), AppError>)
    ensures
        r is Ok ==> final(dbw).store() == appended(old(dbw).store(), append_views(appends@)),
        r is Ok && well_formed(old(dbw).store()) ==> well_formed(final(dbw).store()),
        U::dependable() ==> (r is Ok <==> appendable(old(dbw).store(), append_views(appends@))),
{
    let ghost views = append_views(appends@);
    let ghost first_uid = old(dbw).store().block_seq;
    let mut blocks: Vec<BlockMicroblock> = Vec::new();
    let mut i: usize = 0;
    while i < appends.len()
        invariant
            i <= appends.len(),
            views == append_views(appends@),
            block_views(blocks@) == views.map_values(|a: AppendView| block_of(a)).take(i as int),
        decreases appends.len() - i,
    {
        let block = BlockMicroblock {
            id: appends[i].id.clone(),
            height: height_to_column(appends[i].height),
            time_stamp: appends[i].time_stamp,
        };
        assert(block@ == block_of(views[i as int]));
        assert(block_views(blocks@.push(block)) =~= views.map_values(
            |a: AppendView| block_of(a),
        ).take(i + 1)) by {
            let before = block_views(blocks@);
            let model = views.map_values(|a: AppendView| block_of(a));
            assert(before == model.take(i as int));
            assert(before.len() == i);
            assert forall|k: int| 0 <= k < i implies block_views(blocks@.push(block))[k]
                == model[k] by {
                assert(before[k] == model.take(i as int)[k]);
            }
        }
        blocks.push(block);
        i = i + 1;
    }
    assert(views.map_values(|a: AppendView| block_of(a)).take(appends.len() as int)
        =~= views.map_values(|a: AppendView| block_of(a)));
    let block_uids = match dbw.insert_blocks_or_microblocks(&blocks) {
        Ok(uids) => uids,
        Err(e) => {
            return Err(e);
        },
    };
    let mut data_entries: Vec<BlockUidWithDataEntry> = Vec::new();
    let mut i: usize = 0;
    while i < appends.len()
        invariant
            i <= appends.len(),
            views == append_views(appends@),
            block_uids.len() == appends.len(),
            forall|k: int| 0 <= k < block_uids.len() ==> #[trigger] block_uids[k] == first_uid + k,
            pair_views(data_entries@) == flatten_pairs(views.take(i as int), first_uid),
        decreases appends.len() - i,
    {
        let block_uid: i64 = block_uids[i];
        let entries = &appends[i].data_entries;
        let ghost done = pair_views(data_entries@);
        let ghost carried = tagged(views[i as int].data_entries, first_uid + i);
        assert(views[i as int].data_entries == entry_views(entries@));
        let mut k: usize = 0;
        while k < entries.len()
            invariant
                k <= entries.len(),
                block_uid == first_uid + i,
                carried == tagged(entry_views(entries@), first_uid + i),
                pair_views(data_entries@) == done + carried.take(k as int),
            decreases entries.len() - k,
        {
            let pair = BlockUidWithDataEntry {
                block_uid: block_uid,
                data_entry: clone_entry(&entries[k]),
            };
            assert(pair_views(data_entries@.push(pair)) =~= done + carried.take(k + 1)) by {
                assert((pair.block_uid as int, pair.data_entry@) == carried[k as int]);
                let before = pair_views(data_entries@);
                assert(before == done + carried.take(k as int));
                assert(before.len() == done.len() + k);
                assert forall|x: int| 0 <= x < before.len() implies pair_views(
                    data_entries@.push(pair),
                )[x] == (done + carried.take(k + 1))[x] by {
                    assert(pair_views(data_entries@.push(pair))[x] == before[x]);
                    assert(before[x] == (done + carried.take(k as int))[x]);
                }
            }
            data_entries.push(pair);
            k = k + 1;
        }
        proof {
            assert(carried.take(entries.len() as int) =~= carried);
            let upto = views.take(i + 1);
            assert(upto.drop_last() =~= views.take(i as int));
            assert(upto.last() == views[i as int]);
        }
        i = i + 1;
    }
    assert(views.take(appends.len() as int) =~= views);
    if data_entries.len() > 0 {
        let r = append_data_entries(dbw, data_entries);
        proof {
            if r is Ok && well_formed(old(dbw).store()) {
                lemma_appended_well_formed(old(dbw).store(), views);
            }
        }
        r
    } else {
        proof {
            assert(flatten_pairs(views, first_uid) =~= Seq::<(int, DataEntryView)>::empty());
            lemma_append_no_entries(dbw.store());
            if well_formed(old(dbw).store()) {
                lemma_appended_well_formed(old(dbw).store(), views);
            }
        }
        Ok(())
    }
}

/// A step of ingestion: a run of consecutive blocks, one microblock or one
/// rollback.
#[derive(Debug)]
pub enum UpdatesItem {
    Blocks(Vec<BlockMicroblockAppend>),
    Microblock(BlockMicroblockAppend),
    Rollback(String),
}

/// What an [`UpdatesItem`] holds.
pub enum ItemView {
    Blocks(Seq<AppendView>),
    Microblock(AppendView),
    Rollback(Seq<char>),
}

impl View for UpdatesItem {
    type V = ItemView;

    open spec fn view(&self) -> ItemView {
        match self {
            UpdatesItem::Blocks(blocks) => ItemView::Blocks(append_views(blocks@)),
            UpdatesItem::Microblock(micro) => ItemView::Microblock(micro@),
            UpdatesItem::Rollback(id) => ItemView::Rollback(id@),
        }
    }
}

/// The views of a sequence of steps.
pub open spec fn item_views(v: Seq<UpdatesItem>) -> Seq<ItemView> {
    v.map_values(|i: UpdatesItem| i@)
}

/// The steps of a batch, with one more update taken in: a block joins the
/// run of blocks that the steps end with, or begins a run; a microblock or a
/// rollback is a step of its own.
pub open spec fn taken_in(items: Seq<ItemView>, update: UpdateEvent) -> Seq<ItemView> {
    match update {
        UpdateEvent::Block(block) => if items.len() > 0 && items.last() is Blocks {
            items.drop_last().push(ItemView::Blocks(items.last()->Blocks_0.push(block)))
        } else {
            items.push(ItemView::Blocks(seq![block]))
        },
        UpdateEvent::Microblock(micro) => items.push(ItemView::Microblock(micro)),
        UpdateEvent::Rollback(id) => items.push(ItemView::Rollback(id)),
    }
}

/// The steps of a batch: consecutive blocks are merged into one step, and
/// the order of the updates is kept.
pub open spec fn coalesced(updates: Seq<UpdateEvent>) -> Seq<ItemView>
    decreases updates.len(),
{
    if updates.len() == 0 {
        Seq::empty()
    } else {
        taken_in(coalesced(updates.drop_last()), updates.last())
    }
}

/// Merges the consecutive blocks of a batch into steps.
pub fn coalesce(updates: Vec<BlockchainUpdate>) -> (items: Vec<UpdatesItem>)
    ensures
        item_views(items@) == coalesced(update_views(updates@)),
{
    let ghost views = update_views(updates@);
    let mut items: Vec<UpdatesItem> = Vec::new();
    for update in it: updates
        invariant
            views == update_views(it.seq()),
            item_views(items@) == coalesced(views.take(it.index() as int)),
    {
        proof {
            let upto = views.take(it.index() + 1);
            assert(upto.drop_last() =~= views.take(it.index() as int));
            assert(upto.last() == update@);
        }
        let ghost before = item_views(items@);
        match update {
            BlockchainUpdate::Block(block) => {
                match items.pop() {
                    Some(UpdatesItem::Blocks(mut run)) => {
                        let ghost rest = item_views(items@);
                        assert(rest =~= before.drop_last());
                        assert(before.last() == ItemView::Blocks(append_views(run@)));
                        let ghost longer = append_views(run@).push(block@);
                        run.push(block);
                        assert(append_views(run@) =~= longer);
                        let item = UpdatesItem::Blocks(run);
                        assert(item_views(items@.push(item)) =~= rest.push(item@));
                        items.push(item);
                    },
                    Some(other) => {
                        let ghost rest = item_views(items@);
                        assert(rest =~= before.drop_last());
                        assert(before.last() == other@);
                        assert(item_views(items@.push(other)) =~= before);
                        items.push(other);
                        let run: Vec<BlockMicroblockAppend> = vec![block];
                        assert(append_views(run@) =~= seq![block@]);
                        let item = UpdatesItem::Blocks(run);
                        assert(item_views(items@.push(item)) =~= before.push(item@));
                        items.push(item);
                    },
                    None => {
                        let run: Vec<BlockMicroblockAppend> = vec![block];
                        assert(append_views(run@) =~= seq![block@]);
                        let item = UpdatesItem::Blocks(run);
                        assert(item_views(items@.push(item)) =~= before.push(item@));
                        items.push(item);
                    },
                }
            },
            BlockchainUpdate::Microblock(micro) => {
                let item = UpdatesItem::Microblock(micro);
                assert(item_views(items@.push(item)) =~= before.push(item@));
                items.push(item);
            },
            BlockchainUpdate::Rollback(id) => {
                let item = UpdatesItem::Rollback(id);
                assert(item_views(items@.push(item)) =~= before.push(item@));
                items.push(item);
            },
        }
    }
    assert(views.take(updates@.len() as int) =~= views);
    items
}

/// Whether a step succeeds on a dependable store: a run of blocks where the
/// microblocks can be squashed and the sequences have uids for the blocks
/// and their data entries; a microblock where the sequences have uids for
/// it; a rollback where a record bears the id.
pub open spec fn step_succeeds(store: Store, item: ItemView) -> bool {
    match item {
        ItemView::Blocks(blocks) => squashable(store) && appendable(squashed(store), blocks),
        ItemView::Microblock(micro) => appendable(store, seq![micro]),
        ItemView::Rollback(id) => store.block_with_id(id) is Some,
    }
}

/// Whether the steps `items` succeed on a dependable store, one after the
/// other.
pub open spec fn steps_succeed(store: Store, items: Seq<ItemView>) -> bool
    decreases items.len(),
{
    if items.len() == 0 {
        true
    } else {
        steps_succeed(store, items.drop_last()) && step_succeeds(
            applied_all(store, items.drop_last()),
            items.last(),
        )
    }
}

/// Where steps succeed, those that come first among them succeed.
pub proof fn lemma_first_steps_succeed(store: Store, items: Seq<ItemView>, k: int)
    requires
        steps_succeed(store, items),
        0 <= k <= items.len(),
    ensures
        steps_succeed(store, items.take(k)),
    decreases items.len(),
{
    if k == items.len() {
        assert(items.take(k) =~= items);
    } else {
        assert(items.drop_last().take(k) =~= items.take(k));
        lemma_first_steps_succeed(store, items.drop_last(), k);
    }
}

/// The store after one step: a run of blocks is appended once the
/// microblocks are squashed; a microblock is appended; a rollback goes back
/// to the record that bears its id.
pub open spec fn applied(store: Store, item: ItemView) -> Store {
    match item {
        ItemView::Blocks(blocks) => appended(squashed(store), blocks),
        ItemView::Microblock(micro) => appended(store, seq![micro]),
        ItemView::Rollback(id) => match store.block_with_id(id) {
            Some(block) => rolled_back(store, block.uid),
            None => store,
        },
    }
}

/// The store after the steps `items`, in order.
pub open spec fn applied_all(store: Store, items: Seq<ItemView>) -> Store
    decreases items.len(),
{
    if items.len() == 0 {
        store
    } else {
        applied(applied_all(store, items.drop_last()), items.last())
    }
}

/// Performs one step on the store. A rollback to an id that no record bears
/// fails.
pub fn apply_item<U: DataEntriesRepoOperations>(dbw: &mut U, item: UpdatesItem) -> (r: Result<
    (),
    AppError,
>)
    ensures
        r is Ok ==> final(dbw).store() == applied(old(dbw).store(), item@),
        item@ matches ItemView::Rollback(id) && old(dbw).store().block_with_id(id) is None
            ==> r is Err && final(dbw).store() == old(dbw).store(),
        r is Ok && well_formed(old(dbw).store()) ==> well_formed(final(dbw).store()),
        r is Ok && well_formed(old(dbw).store()) && microblocks_last(old(dbw).store().blocks)
            && well_timed(item@) ==> microblocks_last(final(dbw).store().blocks),
        U::dependable() ==> (r is Ok <==> step_succeeds(old(dbw).store(), item@)),
{
    let ghost before = dbw.store();
    let ghost step = item@;
    let r = apply_step(dbw, item);
    proof {
        if r is Ok && well_formed(before) && microblocks_last(before.blocks) && well_timed(step) {
            lemma_applied_keeps_microblocks_last(before, step);
        }
    }
    r
}

/// Performs one step on the store.
fn apply_step<U: DataEntriesRepoOperations>(dbw: &mut U, item: UpdatesItem) -> (r: Result<
    (),
    AppError,
>)
    ensures
        r is Ok ==> final(dbw).store() == applied(old(dbw).store(), item@),
        item@ matches ItemView::Rollback(id) && old(dbw).store().block_with_id(id) is None
            ==> r is Err && final(dbw).store() == old(dbw).store(),
        r is Ok && item@ is Blocks ==> squashable(old(dbw).store()),
        r is Ok && well_formed(old(dbw).store()) ==> well_formed(final(dbw).store()),
        U::dependable() ==> (r is Ok <==> step_succeeds(old(dbw).store(), item@)),
{
    match item {
        UpdatesItem::Blocks(blocks) => {
            match squash_microblocks(dbw) {
                Ok(()) => {},
                Err(e) => {
                    return Err(e);
                },
            }
            append_blocks_or_microblocks(dbw, &blocks)
        },
        UpdatesItem::Microblock(micro) => {
            let ghost view = micro@;
            let appends: Vec<BlockMicroblockAppend> = vec![micro];
            assert(append_views(appends@) =~= seq![view]);
            append_blocks_or_microblocks(dbw, &appends)
        },
        UpdatesItem::Rollback(id) => {
            let block_uid = match dbw.get_block_uid(id.as_str()) {
                Ok(uid) => uid,
                Err(e) => {
                    return Err(e);
                },
            };
            rollback(dbw, block_uid)
        },
    }
}

/// Performs the updates of one batch on the store, in order: the work of one
/// transaction.
pub fn apply_updates<U: DataEntriesRepoOperations>(
    dbw: &mut U,
    updates: Vec<BlockchainUpdate>,
) -> (r: Result<(), AppError>)
    ensures
        r is Ok ==> final(dbw).store() == applied_all(
            old(dbw).store(),
            coalesced(update_views(updates@)),
        ),
        r is Ok && well_formed(old(dbw).store()) ==> well_formed(final(dbw).store()),
        r is Ok && well_formed(old(dbw).store()) && microblocks_last(old(dbw).store().blocks)
            && (forall|i: int|
            0 <= i < updates.len() ==> timed_update(#[trigger] update_views(updates@)[i]))
            ==> microblocks_last(final(dbw).store().blocks),
        U::dependable() ==> (r is Ok <==> steps_succeed(
            old(dbw).store(),
            coalesced(update_views(updates@)),
        )),
        updates.len() == 0 ==> r is Ok && final(dbw).store() == old(dbw).store(),
{
    let ghost initial = dbw.store();
    let ghost timed = forall|i: int|
        0 <= i < updates.len() ==> timed_update(#[trigger] update_views(updates@)[i]);
    proof {
        if timed {
            lemma_coalesced_well_timed(update_views(updates@));
        }
    }
    let ghost steps = coalesced(update_views(updates@));
    let items = coalesce(updates);
    let ghost views = item_views(items@);
    for item in it: items
        invariant
            views == item_views(it.seq()),
            views == steps,
            steps == coalesced(update_views(updates@)),
            initial == old(dbw).store(),
            0 <= it.index() <= it.seq().len(),
            dbw.store() == applied_all(initial, views.take(it.index() as int)),
            well_formed(initial) ==> well_formed(dbw.store()),
            timed ==> forall|i: int| 0 <= i < views.len() ==> well_timed(#[trigger] views[i]),
            well_formed(initial) && microblocks_last(initial.blocks) && timed ==> microblocks_last(
                dbw.store().blocks,
            ),
            U::dependable() ==> steps_succeed(initial, views.take(it.index() as int)),
    {
        proof {
            let upto = views.take(it.index() + 1);
            assert(upto.drop_last() =~= views.take(it.index() as int));
            assert(upto.last() == item@);
        }
        match apply_item(dbw, item) {
            Ok(()) => {},
            Err(e) => {
                proof {
                    assert(views.len() > 0);
                    assert(updates.len() > 0);
                    if U::dependable() && steps_succeed(initial, views) {
                        lemma_first_steps_succeed(initial, views, it.index() + 1);
                    }
                }
                return Err(e);
            },
        }
    }
    assert(views.take(views.len() as int) =~= views);
    Ok(())
}

/// Whether a height follows the one of the record from which ingestion
/// resumes.
pub open spec fn resumable(store: Store, depth: int) -> bool {
    match store.handled_height(depth) {
        Some(block) => column_height(block.height) < u32::MAX,
        None => true,
    }
}

/// The height from which to read the stream. Where the store holds a record
/// at the greatest height less `start_rollback_depth`, the store is rolled
/// back to the first such record and reading resumes one above its height;
/// an empty store is read from height one.
pub fn starting_height<U: DataEntriesRepoOperations>(dbw: &mut U, start_rollback_depth: u32) -> (r:
    Result<u32, AppError>)
    ensures
        r matches Ok(height) ==> match old(dbw).store().handled_height(
            start_rollback_depth as int,
        ) {
            Some(block) => final(dbw).store() == rolled_back(old(dbw).store(), block.uid)
                && height == column_height(block.height) + 1,
            None => final(dbw).store() == old(dbw).store() && height == 1,
        },
        old(dbw).store().handled_height(start_rollback_depth as int) matches Some(block)
            && column_height(block.height) == u32::MAX ==> r is Err,
        r is Ok && well_formed(old(dbw).store()) ==> well_formed(final(dbw).store()),
        U::dependable() ==> (r is Ok <==> resumable(old(dbw).store(), start_rollback_depth as int)),
{
    let found = match dbw.get_handled_height(start_rollback_depth) {
        Ok(found) => found,
        Err(e) => {
            return Err(e);
        },
    };
    match found {
        Some(prev_handled_height) => {
            let height = column_to_height(prev_handled_height.height);
            if height == u32::MAX {
                return Err(AppError::DbError(String::from_str("no height follows the last one")));
            }
            match rollback(dbw, prev_handled_height.uid) {
                Ok(()) => Ok(height + 1),
                Err(e) => Err(e),
            }
        },
        None => Ok(1),
    }
}

/// Performs the updates of one batch in one transaction: all of them are
/// committed, or none is.
pub fn ingest<R: DataEntriesRepo>(repo: &mut R, updates: Vec<BlockchainUpdate>) -> (r: Result<
    (),
    AppError,
>)
    ensures
        r is Ok ==> final(repo).committed() == applied_all(
            old(repo).committed(),
            coalesced(update_views(updates@)),
        ),
        r is Ok && well_formed(old(repo).committed()) ==> well_formed(final(repo).committed()),
        r is Ok && well_formed(old(repo).committed()) && microblocks_last(
            old(repo).committed().blocks,
        ) && (forall|i: int|
            0 <= i < updates.len() ==> timed_update(#[trigger] update_views(updates@)[i]))
            ==> microblocks_last(final(repo).committed().blocks),
        r is Err ==> final(repo).committed() == old(repo).committed(),
        R::dependable() && R::Operations::dependable() ==> (r is Ok <==> steps_succeed(
            old(repo).committed(),
            coalesced(update_views(updates@)),
        )),
        R::dependable() && updates.len() == 0 ==> r is Ok,
{
    let ghost views = update_views(updates@);
    let work = |ops: &mut R::Operations| -> (done: Result<(), AppError>)
        ensures
            done is Ok ==> final(ops).store() == applied_all(old(ops).store(), coalesced(views)),
            done is Ok && well_formed(old(ops).store()) ==> well_formed(final(ops).store()),
            done is Ok && well_formed(old(ops).store()) && microblocks_last(
                old(ops).store().blocks,
            ) && (forall|i: int| 0 <= i < views.len() ==> timed_update(#[trigger] views[i]))
                ==> microblocks_last(final(ops).store().blocks),
            R::Operations::dependable() ==> (done is Ok <==> steps_succeed(
                old(ops).store(),
                coalesced(views),
            )),
            views.len() == 0 ==> done is Ok,
        { apply_updates(ops, updates) };
    repo.transaction(work)
}

/// Finds, in one transaction, the height from which to read the stream, and
/// rolls the store back to it.
pub fn resume<R: DataEntriesRepo>(repo: &mut R, start_rollback_depth: u32) -> (r: Result<
    u32,
    AppError,
>)
    ensures
        r matches Ok(height) ==> match old(repo).committed().handled_height(
            start_rollback_depth as int,
        ) {
            Some(block) => final(repo).committed() == rolled_back(
                old(repo).committed(),
                block.uid,
            ) && height == column_height(block.height) + 1,
            None => final(repo).committed() == old(repo).committed() && height == 1,
        },
        r is Ok && well_formed(old(repo).committed()) ==> well_formed(final(repo).committed()),
        r is Err ==> final(repo).committed() == old(repo).committed(),
        R::dependable() && R::Operations::dependable() ==> (r is Ok <==> resumable(
            old(repo).committed(),
            start_rollback_depth as int,
        )),
{
    let work = |ops: &mut R::Operations| -> (found: Result<u32, AppError>)
        ensures
            found matches Ok(height) ==> match old(ops).store().handled_height(
                start_rollback_depth as int,
            ) {
                Some(block) => final(ops).store() == rolled_back(old(ops).store(), block.uid)
                    && height == column_height(block.height) + 1,
                None => final(ops).store() == old(ops).store() && height == 1,
            },
            found is Ok && well_formed(old(ops).store()) ==> well_formed(final(ops).store()),
            R::Operations::dependable() ==> (found is Ok <==> resumable(
                old(ops).store(),
                start_rollback_depth as int,
            )),
        { starting_height(ops, start_rollback_depth) };
    repo.transaction(work)
}

} // verus!
