//! The invariant of the store, and that every step of ingestion keeps it.
use crate::data_entries::{AppendView, DataEntryView, DeletedView, EntryRow, UpdateView, MAX_UID};
use crate::data_entries::daemon::{
    append_entries, appended, block_of, closing_of, entities, entity, first_uids, flatten_pairs,
    is_lowest, lowest_uids, new_rows, next_index, rolled_back, seen_before, squashed, tagged,
};
use crate::data_entries::laws::sequences::{lemma_filter_keeps_order, lemma_filter_splits};
use crate::data_entries::store::{
    blocks_up_to, close_row, deleted_of, entries_above, entries_up_to, first_update, key_blocks,
    last_of_kind, reopen_row, repoint_row, BlockRow, Store,
};
use vstd::prelude::*;

verus! {

/// The `(address, key)` pairs of the rows of a table, in order.
pub open spec fn entry_keys(entries: Seq<EntryRow>) -> Seq<(Seq<char>, Seq<char>)> {
    entries.map_values(|r: EntryRow| entity(r))
}

/// What has to supersede the row at `i`: the next row for the same
/// `(address, key)`, or nothing yet.
pub open spec fn superseding_uid(entries: Seq<EntryRow>, i: int) -> int {
    let next = next_index(entry_keys(entries), entity(entries[i]), i + 1);
    if next < entries.len() {
        entries[next].uid
    } else {
        MAX_UID as int
    }
}

/// The uids of both tables grow with the order of insertion and lie below
/// their sequences.
pub open spec fn uids_ordered(store: Store) -> bool {
    &&& forall|i: int, j: int|
        0 <= i < j < store.blocks.len() ==> (#[trigger] store.blocks[i]).uid < (
        #[trigger] store.blocks[j]).uid
    &&& forall|i: int| 0 <= i < store.blocks.len() ==> (#[trigger] store.blocks[i]).uid < store.block_seq
    &&& forall|i: int, j: int|
        0 <= i < j < store.entries.len() ==> (#[trigger] store.entries[i]).uid < (
        #[trigger] store.entries[j]).uid
    &&& forall|i: int|
        0 <= i < store.entries.len() ==> (#[trigger] store.entries[i]).uid < store.next_uid
    &&& store.next_uid <= MAX_UID
}

/// Data entries are listed by the records that carry them, and no data
/// entry belongs to a record that the sequence has yet to give out.
pub open spec fn entries_follow_blocks(store: Store) -> bool {
    &&& forall|i: int, j: int|
        0 <= i <= j < store.entries.len() ==> (#[trigger] store.entries[i]).block_uid <= (
        #[trigger] store.entries[j]).block_uid
    &&& forall|i: int|
        0 <= i < store.entries.len() ==> (#[trigger] store.entries[i]).block_uid < store.block_seq
}

/// Every row is superseded by the next row for its `(address, key)`, and
/// the last row for it is current.
pub open spec fn chained(entries: Seq<EntryRow>) -> bool {
    forall|i: int|
        0 <= i < entries.len() ==> entries[i].superseded_by == #[trigger] superseding_uid(
            entries,
            i,
        )
}

/// The invariant of the store.
pub open spec fn well_formed(store: Store) -> bool {
    &&& uids_ordered(store)
    &&& entries_follow_blocks(store)
    &&& chained(store.entries)
}

/// What `next_index` finds: nothing before it, and the entity at it.
pub proof fn lemma_next_index(
    keys: Seq<(Seq<char>, Seq<char>)>,
    entity: (Seq<char>, Seq<char>),
    from: int,
)
    requires
        0 <= from <= keys.len(),
    ensures
        from <= next_index(keys, entity, from) <= keys.len(),
        next_index(keys, entity, from) < keys.len() ==> keys[next_index(keys, entity, from)]
            == entity,
        forall|k: int| from <= k < next_index(keys, entity, from) ==> keys[k] != entity,
    decreases keys.len() - from,
{
    if from < keys.len() && keys[from] != entity {
        lemma_next_index(keys, entity, from + 1);
    }
}

/// The position with nothing before it and the entity at it is what
/// `next_index` finds.
pub proof fn lemma_next_index_is(
    keys: Seq<(Seq<char>, Seq<char>)>,
    entity: (Seq<char>, Seq<char>),
    from: int,
    at: int,
)
    requires
        0 <= from <= at <= keys.len(),
        at < keys.len() ==> keys[at] == entity,
        forall|k: int| from <= k < at ==> keys[k] != entity,
    ensures
        next_index(keys, entity, from) == at,
    decreases at - from,
{
    if from < at {
        lemma_next_index_is(keys, entity, from + 1, at);
    }
}

/// The first update for an entity, after one more update.
pub proof fn lemma_first_update_push(
    updates: Seq<UpdateView>,
    update: UpdateView,
    address: Seq<char>,
    key: Seq<char>,
)
    ensures
        first_update(updates.push(update), address, key) == match first_update(
            updates,
            address,
            key,
        ) {
            Some(found) => Some(found),
            None => if update.address == address && update.key == key {
                Some(update)
            } else {
                None
            },
        },
    decreases updates.len(),
{
    if updates.len() == 0 {
        assert(updates.push(update).drop_first() =~= updates);
    } else {
        assert(updates.push(update).drop_first() =~= updates.drop_first().push(update));
        if !(updates[0].address == address && updates[0].key == key) {
            lemma_first_update_push(updates.drop_first(), update, address, key);
        }
    }
}

/// The closing orders of a batch name each entity of the batch once, with
/// the uid of its first row.
pub proof fn lemma_first_uids(rows: Seq<EntryRow>, address: Seq<char>, key: Seq<char>)
    ensures
        first_update(first_uids(rows), address, key) == (if next_index(
            entry_keys(rows),
            (address, key),
            0,
        ) < rows.len() {
            Some(closing_of(rows[next_index(entry_keys(rows), (address, key), 0)]))
        } else {
            None
        }),
    decreases rows.len(),
{
    let keys = entry_keys(rows);
    let wanted = (address, key);
    lemma_next_index(keys, wanted, 0);
    if rows.len() > 0 {
        let init = rows.drop_last();
        let last = rows.last();
        let init_keys = entry_keys(init);
        assert(init_keys =~= keys.drop_last());
        assert forall|k: int| 0 <= k < init.len() implies #[trigger] keys[k] == init_keys[k] by {}
        lemma_first_uids(init, address, key);
        lemma_next_index(init_keys, wanted, 0);
        let in_init = next_index(init_keys, wanted, 0);
        if in_init < init.len() {
            lemma_next_index_is(keys, wanted, 0, in_init);
        } else if entity(last) == wanted {
            lemma_next_index_is(keys, wanted, 0, rows.len() - 1);
        } else {
            lemma_next_index_is(keys, wanted, 0, rows.len() as int);
        }
        if seen_before(rows, rows.len() - 1) {
            let j = choose|j: int|
                0 <= j < rows.len() - 1 && entity(#[trigger] rows[j]) == entity(
                    rows[rows.len() - 1],
                );
            assert(init_keys[j] == entity(last));
        } else {
            lemma_first_update_push(first_uids(init), closing_of(last), address, key);
            if in_init < init.len() && entity(last) == wanted {
                assert(entity(rows[in_init]) == entity(rows[rows.len() - 1]));
            }
        }
    }
}

/// What a batch of data entries has to meet for the store to stay well
/// formed: the sequence has a uid for each entry, and the entries come in
/// the order of their records, which follow the records of the rows that the
/// store holds.
pub open spec fn fits(store: Store, pairs: Seq<(int, DataEntryView)>) -> bool {
    &&& store.next_uid + pairs.len() <= MAX_UID
    &&& forall|j: int| 0 <= j < pairs.len() ==> (#[trigger] pairs[j]).0 < store.block_seq
    &&& forall|i: int, j: int|
        0 <= i <= j < pairs.len() ==> (#[trigger] pairs[i]).0 <= (#[trigger] pairs[j]).0
    &&& forall|i: int, j: int|
        0 <= i < store.entries.len() && 0 <= j < pairs.len() ==> (
        #[trigger] store.entries[i]).block_uid <= (#[trigger] pairs[j]).0
}

/// Appending a batch of data entries keeps the store well formed.
#[verifier::rlimit(40)]
pub proof fn lemma_append_entries_well_formed(store: Store, pairs: Seq<(int, DataEntryView)>)
    requires
        well_formed(store),
        fits(store, pairs),
    ensures
        well_formed(append_entries(store, pairs)),
{
    let start = store.next_uid;
    let old_rows = store.entries;
    let m = old_rows.len() as int;
    let n = pairs.len() as int;
    let rows = new_rows(pairs, start);
    let orders = first_uids(rows);
    let after = append_entries(store, pairs);
    let all = after.entries;
    let old_keys = entry_keys(old_rows);
    let new_keys = entry_keys(rows);
    let all_keys = entry_keys(all);
    assert(all.len() == m + n);
    assert(new_keys =~= entities(pairs));
    assert forall|i: int| 0 <= i < m implies #[trigger] all[i] == close_row(old_rows[i], orders) by {}
    assert forall|j: int| 0 <= j < n implies #[trigger] all[m + j] == rows[j] by {}
    assert forall|i: int| 0 <= i < m implies #[trigger] all_keys[i] == old_keys[i] by {
        assert(all[i] == close_row(old_rows[i], orders));
    }
    assert forall|j: int| 0 <= j < n implies #[trigger] all_keys[m + j] == new_keys[j] by {
        assert(all[m + j] == rows[j]);
    }
    assert(uids_ordered(after)) by {
        assert forall|i: int, j: int| 0 <= i < j < all.len() implies (#[trigger] all[i]).uid < (
        #[trigger] all[j]).uid by {
            if j < m {
                assert(all[i] == close_row(old_rows[i], orders));
                assert(all[j] == close_row(old_rows[j], orders));
            } else if i < m {
                assert(all[i] == close_row(old_rows[i], orders));
                assert(all[m + (j - m)] == rows[j - m]);
            } else {
                assert(all[m + (i - m)] == rows[i - m]);
                assert(all[m + (j - m)] == rows[j - m]);
            }
        }
        assert forall|i: int| 0 <= i < all.len() implies (#[trigger] all[i]).uid
            < after.next_uid by {
            if i < m {
                assert(all[i] == close_row(old_rows[i], orders));
            } else {
                assert(all[m + (i - m)] == rows[i - m]);
            }
        }
    }
    assert(entries_follow_blocks(after)) by {
        assert forall|i: int, j: int| 0 <= i <= j < all.len() implies (
        #[trigger] all[i]).block_uid <= (#[trigger] all[j]).block_uid by {
            if j < m {
                assert(all[i] == close_row(old_rows[i], orders));
                assert(all[j] == close_row(old_rows[j], orders));
            } else if i < m {
                assert(all[i] == close_row(old_rows[i], orders));
                assert(all[m + (j - m)] == rows[j - m]);
                assert(old_rows[i].block_uid <= pairs[j - m].0);
            } else {
                assert(all[m + (i - m)] == rows[i - m]);
                assert(all[m + (j - m)] == rows[j - m]);
                assert(pairs[i - m].0 <= pairs[j - m].0);
            }
        }
        assert forall|i: int| 0 <= i < all.len() implies (#[trigger] all[i]).block_uid
            < after.block_seq by {
            if i < m {
                assert(all[i] == close_row(old_rows[i], orders));
            } else {
                assert(all[m + (i - m)] == rows[i - m]);
                assert(pairs[i - m].0 < store.block_seq);
            }
        }
    }
    assert(chained(all)) by {
        assert forall|i: int| 0 <= i < all.len() implies all[i].superseded_by
            == #[trigger] superseding_uid(all, i) by {
            if i < m {
                let wanted = entity(old_rows[i]);
                assert(all[i] == close_row(old_rows[i], orders));
                assert(entity(all[i]) == wanted);
                assert(old_rows[i].superseded_by == superseding_uid(old_rows, i));
                lemma_next_index(old_keys, wanted, i + 1);
                let x = next_index(old_keys, wanted, i + 1);
                if x < m {
                    assert(all_keys[x] == old_keys[x]);
                    assert forall|k: int| i + 1 <= k < x implies all_keys[k] != wanted by {
                        assert(all_keys[k] == old_keys[k]);
                    }
                    lemma_next_index_is(all_keys, wanted, i + 1, x);
                    assert(all[x] == close_row(old_rows[x], orders));
                    assert(old_rows[x].uid < store.next_uid);
                } else {
                    lemma_next_index(new_keys, wanted, 0);
                    let y = next_index(new_keys, wanted, 0);
                    assert forall|k: int| i + 1 <= k < m + y implies all_keys[k] != wanted by {
                        if k < m {
                            assert(all_keys[k] == old_keys[k]);
                        } else {
                            assert(all_keys[m + (k - m)] == new_keys[k - m]);
                        }
                    }
                    if y < n {
                        assert(all_keys[m + y] == new_keys[y]);
                    }
                    lemma_next_index_is(all_keys, wanted, i + 1, m + y);
                    lemma_first_uids(rows, wanted.0, wanted.1);
                    if y < n {
                        assert(all[m + y] == rows[y]);
                    }
                }
            } else {
                let j = i - m;
                assert(all[m + j] == rows[j]);
                let wanted = entity(rows[j]);
                assert(new_keys[j] == wanted);
                lemma_next_index(new_keys, wanted, j + 1);
                let y = next_index(new_keys, wanted, j + 1);
                assert forall|k: int| i + 1 <= k < m + y implies all_keys[k] != wanted by {
                    assert(all_keys[m + (k - m)] == new_keys[k - m]);
                }
                if y < n {
                    assert(all_keys[m + y] == new_keys[y]);
                    assert(all[m + y] == rows[y]);
                }
                lemma_next_index_is(all_keys, wanted, i + 1, m + y);
                assert(entities(pairs)[j] == wanted);
            }
        }
    }
}

/// A store that nothing was written to is well formed.
pub proof fn lemma_empty_well_formed()
    ensures
        well_formed(Store::empty()),
{
}

/// The data entries of blocks that get the uids from `first_uid` on carry
/// those uids, in order.
pub proof fn lemma_flatten_pairs(appends: Seq<AppendView>, first_uid: int)
    ensures
        forall|j: int|
            0 <= j < flatten_pairs(appends, first_uid).len() ==> first_uid <= (
            #[trigger] flatten_pairs(appends, first_uid)[j]).0 < first_uid + appends.len(),
        forall|i: int, j: int|
            0 <= i <= j < flatten_pairs(appends, first_uid).len() ==> (#[trigger] flatten_pairs(
                appends,
                first_uid,
            )[i]).0 <= (#[trigger] flatten_pairs(appends, first_uid)[j]).0,
    decreases appends.len(),
{
    if appends.len() > 0 {
        lemma_flatten_pairs(appends.drop_last(), first_uid);
        let before = flatten_pairs(appends.drop_last(), first_uid);
        let last = tagged(appends.last().data_entries, first_uid + appends.len() - 1);
        let all = flatten_pairs(appends, first_uid);
        assert(all == before + last);
        assert forall|j: int| 0 <= j < all.len() implies first_uid <= (#[trigger] all[j]).0
            < first_uid + appends.len() by {
            if j < before.len() {
                assert(all[j] == before[j]);
            } else {
                assert(all[j] == last[j - before.len()]);
            }
        }
        assert forall|i: int, j: int| 0 <= i <= j < all.len() implies (#[trigger] all[i]).0 <= (
        #[trigger] all[j]).0 by {
            if j < before.len() {
                assert(all[i] == before[i]);
                assert(all[j] == before[j]);
            } else if i < before.len() {
                assert(all[i] == before[i]);
                assert(all[j] == last[j - before.len()]);
            } else {
                assert(all[i] == last[i - before.len()]);
                assert(all[j] == last[j - before.len()]);
            }
        }
    }
}

/// Appending blocks or microblocks keeps the store well formed, as long as
/// the sequence has a uid for each of their data entries.
pub proof fn lemma_appended_well_formed(store: Store, appends: Seq<AppendView>)
    requires
        well_formed(store),
        store.next_uid + flatten_pairs(appends, store.block_seq).len() <= MAX_UID,
    ensures
        well_formed(appended(store, appends)),
{
    let blocks = appends.map_values(|a: AppendView| block_of(a));
    let inserted = store.insert_blocks(blocks);
    let pairs = flatten_pairs(appends, store.block_seq);
    lemma_flatten_pairs(appends, store.block_seq);
    assert(well_formed(inserted)) by {
        let all = inserted.blocks;
        let m = store.blocks.len() as int;
        assert forall|i: int, j: int| 0 <= i < j < all.len() implies (#[trigger] all[i]).uid < (
        #[trigger] all[j]).uid by {
            if j < m {
                assert(all[i] == store.blocks[i] && all[j] == store.blocks[j]);
            } else if i < m {
                assert(all[i] == store.blocks[i]);
                assert(all[j] == store.new_blocks(blocks)[j - m]);
            } else {
                assert(all[i] == store.new_blocks(blocks)[i - m]);
                assert(all[j] == store.new_blocks(blocks)[j - m]);
            }
        }
        assert forall|i: int| 0 <= i < all.len() implies (#[trigger] all[i]).uid
            < inserted.block_seq by {
            if i < m {
                assert(all[i] == store.blocks[i]);
            } else {
                assert(all[i] == store.new_blocks(blocks)[i - m]);
            }
        }
    }
    assert(fits(inserted, pairs));
    lemma_append_entries_well_formed(inserted, pairs);
}

/// The uid of a record.
pub open spec fn block_uid_of() -> spec_fn(BlockRow) -> int {
    |b: BlockRow| b.uid
}

/// Deleting records keeps the records in the order of their uids.
pub proof fn lemma_filter_blocks(store: Store, p: spec_fn(BlockRow) -> bool)
    requires
        uids_ordered(store),
    ensures
        uids_ordered(Store { blocks: store.blocks.filter(p), ..store }),
        forall|i: int|
            0 <= i < store.blocks.filter(p).len() ==> store.blocks.contains(
                #[trigger] store.blocks.filter(p)[i],
            ),
{
    let kept = store.blocks.filter(p);
    assert forall|i: int, j: int| 0 <= i < j < store.blocks.len() implies block_uid_of()(
        #[trigger] store.blocks[i],
    ) < block_uid_of()(#[trigger] store.blocks[j]) by {}
    lemma_filter_keeps_order(store.blocks, p, block_uid_of());
    assert forall|i: int, j: int| 0 <= i < j < kept.len() implies (#[trigger] kept[i]).uid < (
    #[trigger] kept[j]).uid by {
        assert(block_uid_of()(kept[i]) < block_uid_of()(kept[j]));
    }
    assert forall|i: int| 0 <= i < kept.len() implies (#[trigger] kept[i]).uid
        < store.block_seq by {
        assert(store.blocks.contains(kept[i]));
        let at = choose|at: int| 0 <= at < store.blocks.len() && store.blocks[at] == kept[i];
        assert(store.blocks[at].uid < store.block_seq);
    }
}

/// The last record of a kind, where there is one, is one of the records.
pub proof fn lemma_last_of_kind(blocks: Seq<BlockRow>, key: bool)
    ensures
        last_of_kind(blocks, key) matches Some(block) ==> blocks.contains(block) && (
        block.time_stamp is Some) == key,
        last_of_kind(blocks, key) is None ==> forall|i: int|
            0 <= i < blocks.len() ==> ((#[trigger] blocks[i]).time_stamp is Some) != key,
    decreases blocks.len(),
{
    if blocks.len() > 0 {
        if (blocks.last().time_stamp is Some) == key {
            assert(blocks[blocks.len() - 1] == blocks.last());
        } else {
            lemma_last_of_kind(blocks.drop_last(), key);
            if last_of_kind(blocks, key) is Some {
                let block = last_of_kind(blocks, key)->0;
                let at = choose|at: int|
                    0 <= at < blocks.drop_last().len() && blocks.drop_last()[at] == block;
                assert(blocks[at] == block);
            } else {
                assert forall|i: int| 0 <= i < blocks.len() implies ((
                #[trigger] blocks[i]).time_stamp is Some) != key by {
                    if i < blocks.len() - 1 {
                        assert(blocks.drop_last()[i] == blocks[i]);
                    }
                }
            }
        }
    }
}

/// Squashing the microblocks keeps the store well formed.
#[verifier::rlimit(40)]
pub proof fn lemma_squashed_well_formed(store: Store)
    requires
        well_formed(store),
    ensures
        well_formed(squashed(store)),
{
    match (store.last_microblock(), store.last_key_block()) {
        (Some(micro), Some(key)) => {
            let after = squashed(store);
            let repointed = store.repoint_entries(key.uid);
            lemma_last_of_kind(store.blocks, true);
            let at = choose|at: int| 0 <= at < store.blocks.len() && store.blocks[at] == key;
            assert(store.blocks[at].uid < store.block_seq);
            lemma_filter_blocks(repointed, key_blocks());
            let kept = repointed.delete_microblocks();
            assert(uids_ordered(after)) by {
                assert forall|i: int| 0 <= i < kept.blocks.len() implies (
                #[trigger] after.blocks[i]).uid == kept.blocks[i].uid by {}
                assert forall|i: int| 0 <= i < store.entries.len() implies (
                #[trigger] after.entries[i]).uid == store.entries[i].uid by {}
            }
            assert(entries_follow_blocks(after)) by {
                assert forall|i: int| 0 <= i < store.entries.len() implies #[trigger] after.entries[i]
                    == repoint_row(store.entries[i], key.uid) by {}
            }
            assert(chained(after.entries)) by {
                assert forall|i: int| 0 <= i < store.entries.len() implies #[trigger] after.entries[i]
                    == repoint_row(store.entries[i], key.uid) by {}
                assert(entry_keys(after.entries) =~= entry_keys(store.entries));
                assert forall|i: int| 0 <= i < after.entries.len() implies after.entries[i].superseded_by
                    == #[trigger] superseding_uid(after.entries, i) by {
                    assert(store.entries[i].superseded_by == superseding_uid(store.entries, i));
                    let next = next_index(
                        entry_keys(store.entries),
                        entity(store.entries[i]),
                        i + 1,
                    );
                    lemma_next_index(entry_keys(store.entries), entity(store.entries[i]), i + 1);
                    if next < store.entries.len() {
                        assert(after.entries[next] == repoint_row(store.entries[next], key.uid));
                    }
                }
            }
        },
        _ => {},
    }
}

/// Rolling back keeps the store well formed.
#[verifier::rlimit(40)]
pub proof fn lemma_rolled_back_well_formed(store: Store, block_uid: int)
    requires
        well_formed(store),
    ensures
        well_formed(rolled_back(store, block_uid)),
{
    let rows = store.entries;
    let keys = entry_keys(rows);
    let after = rolled_back(store, block_uid);
    let k = lemma_filter_splits(rows, entries_up_to(block_uid), entries_above(block_uid));
    let deleted = store.deleted_entries(block_uid);
    let lowest = lowest_uids(deleted);
    let kept = rows.take(k);
    assert(deleted == rows.skip(k).map_values(|r: EntryRow| deleted_of(r)));
    assert forall|i: int| 0 <= i < k implies #[trigger] after.entries[i] == reopen_row(
        rows[i],
        lowest,
    ) by {
        assert(kept[i] == rows[i]);
    }
    assert(after.entries.len() == k);
    lemma_filter_blocks(
        store.rollback_entries(block_uid).reopen_superseded(lowest),
        blocks_up_to(block_uid),
    );
    assert(uids_ordered(after)) by {
        assert forall|i: int, j: int| 0 <= i < j < k implies (#[trigger] after.entries[i]).uid < (
        #[trigger] after.entries[j]).uid by {
            assert(after.entries[i] == reopen_row(rows[i], lowest));
            assert(after.entries[j] == reopen_row(rows[j], lowest));
        }
        assert forall|i: int| 0 <= i < k implies (#[trigger] after.entries[i]).uid
            < after.next_uid by {
            assert(after.entries[i] == reopen_row(rows[i], lowest));
        }
    }
    assert(entries_follow_blocks(after)) by {
        assert forall|i: int, j: int| 0 <= i <= j < k implies (
        #[trigger] after.entries[i]).block_uid <= (#[trigger] after.entries[j]).block_uid by {
            assert(after.entries[i] == reopen_row(rows[i], lowest));
            assert(after.entries[j] == reopen_row(rows[j], lowest));
        }
        assert forall|i: int| 0 <= i < k implies (#[trigger] after.entries[i]).block_uid
            < after.block_seq by {
            assert(after.entries[i] == reopen_row(rows[i], lowest));
        }
    }
    assert(chained(after.entries)) by {
        let after_keys = entry_keys(after.entries);
        assert forall|i: int| 0 <= i < k implies #[trigger] after_keys[i] == keys[i] by {
            assert(after.entries[i] == reopen_row(rows[i], lowest));
        }
        assert forall|i: int| 0 <= i < k implies after.entries[i].superseded_by
            == #[trigger] superseding_uid(after.entries, i) by {
            let wanted = entity(rows[i]);
            assert(after.entries[i] == reopen_row(rows[i], lowest));
            assert(rows[i].superseded_by == superseding_uid(rows, i));
            lemma_next_index(keys, wanted, i + 1);
            let x = next_index(keys, wanted, i + 1);
            if x < k {
                assert(after_keys[x] == keys[x]);
                assert forall|j: int| i + 1 <= j < x implies after_keys[j] != wanted by {
                    assert(after_keys[j] == keys[j]);
                }
                lemma_next_index_is(after_keys, wanted, i + 1, x);
                assert(after.entries[x] == reopen_row(rows[x], lowest));
                assert(!lowest.contains(rows[x].uid)) by {
                    if lowest.contains(rows[x].uid) {
                        let d = choose|d: DeletedView|
                            #[trigger] is_lowest(deleted, d) && d.uid == rows[x].uid;
                        let at = choose|at: int| 0 <= at < deleted.len() && deleted[at] == d;
                        assert(deleted[at] == deleted_of(rows.skip(k)[at]));
                        assert(rows[k + at].uid == rows[x].uid);
                    }
                }
            } else {
                assert forall|j: int| i + 1 <= j < k implies after_keys[j] != wanted by {
                    assert(after_keys[j] == keys[j]);
                }
                lemma_next_index_is(after_keys, wanted, i + 1, k);
                if x < rows.len() {
                    let d = deleted_of(rows[x]);
                    assert(deleted[x - k] == deleted_of(rows.skip(k)[x - k]));
                    assert(deleted.contains(d));
                    assert forall|o: DeletedView|
                        #[trigger] deleted.contains(o) && o.address == d.address && o.key
                            == d.key implies d.uid <= o.uid by {
                        let at = choose|at: int| 0 <= at < deleted.len() && deleted[at] == o;
                        assert(deleted[at] == deleted_of(rows.skip(k)[at]));
                        assert(keys[k + at] == wanted);
                        if k + at < x {
                            assert(false);
                        }
                        if k + at > x {
                            assert(rows[x].uid < rows[k + at].uid);
                        }
                    }
                    assert(is_lowest(deleted, d));
                    assert(lowest.contains(rows[x].uid));
                }
            }
        }
    }
}

} // verus!
