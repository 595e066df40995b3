//! What the invariant says of uids and of the chain of each `(address, key)`.
use crate::data_entries::{AppendView, DataEntryView, MAX_UID};
use crate::data_entries::daemon::{
    append_entries, applied, block_of, entity, first_uids, flatten_pairs, lowest_uids, new_rows,
    next_index, rolled_back, squashed, ItemView,
};
use crate::data_entries::laws::integrity::{
    entry_keys, lemma_next_index, superseding_uid, well_formed,
};
use crate::data_entries::laws::sequences::lemma_filter_splits;
use crate::data_entries::store::{close_row, entries_above, entries_up_to, reopen_row, Store};
use vstd::prelude::*;

verus! {

/// The current row for the `(address, key)` of the row at `i`: the last row
/// for it.
pub proof fn lemma_current_row(store: Store, i: int) -> (c: int)
    requires
        well_formed(store),
        0 <= i < store.entries.len(),
    ensures
        i <= c < store.entries.len(),
        entity(store.entries[c]) == entity(store.entries[i]),
        store.entries[c].superseded_by == MAX_UID,
        forall|j: int|
            c < j < store.entries.len() ==> entity(#[trigger] store.entries[j]) != entity(
                store.entries[i],
            ),
    decreases store.entries.len() - i,
{
    let rows = store.entries;
    let keys = entry_keys(rows);
    let wanted = entity(rows[i]);
    lemma_next_index(keys, wanted, i + 1);
    let next = next_index(keys, wanted, i + 1);
    assert(rows[i].superseded_by == superseding_uid(rows, i));
    if next < rows.len() {
        assert(keys[next] == entity(rows[next]));
        let c = lemma_current_row(store, next);
        c
    } else {
        assert forall|j: int| i < j < rows.len() implies entity(#[trigger] rows[j]) != wanted by {
            assert(keys[j] == entity(rows[j]));
        }
        i
    }
}

/// Every `(address, key)` that the table has a row for has exactly one
/// current row.
pub proof fn lemma_exactly_one_current_row(store: Store, i: int) -> (c: int)
    requires
        well_formed(store),
        0 <= i < store.entries.len(),
    ensures
        0 <= c < store.entries.len(),
        entity(store.entries[c]) == entity(store.entries[i]),
        store.entries[c].superseded_by == MAX_UID,
        forall|j: int|
            0 <= j < store.entries.len() && entity(#[trigger] store.entries[j]) == entity(
                store.entries[i],
            ) && store.entries[j].superseded_by == MAX_UID ==> j == c,
{
    let rows = store.entries;
    let keys = entry_keys(rows);
    let wanted = entity(rows[i]);
    let c = lemma_current_row(store, i);
    assert forall|j: int|
        0 <= j < rows.len() && entity(#[trigger] rows[j]) == wanted && rows[j].superseded_by
            == MAX_UID implies j == c by {
        if j < c {
            lemma_next_index(keys, wanted, j + 1);
            let next = next_index(keys, wanted, j + 1);
            assert(keys[c] == entity(rows[c]));
            assert(next <= c);
            assert(rows[j].superseded_by == superseding_uid(rows, j));
            assert(rows[next].uid < store.next_uid);
        }
    }
    c
}

/// No two rows of the table of data entries have the same uid, and the
/// sequence is above them all.
pub proof fn lemma_uids_distinct(store: Store)
    requires
        well_formed(store),
    ensures
        forall|i: int, j: int|
            0 <= i < store.entries.len() && 0 <= j < store.entries.len() && i != j ==> (
            #[trigger] store.entries[i]).uid != (#[trigger] store.entries[j]).uid,
        forall|i: int|
            0 <= i < store.entries.len() ==> (#[trigger] store.entries[i]).uid < store.next_uid,
{
    assert forall|i: int, j: int|
        0 <= i < store.entries.len() && 0 <= j < store.entries.len() && i != j implies (
    #[trigger] store.entries[i]).uid != (#[trigger] store.entries[j]).uid by {
        if i < j {
            assert(store.entries[i].uid < store.entries[j].uid);
        } else {
            assert(store.entries[j].uid < store.entries[i].uid);
        }
    }
}

/// The uids of the table of data entries are the last ones that the
/// sequence gave out, without a gap.
pub open spec fn uids_dense(store: Store) -> bool {
    forall|i: int|
        0 <= i < store.entries.len() ==> (#[trigger] store.entries[i]).uid == store.next_uid
            - store.entries.len() + i
}

/// Appending data entries to a table without gaps leaves no gap.
pub proof fn lemma_append_keeps_uids_dense(store: Store, pairs: Seq<(int, DataEntryView)>)
    requires
        uids_dense(store),
    ensures
        uids_dense(append_entries(store, pairs)),
{
    let rows = new_rows(pairs, store.next_uid);
    let after = append_entries(store, pairs);
    let m = store.entries.len() as int;
    assert forall|i: int| 0 <= i < after.entries.len() implies (#[trigger] after.entries[i]).uid
        == after.next_uid - after.entries.len() + i by {
        if i < m {
            assert(after.entries[i] == close_row(store.entries[i], first_uids(rows)));
        } else {
            assert(after.entries[i] == rows[i - m]);
        }
    }
}

/// A step that is no rollback leaves no gap in a table without gaps.
pub proof fn lemma_step_keeps_uids_dense(store: Store, item: ItemView)
    requires
        uids_dense(store),
        !(item is Rollback),
    ensures
        uids_dense(applied(store, item)),
{
    match item {
        ItemView::Blocks(appends) => {
            let folded = squashed(store);
            assert(uids_dense(folded)) by {
                assert forall|i: int| 0 <= i < folded.entries.len() implies (
                #[trigger] folded.entries[i]).uid == folded.next_uid - folded.entries.len()
                    + i by {
                    assert(folded.entries[i].uid == store.entries[i].uid);
                }
            }
            let inserted = folded.insert_blocks(appends.map_values(|a: AppendView| block_of(a)));
            lemma_append_keeps_uids_dense(inserted, flatten_pairs(appends, folded.block_seq));
        },
        ItemView::Microblock(micro) => {
            let appends = seq![micro];
            let inserted = store.insert_blocks(appends.map_values(|a: AppendView| block_of(a)));
            lemma_append_keeps_uids_dense(inserted, flatten_pairs(appends, store.block_seq));
        },
        ItemView::Rollback(_) => {},
    }
}

/// The uids of the table of data entries follow one another without a gap.
pub open spec fn uids_in_a_row(store: Store) -> bool {
    forall|i: int|
        0 <= i < store.entries.len() ==> (#[trigger] store.entries[i]).uid
            == store.entries[0].uid + i
}

/// A rollback leaves uids that follow one another without a gap so; the
/// sequence stays where it was.
pub proof fn lemma_rollback_keeps_uids_in_a_row(store: Store, block_uid: int)
    requires
        well_formed(store),
        uids_in_a_row(store),
    ensures
        uids_in_a_row(rolled_back(store, block_uid)),
        rolled_back(store, block_uid).next_uid == store.next_uid,
{
    let rows = store.entries;
    let after = rolled_back(store, block_uid);
    let k = lemma_filter_splits(rows, entries_up_to(block_uid), entries_above(block_uid));
    let lowest = lowest_uids(store.deleted_entries(block_uid));
    assert forall|i: int| 0 <= i < after.entries.len() implies (#[trigger] after.entries[i]).uid
        == after.entries[0].uid + i by {
        assert(rows.take(k)[i] == rows[i]);
        assert(rows.take(k)[0] == rows[0]);
        assert(after.entries[i] == reopen_row(rows[i], lowest));
        assert(after.entries[0] == reopen_row(rows[0], lowest));
    }
}

/// A row is superseded by a later row for its `(address, key)`, and by none
/// that comes after another row for it.
pub proof fn lemma_superseded_by_next(store: Store, a: int, b: int) -> (c: int)
    requires
        well_formed(store),
        0 <= a < b < store.entries.len(),
        entity(store.entries[a]) == entity(store.entries[b]),
    ensures
        a < c <= b,
        entity(store.entries[c]) == entity(store.entries[a]),
        store.entries[a].superseded_by == store.entries[c].uid,
        store.entries[a].uid < store.entries[c].uid <= store.entries[b].uid,
{
    let rows = store.entries;
    let keys = entry_keys(rows);
    lemma_next_index(keys, entity(rows[a]), a + 1);
    let c = next_index(keys, entity(rows[a]), a + 1);
    assert(keys[b] == entity(rows[b]));
    assert(keys[c] == entity(rows[c]));
    assert(rows[a].superseded_by == superseding_uid(rows, a));
    if c < b {
        assert(rows[c].uid < rows[b].uid);
    }
    c
}

/// A row that is not current is superseded by a later row for its
/// `(address, key)`, whose uid is greater.
pub proof fn lemma_superseding_row(store: Store, a: int) -> (c: int)
    requires
        well_formed(store),
        0 <= a < store.entries.len(),
        store.entries[a].superseded_by != MAX_UID,
    ensures
        a < c < store.entries.len(),
        entity(store.entries[c]) == entity(store.entries[a]),
        store.entries[a].superseded_by == store.entries[c].uid,
        store.entries[a].uid < store.entries[c].uid,
{
    let rows = store.entries;
    let keys = entry_keys(rows);
    lemma_next_index(keys, entity(rows[a]), a + 1);
    let c = next_index(keys, entity(rows[a]), a + 1);
    assert(rows[a].superseded_by == superseding_uid(rows, a));
    assert(keys[c] == entity(rows[c]));
    assert(rows[a].uid < rows[c].uid);
    c
}

} // verus!
