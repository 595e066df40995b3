//! Rollback undoes what was ingested after the record that it goes back to.
use crate::data_entries::{AppendView, DeletedView, EntryRow, MAX_UID};
use crate::data_entries::daemon::{
    appended, applied, applied_all, block_of, entity, first_uids, flatten_pairs, is_lowest,
    lowest_uids, new_rows, next_index, rolled_back, squashed, ItemView,
};
use crate::data_entries::laws::integrity::{
    entries_follow_blocks, entry_keys, lemma_appended_well_formed, lemma_first_uids,
    lemma_flatten_pairs, lemma_next_index, lemma_squashed_well_formed, superseding_uid, well_formed,
};
use crate::data_entries::laws::microblocks::{
    all_key_blocks, lemma_appended_all_key_blocks, lemma_blocks_split, lemma_no_microblock,
    lemma_squashed_all_key_blocks, well_timed,
};
use crate::data_entries::laws::sequences::{
    lemma_filter_all, lemma_filter_none, lemma_filter_splits,
};
use crate::data_entries::store::{
    blocks_up_to, close_row, deleted_of, entries_above, entries_up_to, key_blocks, rename_row,
    reopen_row, repoint_row, BlockRow, Store,
};
use vstd::prelude::*;

verus! {

/// Whether two stores hold the same rows in both tables.
pub open spec fn same_tables(a: Store, b: Store) -> bool {
    a.blocks == b.blocks && a.entries == b.entries
}

/// Rollback undoes an append: rolling back to a record that the store held
/// before blocks or microblocks were appended gives the tables that the same
/// rollback gives without the append.
#[verifier::rlimit(40)]
pub proof fn lemma_rollback_undoes_append(store: Store, appends: Seq<AppendView>, block_uid: int)
    requires
        well_formed(store),
        block_uid < store.block_seq,
    ensures
        same_tables(
            rolled_back(appended(store, appends), block_uid),
            rolled_back(store, block_uid),
        ),
{
    let blocks = appends.map_values(|a: AppendView| block_of(a));
    let pairs = flatten_pairs(appends, store.block_seq);
    lemma_flatten_pairs(appends, store.block_seq);
    let start = store.next_uid;
    let rows = new_rows(pairs, start);
    let orders = first_uids(rows);
    let grown = appended(store, appends);
    let old_rows = store.entries;
    let m = old_rows.len() as int;
    let n = rows.len() as int;
    let old_keys = entry_keys(old_rows);
    let new_keys = entry_keys(rows);
    let closed = old_rows.map_values(|r: EntryRow| close_row(r, orders));
    let up = entries_up_to(block_uid);
    let above = entries_above(block_uid);
    assert(grown.entries =~= closed + rows);
    let k = lemma_filter_splits(old_rows, up, above);
    assert forall|i: int| 0 <= i < m implies (#[trigger] closed[i]).block_uid
        == old_rows[i].block_uid by {}
    assert forall|i: int, j: int| 0 <= i <= j < closed.len() && up(#[trigger] closed[j]) implies up(
        #[trigger] closed[i],
    ) by {
        assert(closed[i].block_uid == old_rows[i].block_uid);
        assert(closed[j].block_uid == old_rows[j].block_uid);
        assert(old_rows[i].block_uid <= old_rows[j].block_uid);
    }
    let k2 = lemma_filter_splits(closed, up, above);
    assert(k2 == k) by {
        if k2 < k {
            assert(!up(closed[k2]));
            assert(up(old_rows[k2]));
        }
        if k < k2 {
            assert(up(closed[k]));
            assert(!up(old_rows[k]));
        }
    }
    assert forall|j: int| 0 <= j < n implies !up(#[trigger] rows[j]) && above(rows[j]) by {
        assert(pairs[j].0 >= store.block_seq);
    }
    lemma_filter_none(rows, up);
    lemma_filter_all(rows, above);
    Seq::filter_distributes_over_add(closed, rows, up);
    Seq::filter_distributes_over_add(closed, rows, above);
    assert(grown.entries.filter(up) =~= closed.take(k));
    assert(grown.entries.filter(above) =~= closed.skip(k) + rows);
    let gone = store.deleted_entries(block_uid);
    let gone_grown = grown.deleted_entries(block_uid);
    let low = lowest_uids(gone);
    let low_grown = lowest_uids(gone_grown);
    assert(gone.len() == m - k);
    assert(gone_grown.len() == m - k + n);
    assert forall|x: int| k <= x < m implies #[trigger] gone[x - k] == deleted_of(old_rows[x]) by {
        assert(old_rows.skip(k)[x - k] == old_rows[x]);
    }
    assert forall|x: int| k <= x < m implies #[trigger] gone_grown[x - k] == deleted_of(
        old_rows[x],
    ) by {
        assert((closed.skip(k) + rows)[x - k] == closed[x]);
        assert(closed[x] == close_row(old_rows[x], orders));
    }
    assert forall|j: int| 0 <= j < n implies #[trigger] gone_grown[m - k + j] == deleted_of(
        rows[j],
    ) by {
        assert((closed.skip(k) + rows)[m - k + j] == rows[j]);
    }
    let back = rolled_back(store, block_uid);
    let back_grown = rolled_back(grown, block_uid);
    assert(back.entries.len() == k && back_grown.entries.len() == k);
    assert forall|i: int| 0 <= i < k implies #[trigger] back_grown.entries[i]
        == back.entries[i] by {
        let row = old_rows[i];
        let wanted = entity(row);
        assert(old_rows.take(k)[i] == row);
        assert(closed.take(k)[i] == close_row(row, orders));
        assert(back.entries[i] == reopen_row(row, low));
        assert(back_grown.entries[i] == reopen_row(close_row(row, orders), low_grown));
        assert(row.superseded_by == superseding_uid(old_rows, i));
        lemma_next_index(old_keys, wanted, i + 1);
        let x = next_index(old_keys, wanted, i + 1);
        if x < m {
            assert(old_rows[x].uid < store.next_uid);
            assert(close_row(row, orders) == row);
            if x < k {
                assert(!low.contains(old_rows[x].uid)) by {
                    if low.contains(old_rows[x].uid) {
                        let d = choose|d: DeletedView|
                            #[trigger] is_lowest(gone, d) && d.uid == old_rows[x].uid;
                        let at = choose|at: int| 0 <= at < gone.len() && gone[at] == d;
                        assert(gone[(k + at) - k] == deleted_of(old_rows[k + at]));
                        assert(old_rows[x].uid < old_rows[k + at].uid);
                    }
                }
                assert(!low_grown.contains(old_rows[x].uid)) by {
                    if low_grown.contains(old_rows[x].uid) {
                        let d = choose|d: DeletedView|
                            #[trigger] is_lowest(gone_grown, d) && d.uid == old_rows[x].uid;
                        let at = choose|at: int| 0 <= at < gone_grown.len() && gone_grown[at] == d;
                        if at < m - k {
                            assert(gone_grown[(k + at) - k] == deleted_of(old_rows[k + at]));
                            assert(old_rows[x].uid < old_rows[k + at].uid);
                        } else {
                            assert(gone_grown[m - k + (at - (m - k))] == deleted_of(
                                rows[at - (m - k)],
                            ));
                        }
                    }
                }
            } else {
                let d = deleted_of(old_rows[x]);
                assert(gone[x - k] == d);
                assert(gone_grown[x - k] == d);
                assert(gone.contains(d));
                assert(gone_grown.contains(d));
                assert forall|o: DeletedView|
                    #[trigger] gone.contains(o) && o.address == d.address && o.key
                        == d.key implies d.uid <= o.uid by {
                    let at = choose|at: int| 0 <= at < gone.len() && gone[at] == o;
                    assert(gone[(k + at) - k] == deleted_of(old_rows[k + at]));
                    assert(old_keys[k + at] == wanted);
                    if k + at > x {
                        assert(old_rows[x].uid < old_rows[k + at].uid);
                    }
                }
                assert(is_lowest(gone, d));
                assert forall|o: DeletedView|
                    #[trigger] gone_grown.contains(o) && o.address == d.address && o.key
                        == d.key implies d.uid <= o.uid by {
                    let at = choose|at: int| 0 <= at < gone_grown.len() && gone_grown[at] == o;
                    if at < m - k {
                        assert(gone_grown[(k + at) - k] == deleted_of(old_rows[k + at]));
                        assert(old_keys[k + at] == wanted);
                        if k + at > x {
                            assert(old_rows[x].uid < old_rows[k + at].uid);
                        }
                    } else {
                        assert(gone_grown[m - k + (at - (m - k))] == deleted_of(
                            rows[at - (m - k)],
                        ));
                    }
                }
                assert(is_lowest(gone_grown, d));
                assert(low.contains(old_rows[x].uid));
                assert(low_grown.contains(old_rows[x].uid));
            }
        } else {
            lemma_next_index(new_keys, wanted, 0);
            lemma_first_uids(rows, wanted.0, wanted.1);
            let y = next_index(new_keys, wanted, 0);
            if y < n {
                let d = deleted_of(rows[y]);
                assert(new_keys[y] == entity(rows[y]));
                assert(gone_grown[m - k + y] == d);
                assert(gone_grown.contains(d));
                assert forall|o: DeletedView|
                    #[trigger] gone_grown.contains(o) && o.address == d.address && o.key
                        == d.key implies d.uid <= o.uid by {
                    let at = choose|at: int| 0 <= at < gone_grown.len() && gone_grown[at] == o;
                    if at < m - k {
                        assert(gone_grown[(k + at) - k] == deleted_of(old_rows[k + at]));
                        assert(old_keys[k + at] == wanted);
                        assert(false);
                    } else {
                        let j = at - (m - k);
                        assert(gone_grown[m - k + j] == deleted_of(rows[j]));
                        assert(new_keys[j] == wanted);
                    }
                }
                assert(is_lowest(gone_grown, d));
                assert(low_grown.contains(rows[y].uid));
            }
        }
    }
    assert(back_grown.entries =~= back.entries);
    let first = store.blocks;
    let added = store.new_blocks(blocks);
    assert(grown.blocks =~= first + added);
    assert forall|i: int| 0 <= i < added.len() implies !blocks_up_to(block_uid)(
        #[trigger] added[i],
    ) by {}
    lemma_filter_none(added, blocks_up_to(block_uid));
    Seq::filter_distributes_over_add(first, added, blocks_up_to(block_uid));
    assert(back_grown.blocks =~= back.blocks);
}

/// Whether the store holds nothing above the record `block_uid`.
pub open spec fn ends_at(store: Store, block_uid: int) -> bool {
    &&& forall|i: int| 0 <= i < store.blocks.len() ==> (#[trigger] store.blocks[i]).uid <= block_uid
    &&& forall|i: int|
        0 <= i < store.entries.len() ==> (#[trigger] store.entries[i]).block_uid <= block_uid
}

/// Rolling back to a record that nothing lies above changes nothing.
pub proof fn lemma_rollback_to_the_end(store: Store, block_uid: int)
    requires
        ends_at(store, block_uid),
    ensures
        rolled_back(store, block_uid) == store,
{
    let after = rolled_back(store, block_uid);
    lemma_filter_all(store.entries, entries_up_to(block_uid));
    lemma_filter_none(store.entries, entries_above(block_uid));
    lemma_filter_all(store.blocks, blocks_up_to(block_uid));
    let gone = store.deleted_entries(block_uid);
    assert(gone.len() == 0);
    let lowest = lowest_uids(gone);
    assert forall|uid: int| !lowest.contains(uid) by {
        if lowest.contains(uid) {
            let d = choose|d: DeletedView| #[trigger] is_lowest(gone, d) && d.uid == uid;
            assert(gone.contains(d));
        }
    }
    assert(after.entries =~= store.entries);
}

/// The store after several appends of blocks or microblocks, in order.
pub open spec fn appended_all(store: Store, batches: Seq<Seq<AppendView>>) -> Store
    decreases batches.len(),
{
    if batches.len() == 0 {
        store
    } else {
        appended(appended_all(store, batches.drop_last()), batches.last())
    }
}

/// Whether the sequence has a uid for each data entry of each append.
pub open spec fn uids_last(store: Store, batches: Seq<Seq<AppendView>>) -> bool
    decreases batches.len(),
{
    if batches.len() == 0 {
        true
    } else {
        let before = appended_all(store, batches.drop_last());
        uids_last(store, batches.drop_last()) && before.next_uid + flatten_pairs(
            batches.last(),
            before.block_seq,
        ).len() <= MAX_UID
    }
}

/// Appends keep the store well formed and never lower the sequence of
/// records.
pub proof fn lemma_appended_all_well_formed(store: Store, batches: Seq<Seq<AppendView>>)
    requires
        well_formed(store),
        uids_last(store, batches),
    ensures
        well_formed(appended_all(store, batches)),
        store.block_seq <= appended_all(store, batches).block_seq,
    decreases batches.len(),
{
    if batches.len() > 0 {
        lemma_appended_all_well_formed(store, batches.drop_last());
        lemma_appended_well_formed(appended_all(store, batches.drop_last()), batches.last());
    }
}

/// Rollback is a left inverse of appending: after any appends to a store
/// that ends at a record, rolling back to that record gives the tables that
/// the store had.
pub proof fn lemma_rollback_is_left_inverse(
    store: Store,
    batches: Seq<Seq<AppendView>>,
    block_uid: int,
)
    requires
        well_formed(store),
        uids_last(store, batches),
        ends_at(store, block_uid),
        block_uid < store.block_seq,
    ensures
        same_tables(rolled_back(appended_all(store, batches), block_uid), store),
    decreases batches.len(),
{
    if batches.len() == 0 {
        lemma_rollback_to_the_end(store, block_uid);
    } else {
        let before = appended_all(store, batches.drop_last());
        lemma_rollback_is_left_inverse(store, batches.drop_last(), block_uid);
        lemma_appended_all_well_formed(store, batches.drop_last());
        lemma_rollback_undoes_append(before, batches.last(), block_uid);
    }
}

/// Whether every microblock lies above the record `block_uid`.
pub open spec fn microblocks_above(store: Store, block_uid: int) -> bool {
    forall|i: int|
        0 <= i < store.blocks.len() && (#[trigger] store.blocks[i]).time_stamp is None
            ==> store.blocks[i].uid > block_uid
}

/// Whether the last key block lies above the record `block_uid`.
pub open spec fn key_block_above(store: Store, block_uid: int) -> bool {
    store.last_key_block() is Some && store.last_key_block()->0.uid > block_uid
}

/// Handing data entries to a record above `block_uid` does not change what
/// a rollback to `block_uid` leaves of the data entries.
#[verifier::rlimit(40)]
pub proof fn lemma_rollback_after_repoint(store: Store, key_uid: int, block_uid: int)
    requires
        entries_follow_blocks(store),
        key_uid > block_uid,
    ensures
        rolled_back(store.repoint_entries(key_uid), block_uid).entries == rolled_back(
            store,
            block_uid,
        ).entries,
{
    let folded = store.repoint_entries(key_uid);
    let up = entries_up_to(block_uid);
    let above = entries_above(block_uid);
    let rows = store.entries;
    let moved = folded.entries;
    assert forall|i: int| 0 <= i < rows.len() implies #[trigger] moved[i] == repoint_row(
        rows[i],
        key_uid,
    ) by {}
    let k = lemma_filter_splits(rows, up, above);
    assert forall|i: int, j: int| 0 <= i <= j < moved.len() && up(#[trigger] moved[j]) implies up(
        #[trigger] moved[i],
    ) by {
        assert(moved[i] == repoint_row(rows[i], key_uid));
        assert(moved[j] == repoint_row(rows[j], key_uid));
        assert(rows[i].block_uid <= rows[j].block_uid);
    }
    let k2 = lemma_filter_splits(moved, up, above);
    assert(k2 == k) by {
        if k2 < k {
            assert(!up(moved[k2]));
            assert(moved[k2] == repoint_row(rows[k2], key_uid));
            assert(up(rows[k2]));
        }
        if k < k2 {
            assert(up(moved[k]));
            assert(moved[k] == repoint_row(rows[k], key_uid));
            assert(!up(rows[k]));
        }
    }
    let gone = store.deleted_entries(block_uid);
    let gone_folded = folded.deleted_entries(block_uid);
    assert(gone_folded =~= gone) by {
        assert forall|i: int| 0 <= i < rows.len() - k implies gone_folded[i] == gone[i] by {
            assert(moved.skip(k)[i] == moved[k + i]);
            assert(rows.skip(k)[i] == rows[k + i]);
            assert(moved[k + i] == repoint_row(rows[k + i], key_uid));
        }
    }
    let back = rolled_back(store, block_uid);
    let back_folded = rolled_back(folded, block_uid);
    assert(back_folded.entries =~= back.entries) by {
        assert forall|i: int| 0 <= i < k implies back_folded.entries[i] == back.entries[i] by {
            assert(moved.take(k)[i] == moved[i]);
            assert(rows.take(k)[i] == rows[i]);
            assert(moved[i] == repoint_row(rows[i], key_uid));
            assert(up(rows[i]));
        }
    }
}

/// Of key blocks up to `block_uid`, followed by records above it, a squash
/// into a key block above `block_uid` and a rollback to `block_uid` leave
/// the former.
#[verifier::rlimit(40)]
pub proof fn lemma_rollback_after_fold(
    low: Seq<BlockRow>,
    high: Seq<BlockRow>,
    key_uid: int,
    id: Seq<char>,
    block_uid: int,
)
    requires
        forall|i: int|
            0 <= i < low.len() ==> (#[trigger] low[i]).time_stamp is Some && low[i].uid
                <= block_uid,
        forall|i: int| 0 <= i < high.len() ==> (#[trigger] high[i]).uid > block_uid,
        key_uid > block_uid,
    ensures
        (low + high).filter(key_blocks()).map_values(
            |b: BlockRow| rename_row(b, key_uid, id),
        ).filter(blocks_up_to(block_uid)) == low,
{
    let keeps = blocks_up_to(block_uid);
    let renamed = |b: BlockRow| rename_row(b, key_uid, id);
    lemma_filter_all(low, key_blocks());
    Seq::filter_distributes_over_add(low, high, key_blocks());
    let kept_high = high.filter(key_blocks());
    let low_renamed = low.map_values(renamed);
    let high_renamed = kept_high.map_values(renamed);
    assert((low + kept_high).map_values(renamed) =~= low_renamed + high_renamed);
    assert(low_renamed =~= low);
    assert forall|i: int| 0 <= i < high_renamed.len() implies !keeps(#[trigger] high_renamed[i]) by {
        assert(high.filter(key_blocks()).contains(kept_high[i]));
        high.lemma_filter_contains_rev(key_blocks(), kept_high[i]);
        let at = choose|at: int| 0 <= at < high.len() && high[at] == kept_high[i];
        assert(high[at].uid > block_uid);
    }
    lemma_filter_none(high_renamed, keeps);
    lemma_filter_all(low, keeps);
    Seq::filter_distributes_over_add(low, high_renamed, keeps);
    assert(low + Seq::<BlockRow>::empty() =~= low);
}

/// Rollback undoes a squash: where the microblocks and the key block into
/// which they are folded lie above a record, rolling back to that record
/// gives the tables that the same rollback gives without the squash.
pub proof fn lemma_rollback_undoes_squash(store: Store, block_uid: int)
    requires
        well_formed(store),
        microblocks_above(store, block_uid),
        store.last_microblock() is Some ==> key_block_above(store, block_uid),
    ensures
        same_tables(rolled_back(squashed(store), block_uid), rolled_back(store, block_uid)),
{
    if store.last_microblock() is Some {
        let micro = store.last_microblock()->0;
        let key = store.last_key_block()->0;
        lemma_rollback_after_repoint(store, key.uid, block_uid);
        let k = lemma_blocks_split(store, block_uid);
        let low = store.blocks.take(k);
        let high = store.blocks.skip(k);
        assert(store.blocks =~= low + high);
        assert forall|i: int| 0 <= i < low.len() implies (#[trigger] low[i]).time_stamp is Some
            && low[i].uid <= block_uid by {
            assert(low[i] == store.blocks[i]);
        }
        assert forall|i: int| 0 <= i < high.len() implies (#[trigger] high[i]).uid > block_uid by {
            assert(high[i] == store.blocks[k + i]);
        }
        lemma_rollback_after_fold(low, high, key.uid, micro.id, block_uid);
    }
}

/// Whether `items` are appends that can be rolled back as a whole: none of
/// them is a rollback, each is timed as its kind asks, no run of blocks is
/// empty, and the first of them is a run of blocks.
pub open spec fn appends_only(items: Seq<ItemView>) -> bool {
    &&& forall|i: int|
        0 <= i < items.len() ==> !((#[trigger] items[i]) is Rollback) && well_timed(items[i]) && (
        items[i] is Blocks ==> items[i]->Blocks_0.len() > 0)
    &&& items.len() > 0 ==> items[0] is Blocks
}

/// Whether the sequence has a uid for each data entry of the step.
pub open spec fn step_fits(store: Store, item: ItemView) -> bool {
    match item {
        ItemView::Blocks(blocks) => squashed(store).next_uid + flatten_pairs(
            blocks,
            squashed(store).block_seq,
        ).len() <= MAX_UID,
        ItemView::Microblock(micro) => store.next_uid + flatten_pairs(
            seq![micro],
            store.block_seq,
        ).len() <= MAX_UID,
        ItemView::Rollback(_) => true,
    }
}

/// Whether the sequence has a uid for each data entry of each step.
pub open spec fn steps_fit(store: Store, items: Seq<ItemView>) -> bool
    decreases items.len(),
{
    if items.len() == 0 {
        true
    } else {
        steps_fit(store, items.drop_last()) && step_fits(
            applied_all(store, items.drop_last()),
            items.last(),
        )
    }
}

/// What holds of the store while appends are ingested after a store that
/// ended at the record `block_uid`.
pub open spec fn extends(store: Store, grown: Store, steps: nat, block_uid: int) -> bool {
    &&& well_formed(grown)
    &&& block_uid < grown.block_seq
    &&& same_tables(rolled_back(grown, block_uid), store)
    &&& microblocks_above(grown, block_uid)
    &&& if steps == 0 {
        grown == store
    } else {
        key_block_above(grown, block_uid)
    }
}

/// Ingesting appends keeps what `extends` says.
#[verifier::rlimit(40)]
pub proof fn lemma_steps_extend(store: Store, items: Seq<ItemView>, block_uid: int)
    requires
        well_formed(store),
        all_key_blocks(store.blocks),
        ends_at(store, block_uid),
        block_uid < store.block_seq,
        appends_only(items),
        steps_fit(store, items),
    ensures
        extends(store, applied_all(store, items), items.len(), block_uid),
    decreases items.len(),
{
    if items.len() == 0 {
        lemma_rollback_to_the_end(store, block_uid);
    } else {
        let init = items.drop_last();
        let item = items.last();
        assert(item == items[items.len() - 1]);
        assert forall|i: int| 0 <= i < init.len() implies !((#[trigger] init[i]) is Rollback)
            && well_timed(init[i]) && (init[i] is Blocks ==> init[i]->Blocks_0.len() > 0) by {
            assert(init[i] == items[i]);
        }
        if init.len() > 0 {
            assert(init[0] == items[0]);
        }
        lemma_steps_extend(store, init, block_uid);
        let before = applied_all(store, init);
        let after = applied(before, item);
        match item {
            ItemView::Blocks(appends) => {
                if init.len() == 0 {
                    lemma_no_microblock(before.blocks);
                } else {
                    lemma_rollback_undoes_squash(before, block_uid);
                }
                let folded = squashed(before);
                lemma_squashed_well_formed(before);
                lemma_squashed_all_key_blocks(before);
                lemma_rollback_undoes_append(folded, appends, block_uid);
                lemma_appended_well_formed(folded, appends);
                lemma_appended_all_key_blocks(folded, appends);
                let blocks = appends.map_values(|a: AppendView| block_of(a));
                let added = folded.new_blocks(blocks);
                assert(after.blocks =~= folded.blocks + added);
                assert(after.blocks.last() == added[added.len() - 1]);
                assert(appends[appends.len() - 1].time_stamp is Some);
            },
            ItemView::Microblock(micro) => {
                assert(items[0] is Blocks);
                assert(init.len() > 0);
                let appends = seq![micro];
                lemma_rollback_undoes_append(before, appends, block_uid);
                lemma_appended_well_formed(before, appends);
                let blocks = appends.map_values(|a: AppendView| block_of(a));
                let added = before.new_blocks(blocks);
                assert(after.blocks =~= before.blocks + added);
                assert(after.blocks.last() == added[0]);
                assert(after.blocks.drop_last() =~= before.blocks);
                assert forall|i: int|
                    0 <= i < after.blocks.len() && (
                    #[trigger] after.blocks[i]).time_stamp is None implies after.blocks[i].uid
                    > block_uid by {
                    if i < before.blocks.len() {
                        assert(after.blocks[i] == before.blocks[i]);
                    }
                }
            },
            ItemView::Rollback(id) => {},
        }
    }
}

/// Rollback is a left inverse of ingestion: after blocks and microblocks
/// were ingested into a store of key blocks that ended at a record, rolling
/// back to that record gives the tables that the store had.
pub proof fn lemma_rollback_undoes_ingestion(store: Store, items: Seq<ItemView>, block_uid: int)
    requires
        well_formed(store),
        all_key_blocks(store.blocks),
        ends_at(store, block_uid),
        block_uid < store.block_seq,
        appends_only(items),
        steps_fit(store, items),
    ensures
        same_tables(rolled_back(applied_all(store, items), block_uid), store),
{
    lemma_steps_extend(store, items, block_uid);
}

} // verus!
