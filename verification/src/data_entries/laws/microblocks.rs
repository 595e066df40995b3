//! Microblocks: where they lie, and what a squash makes of them.
use crate::data_entries::{AppendView, UpdateEvent};
use crate::data_entries::daemon::{
    appended, applied, block_of, coalesced, squashed, taken_in, ItemView,
};
use crate::data_entries::laws::integrity::{lemma_last_of_kind, uids_ordered};
use crate::data_entries::laws::sequences::lemma_filter_splits;
use crate::data_entries::store::{
    blocks_up_to, key_blocks, last_of_kind, rename_row, BlockRow, Store,
};
use vstd::prelude::*;

verus! {

/// Squashing a store without microblocks changes nothing.
pub proof fn lemma_squash_without_microblocks(store: Store)
    requires
        store.last_microblock() is None,
    ensures
        squashed(store) == store,
{
}

/// Records that are all key blocks have no last microblock.
pub proof fn lemma_no_microblock(blocks: Seq<BlockRow>)
    requires
        forall|i: int| 0 <= i < blocks.len() ==> (#[trigger] blocks[i]).time_stamp is Some,
    ensures
        last_of_kind(blocks, false) is None,
    decreases blocks.len(),
{
    if blocks.len() > 0 {
        assert(blocks[blocks.len() - 1].time_stamp is Some);
        assert forall|i: int| 0 <= i < blocks.drop_last().len() implies (
        #[trigger] blocks.drop_last()[i]).time_stamp is Some by {
            assert(blocks.drop_last()[i] == blocks[i]);
        }
        lemma_no_microblock(blocks.drop_last());
    }
}

/// Squashing twice is squashing once.
pub proof fn lemma_squash_idempotent(store: Store)
    ensures
        squashed(squashed(store)) == squashed(store),
{
    match (store.last_microblock(), store.last_key_block()) {
        (Some(micro), Some(key)) => {
            let after = squashed(store);
            let kept = store.blocks.filter(key_blocks());
            assert forall|i: int| 0 <= i < after.blocks.len() implies (
            #[trigger] after.blocks[i]).time_stamp is Some by {
                store.blocks.lemma_filter_pred(key_blocks(), i);
                assert(after.blocks[i] == rename_row(kept[i], key.uid, micro.id));
            }
            lemma_no_microblock(after.blocks);
        },
        _ => {},
    }
}

/// Whether the microblocks come after every key block.
pub open spec fn microblocks_last(blocks: Seq<BlockRow>) -> bool {
    forall|i: int, j: int|
        0 <= i < j < blocks.len() && (#[trigger] blocks[i]).time_stamp is None ==> (
        #[trigger] blocks[j]).time_stamp is None
}

/// Whether every record is a key block.
pub open spec fn all_key_blocks(blocks: Seq<BlockRow>) -> bool {
    forall|i: int| 0 <= i < blocks.len() ==> (#[trigger] blocks[i]).time_stamp is Some
}

/// Whether a step is timed as its kind asks: every block of a run of blocks
/// has a time stamp, and a microblock has none.
pub open spec fn well_timed(item: ItemView) -> bool {
    match item {
        ItemView::Blocks(blocks) => forall|i: int|
            0 <= i < blocks.len() ==> (#[trigger] blocks[i]).time_stamp is Some,
        ItemView::Microblock(micro) => micro.time_stamp is None,
        ItemView::Rollback(_) => true,
    }
}

/// Whether the microblocks of the store, if it has any, have a key block
/// to be folded into.
pub open spec fn squashable(store: Store) -> bool {
    store.last_microblock() is Some ==> store.last_key_block() is Some
}

/// A squashed store holds key blocks only.
pub proof fn lemma_squashed_all_key_blocks(store: Store)
    requires
        squashable(store),
    ensures
        all_key_blocks(squashed(store).blocks),
{
    let after = squashed(store);
    if store.last_microblock() is Some {
        let micro = store.last_microblock()->0;
        let key = store.last_key_block()->0;
        let kept = store.blocks.filter(key_blocks());
        assert forall|i: int| 0 <= i < after.blocks.len() implies (
        #[trigger] after.blocks[i]).time_stamp is Some by {
            store.blocks.lemma_filter_pred(key_blocks(), i);
            assert(after.blocks[i] == rename_row(kept[i], key.uid, micro.id));
        }
    } else {
        lemma_last_of_kind(store.blocks, false);
    }
}

/// A run of timed blocks appended to key blocks leaves key blocks only.
pub proof fn lemma_appended_all_key_blocks(store: Store, appends: Seq<AppendView>)
    requires
        all_key_blocks(store.blocks),
        well_timed(ItemView::Blocks(appends)),
    ensures
        all_key_blocks(appended(store, appends).blocks),
{
    let blocks = appends.map_values(|a: AppendView| block_of(a));
    let after = appended(store, appends);
    let m = store.blocks.len() as int;
    assert forall|i: int| 0 <= i < after.blocks.len() implies (
    #[trigger] after.blocks[i]).time_stamp is Some by {
        if i < m {
            assert(after.blocks[i] == store.blocks[i]);
        } else {
            assert(after.blocks[i] == store.new_blocks(blocks)[i - m]);
            assert(appends[i - m].time_stamp is Some);
        }
    }
}

/// Records in the order of their uids are those up to `block_uid`, then
/// those above it.
pub proof fn lemma_blocks_split(store: Store, block_uid: int) -> (k: int)
    requires
        uids_ordered(store),
    ensures
        0 <= k <= store.blocks.len(),
        store.blocks.filter(blocks_up_to(block_uid)) == store.blocks.take(k),
        forall|i: int| 0 <= i < k ==> (#[trigger] store.blocks[i]).uid <= block_uid,
        forall|i: int| k <= i < store.blocks.len() ==> (#[trigger] store.blocks[i]).uid > block_uid,
{
    let blocks = store.blocks;
    let keeps = blocks_up_to(block_uid);
    let drops = |b: BlockRow| b.uid > block_uid;
    assert forall|i: int, j: int| 0 <= i <= j < blocks.len() && keeps(#[trigger] blocks[j]) implies keeps(
        #[trigger] blocks[i],
    ) by {
        if i < j {
            assert(blocks[i].uid < blocks[j].uid);
        }
    }
    let k = lemma_filter_splits(blocks, keeps, drops);
    assert forall|i: int| 0 <= i < k implies (#[trigger] blocks[i]).uid <= block_uid by {
        assert(keeps(blocks[i]));
    }
    assert forall|i: int| k <= i < blocks.len() implies (#[trigger] blocks[i]).uid > block_uid by {
        assert(!keeps(blocks[i]));
    }
    k
}

/// Every step that is timed as its kind asks keeps the microblocks after
/// the key blocks: no key block comes after a microblock.
#[verifier::rlimit(40)]
pub proof fn lemma_applied_keeps_microblocks_last(store: Store, item: ItemView)
    requires
        uids_ordered(store),
        microblocks_last(store.blocks),
        well_timed(item),
        item is Blocks ==> squashable(store),
    ensures
        microblocks_last(applied(store, item).blocks),
{
    let after = applied(store, item);
    match item {
        ItemView::Blocks(appends) => {
            lemma_squashed_all_key_blocks(store);
            lemma_appended_all_key_blocks(squashed(store), appends);
        },
        ItemView::Microblock(micro) => {
            let blocks = seq![micro].map_values(|a: AppendView| block_of(a));
            let m = store.blocks.len() as int;
            assert(after.blocks =~= store.blocks + store.new_blocks(blocks));
            assert forall|i: int, j: int|
                0 <= i < j < after.blocks.len() && (
                #[trigger] after.blocks[i]).time_stamp is None implies (
            #[trigger] after.blocks[j]).time_stamp is None by {
                assert(after.blocks[i] == store.blocks[i]);
                if j < m {
                    assert(after.blocks[j] == store.blocks[j]);
                } else {
                    assert(after.blocks[j] == store.new_blocks(blocks)[j - m]);
                }
            }
        },
        ItemView::Rollback(id) => {
            if store.block_with_id(id) is Some {
                let uid = store.block_with_id(id)->0.uid;
                let above = |b: BlockRow| b.uid > uid;
                assert forall|i: int, j: int|
                    0 <= i <= j < store.blocks.len() && blocks_up_to(uid)(
                        #[trigger] store.blocks[j],
                    ) implies blocks_up_to(uid)(#[trigger] store.blocks[i]) by {
                    if i < j {
                        assert(store.blocks[i].uid < store.blocks[j].uid);
                    }
                }
                let k = lemma_filter_splits(store.blocks, blocks_up_to(uid), above);
                assert(after.blocks == store.blocks.take(k));
                assert forall|i: int, j: int|
                    0 <= i < j < after.blocks.len() && (
                    #[trigger] after.blocks[i]).time_stamp is None implies (
                #[trigger] after.blocks[j]).time_stamp is None by {
                    assert(after.blocks[i] == store.blocks[i]);
                    assert(after.blocks[j] == store.blocks[j]);
                }
            }
        },
    }
}

/// Whether an update is timed as its kind asks.
pub open spec fn timed_update(update: UpdateEvent) -> bool {
    match update {
        UpdateEvent::Block(block) => block.time_stamp is Some,
        UpdateEvent::Microblock(micro) => micro.time_stamp is None,
        UpdateEvent::Rollback(_) => true,
    }
}

/// The steps of updates that are timed as their kinds ask are timed so too.
pub proof fn lemma_coalesced_well_timed(updates: Seq<UpdateEvent>)
    requires
        forall|i: int| 0 <= i < updates.len() ==> timed_update(#[trigger] updates[i]),
    ensures
        forall|i: int|
            0 <= i < coalesced(updates).len() ==> well_timed(#[trigger] coalesced(updates)[i]),
    decreases updates.len(),
{
    if updates.len() > 0 {
        let init = updates.drop_last();
        assert forall|i: int| 0 <= i < init.len() implies timed_update(#[trigger] init[i]) by {
            assert(init[i] == updates[i]);
        }
        lemma_coalesced_well_timed(init);
        let items = coalesced(init);
        let all = coalesced(updates);
        assert(timed_update(updates[updates.len() - 1]));
        assert(all == taken_in(items, updates.last()));
        assert forall|i: int| 0 <= i < all.len() implies well_timed(#[trigger] all[i]) by {
            if i < all.len() - 1 {
                if i < items.len() {
                    assert(all[i] == items[i]);
                }
            } else {
                match updates.last() {
                    UpdateEvent::Block(block) => {
                        if items.len() > 0 && items.last() is Blocks {
                            let run = items.last()->Blocks_0;
                            assert(well_timed(items[items.len() - 1]));
                            assert(all[i] == ItemView::Blocks(run.push(block)));
                            assert forall|k: int| 0 <= k < run.push(block).len() implies (
                            #[trigger] run.push(block)[k]).time_stamp is Some by {
                                if k < run.len() {
                                    assert(run.push(block)[k] == run[k]);
                                }
                            }
                        } else {
                            assert(all[i] == ItemView::Blocks(seq![block]));
                        }
                    },
                    UpdateEvent::Microblock(micro) => {},
                    UpdateEvent::Rollback(id) => {},
                }
            }
        }
    }
}

} // verus!
