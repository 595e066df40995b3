//! From the messages of the node to batches of blockchain updates.
use crate::data_entries::{
    entry_views, update_views, AppendView, BlockMicroblockAppend, BlockchainUpdate,
    BlockchainUpdatesWithLastHeight, DataEntry, DataEntryView, UpdateEvent,
};
use crate::data_entries::daemon::{clone_entry, column_height, column_to_height};
use crate::data_entries::entity::same_entity;
use crate::error::AppError;
use crate::text::chars_of;
use vstd::prelude::*;

verus! {

/// The base58 text of a byte string, in the Bitcoin alphabet.
pub uninterp spec fn base58(bytes: Seq<u8>) -> Seq<char>;

/// `bs58::encode(bytes).into_string()`: the base58 text of `bytes` in the
/// default alphabet. It is a function of the bytes alone and fails on none.
#[verifier::external_body]
fn encode_base58(bytes: &Vec<u8>) -> (encoded: String)
    ensures
        encoded@ == base58(bytes@),
{
    bs58::encode(bytes).into_string()
}

/// The value that a transaction writes under a key.
#[derive(Clone, Debug)]
pub enum RawValue {
    Binary(Vec<u8>),
    Bool(bool),
    Integer(i64),
    Text(String),
    /// No value: the transaction deletes the key.
    Absent,
}

/// A data entry as the node sends it.
#[derive(Clone, Debug)]
pub struct RawDataEntry {
    pub address: Vec<u8>,
    pub key: String,
    pub value: RawValue,
}

/// What an append carries besides transactions.
#[derive(Clone, Debug)]
pub enum RawBody {
    /// A block, with the time stamp of its header if it has one.
    Block { time_stamp: Option<i64> },
    /// A microblock, with the id of the block that it completes.
    MicroBlock { total_block_id: Vec<u8> },
    /// Nothing.
    Missing,
}

/// What a message announces.
#[derive(Clone, Debug)]
pub enum RawUpdate {
    /// A block or microblock: the ids of its transactions and, at the same
    /// positions, the data entries that each transaction writes.
    Append {
        body: RawBody,
        transaction_ids: Vec<Vec<u8>>,
        transaction_state_updates: Vec<Vec<RawDataEntry>>,
    },
    /// A rollback to the block that the message names.
    Rollback,
    /// Nothing.
    Missing,
}

/// A message of the node.
#[derive(Clone, Debug)]
pub struct RawBlockchainUpdated {
    pub id: Vec<u8>,
    pub height: i32,
    pub update: RawUpdate,
}

/// A text with every NUL replaced by a backslash and a zero.
pub open spec fn escaped(s: Seq<char>) -> Seq<char>
    decreases s.len(),
{
    if s.len() == 0 {
        Seq::empty()
    } else if s.last() == '\0' {
        escaped(s.drop_last()) + seq!['\\', '0']
    } else {
        escaped(s.drop_last()).push(s.last())
    }
}

/// Replaces every NUL of `s` by a backslash and a zero.
pub fn escape_nul(s: &str) -> (r: String)
    ensures
        r@ == escaped(s@),
{
    let chars = chars_of(s);
    let mut r = String::new();
    let mut i: usize = 0;
    while i < chars.len()
        invariant
            i <= chars.len(),
            chars@ == s@,
            r@ == escaped(s@.take(i as int)),
        decreases chars.len() - i,
    {
        proof {
            let upto = s@.take(i + 1);
            assert(upto.drop_last() =~= s@.take(i as int));
            assert(upto.last() == chars@[i as int]);
        }
        if chars[i] == '\0' {
            let ghost before = r@;
            r.push('\\');
            r.push('0');
            assert(r@ =~= before + seq!['\\', '0']);
        } else {
            r.push(chars[i]);
        }
        i = i + 1;
    }
    assert(s@.take(chars.len() as int) =~= s@);
    r
}

/// The data entry that a raw one becomes, given the base58 texts of its
/// address and of the id of its transaction: texts have their NULs escaped,
/// and the value fills the column of its type.
pub open spec fn entry_of(
    address: Seq<char>,
    transaction_id: Seq<char>,
    key: Seq<char>,
    value: RawValue,
) -> DataEntryView {
    DataEntryView {
        address: address,
        key: escaped(key),
        transaction_id: transaction_id,
        value_binary: match value {
            RawValue::Binary(b) => Some(b@),
            _ => None,
        },
        value_bool: match value {
            RawValue::Bool(b) => Some(b),
            _ => None,
        },
        value_integer: match value {
            RawValue::Integer(i) => Some(i),
            _ => None,
        },
        value_string: match value {
            RawValue::Text(t) => Some(escaped(t@)),
            _ => None,
        },
    }
}

/// Builds a data entry from a raw one and the base58 texts of its address
/// and of the id of its transaction.
pub fn data_entry_of(address: String, transaction_id: String, raw: &RawDataEntry) -> (entry:
    DataEntry)
    ensures
        entry@ == entry_of(address@, transaction_id@, raw.key@, raw.value),
{
    let key = escape_nul(raw.key.as_str());
    match &raw.value {
        RawValue::Binary(b) => {
            let copy = b.clone();
            assert(copy@ =~= b@);
            DataEntry {
                address,
                key,
                transaction_id,
                value_binary: Some(copy),
                value_bool: None,
                value_integer: None,
                value_string: None,
            }
        },
        RawValue::Bool(b) => DataEntry {
            address,
            key,
            transaction_id,
            value_binary: None,
            value_bool: Some(*b),
            value_integer: None,
            value_string: None,
        },
        RawValue::Integer(i) => DataEntry {
            address,
            key,
            transaction_id,
            value_binary: None,
            value_bool: None,
            value_integer: Some(*i),
            value_string: None,
        },
        RawValue::Text(t) => DataEntry {
            address,
            key,
            transaction_id,
            value_binary: None,
            value_bool: None,
            value_integer: None,
            value_string: Some(escape_nul(t.as_str())),
        },
        RawValue::Absent => DataEntry {
            address,
            key,
            transaction_id,
            value_binary: None,
            value_bool: None,
            value_integer: None,
            value_string: None,
        },
    }
}

/// The data entry that a raw one of the transaction `transaction_id`
/// becomes.
pub open spec fn decoded_entry(raw: RawDataEntry, transaction_id: Seq<u8>) -> DataEntryView {
    entry_of(base58(raw.address@), base58(transaction_id), raw.key@, raw.value)
}

/// The data entries of the transactions of an append, in order; the
/// transaction at a position has the id at that position.
pub open spec fn decoded_entries(updates: Seq<Vec<RawDataEntry>>, ids: Seq<Vec<u8>>) -> Seq<
    DataEntryView,
>
    decreases updates.len(),
{
    if updates.len() == 0 {
        Seq::empty()
    } else {
        decoded_entries(updates.drop_last(), ids) + updates.last()@.map_values(
            |raw: RawDataEntry| decoded_entry(raw, ids[updates.len() - 1]@),
        )
    }
}

/// Whether one of `entries` writes the `(address, key)` of `entry`.
pub open spec fn written_by(entries: Seq<DataEntryView>, entry: DataEntryView) -> bool {
    exists|j: int|
        0 <= j < entries.len() && (#[trigger] entries[j]).address == entry.address && entries[j].key
            == entry.key
}

/// For each `(address, key)` that `entries` write, the last entry that
/// writes it, in the order of `entries`.
pub open spec fn last_writes(entries: Seq<DataEntryView>) -> Seq<DataEntryView>
    decreases entries.len(),
{
    if entries.len() == 0 {
        Seq::empty()
    } else if written_by(entries.drop_first(), entries[0]) {
        last_writes(entries.drop_first())
    } else {
        seq![entries[0]] + last_writes(entries.drop_first())
    }
}

/// Whether an entry after position `i` writes the `(address, key)` of the
/// entry at `i`.
pub fn is_written_again(entries: &Vec<DataEntry>, i: usize) -> (again: bool)
    requires
        i < entries.len(),
    ensures
        again == written_by(entry_views(entries@).skip(i + 1), entry_views(entries@)[i as int]),
{
    let ghost views = entry_views(entries@);
    let ghost rest = views.skip(i + 1);
    let mut j: usize = i + 1;
    while j < entries.len()
        invariant
            i < j <= entries.len(),
            views == entry_views(entries@),
            rest == views.skip(i + 1),
            forall|k: int|
                0 <= k < j - i - 1 ==> !((#[trigger] rest[k]).address == views[i as int].address
                    && rest[k].key == views[i as int].key),
        decreases entries.len() - j,
    {
        assert(rest[j - i - 1] == views[j as int]);
        if same_entity(&entries[j], &entries[i]) {
            return true;
        }
        j = j + 1;
    }
    false
}

/// Keeps, for each `(address, key)`, the last entry that writes it.
pub fn keep_last_writes(entries: &Vec<DataEntry>) -> (kept: Vec<DataEntry>)
    ensures
        entry_views(kept@) == last_writes(entry_views(entries@)),
{
    let ghost views = entry_views(entries@);
    let mut kept: Vec<DataEntry> = Vec::new();
    let mut i: usize = 0;
    assert(views.skip(0) =~= views);
    while i < entries.len()
        invariant
            i <= entries.len(),
            views == entry_views(entries@),
            entry_views(kept@) + last_writes(views.skip(i as int)) == last_writes(views),
        decreases entries.len() - i,
    {
        let again = is_written_again(entries, i);
        proof {
            assert(views.skip(i as int).drop_first() =~= views.skip(i + 1));
            assert(views.skip(i as int)[0] == views[i as int]);
        }
        if !again {
            let entry = clone_entry(&entries[i]);
            assert(entry_views(kept@.push(entry)) =~= entry_views(kept@) + seq![entry@]);
            assert((entry_views(kept@) + seq![entry@]) + last_writes(views.skip(i + 1))
                =~= entry_views(kept@) + (seq![entry@] + last_writes(views.skip(i + 1))));
            kept.push(entry);
        }
        i = i + 1;
    }
    assert(entry_views(kept@) + last_writes(views.skip(entries.len() as int)) =~= entry_views(
        kept@,
    ));
    kept
}

/// The data entries that an append carries: `None` where a transaction has
/// no id.
pub open spec fn carried_entries(updates: Seq<Vec<RawDataEntry>>, ids: Seq<Vec<u8>>) -> Option<
    Seq<DataEntryView>,
> {
    if updates.len() <= ids.len() {
        Some(last_writes(decoded_entries(updates, ids)))
    } else {
        None
    }
}

/// The update that a message decodes to: `None` where the message has no
/// update, an append has no body, or a transaction has no id.
pub open spec fn decoded(value: RawBlockchainUpdated) -> Option<UpdateEvent> {
    match value.update {
        RawUpdate::Append { body, transaction_ids, transaction_state_updates } => match (
            body,
            carried_entries(transaction_state_updates@, transaction_ids@),
        ) {
            (RawBody::Block { time_stamp }, Some(entries)) => Some(
                UpdateEvent::Block(
                    AppendView {
                        id: base58(value.id@),
                        time_stamp: time_stamp,
                        height: column_height(value.height),
                        data_entries: entries,
                    },
                ),
            ),
            (RawBody::MicroBlock { total_block_id }, Some(entries)) => Some(
                UpdateEvent::Microblock(
                    AppendView {
                        id: base58(total_block_id@),
                        time_stamp: None,
                        height: column_height(value.height),
                        data_entries: entries,
                    },
                ),
            ),
            _ => None,
        },
        RawUpdate::Rollback => Some(UpdateEvent::Rollback(base58(value.id@))),
        RawUpdate::Missing => None,
    }
}

/// Decodes the data entries of the transactions of an append; there are
/// none where a transaction has no id.
pub fn decode_entries(updates: &Vec<Vec<RawDataEntry>>, ids: &Vec<Vec<u8>>) -> (decoded: Option<
    Vec<DataEntry>,
>)
    ensures
        decoded is Some <==> updates.len() <= ids.len(),
        decoded matches Some(entries) ==> entry_views(entries@) == decoded_entries(
            updates@,
            ids@,
        ),
{
    if updates.len() > ids.len() {
        return None;
    }
    let mut entries: Vec<DataEntry> = Vec::new();
    let mut i: usize = 0;
    while i < updates.len()
        invariant
            i <= updates.len() <= ids.len(),
            entry_views(entries@) == decoded_entries(updates@.take(i as int), ids@),
        decreases updates.len() - i,
    {
        let raws = &updates[i];
        let ghost done = entry_views(entries@);
        let ghost model = raws@.map_values(|raw: RawDataEntry| decoded_entry(raw, ids@[i as int]@));
        let mut k: usize = 0;
        while k < raws.len()
            invariant
                k <= raws.len(),
                i < ids.len(),
                model == raws@.map_values(|raw: RawDataEntry| decoded_entry(raw, ids@[i as int]@)),
                entry_views(entries@) == done + model.take(k as int),
            decreases raws.len() - k,
        {
            let entry = data_entry_of(
                encode_base58(&raws[k].address),
                encode_base58(&ids[i]),
                &raws[k],
            );
            assert(entry@ == model[k as int]);
            assert(entry_views(entries@.push(entry)) =~= done + model.take(k + 1)) by {
                let was = entry_views(entries@);
                assert(was == done + model.take(k as int));
                assert(was.len() == done.len() + k);
                assert forall|x: int| 0 <= x < was.len() implies entry_views(
                    entries@.push(entry),
                )[x] == (done + model.take(k + 1))[x] by {
                    assert(entry_views(entries@.push(entry))[x] == was[x]);
                    assert(was[x] == (done + model.take(k as int))[x]);
                }
            }
            entries.push(entry);
            k = k + 1;
        }
        proof {
            assert(model.take(raws.len() as int) =~= model);
            let upto = updates@.take(i + 1);
            assert(upto.drop_last() =~= updates@.take(i as int));
            assert(upto.last() == updates@[i as int]);
        }
        i = i + 1;
    }
    assert(updates@.take(updates.len() as int) =~= updates@);
    Some(entries)
}

impl BlockchainUpdate {
    /// Decodes a message of the node. A message without update, an append
    /// without body and an append with a transaction that has no id are
    /// invalid.
    pub fn try_from(value: RawBlockchainUpdated) -> (r: Result<BlockchainUpdate, AppError>)
        ensures
            match decoded(value) {
                Some(update) => r matches Ok(found) && found@ == update,
                None => r matches Err(AppError::InvalidMessage(_)),
            },
    {
        match &value.update {
            RawUpdate::Append { body, transaction_ids, transaction_state_updates } => {
                let entries = match decode_entries(transaction_state_updates, transaction_ids) {
                    Some(entries) => keep_last_writes(&entries),
                    None => {
                        return Err(
                            AppError::InvalidMessage(
                                String::from_str("A transaction of the append has no id."),
                            ),
                        );
                    },
                };
                match body {
                    RawBody::Block { time_stamp } => Ok(
                        BlockchainUpdate::Block(
                            BlockMicroblockAppend {
                                id: encode_base58(&value.id),
                                time_stamp: *time_stamp,
                                height: column_to_height(value.height),
                                data_entries: entries,
                            },
                        ),
                    ),
                    RawBody::MicroBlock { total_block_id } => Ok(
                        BlockchainUpdate::Microblock(
                            BlockMicroblockAppend {
                                id: encode_base58(total_block_id),
                                time_stamp: None,
                                height: column_to_height(value.height),
                                data_entries: entries,
                            },
                        ),
                    ),
                    RawBody::Missing => Err(
                        AppError::InvalidMessage(String::from_str("Append body is empty.")),
                    ),
                }
            },
            RawUpdate::Rollback => Ok(BlockchainUpdate::Rollback(encode_base58(&value.id))),
            RawUpdate::Missing => Err(
                AppError::InvalidMessage(String::from_str("Unknown blockchain update.")),
            ),
        }
    }
}

/// Gathers updates into batches.
#[derive(Debug)]
pub struct Batcher {
    /// The updates of the batch that is being gathered.
    pub pending: Vec<BlockchainUpdate>,
    /// The height of the last update taken in.
    pub last_height: u32,
    /// The instant at which the batch was begun.
    pub started_at: u64,
    /// The number of updates at which a batch is full.
    pub batch_max_size: usize,
    /// The time for which a batch may be gathered.
    pub batch_max_wait: u64,
}

/// A batch as its updates and the height of the last of them.
pub open spec fn batch_view(batch: BlockchainUpdatesWithLastHeight) -> (Seq<UpdateEvent>, u32) {
    (update_views(batch.updates@), batch.last_height)
}

impl Batcher {
    /// Whether the batch is handed on once `update` is in it: at once for a
    /// microblock or a rollback; for a block, when the batch is full or has
    /// been gathered for long enough.
    pub open spec fn flushes(self, update: UpdateEvent, now: u64) -> bool {
        update is Block ==> self.pending.len() + 1 >= self.batch_max_size || now - self.started_at
            >= self.batch_max_wait
    }

    /// A batcher that has taken nothing in, as of `now`.
    pub fn new(from_height: u32, batch_max_size: usize, batch_max_wait: u64, now: u64) -> (batcher:
        Batcher)
        ensures
            batcher.pending@.len() == 0,
            batcher.last_height == from_height,
            batcher.started_at == now,
            batcher.batch_max_size == batch_max_size,
            batcher.batch_max_wait == batch_max_wait,
    {
        Batcher {
            pending: Vec::new(),
            last_height: from_height,
            started_at: now,
            batch_max_size,
            batch_max_wait,
        }
    }

    /// Whether `after` and `batch` are what taking in `update` of height
    /// `height` at the instant `now` makes of the batcher `self`: the
    /// update joins the pending ones; these are handed on as a batch, and
    /// the next batch begins empty at `now`, if and only if the batch
    /// flushes.
    pub open spec fn takes_in(
        self,
        update: UpdateEvent,
        height: u32,
        now: u64,
        after: Batcher,
        batch: Option<BlockchainUpdatesWithLastHeight>,
    ) -> bool {
        let gathered = update_views(self.pending@).push(update);
        &&& after.last_height == height
        &&& after.batch_max_size == self.batch_max_size
        &&& after.batch_max_wait == self.batch_max_wait
        &&& if self.flushes(update, now) {
            &&& batch is Some
            &&& batch_view(batch->0) == (gathered, height)
            &&& after.pending@.len() == 0
            &&& after.started_at == now
        } else {
            &&& batch is None
            &&& update_views(after.pending@) == gathered
            &&& after.started_at == self.started_at
        }
    }

    /// Takes in the update of height `height` at the instant `now`, and
    /// returns the batch if it is to be handed on.
    pub fn push(&mut self, update: BlockchainUpdate, height: u32, now: u64) -> (batch: Option<
        BlockchainUpdatesWithLastHeight,
    >)
        ensures
            old(self).takes_in(update@, height, now, *final(self), batch),
    {
        let flush = match &update {
            BlockchainUpdate::Block(_) => self.batch_max_size == 0 || self.pending.len()
                >= self.batch_max_size - 1 || (now >= self.started_at && now - self.started_at
                >= self.batch_max_wait),
            BlockchainUpdate::Microblock(_) => true,
            BlockchainUpdate::Rollback(_) => true,
        };
        assert(update_views(self.pending@.push(update)) =~= update_views(self.pending@).push(
            update@,
        ));
        self.pending.push(update);
        self.last_height = height;
        if flush {
            let mut updates: Vec<BlockchainUpdate> = Vec::new();
            core::mem::swap(&mut self.pending, &mut updates);
            self.started_at = now;
            Some(BlockchainUpdatesWithLastHeight { last_height: height, updates })
        } else {
            None
        }
    }

    /// Takes in what the stream has delivered at the instant `now`. A
    /// stream that has ended or delivered an empty message is closed; a
    /// message that does not decode is invalid. Neither changes the batcher.
    pub fn receive(&mut self, message: Option<RawBlockchainUpdated>, now: u64) -> (r: Result<
        Option<BlockchainUpdatesWithLastHeight>,
        AppError,
    >)
        ensures
            match message {
                None => r matches Err(AppError::StreamClosed(_)) && *final(self) == *old(self),
                Some(raw) => match decoded(raw) {
                    None => r matches Err(AppError::InvalidMessage(_)) && *final(self) == *old(self),
                    Some(update) => r is Ok && old(self).takes_in(
                        update,
                        column_height(raw.height),
                        now,
                        *final(self),
                        r->Ok_0,
                    ),
                },
            },
    {
        match message {
            Some(raw) => {
                let height = column_to_height(raw.height);
                match BlockchainUpdate::try_from(raw) {
                    Ok(update) => Ok(self.push(update, height, now)),
                    Err(e) => Err(e),
                }
            },
            None => Err(
                AppError::StreamClosed(
                    String::from_str("Empty message was received from the node."),
                ),
            ),
        }
    }
}

} // verus!
