//! Readiness of the service, judged by the time stamp of the last key block.
use vstd::prelude::*;

verus! {

/// Seconds between two polls of the store.
pub const POLL_INTERVAL_SECS: u64 = 60;

/// Seconds for which the last key block may stay the same before the
/// service counts as dead.
pub const MAX_BLOCK_AGE_SECS: u64 = 300;

/// What the readiness endpoint reports.
#[derive(Clone, Copy, Debug, PartialEq, Eq, Structural)]
pub enum Readiness {
    Ready,
    Dead,
}

/// What a poll of the store has found.
#[derive(Clone, Copy, Debug)]
pub enum Poll {
    /// The time stamp of the last key block.
    Timestamp(i64),
    /// The store holds no key block.
    NoBlock,
    /// The store could not be reached or asked.
    Failed,
}

/// The last time stamp seen, and when it was first seen.
#[derive(Clone, Copy, Debug)]
pub struct LastBlock {
    pub timestamp: i64,
    pub last_change: u64,
}

/// Whether a poll brings a time stamp later than the last one seen.
pub open spec fn advances(last_block: LastBlock, poll: Poll) -> bool {
    poll matches Poll::Timestamp(timestamp) && timestamp > last_block.timestamp
}

/// What is known after a poll at the instant `now`: a later time stamp is
/// taken over, with `now` as the instant of the change.
pub open spec fn observed(last_block: LastBlock, poll: Poll, now: u64) -> LastBlock {
    match poll {
        Poll::Timestamp(timestamp) if timestamp > last_block.timestamp => LastBlock {
            timestamp: timestamp,
            last_change: now,
        },
        _ => last_block,
    }
}

/// What a poll at the instant `now` reports: a poll that failed reports
/// dead; one with a later time stamp reports ready; any other reports dead
/// once more than `max_block_age` has passed since the last change.
pub open spec fn status(last_block: LastBlock, poll: Poll, now: u64, max_block_age: u64) -> Readiness {
    if poll is Failed {
        Readiness::Dead
    } else if advances(last_block, poll) {
        Readiness::Ready
    } else if now - last_block.last_change > max_block_age {
        Readiness::Dead
    } else {
        Readiness::Ready
    }
}

impl LastBlock {
    /// Nothing seen yet, as of `now`.
    pub fn new(now: u64) -> (last_block: LastBlock)
        ensures
            last_block == (LastBlock { timestamp: 0, last_change: now }),
    {
        LastBlock { timestamp: 0, last_change: now }
    }

    /// Takes in a poll made at the instant `now` and tells what to report.
    pub fn observe(&mut self, poll: Poll, now: u64, max_block_age: u64) -> (readiness: Readiness)
        ensures
            *final(self) == observed(*old(self), poll, now),
            readiness == status(*old(self), poll, now, max_block_age),
    {
        match poll {
            Poll::Timestamp(timestamp) => {
                if timestamp > self.timestamp {
                    self.timestamp = timestamp;
                    self.last_change = now;
                    return Readiness::Ready;
                }
            },
            Poll::NoBlock => {},
            Poll::Failed => {
                return Readiness::Dead;
            },
        }
        if now > self.last_change && now - self.last_change > max_block_age {
            Readiness::Dead
        } else {
            Readiness::Ready
        }
    }
}

} // verus!
