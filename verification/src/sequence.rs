//! Wrapping generator of short-lived order identifiers.

use vstd::prelude::*;

verus! {

/// Counter over the inclusive range `[min_id, max_id]`.
///
/// Identifiers are reused once the range is exhausted, so the number of
/// orders alive at the same time has to stay well below
/// `max_id - min_id + 1`: a reused identifier that still rests in a queue is
/// refused there as a duplicate.
#[derive(Clone, Copy, Debug)]
pub struct TradeSequence {
    min_id: u64,
    max_id: u64,
    current: u64,
}

impl TradeSequence {
    /// Lower end of the range.
    pub closed spec fn lo(&self) -> u64 {
        self.min_id
    }

    /// Upper end of the range.
    pub closed spec fn hi(&self) -> u64 {
        self.max_id
    }

    /// The identifier that the next call of `next_id` hands out.
    pub closed spec fn upcoming(&self) -> u64 {
        self.current
    }

    /// The identifier that follows `id` in a generator over `[lo, hi]`.
    pub open spec fn successor(lo: u64, hi: u64, id: u64) -> u64 {
        if id < hi {
            (id + 1) as u64
        } else {
            lo
        }
    }

    /// The identifier that the next call of `next_id` hands out.
    pub fn peek_id(&self) -> (id: u64)
        ensures
            id == self.upcoming(),
    {
        self.current
    }

    /// Returns the current identifier and advances, wrapping back to the
    /// lower end after the upper end was handed out.
    pub fn next_id(&mut self) -> (id: u64)
        ensures
            id == old(self).upcoming(),
            final(self).lo() == old(self).lo(),
            final(self).hi() == old(self).hi(),
            final(self).upcoming() == Self::successor(old(self).lo(), old(self).hi(), id),
    {
        let id: u64 = self.current;
        if self.current < self.max_id {
            self.current = self.current + 1;
        } else {
            self.current = self.min_id;
        }
        id
    }
}

/// A generator over `[min, max]` that goes on at `current`, or `None` where
/// `current` lies outside the range.
pub fn resume_sequence_gen(min: u64, max: u64, current: u64) -> (seq: Option<TradeSequence>)
    ensures
        match seq {
            Some(resumed) => {
                &&& min <= current <= max
                &&& resumed.lo() == min
                &&& resumed.hi() == max
                &&& resumed.upcoming() == current
            },
            None => !(min <= current <= max),
        },
{
    if min <= current && current <= max {
        Some(TradeSequence { min_id: min, max_id: max, current })
    } else {
        None
    }
}

/// A generator over `[min, max]` that starts at `min`.
pub fn new_sequence_gen(min: u64, max: u64) -> (seq: TradeSequence)
    ensures
        seq.lo() == min,
        seq.hi() == max,
        seq.upcoming() == min,
{
    TradeSequence { min_id: min, max_id: max, current: min }
}

/// Once inside its range, a generator never leaves it.
pub proof fn lemma_successor_in_range(lo: u64, hi: u64, id: u64)
    requires
        lo <= id <= hi,
    ensures
        lo <= TradeSequence::successor(lo, hi, id) <= hi,
{
}

} // verus!
