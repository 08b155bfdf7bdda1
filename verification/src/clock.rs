//! Logical clocks: the source of begin and commit timestamps.

use vstd::prelude::*;

verus! {

/// A source of strictly increasing timestamps.
pub trait LogicalClock {
    /// The timestamp that the next call of `get_timestamp` returns.
    spec fn peek(&self) -> u64;

    /// Whether the clock has run out of timestamps.
    fn is_exhausted(&self) -> (exhausted: bool)
        ensures
            exhausted == (self.peek() == u64::MAX),
    ;

    /// Hands out the next timestamp. Every later timestamp is greater.
    fn get_timestamp(&mut self) -> (ts: u64)
        requires
            old(self).peek() < u64::MAX,
        ensures
            ts == old(self).peek(),
            final(self).peek() > ts,
    ;

    /// Raises the floor of the clock: no later timestamp is `ts` or less.
    /// A clock that is already past `ts` is left as it is.
    fn reset(&mut self, ts: u64)
        requires
            ts < u64::MAX,
        ensures
            final(self).peek() == (if old(self).peek() > ts {
                old(self).peek()
            } else {
                (ts + 1) as u64
            }),
    ;
}

/// A clock that counts up from zero, one tick per timestamp.
#[derive(Debug)]
pub struct LocalClock {
    ts_sequence: u64,
}

impl LocalClock {
    /// A clock whose first timestamp is zero.
    pub fn new() -> (clock: LocalClock)
        ensures
            clock.peek() == 0,
    {
        LocalClock { ts_sequence: 0 }
    }
}

impl LogicalClock for LocalClock {
    closed spec fn peek(&self) -> u64 {
        self.ts_sequence
    }

    fn is_exhausted(&self) -> (exhausted: bool) {
        self.ts_sequence == u64::MAX
    }

    fn get_timestamp(&mut self) -> (ts: u64)
        ensures
            final(self).peek() == ts + 1,
    {
        let ts: u64 = self.ts_sequence;
        self.ts_sequence = ts + 1;
        ts
    }

    fn reset(&mut self, ts: u64) {
        if self.ts_sequence <= ts {
            self.ts_sequence = ts + 1;
        }
    }
}

} // verus!
