//! Keeping a distance in time between the starts of requests.

use vstd::prelude::*;

verus! {

/// Remembers when the last request started. Times are readings of one
/// clock that does not go back, in milliseconds.
pub struct Sleeper {
    last: u64,
}

/// The end of a span of `duration` from `last`, as far as the clock can
/// count.
pub open spec fn span_end(last: u64, duration: u64) -> u64 {
    if last + duration > u64::MAX {
        u64::MAX
    } else {
        (last + duration) as u64
    }
}

impl Sleeper {
    /// The time that is remembered.
    pub closed spec fn last(&self) -> u64 {
        self.last
    }

    /// A sleeper that remembers the time `now`.
    pub fn new(now: u64) -> (r: Self)
        ensures
            r.last() == now,
    {
        Sleeper { last: now }
    }

    /// Tells how long to wait at the time `now` so that `duration` has
    /// passed since the remembered time, and remembers the time at which
    /// the wait ends.
    pub fn sleep(&mut self, duration: u64, now: u64) -> (wait: u64)
        ensures
            wait == if now < span_end(old(self).last(), duration) {
                span_end(old(self).last(), duration) - now
            } else {
                0
            },
            final(self).last() == after_sleep(old(self).last(), duration, now),
            final(self).last() == now + wait,
    {
        let end = self.last.saturating_add(duration);
        if now < end {
            self.last = end;
            end - now
        } else {
            self.last = now;
            0
        }
    }

    /// Remembers the time `now`.
    pub fn set_now(&mut self, now: u64)
        ensures
            final(self).last() == now,
    {
        self.last = now;
    }
}


/// The time that a sleeper remembers after a wait.
pub open spec fn after_sleep(last: u64, duration: u64, now: u64) -> u64 {
    if now < span_end(last, duration) {
        span_end(last, duration)
    } else {
        now
    }
}

/// Whoever waits as the sleeper says starts no earlier than the span after
/// the time that was remembered: the gap between two starts is kept, and it
/// counts from the start of the one before, not from its end.
pub proof fn lemma_gap_is_kept(last: u64, duration: u64, now: u64)
    ensures
        after_sleep(last, duration, now) >= now,
        after_sleep(last, duration, now) >= span_end(last, duration),
        last + duration <= u64::MAX ==> after_sleep(last, duration, now) - last >= duration,
{
}

} // verus!
