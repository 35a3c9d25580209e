//! The brute-force guard: a counter of failed opens and a timed lockout.

use vstd::prelude::*;

use crate::limits::{FAILURE_THRESHOLD, LOCKOUT_SECONDS};

verus! {

/// The guard's fields as a record stores them. A `lockout_until` of zero
/// means that the identifier is not locked.
#[derive(Clone, Copy, Debug, PartialEq, Eq, Structural)]
pub struct BruteForceGuard {
    /// Failed opens since the last success or since creation.
    pub attempt_count: u32,
    /// Time of the most recent failed open, zero if there was none.
    pub last_failure_time: u64,
    /// Time from which opens are permitted again, zero if not locked.
    pub lockout_until: u64,
}

/// The two states of the guard.
#[derive(Clone, Copy, Debug, PartialEq, Eq, Structural)]
pub enum GuardState {
    /// Opens are attempted; the number counts the failures so far.
    Unlocked(u32),
    /// Opens are rejected until the given time.
    Locked(u64),
}

/// The time at which a lockout that starts at `now` ends.
pub open spec fn lockout_end(now: u64) -> u64 {
    if now + LOCKOUT_SECONDS <= u64::MAX {
        (now + LOCKOUT_SECONDS) as u64
    } else {
        u64::MAX
    }
}

/// The attempts that are left once `count` failures are recorded.
pub open spec fn attempts_left(count: u32) -> u32 {
    if count >= FAILURE_THRESHOLD {
        0
    } else {
        (FAILURE_THRESHOLD - count) as u32
    }
}

impl BruteForceGuard {
    /// The guard of a record that was never opened in vain.
    pub open spec fn fresh() -> BruteForceGuard {
        BruteForceGuard { attempt_count: 0, last_failure_time: 0, lockout_until: 0 }
    }

    pub open spec fn state(self) -> GuardState {
        if self.lockout_until != 0 {
            GuardState::Locked(self.lockout_until)
        } else {
            GuardState::Unlocked(self.attempt_count)
        }
    }

    /// Whether an open at `now` is rejected.
    pub open spec fn is_locked_at(self, now: u64) -> bool {
        self.lockout_until != 0 && now < self.lockout_until
    }

    /// The guard as an open at `now` finds it: an expired lockout has become
    /// `Unlocked(0)`, anything else is unchanged.
    pub open spec fn evaluated(self, now: u64) -> BruteForceGuard {
        if self.lockout_until != 0 && now >= self.lockout_until {
            BruteForceGuard::fresh()
        } else {
            self
        }
    }

    /// The count after one more failure. It stops at the largest number.
    pub open spec fn next_count(self) -> u32 {
        if self.attempt_count < u32::MAX {
            (self.attempt_count + 1) as u32
        } else {
            self.attempt_count
        }
    }

    /// The guard after a failed open at `now`.
    pub open spec fn after_failure(self, now: u64) -> BruteForceGuard {
        BruteForceGuard {
            attempt_count: self.next_count(),
            last_failure_time: now,
            lockout_until: if self.next_count() >= FAILURE_THRESHOLD {
                lockout_end(now)
            } else {
                0
            },
        }
    }

    /// A guard in the state `Unlocked(0)`.
    pub fn new() -> (g: BruteForceGuard)
        ensures
            g == BruteForceGuard::fresh(),
            g.state() == GuardState::Unlocked(0),
    {
        BruteForceGuard { attempt_count: 0, last_failure_time: 0, lockout_until: 0 }
    }

    /// The state that the fields stand for.
    pub fn current_state(&self) -> (s: GuardState)
        ensures
            s == self.state(),
    {
        if self.lockout_until != 0 {
            GuardState::Locked(self.lockout_until)
        } else {
            GuardState::Unlocked(self.attempt_count)
        }
    }

    /// Decides whether an open at `now` may proceed.
    ///
    /// While locked, the open is rejected with the seconds that remain and
    /// the guard is unchanged. Once the lockout has expired the guard becomes
    /// `Unlocked(0)` and the open proceeds.
    pub fn evaluate(&mut self, now: u64) -> (r: Result<(), u64>)
        ensures
            match r {
                Ok(()) => !old(self).is_locked_at(now) && *final(self) == old(self).evaluated(now),
                Err(remaining) => {
                    &&& old(self).is_locked_at(now)
                    &&& remaining == old(self).lockout_until - now
                    &&& *final(self) == *old(self)
                },
            },
            !final(self).is_locked_at(now) ==> final(self).evaluated(now) == *final(self),
    {
        if self.lockout_until != 0 {
            if now < self.lockout_until {
                return Err(self.lockout_until - now);
            }
            self.attempt_count = 0;
            self.last_failure_time = 0;
            self.lockout_until = 0;
        }
        Ok(())
    }

    /// Records a failed open at `now` and reports the attempts that remain.
    ///
    /// The count grows by one. From the fifth failure on the guard is locked
    /// for fifteen minutes from `now` and no attempt remains.
    pub fn record_failure(&mut self, now: u64) -> (remaining: u32)
        ensures
            *final(self) == old(self).after_failure(now),
            remaining == attempts_left(final(self).attempt_count),
            remaining == 0 <==> final(self).lockout_until != 0,
    {
        let count: u32 = if self.attempt_count < u32::MAX {
            self.attempt_count + 1
        } else {
            self.attempt_count
        };
        self.attempt_count = count;
        self.last_failure_time = now;
        if count >= FAILURE_THRESHOLD {
            self.lockout_until = if now <= u64::MAX - LOCKOUT_SECONDS {
                now + LOCKOUT_SECONDS
            } else {
                u64::MAX
            };
            0
        } else {
            self.lockout_until = 0;
            FAILURE_THRESHOLD - count
        }
    }

    /// Records a successful open: the guard becomes `Unlocked(0)`.
    pub fn record_success(&mut self)
        ensures
            *final(self) == BruteForceGuard::fresh(),
    {
        self.attempt_count = 0;
        self.last_failure_time = 0;
        self.lockout_until = 0;
    }
}

/// The guard after a run of failed opens at the given times, each one
/// evaluated first as an open is.
pub open spec fn after_failed_opens(g: BruteForceGuard, times: Seq<u64>) -> BruteForceGuard
    decreases times.len(),
{
    if times.len() == 0 {
        g
    } else {
        after_failed_opens(g, times.drop_last()).evaluated(times.last()).after_failure(times.last())
    }
}

/// After `k` failures in a row on a fresh guard, with `k` below the threshold,
/// the guard is `Unlocked(k)` and `5 - k` attempts remain.
pub proof fn lemma_failures_count_down(times: Seq<u64>)
    requires
        times.len() < FAILURE_THRESHOLD,
    ensures
        after_failed_opens(BruteForceGuard::fresh(), times).state() == GuardState::Unlocked(
            times.len() as u32,
        ),
        attempts_left(after_failed_opens(BruteForceGuard::fresh(), times).attempt_count)
            == FAILURE_THRESHOLD - times.len(),
    decreases times.len(),
{
    if times.len() > 0 {
        lemma_failures_count_down(times.drop_last());
    }
}

/// The fifth failure in a row leaves no attempt and locks the guard: every
/// open before the lockout's end is rejected, whatever the password.
pub proof fn lemma_fifth_failure_locks(times: Seq<u64>, later: u64)
    requires
        times.len() == FAILURE_THRESHOLD,
        later < lockout_end(times.last()),
    ensures
        attempts_left(after_failed_opens(BruteForceGuard::fresh(), times).attempt_count) == 0,
        after_failed_opens(BruteForceGuard::fresh(), times).state() == GuardState::Locked(
            lockout_end(times.last()),
        ),
        after_failed_opens(BruteForceGuard::fresh(), times).is_locked_at(later),
{
    lemma_failures_count_down(times.drop_last());
}

/// Once the lockout has run out the guard is found as `Unlocked(0)`.
pub proof fn lemma_expired_lockout_resets(g: BruteForceGuard, now: u64)
    requires
        g.lockout_until != 0,
        now >= g.lockout_until,
    ensures
        !g.is_locked_at(now),
        g.evaluated(now).state() == GuardState::Unlocked(0),
        g.evaluated(now) == BruteForceGuard::fresh(),
{
}

} // verus!
