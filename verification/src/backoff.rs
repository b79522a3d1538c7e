//! Idle backoff: a one-shot timer with a fixed delay, read against a clock
//! that the driver supplies, so that an idle accept loop yields instead of
//! spinning.

use vstd::prelude::*;

verus! {

/// The delay between two looks at an empty listener, in milliseconds, where
/// the driver sets none.
pub const DEFAULT_DELAY_MS: u64 = 10;

/// What a poll of the backoff timer found.
#[derive(Clone, Copy, Debug, PartialEq, Eq, Structural)]
pub enum BackoffStatus {
    /// The delay has elapsed; the timer is discarded.
    Ready,
    /// The delay has not elapsed: `remaining` milliseconds are left of it.
    Pending { remaining: u64 },
}

/// The mathematical content of an idle backoff.
pub struct BackoffModel {
    /// The fixed delay, in milliseconds.
    pub delay: u64,
    /// The clock reading at which the outstanding timer was started, if one
    /// is outstanding.
    pub armed_at: Option<u64>,
}

/// A fixed delay and at most one outstanding timer.
pub struct IdleBackoff {
    delay: u64,
    armed_at: Option<u64>,
}

/// The milliseconds from `armed_at` to `now`; none where the clock reads
/// earlier than it did.
pub open spec fn elapsed(armed_at: u64, now: u64) -> int {
    if now >= armed_at {
        now - armed_at
    } else {
        0
    }
}

/// A poll at clock reading `now`. Where no timer is outstanding the poll
/// starts one, which has not fired yet whatever the delay: the whole delay
/// remains. An outstanding timer is ready, and discarded, once `delay` has
/// elapsed since it was started, and stays outstanding until then.
pub open spec fn backoff_poll(backoff: BackoffModel, now: u64) -> (BackoffModel, BackoffStatus) {
    match backoff.armed_at {
        None => (
            BackoffModel { delay: backoff.delay, armed_at: Some(now) },
            BackoffStatus::Pending { remaining: backoff.delay },
        ),
        Some(armed_at) => if elapsed(armed_at, now) >= backoff.delay {
            (BackoffModel { delay: backoff.delay, armed_at: None }, BackoffStatus::Ready)
        } else {
            (
                backoff,
                BackoffStatus::Pending {
                    remaining: (backoff.delay - elapsed(armed_at, now)) as u64,
                },
            )
        },
    }
}

impl View for IdleBackoff {
    type V = BackoffModel;

    closed spec fn view(&self) -> BackoffModel {
        BackoffModel { delay: self.delay, armed_at: self.armed_at }
    }
}

impl IdleBackoff {
    /// A backoff of `delay` milliseconds with no timer outstanding.
    pub fn new(delay: u64) -> (backoff: Self)
        ensures
            backoff@ == (BackoffModel { delay, armed_at: None }),
    {
        IdleBackoff { delay, armed_at: None }
    }

    /// The fixed delay, in milliseconds.
    pub fn delay(&self) -> (delay: u64)
        ensures
            delay == self@.delay,
    {
        self.delay
    }

    /// Whether a timer is outstanding.
    pub fn is_armed(&self) -> (armed: bool)
        ensures
            armed == self@.armed_at is Some,
    {
        self.armed_at.is_some()
    }

    /// Starts a fresh timer at clock reading `now`, in place of the
    /// outstanding one if there is one.
    pub fn start(&mut self, now: u64)
        ensures
            final(self)@ == (BackoffModel { delay: old(self)@.delay, armed_at: Some(now) }),
    {
        self.armed_at = Some(now);
    }

    /// Discards the outstanding timer, if there is one.
    pub fn abandon(&mut self)
        ensures
            final(self)@ == (BackoffModel { delay: old(self)@.delay, armed_at: None }),
    {
        self.armed_at = None;
    }

    /// Checks the timer against clock reading `now`. Where none is
    /// outstanding the poll starts one and is pending, also with a delay of
    /// zero: a timer is never ready on the poll that starts it.
    pub fn poll(&mut self, now: u64) -> (status: BackoffStatus)
        ensures
            final(self)@ == backoff_poll(old(self)@, now).0,
            status == backoff_poll(old(self)@, now).1,
        no_unwind
    {
        match self.armed_at {
            None => {
                self.armed_at = Some(now);
                BackoffStatus::Pending { remaining: self.delay }
            },
            Some(armed_at) => {
                let waited: u64 = if now >= armed_at {
                    now - armed_at
                } else {
                    0
                };
                if waited >= self.delay {
                    self.armed_at = None;
                    BackoffStatus::Ready
                } else {
                    BackoffStatus::Pending { remaining: self.delay - waited }
                }
            },
        }
    }
}

} // verus!
