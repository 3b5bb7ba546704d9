//! How a worker paces itself between attempts.
//!
//! Spin briefly, then sleep, so that an empty pool doesn't burn a whole core while a busy
//! one is served at low latency.
use vstd::prelude::*;

verus! {

/// How many attempts in a row may fail before a worker sleeps.
pub const SPINS: u32 = 128;

/// How long a worker sleeps, in microseconds.
pub const SLEEP_US: u64 = 200;

/// What a worker does before its next attempt.
#[derive(Clone, Copy, Debug, PartialEq, Eq, Structural)]
pub enum Pause {
    /// Goes on at once.
    Nothing,
    /// Hints to the processor that it is spinning.
    Spin,
    /// Sleeps for so many microseconds.
    Sleep(u64),
}

/// A worker's count of failed attempts in a row.
pub struct Backoff {
    idle: u32,
}

impl View for Backoff {
    type V = int;

    closed spec fn view(&self) -> int {
        self.idle as int
    }
}

impl Backoff {
    /// A worker that has not failed yet.
    pub fn new() -> (backoff: Self)
        ensures
            backoff@ == 0,
    {
        Backoff { idle: 0 }
    }

    /// What to do after an attempt. A match resets the count; a failure adds to it, and
    /// once there were more than `SPINS` in a row the worker sleeps.
    pub fn after_attempt(&mut self, matched: bool) -> (pause: Pause)
        ensures
            final(self)@ == idle_after(old(self)@, matched),
            pause == pause_after(old(self)@, matched),
    {
        if matched {
            self.idle = 0;
            Pause::Nothing
        } else {
            self.idle = self.idle.saturating_add(1);
            if self.idle > SPINS {
                Pause::Sleep(SLEEP_US)
            } else {
                Pause::Spin
            }
        }
    }
}

/// The count of failures in a row after one more attempt; it stops at the largest 32-bit
/// number.
pub open spec fn idle_after(idle: int, matched: bool) -> int {
    if matched {
        0
    } else if idle < u32::MAX {
        idle + 1
    } else {
        u32::MAX as int
    }
}

/// What a worker with `idle` failures behind it does after one more attempt.
pub open spec fn pause_after(idle: int, matched: bool) -> Pause {
    if matched {
        Pause::Nothing
    } else if idle_after(idle, matched) > SPINS {
        Pause::Sleep(SLEEP_US)
    } else {
        Pause::Spin
    }
}

/// The count after `n` failures in a row, starting from a match.
pub open spec fn idle_after_failures(n: nat) -> int
    decreases n,
{
    if n == 0 {
        0
    } else {
        idle_after(idle_after_failures((n - 1) as nat), false)
    }
}

/// After a match, a worker spins through its first `SPINS` failures and sleeps after each
/// one beyond, however many there are.
pub proof fn law_worker_spins_then_sleeps(n: nat)
    ensures
        n < SPINS ==> pause_after(idle_after_failures(n), false) == Pause::Spin,
        n >= SPINS ==> pause_after(idle_after_failures(n), false) == Pause::Sleep(SLEEP_US),
        n <= u32::MAX ==> idle_after_failures(n) == n,
        n >= u32::MAX ==> idle_after_failures(n) == u32::MAX,
    decreases n,
{
    if n > 0 {
        law_worker_spins_then_sleeps((n - 1) as nat);
    }
}

/// A match starts the count anew, whatever was behind the worker, and lets it go on at once.
/// Each failure raises the count by one, up to the highest there is. From then on it depends
/// on the count alone what the worker does: it sleeps for 200 microseconds after more than 128
/// failures in a row and spins until then.
pub proof fn law_match_starts_anew(idle: int)
    requires
        0 <= idle <= u32::MAX,
    ensures
        idle_after(idle, true) == 0,
        pause_after(idle, true) == Pause::Nothing,
        idle < u32::MAX ==> idle_after(idle, false) == idle + 1,
        idle_after(u32::MAX as int, false) == u32::MAX,
        idle < 128 ==> pause_after(idle, false) == Pause::Spin,
        idle >= 128 ==> pause_after(idle, false) == Pause::Sleep(200),
{
}

} // verus!
