//! Who came when: the tickets that players are given when they enter the queue.
//!
//! A ticket holds a running number and a time in nanoseconds of the engine's clock. The
//! engine's clock never runs backwards, so that who came first has also waited longest.
use crate::clock;
use crate::player::Player;
use std::time::Instant;
use vstd::prelude::*;

verus! {

/// What a player is given on entering the queue.
#[derive(Clone, Copy, Debug)]
pub struct Ticket {
    /// The running number of the arrival.
    pub arrival: u64,
    /// When the player came, in nanoseconds of the engine's clock.
    pub at_ns: u64,
    /// The reading of the clock when the player came.
    pub at: Instant,
}

/// A player in the queue.
#[derive(Clone, Copy, Debug)]
pub struct Waiter {
    pub id: u64,
    pub skill: u32,
    pub ticket: Ticket,
}

impl Waiter {
    /// By what a waiting player is found: skill and id.
    pub open spec fn key(self) -> (u32, u64) {
        (self.skill, self.id)
    }

    /// By what waiting players are lined up: skill, then arrival, then id.
    pub open spec fn rank(self) -> (u32, u64, u64) {
        (self.skill, self.ticket.arrival, self.id)
    }

    /// The player who waits.
    pub open spec fn as_player(self) -> Player {
        Player { id: self.id, skill: self.skill, enqueued_at: self.ticket.at }
    }

    /// How long the player has waited at `now_ns`, in nanoseconds.
    pub open spec fn wait(self, now_ns: u64) -> u64 {
        if now_ns >= self.ticket.at_ns {
            (now_ns - self.ticket.at_ns) as u64
        } else {
            0
        }
    }

    /// This player came before the other one.
    pub open spec fn is_older(self, other: Waiter) -> bool {
        ||| self.ticket.at_ns < other.ticket.at_ns
        ||| self.ticket.at_ns == other.ticket.at_ns && self.ticket.arrival < other.ticket.arrival
    }

    /// The player who waits.
    pub fn player(&self) -> (player: Player)
        ensures
            player == self.as_player(),
    {
        Player { id: self.id, skill: self.skill, enqueued_at: self.ticket.at }
    }

    /// How long the player has waited at `now_ns`, in nanoseconds.
    pub fn wait_ns(&self, now_ns: u64) -> (wait: u64)
        ensures
            wait == self.wait(now_ns),
    {
        now_ns.saturating_sub(self.ticket.at_ns)
    }
}

/// Keeps the engine's clock and hands out the tickets.
#[derive(Clone, Copy, Debug)]
pub struct Arrivals {
    /// The reading from which times are counted.
    pub epoch: Instant,
    /// The latest time that was read.
    pub latest_ns: u64,
    /// How many tickets were handed out. It stops at the highest number there is.
    pub count: u64,
}

impl Arrivals {
    /// The time that the engine's clock shows when the machine's clock reads `now`: it is never
    /// earlier than the latest time that was read.
    pub open spec fn reading(self, now: Instant) -> u64 {
        if clock::nanos_between(self.epoch, now) > self.latest_ns {
            clock::nanos_between(self.epoch, now)
        } else {
            self.latest_ns
        }
    }

    /// The state after the time `now_ns` was read.
    pub open spec fn at_time(self, now_ns: u64) -> Arrivals {
        Arrivals { latest_ns: now_ns, ..self }
    }

    /// The ticket of a player who comes at `at`.
    pub open spec fn ticket(self, at: Instant) -> Ticket {
        Ticket { arrival: self.count, at_ns: self.reading(at), at }
    }

    /// The state after a player came at `at`.
    pub open spec fn after(self, at: Instant) -> Arrivals {
        Arrivals { latest_ns: self.reading(at), count: self.count.saturating_add(1), ..self }
    }

    /// Nobody has come yet; times are counted from `epoch`.
    pub fn new(epoch: Instant) -> (arrivals: Self)
        ensures
            arrivals == (Arrivals { epoch, latest_ns: 0, count: 0 }),
    {
        Arrivals { epoch, latest_ns: 0, count: 0 }
    }

    /// The time that the engine's clock shows when the machine's clock reads `now`.
    pub fn time_at(&self, now: Instant) -> (now_ns: u64)
        ensures
            now_ns == self.reading(now),
    {
        let read_ns: u64 = clock::nanos_since(self.epoch, now);
        if read_ns > self.latest_ns {
            read_ns
        } else {
            self.latest_ns
        }
    }

    /// Puts the engine's clock forward to a time that was read.
    pub fn advance(&mut self, now_ns: u64)
        ensures
            *final(self) == old(self).at_time(now_ns),
    {
        self.latest_ns = now_ns;
    }

    /// Reads the time when the machine's clock reads `now`.
    pub fn read(&mut self, now: Instant) -> (now_ns: u64)
        ensures
            now_ns == old(self).reading(now),
            *final(self) == old(self).at_time(now_ns),
    {
        let now_ns: u64 = self.time_at(now);
        self.advance(now_ns);
        now_ns
    }

    /// Hands a ticket to a player who comes at `at`.
    pub fn hand_out(&mut self, at: Instant) -> (ticket: Ticket)
        ensures
            ticket == old(self).ticket(at),
            *final(self) == old(self).after(at),
    {
        let at_ns: u64 = self.read(at);
        let ticket = Ticket { arrival: self.count, at_ns, at };
        self.count = self.count.saturating_add(1);
        ticket
    }
}

/// Who comes earlier has an older ticket and has waited at least as long, whatever the clock
/// shows (as long as there are numbers left).
pub proof fn law_who_came_first_waits_longest(
    arrivals: Arrivals,
    first: Waiter,
    second: Waiter,
    at: Instant,
    later: Instant,
    now_ns: u64,
)
    requires
        arrivals.count < u64::MAX,
        first.ticket == arrivals.ticket(at),
        second.ticket == arrivals.after(at).ticket(later),
    ensures
        first.is_older(second),
        first.ticket.arrival < second.ticket.arrival,
        first.wait(now_ns) >= second.wait(now_ns),
{
}

/// The older of two players has waited at least as long, and nobody's wait shrinks.
pub proof fn law_older_waits_longer(a: Waiter, b: Waiter, now_ns: u64, later_ns: u64)
    requires
        now_ns <= later_ns,
    ensures
        a.is_older(b) ==> a.wait(now_ns) >= b.wait(now_ns) && !b.is_older(a),
        a.wait(now_ns) <= a.wait(later_ns),
{
}

/// The engine's clock never runs backwards, whatever the machine's clock reads.
pub proof fn law_clock_never_runs_backwards(arrivals: Arrivals, now: Instant, later: Instant)
    ensures
        arrivals.latest_ns <= arrivals.reading(now),
        arrivals.reading(now) <= arrivals.at_time(arrivals.reading(now)).reading(later),
        arrivals.reading(now) <= arrivals.after(now).reading(later),
{
}

/// A wait is the time that has passed since the player came: no more and no less, and nothing
/// before they came.
pub proof fn law_wait_is_the_time_passed(waiter: Waiter, now_ns: u64, more_ns: u64)
    requires
        now_ns + more_ns <= u64::MAX,
    ensures
        now_ns >= waiter.ticket.at_ns ==> waiter.ticket.at_ns + waiter.wait(now_ns) == now_ns,
        now_ns >= waiter.ticket.at_ns ==> waiter.wait((now_ns + more_ns) as u64) == waiter.wait(
            now_ns,
        ) + more_ns,
        now_ns <= waiter.ticket.at_ns ==> waiter.wait(now_ns) == 0,
{
}

/// The engine's clock shows the time since its epoch, unless it has shown a later time before.
pub proof fn law_clock_shows_the_time(arrivals: Arrivals, now: Instant)
    ensures
        arrivals.reading(now) >= clock::nanos_between(arrivals.epoch, now),
        arrivals.reading(now) >= arrivals.latest_ns,
        arrivals.reading(now) == clock::nanos_between(arrivals.epoch, now) || arrivals.reading(now)
            == arrivals.latest_ns,
{
}

/// Tickets are handed out in turn: each carries the reading at which it was handed out, that
/// time on the engine's clock, and a number one above that of the ticket before.
pub proof fn law_tickets_are_handed_out_in_turn(arrivals: Arrivals, at: Instant, later: Instant)
    ensures
        arrivals.ticket(at).at == at,
        arrivals.ticket(at).at_ns == arrivals.reading(at),
        arrivals.ticket(at).arrival == arrivals.count,
        arrivals.after(at).epoch == arrivals.epoch,
        arrivals.after(at).latest_ns == arrivals.ticket(at).at_ns,
        arrivals.count < u64::MAX ==> arrivals.after(at).ticket(later).arrival == arrivals.ticket(
            at,
        ).arrival + 1,
{
}

/// Reading the time leaves everything but the latest time as it was.
pub proof fn law_reading_changes_the_time_only(arrivals: Arrivals, now_ns: u64)
    ensures
        arrivals.at_time(now_ns).latest_ns == now_ns,
        arrivals.at_time(now_ns).count == arrivals.count,
        arrivals.at_time(now_ns).epoch == arrivals.epoch,
{
}

/// Who came at an earlier time is older; of two who came at the same time, the one with the
/// lower number. Of two players at most one is older.
pub proof fn law_older_came_first(a: Waiter, b: Waiter)
    ensures
        a.ticket.at_ns < b.ticket.at_ns ==> a.is_older(b),
        a.ticket.at_ns == b.ticket.at_ns && a.ticket.arrival < b.ticket.arrival ==> a.is_older(b),
        !(a.is_older(b) && b.is_older(a)),
        !a.is_older(a),
{
}

/// The player who waits is the one who came: with their id, their skill and the reading at
/// which they came.
pub proof fn law_waiter_is_who_came(waiter: Waiter)
    ensures
        waiter.as_player().id == waiter.id,
        waiter.as_player().skill == waiter.skill,
        waiter.as_player().enqueued_at == waiter.ticket.at,
        waiter.key() == (waiter.skill, waiter.id),
        waiter.rank().0 == waiter.skill && waiter.rank().1 == waiter.ticket.arrival
            && waiter.rank().2 == waiter.id,
{
}

} // verus!
