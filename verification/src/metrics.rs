//! Health metrics.
//!
//! Counters wrap around at 64 bits, so that counting never fails. What a match adds is
//! the same whatever was counted before: workers can count apart and add up later.
use vstd::prelude::*;

verus! {

/// The health counters of an engine.
#[derive(Clone, Copy, Debug, PartialEq, Eq, Structural)]
pub struct Metrics {
    /// Total players ever enqueued.
    pub enqueued: u64,
    /// Matches formed.
    pub matches: u64,
    /// Players placed into a match.
    pub players_matched: u64,
    /// Total matching attempts (one scan of a seed window).
    pub attempts: u64,
    /// Attempts that hit an empty seed shard.
    pub empty_attempts: u64,
    /// Sum of per-player queue wait at match time, in microseconds.
    pub total_wait_us: u64,
    /// Sum of per-match team imbalance.
    pub total_imbalance: u64,
    /// Sum of per-match skill spread (max-min).
    pub total_spread: u64,
    /// High-water mark of the queue depth.
    pub max_queue_depth: usize,
}

/// A mean, kept exact: `total / count`, and zero where `count` is zero.
#[derive(Clone, Copy, Debug, PartialEq, Eq, Structural)]
pub struct Mean {
    pub total: u64,
    pub count: u64,
}

/// A reading of the metrics together with the aggregates derived from it.
#[derive(Clone, Copy, Debug, PartialEq, Eq, Structural)]
pub struct MetricsSnapshot {
    pub enqueued: u64,
    pub matches: u64,
    pub players_matched: u64,
    pub attempts: u64,
    pub empty_attempts: u64,
    pub queued_now: usize,
    pub max_queue_depth: usize,
    /// Mean per-player queue wait at match time, in microseconds.
    pub avg_wait_us: Mean,
    /// Mean team imbalance (skill-sum delta) per match.
    pub avg_imbalance: Mean,
    /// Mean skill spread per match.
    pub avg_spread: Mean,
}

impl Default for Metrics {
    fn default() -> (metrics: Self)
        ensures
            metrics == zero(),
    {
        Metrics {
            enqueued: 0,
            matches: 0,
            players_matched: 0,
            attempts: 0,
            empty_attempts: 0,
            total_wait_us: 0,
            total_imbalance: 0,
            total_spread: 0,
            max_queue_depth: 0,
        }
    }
}

/// The metrics of an engine that has done nothing yet.
pub open spec fn zero() -> Metrics {
    Metrics {
        enqueued: 0,
        matches: 0,
        players_matched: 0,
        attempts: 0,
        empty_attempts: 0,
        total_wait_us: 0,
        total_imbalance: 0,
        total_spread: 0,
        max_queue_depth: 0,
    }
}

impl Metrics {
    /// The metrics after one more match.
    pub open spec fn with_match(
        self,
        players: usize,
        total_wait_us: u64,
        imbalance: u32,
        spread: u32,
    ) -> Metrics {
        Metrics {
            matches: self.matches.wrapping_add(1),
            players_matched: self.players_matched.wrapping_add(players as u64),
            total_wait_us: self.total_wait_us.wrapping_add(total_wait_us),
            total_imbalance: self.total_imbalance.wrapping_add(imbalance as u64),
            total_spread: self.total_spread.wrapping_add(spread as u64),
            ..self
        }
    }

    /// The metrics after the queue was seen at `depth`.
    pub open spec fn with_depth(self, depth: usize) -> Metrics {
        Metrics {
            max_queue_depth: if depth > self.max_queue_depth {
                depth
            } else {
                self.max_queue_depth
            },
            ..self
        }
    }

    /// The metrics after one more attempt, which found its seed shard empty or not.
    pub open spec fn with_attempt(self, empty: bool) -> Metrics {
        Metrics {
            attempts: self.attempts.wrapping_add(1),
            empty_attempts: if empty {
                self.empty_attempts.wrapping_add(1)
            } else {
                self.empty_attempts
            },
            ..self
        }
    }

    /// The metrics after one more player was enqueued.
    pub open spec fn with_enqueued(self) -> Metrics {
        Metrics { enqueued: self.enqueued.wrapping_add(1), ..self }
    }

    /// What two sets of metrics add up to.
    pub open spec fn plus(self, other: Metrics) -> Metrics {
        Metrics {
            enqueued: self.enqueued.wrapping_add(other.enqueued),
            matches: self.matches.wrapping_add(other.matches),
            players_matched: self.players_matched.wrapping_add(other.players_matched),
            attempts: self.attempts.wrapping_add(other.attempts),
            empty_attempts: self.empty_attempts.wrapping_add(other.empty_attempts),
            total_wait_us: self.total_wait_us.wrapping_add(other.total_wait_us),
            total_imbalance: self.total_imbalance.wrapping_add(other.total_imbalance),
            total_spread: self.total_spread.wrapping_add(other.total_spread),
            max_queue_depth: if other.max_queue_depth > self.max_queue_depth {
                other.max_queue_depth
            } else {
                self.max_queue_depth
            },
        }
    }

    /// The counters together with the aggregates derived from them.
    pub open spec fn summary(self, queued_now: usize) -> MetricsSnapshot {
        MetricsSnapshot {
            enqueued: self.enqueued,
            matches: self.matches,
            players_matched: self.players_matched,
            attempts: self.attempts,
            empty_attempts: self.empty_attempts,
            queued_now,
            max_queue_depth: self.max_queue_depth,
            avg_wait_us: Mean { total: self.total_wait_us, count: self.players_matched },
            avg_imbalance: Mean { total: self.total_imbalance, count: self.matches },
            avg_spread: Mean { total: self.total_spread, count: self.matches },
        }
    }

    /// Counts a match of `players` players.
    pub fn record_match(
        &mut self,
        players: usize,
        total_wait_us: u64,
        imbalance: u32,
        spread: u32,
    )
        ensures
            *final(self) == old(self).with_match(players, total_wait_us, imbalance, spread),
    {
        self.matches = self.matches.wrapping_add(1);
        self.players_matched = self.players_matched.wrapping_add(players as u64);
        self.total_wait_us = self.total_wait_us.wrapping_add(total_wait_us);
        self.total_imbalance = self.total_imbalance.wrapping_add(imbalance as u64);
        self.total_spread = self.total_spread.wrapping_add(spread as u64);
    }

    /// Updates the queue-depth high-water mark.
    pub fn observe_depth(&mut self, depth: usize)
        ensures
            *final(self) == old(self).with_depth(depth),
    {
        if depth > self.max_queue_depth {
            self.max_queue_depth = depth;
        }
    }

    /// Counts an attempt, and whether its seed shard was empty.
    pub fn record_attempt(&mut self, empty: bool)
        ensures
            *final(self) == old(self).with_attempt(empty),
    {
        self.attempts = self.attempts.wrapping_add(1);
        if empty {
            self.empty_attempts = self.empty_attempts.wrapping_add(1);
        }
    }

    /// Counts an enqueued player.
    pub fn record_enqueued(&mut self)
        ensures
            *final(self) == old(self).with_enqueued(),
    {
        self.enqueued = self.enqueued.wrapping_add(1);
    }

    /// Derives the aggregates: waits are averaged over matched players, imbalance and
    /// spread over matches.
    pub fn snapshot(&self, queued_now: usize) -> (snapshot: MetricsSnapshot)
        ensures
            snapshot == (MetricsSnapshot {
                enqueued: self.enqueued,
                matches: self.matches,
                players_matched: self.players_matched,
                attempts: self.attempts,
                empty_attempts: self.empty_attempts,
                queued_now,
                max_queue_depth: self.max_queue_depth,
                avg_wait_us: Mean { total: self.total_wait_us, count: self.players_matched },
                avg_imbalance: Mean { total: self.total_imbalance, count: self.matches },
                avg_spread: Mean { total: self.total_spread, count: self.matches },
            }),
            snapshot == self.summary(queued_now),
    {
        MetricsSnapshot {
            enqueued: self.enqueued,
            matches: self.matches,
            players_matched: self.players_matched,
            attempts: self.attempts,
            empty_attempts: self.empty_attempts,
            queued_now,
            max_queue_depth: self.max_queue_depth,
            avg_wait_us: Mean { total: self.total_wait_us, count: self.players_matched },
            avg_imbalance: Mean { total: self.total_imbalance, count: self.matches },
            avg_spread: Mean { total: self.total_spread, count: self.matches },
        }
    }
}

/// The high-water mark is at least every depth that was seen, never sinks, and is
/// one of them.
pub proof fn law_high_water_mark(metrics: Metrics, depth: usize)
    ensures
        metrics.with_depth(depth).max_queue_depth >= depth,
        metrics.with_depth(depth).max_queue_depth >= metrics.max_queue_depth,
        metrics.with_depth(depth).max_queue_depth == depth || metrics.with_depth(
            depth,
        ).max_queue_depth == metrics.max_queue_depth,
{
}

/// Each operation adds the same to any metrics: what it makes of metrics that
/// start at zero can be counted apart and added.
pub proof fn law_recording_adds_up(
    metrics: Metrics,
    players: usize,
    total_wait_us: u64,
    imbalance: u32,
    spread: u32,
    depth: usize,
    empty: bool,
)
    ensures
        metrics.with_match(players, total_wait_us, imbalance, spread) == metrics.plus(
            zero().with_match(players, total_wait_us, imbalance, spread),
        ),
        metrics.with_depth(depth) == metrics.plus(zero().with_depth(depth)),
        metrics.with_attempt(empty) == metrics.plus(zero().with_attempt(empty)),
        metrics.with_enqueued() == metrics.plus(zero().with_enqueued()),
{
}

/// Metrics that were counted apart add up to the same, in whatever order and
/// grouping they are added.
pub proof fn law_adding_up_ignores_order(a: Metrics, b: Metrics, c: Metrics)
    ensures
        a.plus(b) == b.plus(a),
        a.plus(b).plus(c) == a.plus(b.plus(c)),
        a.plus(zero()) == a,
{
}

/// A match is counted in full: as one match, with all its players, its whole wait, its
/// imbalance and its spread, as long as the counters have not run over. Nothing else is counted
/// with it.
pub proof fn law_match_is_counted(
    metrics: Metrics,
    players: usize,
    total_wait_us: u64,
    imbalance: u32,
    spread: u32,
)
    ensures
        ({
            let after = metrics.with_match(players, total_wait_us, imbalance, spread);
            &&& metrics.matches + 1 <= u64::MAX ==> after.matches
                == metrics.matches + 1
            &&& metrics.players_matched + players <= u64::MAX ==> after.players_matched
                == metrics.players_matched + players
            &&& metrics.total_wait_us + total_wait_us <= u64::MAX ==> after.total_wait_us
                == metrics.total_wait_us + total_wait_us
            &&& metrics.total_imbalance + imbalance <= u64::MAX ==> after.total_imbalance
                == metrics.total_imbalance + imbalance
            &&& metrics.total_spread + spread <= u64::MAX ==> after.total_spread
                == metrics.total_spread + spread
            &&& after.enqueued == metrics.enqueued
            &&& after.attempts == metrics.attempts
            &&& after.empty_attempts == metrics.empty_attempts
            &&& after.max_queue_depth == metrics.max_queue_depth
        }),
{
}

/// An attempt is counted once, and once more as an empty one if it found its shard empty.
/// Nothing else is counted with it.
pub proof fn law_attempt_is_counted(metrics: Metrics, empty: bool)
    ensures
        ({
            let after = metrics.with_attempt(empty);
            &&& metrics.attempts + 1 <= u64::MAX ==> after.attempts
                == metrics.attempts + 1
            &&& empty && metrics.empty_attempts + 1 <= u64::MAX ==> after.empty_attempts
                == metrics.empty_attempts + 1
            &&& !empty ==> after.empty_attempts == metrics.empty_attempts
            &&& after.matches == metrics.matches
            &&& after.players_matched == metrics.players_matched
            &&& after.total_wait_us == metrics.total_wait_us
            &&& after.total_imbalance == metrics.total_imbalance
            &&& after.total_spread == metrics.total_spread
            &&& after.enqueued == metrics.enqueued
            &&& after.max_queue_depth == metrics.max_queue_depth
        }),
{
}

/// An enqueued player is counted once, and raises the high-water mark to the depth that the
/// queue then has, if it is not higher already. Nothing else is counted with it.
pub proof fn law_enqueued_player_is_counted(metrics: Metrics, depth: usize)
    ensures
        ({
            let after = metrics.with_enqueued().with_depth(depth);
            &&& metrics.enqueued + 1 <= u64::MAX ==> after.enqueued
                == metrics.enqueued + 1
            &&& after.max_queue_depth >= depth
            &&& after.max_queue_depth >= metrics.max_queue_depth
            &&& after.max_queue_depth == depth || after.max_queue_depth == metrics.max_queue_depth
            &&& after.matches == metrics.matches
            &&& after.players_matched == metrics.players_matched
            &&& after.total_wait_us == metrics.total_wait_us
            &&& after.total_imbalance == metrics.total_imbalance
            &&& after.total_spread == metrics.total_spread
            &&& after.attempts == metrics.attempts
            &&& after.empty_attempts == metrics.empty_attempts
        }),
{
}

/// Everything is counted from zero.
pub proof fn law_counting_starts_at_zero()
    ensures
        zero().enqueued == 0,
        zero().matches == 0,
        zero().players_matched == 0,
        zero().attempts == 0,
        zero().empty_attempts == 0,
        zero().total_wait_us == 0,
        zero().total_imbalance == 0,
        zero().total_spread == 0,
        zero().max_queue_depth == 0,
{
}

/// After one match the means are those of that match: its wait is averaged over its players,
/// its imbalance and its spread are its own. With every further match what is averaged grows by
/// what that match adds, and nothing else is read out than what was counted.
pub proof fn law_means_are_over_players_and_matches(
    metrics: Metrics,
    players: usize,
    total_wait_us: u64,
    imbalance: u32,
    spread: u32,
    queued_now: usize,
)
    requires
        metrics.matches < u64::MAX,
        metrics.players_matched + players <= u64::MAX,
        metrics.total_wait_us + total_wait_us <= u64::MAX,
        metrics.total_imbalance + imbalance <= u64::MAX,
        metrics.total_spread + spread <= u64::MAX,
    ensures
        ({
            let one = zero().with_match(players, total_wait_us, imbalance, spread).summary(
                queued_now,
            );
            &&& one.avg_wait_us == (Mean { total: total_wait_us, count: players as u64 })
            &&& one.avg_imbalance == (Mean { total: imbalance as u64, count: 1 })
            &&& one.avg_spread == (Mean { total: spread as u64, count: 1 })
        }),
        ({
            let before = metrics.summary(queued_now);
            let after = metrics.with_match(players, total_wait_us, imbalance, spread).summary(
                queued_now,
            );
            &&& after.avg_wait_us.total == before.avg_wait_us.total + total_wait_us
            &&& after.avg_wait_us.count == before.avg_wait_us.count + players
            &&& after.avg_imbalance.total == before.avg_imbalance.total + imbalance
            &&& after.avg_imbalance.count == before.avg_imbalance.count + 1
            &&& after.avg_spread.total == before.avg_spread.total + spread
            &&& after.avg_spread.count == before.avg_spread.count + 1
        }),
        metrics.summary(queued_now).queued_now == queued_now,
        metrics.summary(queued_now).enqueued == metrics.enqueued,
        metrics.summary(queued_now).matches == metrics.matches,
        metrics.summary(queued_now).players_matched == metrics.players_matched,
        metrics.summary(queued_now).attempts == metrics.attempts,
        metrics.summary(queued_now).empty_attempts == metrics.empty_attempts,
        metrics.summary(queued_now).max_queue_depth == metrics.max_queue_depth,
{
}

} // verus!
