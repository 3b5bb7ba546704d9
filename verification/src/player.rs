//! Core domain types: an individual `Player` waiting in queue and a formed `Match`.
use crate::clock;
use std::time::Instant;
use vstd::prelude::*;

verus! {

/// A player waiting in the matchmaking queue.
///
/// `Player` is `Copy` so it can be cheaply pulled out of a shard and reasoned about
/// without heap churn. `skill` is an MMR-style rating (e.g. 0..5000).
#[derive(Clone, Copy, Debug)]
pub struct Player {
    pub id: u64,
    pub skill: u32,
    /// Reading of the clock when the player entered the queue. Used for wait-time based
    /// constraint relaxation and for fairness (oldest players matched first).
    pub enqueued_at: Instant,
}

impl Player {
    /// A player who enters the queue now. Of `enqueued_at` nothing is stated: it is
    /// what the clock shows.
    pub fn new(id: u64, skill: u32) -> (player: Self)
        ensures
            player.id == id,
            player.skill == skill,
    {
        Player { id, skill, enqueued_at: clock::now() }
    }
}

/// A formed match: two balanced teams plus quality metadata. Means over the players
/// are kept as totals.
#[derive(Debug)]
pub struct Match {
    pub id: u64,
    pub team_a: Vec<Player>,
    pub team_b: Vec<Player>,
    /// Absolute difference between the two teams' summed skill. Lower is fairer.
    pub imbalance: u32,
    /// Summed skill of all players.
    pub total_skill: u64,
    /// Summed queue wait of all players, in microseconds.
    pub total_wait_us: u64,
    /// Skill spread (max - min) of the players. A proxy for match quality.
    pub skill_spread: u32,
}

/// The contents of a match.
#[verifier::ext_equal]
pub struct MatchView {
    pub id: u64,
    pub team_a: Seq<Player>,
    pub team_b: Seq<Player>,
    pub imbalance: u32,
    pub total_skill: u64,
    pub total_wait_us: u64,
    pub skill_spread: u32,
}

impl View for Match {
    type V = MatchView;

    open spec fn view(&self) -> MatchView {
        MatchView {
            id: self.id,
            team_a: self.team_a@,
            team_b: self.team_b@,
            imbalance: self.imbalance,
            total_skill: self.total_skill,
            total_wait_us: self.total_wait_us,
            skill_spread: self.skill_spread,
        }
    }
}

impl Clone for Match {
    fn clone(&self) -> (copy: Self)
        ensures
            copy@ == self@,
    {
        let team_a: Vec<Player> = self.team_a.clone();
        let team_b: Vec<Player> = self.team_b.clone();
        assert(team_a@ =~= self.team_a@);
        assert(team_b@ =~= self.team_b@);
        Match {
            id: self.id,
            team_a,
            team_b,
            imbalance: self.imbalance,
            total_skill: self.total_skill,
            total_wait_us: self.total_wait_us,
            skill_spread: self.skill_spread,
        }
    }
}

} // verus!
