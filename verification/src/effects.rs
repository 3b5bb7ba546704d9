//! What enqueueing, attempts and stopping change, and what they leave as it was.
use crate::arrivals::Waiter;
use crate::engine;
use crate::engine::EngineState;
use crate::lobby;
use crate::metrics;
use crate::nearest;
use crate::player::MatchView;
use crate::shard;
use std::time::Instant;
use vstd::prelude::*;

verus! {

/// A player waits under exactly the skill they come with, and under the maximum where they
/// come with a higher one; and always under their own id.
pub proof fn law_player_waits_at_their_skill(state: EngineState, id: u64, skill: u32)
    ensures
        skill <= state.config.skill_max ==> state.key_for(id, skill) == (skill, id),
        skill > state.config.skill_max ==> state.key_for(id, skill) == (state.config.skill_max, id),
{
}

/// Enqueueing a player puts them into the queue under their skill, with a ticket for that
/// moment, and leaves every other entry of the queue as it was.
pub proof fn law_enqueue_changes_one_entry(
    state: EngineState,
    id: u64,
    skill: u32,
    at: Instant,
    stored: u32,
    other: (u32, u64),
)
    requires
        skill <= state.config.skill_max ==> stored == skill,
        skill > state.config.skill_max ==> stored == state.config.skill_max,
        other != (stored, id),
    ensures
        ({
            let after = state.after_enqueue(id, skill, at);
            &&& after.waiting.contains_key((stored, id))
            &&& after.waiting[(stored, id)].at == at
            &&& after.waiting[(stored, id)].at_ns == state.reading(at)
            &&& after.waiting[(stored, id)].arrival == state.arrivals.count
            &&& after.waiting.contains_key(other) == state.waiting.contains_key(other)
            &&& state.waiting.contains_key(other) ==> after.waiting[other] == state.waiting[other]
        }),
{
}

/// Enqueueing a player who does not wait yet makes the queue one deeper and is counted once; a
/// player who waits already is not counted again. Nothing else changes but the clock.
pub proof fn law_enqueue_counts_one_player(
    state: EngineState,
    id: u64,
    skill: u32,
    at: Instant,
    stored: u32,
)
    requires
        skill <= state.config.skill_max ==> stored == skill,
        skill > state.config.skill_max ==> stored == state.config.skill_max,
        0 <= state.queued < usize::MAX,
        state.metrics.enqueued < u64::MAX,
        state.arrivals.count < u64::MAX,
    ensures
        ({
            let after = state.after_enqueue(id, skill, at);
            let new = !state.waiting.contains_key((stored, id));
            &&& new ==> after.queued == state.queued + 1
            &&& new ==> after.metrics.enqueued == state.metrics.enqueued + 1
            &&& new ==> after.metrics.max_queue_depth >= state.queued + 1
            &&& new ==> after.metrics.max_queue_depth >= state.metrics.max_queue_depth
            &&& after.metrics.max_queue_depth == state.metrics.max_queue_depth
                || after.metrics.max_queue_depth == state.queued + 1
            &&& !new ==> after.queued == state.queued && after.metrics == state.metrics
            &&& after.arrivals.count == state.arrivals.count + 1
            &&& after.arrivals.latest_ns == state.reading(at)
            &&& after.arrivals.epoch == state.arrivals.epoch
            &&& after.metrics.matches == state.metrics.matches
            &&& after.metrics.players_matched == state.metrics.players_matched
            &&& after.metrics.attempts == state.metrics.attempts
            &&& after.metrics.empty_attempts == state.metrics.empty_attempts
            &&& after.metrics.total_wait_us == state.metrics.total_wait_us
            &&& after.metrics.total_imbalance == state.metrics.total_imbalance
            &&& after.metrics.total_spread == state.metrics.total_spread
            &&& after.config == state.config
            &&& after.axis == state.axis
            &&& after.places == state.places
            &&& after.next_seed == state.next_seed
            &&& after.match_seq == state.match_seq
            &&& after.running == state.running
            &&& after.recent == state.recent
        }),
{
}

/// Every attempt is counted once, and as an empty one exactly if nobody waits in the shard
/// whose turn it is. It puts the clock to the time that it read and hands the turn on. It
/// enqueues nobody and does not change how the engine is built.
pub proof fn law_attempt_is_counted_and_hands_on(
    before: EngineState,
    now_ns: u64,
    bands: spec_fn(u64) -> u32,
    after: EngineState,
)
    requires
        before.is_attempt(now_ns, bands, after),
        before.metrics.attempts < u64::MAX,
        before.metrics.empty_attempts < u64::MAX,
        before.next_seed < usize::MAX,
    ensures
        after.metrics.attempts == before.metrics.attempts + 1,
        after.metrics.empty_attempts == before.metrics.empty_attempts + if (exists|key: (u32, u64)|
            #[trigger] before.waiting.contains_key(key) && before.axis.shard(key.0)
                == before.next_seed as int % before.config.num_shards as int) {
            0int
        } else {
            1int
        },
        after.next_seed == before.next_seed + 1,
        before.arrivals.latest_ns <= now_ns,
        after.arrivals.latest_ns == now_ns,
        after.arrivals.count == before.arrivals.count,
        after.arrivals.epoch == before.arrivals.epoch,
        after.metrics.enqueued == before.metrics.enqueued,
        after.metrics.max_queue_depth == before.metrics.max_queue_depth,
        after.config == before.config,
        after.axis == before.axis,
        after.running == before.running,
{
    if before.can_match(now_ns, bands) {
        let (group, formed) = engine::law_attempt_forms_a_match(before, now_ns, bands, after);
    }
    if exists|key: (u32, u64)| #[trigger]
        before.waiting.contains_key(key) && before.axis.shard(key.0) == before.next_seed as int
            % before.config.num_shards as int {
        let key = choose|key: (u32, u64)| #[trigger]
            before.waiting.contains_key(key) && before.axis.shard(key.0) == before.next_seed as int
                % before.config.num_shards as int;
        assert(!before.finds_nobody());
    } else {
        assert(before.finds_nobody());
    }
}

/// An attempt that forms a match takes exactly the players of the match out of the queue, and
/// leaves everybody else with their tickets; it numbers the match, counts it with all its
/// players and with what it records, and puts it at the end of the log.
pub proof fn law_match_changes_its_players_only(
    before: EngineState,
    now_ns: u64,
    bands: spec_fn(u64) -> u32,
    group: Seq<Waiter>,
    formed: MatchView,
    after: EngineState,
    key: (u32, u64),
)
    requires
        before.adds_up(0),
        before.is_formed(now_ns, bands, group, formed, after),
        before.match_seq < u64::MAX,
        before.metrics.matches < u64::MAX,
        before.metrics.players_matched + group.len() <= u64::MAX,
        before.metrics.total_wait_us + formed.total_wait_us <= u64::MAX,
        before.metrics.total_imbalance + formed.imbalance <= u64::MAX,
        before.metrics.total_spread + formed.skill_spread <= u64::MAX,
    ensures
        group.len() == 2 * before.config.team_size,
        after.waiting.contains_key(key) <==> before.waiting.contains_key(key) && forall|i: int|
            0 <= i < group.len() ==> !((#[trigger] group[i]).skill == key.0 && group[i].id
                == key.1),
        after.waiting.contains_key(key) ==> after.waiting[key] == before.waiting[key],
        forall|i: int|
            0 <= i < group.len() ==> before.waiting.contains_key(
                ((#[trigger] group[i]).skill, group[i].id),
            ) && before.waiting[(group[i].skill, group[i].id)] == group[i].ticket,
        after.queued == before.queued - group.len(),
        formed.id == before.match_seq,
        after.match_seq == before.match_seq + 1,
        after.metrics.matches == before.metrics.matches + 1,
        after.metrics.players_matched == before.metrics.players_matched + group.len(),
        after.metrics.total_wait_us == before.metrics.total_wait_us + formed.total_wait_us,
        after.metrics.total_imbalance == before.metrics.total_imbalance + formed.imbalance,
        after.metrics.total_spread == before.metrics.total_spread + formed.skill_spread,
        before.config.keep_recent > 0 ==> after.recent.len() > 0 && after.recent.last() == formed,
        after.recent.len() <= before.recent.len() + 1,
        before.recent.len() < before.config.keep_recent ==> after.recent == before.recent.push(
            formed,
        ),
        before.recent.len() == before.config.keep_recent && before.config.keep_recent > 0
            ==> after.recent == before.recent.drop_first().push(formed),
        before.config.keep_recent == 0 ==> after.recent.len() == 0,
{
    let seed = before.seed();
    nearest::law_taking_a_group_out(before.waiting, group, key);
    lobby::law_match_takes_waiters(
        before.waiting,
        before.axis.top_skill(),
        seed,
        bands(seed.wait(now_ns)),
        before.config.match_size(),
        now_ns,
        bands,
        group,
    );
    assert forall|i: int| 0 <= i < group.len() implies before.waiting.contains_key(
        ((#[trigger] group[i]).skill, group[i].id),
    ) && before.waiting[(group[i].skill, group[i].id)] == group[i].ticket by {
        assert(shard::waits(before.waiting, group[i]));
    }
    metrics::law_match_is_counted(
        before.metrics,
        group.len() as usize,
        formed.total_wait_us,
        formed.imbalance,
        formed.skill_spread,
    );
    if before.recent.len() == before.config.keep_recent && before.config.keep_recent > 0 {
        assert(after.recent =~= before.recent.drop_first().push(formed));
    }
    if before.config.keep_recent == 0 {
        assert(after.recent.len() == 0);
    }
}

/// An attempt that forms no match leaves the queue, every ticket and the log as they were, and
/// counts no match.
pub proof fn law_miss_takes_nobody(before: EngineState, now_ns: u64)
    ensures
        ({
            let after = before.after_miss(now_ns);
            &&& after.waiting == before.waiting
            &&& after.queued == before.queued
            &&& after.match_seq == before.match_seq
            &&& after.recent == before.recent
            &&& after.metrics.matches == before.metrics.matches
            &&& after.metrics.players_matched == before.metrics.players_matched
            &&& after.metrics.total_wait_us == before.metrics.total_wait_us
            &&& after.metrics.total_imbalance == before.metrics.total_imbalance
            &&& after.metrics.total_spread == before.metrics.total_spread
        }),
{
}

/// Being told to stop changes nothing but that the workers shall not go on.
pub proof fn law_stopping_changes_nothing_else(state: EngineState)
    ensures
        !state.after_stop().running,
        state.after_stop().waiting == state.waiting,
        state.after_stop().queued == state.queued,
        state.after_stop().metrics == state.metrics,
        state.after_stop().recent == state.recent,
        state.after_stop().arrivals == state.arrivals,
        state.after_stop().places == state.places,
        state.after_stop().next_seed == state.next_seed,
        state.after_stop().match_seq == state.match_seq,
        state.after_stop().config == state.config,
        state.after_stop().axis == state.axis,
{
}

/// An engine starts with nobody in the queue, nothing counted, no match formed, at the first
/// shard, and running.
pub proof fn law_engine_starts_empty(state: EngineState, key: (u32, u64))
    requires
        state.is_new(),
    ensures
        !state.waiting.contains_key(key),
        state.queued == 0,
        state.next_seed == 0,
        state.match_seq == 0,
        state.running,
        state.recent.len() == 0,
        state.arrivals.latest_ns == 0,
        state.arrivals.count == 0,
        state.places.len() == state.config.num_shards,
        forall|s: int| 0 <= s < state.places.len() ==> (#[trigger] state.places[s]) is None,
        state.axis.shards() == state.config.num_shards,
        state.axis.top_skill() == state.config.skill_max,
        state.metrics.enqueued == 0 && state.metrics.matches == 0 && state.metrics.players_matched
            == 0 && state.metrics.attempts == 0 && state.metrics.empty_attempts == 0
            && state.metrics.total_wait_us == 0 && state.metrics.total_imbalance == 0
            && state.metrics.total_spread == 0 && state.metrics.max_queue_depth == 0,
{
}

/// The engine's clock shows no time before the latest that it has shown.
pub proof fn law_clock_reads_on(state: EngineState, now_ns: u64)
    requires
        state.clock_may_read(now_ns),
    ensures
        now_ns >= state.arrivals.latest_ns,
{
    let now = choose|now: Instant| #[trigger] state.reading(now) == now_ns;
}

} // verus!
