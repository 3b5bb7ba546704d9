//! What holds over the whole life of an engine, whatever happens to it and in whatever order.
//!
//! A history is a sequence of events, each of which takes the engine from one state to the
//! next.
use crate::acceptance;
use crate::arrivals::{Ticket, Waiter};
use crate::axis;
use crate::engine;
use crate::engine::EngineState;
use crate::lobby;
use crate::nearest;
use crate::player::{MatchView, Player};
use crate::pool;
use crate::recent;
use crate::record;
use crate::shard;
use std::time::Instant;
use vstd::prelude::*;

verus! {

/// What happens to an engine.
pub enum Event {
    /// A player is enqueued.
    Enqueued { id: u64, skill: u32, at: Instant },
    /// An attempt makes the match `formed` of `group`.
    Formed {
        now_ns: u64,
        bands: spec_fn(u64) -> u32,
        group: Seq<Waiter>,
        formed: MatchView,
    },
    /// An attempt forms no match.
    Missed { now_ns: u64, bands: spec_fn(u64) -> u32 },
    /// The engine is told to stop.
    Stopped,
}

/// `event` takes an engine from `before` to `after`.
pub open spec fn is_step(before: EngineState, event: Event, after: EngineState) -> bool {
    match event {
        Event::Enqueued { id, skill, at } => {
            &&& !before.waiting.contains_key(before.key_for(id, skill)) ==> before.queued
                < usize::MAX
            &&& after == before.after_enqueue(id, skill, at)
        },
        Event::Formed { now_ns, bands, group, formed } => {
            &&& before.arrivals.latest_ns <= now_ns
            &&& before.is_formed(now_ns, bands, group, formed, after)
        },
        Event::Missed { now_ns, bands } => {
            &&& before.arrivals.latest_ns <= now_ns
            &&& !before.can_match(now_ns, bands)
            &&& after == before.after_miss(now_ns)
        },
        Event::Stopped => after == before.after_stop(),
    }
}

/// `events` take an engine through `states`.
pub open spec fn is_path(states: Seq<EngineState>, events: Seq<Event>) -> bool {
    &&& states.len() == events.len() + 1
    &&& forall|i: int|
        0 <= i < events.len() ==> is_step(states[i], #[trigger] events[i], states[i + 1])
}

/// `events` take an engine through `states` from when it was made.
pub open spec fn is_life(states: Seq<EngineState>, events: Seq<Event>) -> bool {
    &&& is_path(states, events)
    &&& states[0].is_new()
    &&& states[0].config.is_valid()
    &&& states[0].axis.wf()
}

/// No player is enqueued twice.
pub open spec fn ids_are_distinct(events: Seq<Event>) -> bool {
    forall|i: int, j: int|
        0 <= i < j < events.len() && (#[trigger] events[i]) is Enqueued && (
        #[trigger] events[j]) is Enqueued ==> events[i]->id != events[j]->id
}

/// How many players are enqueued.
pub open spec fn enqueued_in(events: Seq<Event>) -> nat
    decreases events.len(),
{
    if events.len() == 0 {
        0
    } else {
        enqueued_in(events.drop_last()) + if events.last() is Enqueued {
            1nat
        } else {
            0nat
        }
    }
}

/// The matches that are formed, in order.
pub open spec fn formed_in(events: Seq<Event>) -> Seq<MatchView>
    decreases events.len(),
{
    if events.len() == 0 {
        Seq::empty()
    } else {
        match events.last() {
            Event::Formed { formed, .. } => formed_in(events.drop_last()).push(formed),
            _ => formed_in(events.drop_last()),
        }
    }
}

/// Every attempt is a step: one that forms a match where it can, and misses otherwise.
pub proof fn law_attempt_is_a_step(
    before: EngineState,
    now_ns: u64,
    bands: spec_fn(u64) -> u32,
    after: EngineState,
) -> (event: Event)
    requires
        before.is_attempt(now_ns, bands, after),
    ensures
        is_step(before, event, after),
        event is Formed || event is Missed,
        event is Formed <==> before.can_match(now_ns, bands),
{
    if before.can_match(now_ns, bands) {
        let (group, formed) = engine::law_attempt_forms_a_match(before, now_ns, bands, after);
        Event::Formed { now_ns, bands, group, formed }
    } else {
        Event::Missed { now_ns, bands }
    }
}

/// A step keeps an engine adding up, and does not change how it is built.
pub proof fn law_step_adds_up(before: EngineState, event: Event, after: EngineState)
    requires
        before.adds_up(0),
        is_step(before, event, after),
    ensures
        after.adds_up(0),
        after.config == before.config,
        after.axis == before.axis,
{
    match event {
        Event::Enqueued { id, skill, at } => {
            engine::law_enqueue_adds_up(before, 0, id, skill, at);
        },
        Event::Formed { now_ns, bands, group, formed } => {
            engine::law_eviction_adds_up(before, now_ns, bands, group);
            engine::law_match_adds_up(before.after_eviction(now_ns, group), formed);
        },
        Event::Missed { now_ns, .. } => {
            engine::law_miss_adds_up(before, now_ns);
        },
        Event::Stopped => {},
    }
}

/// An engine adds up at every moment of its life: the reported depth is the number of
/// waiters, and the players who were ever enqueued are those who wait and those who were
/// matched.
pub proof fn law_engine_always_adds_up(states: Seq<EngineState>, events: Seq<Event>, n: int)
    requires
        is_life(states, events),
        0 <= n <= events.len(),
    ensures
        states[n].adds_up(0),
        states[n].config == states[0].config,
        states[n].axis == states[0].axis,
    decreases n,
{
    if n == 0 {
        engine::law_new_engine_adds_up(states[0]);
    } else {
        law_engine_always_adds_up(states, events, n - 1);
        assert(is_step(states[n - 1], events[n - 1], states[n]));
        law_step_adds_up(states[n - 1], events[n - 1], states[n]);
    }
}

/// The retained matches are the last ones that were formed, as many as are to be kept, the
/// oldest first, and the matches of an engine are numbered consecutively from zero.
pub proof fn law_recent_matches_end_the_history(
    states: Seq<EngineState>,
    events: Seq<Event>,
    n: int,
)
    requires
        is_life(states, events),
        0 <= n <= events.len(),
        events.len() <= u64::MAX,
    ensures
        states[n].recent == recent::last_of(
            formed_in(events.take(n)),
            states[n].config.keep_recent as int,
        ),
        states[n].match_seq == formed_in(events.take(n)).len(),
        formed_in(events.take(n)).len() <= n,
        forall|k: int|
            0 <= k < formed_in(events.take(n)).len() ==> (#[trigger] formed_in(
                events.take(n),
            )[k]).id == k,
    decreases n,
{
    if n == 0 {
        assert(states[0].recent =~= recent::last_of(
            formed_in(events.take(0)),
            states[0].config.keep_recent as int,
        ));
    } else {
        law_recent_matches_end_the_history(states, events, n - 1);
        law_engine_always_adds_up(states, events, n - 1);
        assert(is_step(states[n - 1], events[n - 1], states[n]));
        assert(events.take(n).drop_last() =~= events.take(n - 1));
        assert(events.take(n).last() == events[n - 1]);
        match events[n - 1] {
            Event::Formed { now_ns, bands, group, formed } => {
                recent::law_log_is_the_end_of_history(
                    formed_in(events.take(n - 1)),
                    states[n].config.keep_recent as int,
                    formed,
                );
            },
            _ => {},
        }
    }
}

/// Of `k` matches that were formed and `r` that are to be kept, the retained ones are exactly
/// the last `min(k, r)`, with consecutive ids up to `k - 1`; where none is to be kept, none is
/// retained.
pub proof fn law_recent_matches_are_numbered(
    states: Seq<EngineState>,
    events: Seq<Event>,
    n: int,
)
    requires
        is_life(states, events),
        0 <= n <= events.len(),
        events.len() <= u64::MAX,
    ensures
        states[n].recent.len() == axis::min_of(
            formed_in(events.take(n)).len() as int,
            states[n].config.keep_recent as int,
        ),
        forall|i: int|
            0 <= i < states[n].recent.len() ==> {
                let at = formed_in(events.take(n)).len() - states[n].recent.len() + i;
                &&& (#[trigger] states[n].recent[i]) == formed_in(events.take(n))[at]
                &&& states[n].recent[i].id == at
            },
        states[n].config.keep_recent == 0 ==> states[n].recent.len() == 0,
{
    law_recent_matches_end_the_history(states, events, n);
}

/// Event number `k` enqueues a player under `key`.
pub open spec fn enters(
    states: Seq<EngineState>,
    events: Seq<Event>,
    k: int,
    key: (u32, u64),
) -> bool {
    &&& 0 <= k < events.len()
    &&& events[k] is Enqueued
    &&& states[k].key_for(events[k]->id, events[k]->skill) == key
}

/// Whoever waits was enqueued before.
pub proof fn law_waiters_were_enqueued(
    states: Seq<EngineState>,
    events: Seq<Event>,
    n: int,
    key: (u32, u64),
) -> (k: int)
    requires
        is_life(states, events),
        0 <= n <= events.len(),
        states[n].waiting.contains_key(key),
    ensures
        0 <= k < n,
        enters(states, events, k, key),
        events[k]->id == key.1,
    decreases n,
{
    assert(n > 0);
    assert(is_step(states[n - 1], events[n - 1], states[n]));
    match events[n - 1] {
        Event::Enqueued { id, skill, at } => {
            if states[n - 1].key_for(id, skill) == key {
                n - 1
            } else {
                law_waiters_were_enqueued(states, events, n - 1, key)
            }
        },
        _ => law_waiters_were_enqueued(states, events, n - 1, key),
    }
}

/// A member of a group that an attempt takes was waiting.
proof fn lemma_members_wait(
    state: EngineState,
    now_ns: u64,
    bands: spec_fn(u64) -> u32,
    group: Seq<Waiter>,
    a: int,
)
    requires
        state.is_group(now_ns, bands, group),
        0 <= a < group.len(),
    ensures
        shard::waits(state.waiting, group[a]),
        nearest::keys_of(group).contains(group[a].key()),
{
    let seed = state.seed();
    let band = bands(seed.wait(now_ns));
    lobby::law_match_takes_waiters(
        state.waiting,
        state.axis.top_skill(),
        seed,
        band,
        state.config.match_size(),
        now_ns,
        bands,
        group,
    );
    assert(shard::is_waiter(
        state.waiting,
        axis::low_end(seed.skill, band),
        axis::high_end(seed.skill, band, state.axis.top_skill()),
        group[a],
    ));
    let keys = group.map_values(|w: Waiter| w.key());
    assert(keys[a] == group[a].key());
}

/// Nobody who was matched waits any more, as long as nobody is enqueued twice: once an attempt
/// has taken a player, no later state has them in the queue.
pub proof fn law_matched_players_are_gone(
    states: Seq<EngineState>,
    events: Seq<Event>,
    i: int,
    a: int,
    n: int,
    key: (u32, u64),
)
    requires
        is_life(states, events),
        ids_are_distinct(events),
        0 <= i < n <= events.len(),
        events[i] is Formed,
        0 <= a < events[i]->group.len(),
        key.1 == events[i]->group[a].id,
    ensures
        !states[n].waiting.contains_key(key),
    decreases n,
{
    let group = events[i]->group;
    assert(is_step(states[i], events[i], states[i + 1]));
    lemma_members_wait(states[i], events[i]->Formed_now_ns, events[i]->Formed_bands, group, a);
    let k = law_waiters_were_enqueued(states, events, i, group[a].key());
    if n == i + 1 {
        if states[n].waiting.contains_key(key) {
            assert(states[i].waiting.contains_key(key));
            let other = law_waiters_were_enqueued(states, events, i, key);
            assert(other == k);
            assert(key == group[a].key());
        }
    } else {
        law_matched_players_are_gone(states, events, i, a, n - 1, key);
        assert(is_step(states[n - 1], events[n - 1], states[n]));
    }
}

/// No player is in two matches, as long as nobody is enqueued twice, however many players
/// arrive in between: the groups of any two attempts have no player in common, and each of
/// their players was enqueued before.
pub proof fn law_no_player_is_in_two_matches(
    states: Seq<EngineState>,
    events: Seq<Event>,
    i: int,
    j: int,
    a: int,
    b: int,
) -> (k: int)
    requires
        is_life(states, events),
        ids_are_distinct(events),
        0 <= i < j < events.len(),
        events[i] is Formed,
        events[j] is Formed,
        0 <= a < events[i]->group.len(),
        0 <= b < events[j]->group.len(),
    ensures
        events[i]->group[a].id != events[j]->group[b].id,
        0 <= k < i,
        enters(states, events, k, events[i]->group[a].key()),
{
    assert(is_step(states[i], events[i], states[i + 1]));
    assert(is_step(states[j], events[j], states[j + 1]));
    lemma_members_wait(
        states[i],
        events[i]->Formed_now_ns,
        events[i]->Formed_bands,
        events[i]->group,
        a,
    );
    lemma_members_wait(
        states[j],
        events[j]->Formed_now_ns,
        events[j]->Formed_bands,
        events[j]->group,
        b,
    );
    if events[i]->group[a].id == events[j]->group[b].id {
        law_matched_players_are_gone(states, events, i, a, j, events[j]->group[b].key());
    }
    law_waiters_were_enqueued(states, events, i, events[i]->group[a].key())
}

/// No player is in one match twice.
pub proof fn law_no_player_is_in_a_match_twice(
    states: Seq<EngineState>,
    events: Seq<Event>,
    i: int,
    a: int,
    b: int,
)
    requires
        is_life(states, events),
        ids_are_distinct(events),
        0 <= i < events.len(),
        events[i] is Formed,
        0 <= a < b < events[i]->group.len(),
    ensures
        events[i]->group[a].id != events[i]->group[b].id,
{
    let group = events[i]->group;
    assert(is_step(states[i], events[i], states[i + 1]));
    lemma_members_wait(states[i], events[i]->Formed_now_ns, events[i]->Formed_bands, group, a);
    lemma_members_wait(states[i], events[i]->Formed_now_ns, events[i]->Formed_bands, group, b);
    let x = law_waiters_were_enqueued(states, events, i, group[a].key());
    let y = law_waiters_were_enqueued(states, events, i, group[b].key());
    if group[a].id == group[b].id {
        assert(x == y);
        assert(group[a].key() == group[b].key());
        assert(group[a] == group[b]);
        let now_ns = events[i]->Formed_now_ns;
        let bands = events[i]->Formed_bands;
        lobby::law_match_takes_waiters(
            states[i].waiting,
            states[i].axis.top_skill(),
            states[i].seed(),
            bands(states[i].seed().wait(now_ns)),
            states[i].config.match_size(),
            now_ns,
            bands,
            group,
        );
    }
}

/// A group that an attempt has taken stays out of the queue, and shares no player with the
/// group of a later attempt, unless one of its players is enqueued again in between. This
/// holds from any state on, whatever else is enqueued.
pub proof fn law_taken_players_stay_out(
    states: Seq<EngineState>,
    events: Seq<Event>,
    n: int,
)
    requires
        is_path(states, events),
        events.len() > 0,
        events[0] is Formed,
        forall|k: int, a: int|
            0 < k < events.len() && #[trigger] events[k] is Enqueued && 0 <= a
                < events[0]->group.len() ==> events[k]->id != (
            #[trigger] events[0]->group[a]).id,
        0 < n <= events.len(),
    ensures
        nearest::keys_of(events[0]->group).disjoint(states[n].waiting.dom()),
        n < events.len() && events[n] is Formed ==> nearest::keys_of(events[0]->group).disjoint(
            nearest::keys_of(events[n]->group),
        ),
    decreases n,
{
    let group = events[0]->group;
    let keys = group.map_values(|w: Waiter| w.key());
    assert(is_step(states[n - 1], events[n - 1], states[n]));
    if n > 1 {
        law_taken_players_stay_out(states, events, n - 1);
    }
    let waiting = states[n].waiting;
    assert forall|key: (u32, u64)|
        nearest::keys_of(group).contains(key) implies !waiting.dom().contains(key) by {
        let a = choose|a: int| 0 <= a < keys.len() && keys[a] == key;
        assert(group[a].key() == key);
        if n > 1 && events[n - 1] is Enqueued {
            assert(events[n - 1]->id != group[a].id);
        }
    }
    if n < events.len() && events[n] is Formed {
        assert(is_step(states[n], events[n], states[n + 1]));
        let later = events[n]->group;
        let later_keys = later.map_values(|w: Waiter| w.key());
        let taken = nearest::keys_of(group);
        assert forall|key: (u32, u64)|
            nearest::keys_of(later).contains(key) implies !taken.contains(key) by {
            let b = choose|b: int| 0 <= b < later_keys.len() && later_keys[b] == key;
            lemma_members_wait(
                states[n],
                events[n]->Formed_now_ns,
                events[n]->Formed_bands,
                later,
                b,
            );
            assert(states[n].waiting.dom().contains(key));
        }
    }
}

/// The counts over a whole life in which nobody is enqueued twice: every enqueued player is
/// counted once, every match counts a full match of players, and those who wait and those who
/// were matched are, together, those who were enqueued.
pub proof fn law_counts_are_exact(states: Seq<EngineState>, events: Seq<Event>, n: int)
    requires
        is_life(states, events),
        ids_are_distinct(events),
        0 <= n <= events.len(),
        events.len() <= u64::MAX,
    ensures
        states[n].metrics.enqueued == enqueued_in(events.take(n)),
        states[n].metrics.matches == formed_in(events.take(n)).len(),
        states[n].metrics.players_matched == states[n].config.match_size()
            * states[n].metrics.matches,
        states[n].queued + states[n].metrics.players_matched == states[n].metrics.enqueued,
        states[n].queued == states[n].waiting.dom().len(),
        enqueued_in(events.take(n)) <= n,
    decreases n,
{
    law_engine_always_adds_up(states, events, n);
    law_recent_matches_end_the_history(states, events, n);
    let size = states[n].config.match_size();
    if n > 0 {
        law_counts_are_exact(states, events, n - 1);
        law_engine_always_adds_up(states, events, n - 1);
        let before = states[n - 1];
        assert(is_step(before, events[n - 1], states[n]));
        assert(events.take(n).drop_last() =~= events.take(n - 1));
        assert(events.take(n).last() == events[n - 1]);
        match events[n - 1] {
            Event::Enqueued { id, skill, at } => {
                let key = before.key_for(id, skill);
                if before.waiting.contains_key(key) {
                    let k = law_waiters_were_enqueued(states, events, n - 1, key);
                    assert(events[k] is Enqueued && events[n - 1] is Enqueued);
                    assert(false);
                }
            },
            Event::Formed { now_ns, bands, group, formed } => {
                engine::law_eviction_adds_up(before, now_ns, bands, group);
                let m: int = before.metrics.matches as int;
                assert(size * (m + 1) == size * m + size) by (nonlinear_arith);
            },
            _ => {},
        }
    } else {
        assert(size * 0 == 0);
    }
}

/// The engine's clock never runs backwards: a later attempt reads no earlier time, so nobody's
/// wait is shorter then.
pub proof fn law_waits_never_shrink(
    states: Seq<EngineState>,
    events: Seq<Event>,
    i: int,
    j: int,
    waiter: Waiter,
)
    requires
        is_path(states, events),
        0 <= i < j < events.len(),
        events[i] is Formed || events[i] is Missed,
        events[j] is Formed || events[j] is Missed,
    ensures
        time_of(events[i]) <= time_of(events[j]),
        waiter.wait(time_of(events[i])) <= waiter.wait(time_of(events[j])),
{
    assert(is_step(states[i], events[i], states[i + 1]));
    assert(is_step(states[j], events[j], states[j + 1]));
    lemma_clock_goes_on(states, events, i + 1, j);
}

/// The time that an attempt read.
pub open spec fn time_of(event: Event) -> u64 {
    match event {
        Event::Formed { now_ns, .. } => now_ns,
        Event::Missed { now_ns, .. } => now_ns,
        _ => 0,
    }
}

/// The bands that an attempt went by.
pub open spec fn bands_of(event: Event) -> spec_fn(u64) -> u32 {
    match event {
        Event::Formed { bands, .. } => bands,
        Event::Missed { bands, .. } => bands,
        _ => |wait: u64| 0u32,
    }
}

proof fn lemma_clock_goes_on(states: Seq<EngineState>, events: Seq<Event>, i: int, j: int)
    requires
        is_path(states, events),
        0 <= i <= j <= events.len(),
    ensures
        states[i].arrivals.latest_ns <= states[j].arrivals.latest_ns,
    decreases j - i,
{
    if i < j {
        lemma_clock_goes_on(states, events, i, j - 1);
        assert(is_step(states[j - 1], events[j - 1], states[j]));
    }
}

/// No more numbers are handed out than events have happened.
pub proof fn law_numbers_last(states: Seq<EngineState>, events: Seq<Event>, n: int)
    requires
        is_path(states, events),
        0 <= n <= events.len(),
    ensures
        states[n].arrivals.count <= states[0].arrivals.count + n,
    decreases n,
{
    if n > 0 {
        law_numbers_last(states, events, n - 1);
        assert(is_step(states[n - 1], events[n - 1], states[n]));
    }
}

/// An engine that adds up keeps adding up along any path.
pub proof fn law_path_adds_up(states: Seq<EngineState>, events: Seq<Event>, n: int)
    requires
        is_path(states, events),
        states[0].adds_up(0),
        0 <= n <= events.len(),
    ensures
        states[n].adds_up(0),
        states[n].config == states[0].config,
        states[n].axis == states[0].axis,
    decreases n,
{
    if n > 0 {
        law_path_adds_up(states, events, n - 1);
        assert(is_step(states[n - 1], events[n - 1], states[n]));
        law_step_adds_up(states[n - 1], events[n - 1], states[n]);
    }
}

/// The event is an attempt that takes its seed from shard number `index`.
pub open spec fn is_turn(state: EngineState, event: Event, index: int) -> bool {
    (event is Formed || event is Missed) && state.seed_shard() == index
}

/// How many turns shard number `index` has among the first `n` events.
pub open spec fn turns_in(
    states: Seq<EngineState>,
    events: Seq<Event>,
    index: int,
    n: nat,
) -> nat
    decreases n,
{
    if n == 0 {
        0
    } else {
        turns_in(states, events, index, (n - 1) as nat) + if is_turn(
            states[n - 1],
            events[n - 1],
            index,
        ) {
            1nat
        } else {
            0nat
        }
    }
}

/// The event enqueues a player into shard number `index`.
pub open spec fn is_arrival(state: EngineState, event: Event, index: int) -> bool {
    match event {
        Event::Enqueued { id, skill, .. } => state.axis.shard(state.key_for(id, skill).0) == index,
        _ => false,
    }
}

/// How many players are enqueued into shard number `index` with the first `n` events.
pub open spec fn arrivals_in(
    states: Seq<EngineState>,
    events: Seq<Event>,
    index: int,
    n: nat,
) -> nat
    decreases n,
{
    if n == 0 {
        0
    } else {
        arrivals_in(states, events, index, (n - 1) as nat) + if is_arrival(
            states[n - 1],
            events[n - 1],
            index,
        ) {
            1nat
        } else {
            0nat
        }
    }
}

/// The waiters of shard number `index`.
pub open spec fn waiters_in(state: EngineState, index: int) -> Set<(u32, u64)> {
    state.waiting.dom().filter(|key: (u32, u64)| state.axis.shard(key.0) == index)
}

/// The waiters of the shard of `waiter` who have their turn sooner.
pub open spec fn ahead_of(state: EngineState, waiter: Waiter) -> Set<(u32, u64)> {
    waiters_in(state, state.axis.shard(waiter.skill)).filter(
        |key: (u32, u64)|
            shard::sooner(
                state.places[state.axis.shard(waiter.skill)],
                shard::rank_in(state.waiting, key),
                waiter.rank(),
            ),
    )
}

/// Fewer are ahead of a waiter than their shard has waiters.
proof fn lemma_ahead_is_part(state: EngineState, waiter: Waiter)
    requires
        state.waiting.dom().finite(),
        shard::waits(state.waiting, waiter),
    ensures
        ahead_of(state, waiter).finite(),
        ahead_of(state, waiter).len() < waiters_in(
            state,
            state.axis.shard(waiter.skill),
        ).len(),
{
    let all = waiters_in(state, state.axis.shard(waiter.skill));
    let ahead = ahead_of(state, waiter);
    vstd::set_lib::lemma_len_subset(all, state.waiting.dom());
    assert(all.contains(waiter.key()));
    assert(shard::rank_in(state.waiting, waiter.key()) == waiter.rank());
    assert(ahead.subset_of(all.remove(waiter.key())));
    vstd::set_lib::lemma_len_subset(ahead, all.remove(waiter.key()));
}

/// Each turn of their shard at which a waiter is not the seed brings them forward, and each
/// arrival in their shard sets them back by one at most.
proof fn lemma_turn_brings_forward(
    before: EngineState,
    event: Event,
    after: EngineState,
    waiter: Waiter,
)
    requires
        before.adds_up(0),
        is_step(before, event, after),
        shard::waits(before.waiting, waiter),
        shard::waits(after.waiting, waiter),
        is_turn(before, event, before.axis.shard(waiter.skill)) ==> before.seed() != waiter,
    ensures
        ahead_of(after, waiter).len() + (if is_turn(
            before,
            event,
            before.axis.shard(waiter.skill),
        ) {
            1int
        } else {
            0int
        }) <= ahead_of(before, waiter).len() + (if is_arrival(
            before,
            event,
            before.axis.shard(waiter.skill),
        ) {
            1int
        } else {
            0int
        }),
{
    let index = before.axis.shard(waiter.skill);
    let old_ahead = ahead_of(before, waiter);
    let new_ahead = ahead_of(after, waiter);
    lemma_ahead_is_part(before, waiter);
    lemma_shard_is_there(before, waiter);
    assert(before.waiting.contains_key(waiter.key()));
    match event {
        Event::Enqueued { id, skill, at } => {
            let key = before.key_for(id, skill);
            if is_arrival(before, event, index) {
                assert(new_ahead.subset_of(old_ahead.insert(key)));
                vstd::set_lib::lemma_len_subset(new_ahead, old_ahead.insert(key));
            } else {
                assert(new_ahead.subset_of(old_ahead));
                vstd::set_lib::lemma_len_subset(new_ahead, old_ahead);
            }
        },
        Event::Stopped => {
            assert(new_ahead =~= old_ahead);
        },
        _ => {
            if before.seed_shard() != index {
                assert(new_ahead.subset_of(old_ahead));
                vstd::set_lib::lemma_len_subset(new_ahead, old_ahead);
            } else {
                engine::law_seed_exists(before);
                lemma_seed_is_passed(before, event, after, waiter);
                vstd::set_lib::lemma_len_subset(
                    new_ahead,
                    old_ahead.remove(before.seed().key()),
                );
            }
        },
    }
}

/// The shard of a waiter and the shard of the next attempt have a place in line.
proof fn lemma_shard_is_there(state: EngineState, waiter: Waiter)
    requires
        state.adds_up(0),
        shard::waits(state.waiting, waiter),
    ensures
        0 <= state.axis.shard(waiter.skill) < state.places.len(),
        0 <= state.seed_shard() < state.places.len(),
{
    assert(state.waiting.contains_key(waiter.key()));
    axis::law_shards_follow_skill(state.axis, waiter.skill, waiter.skill);
    vstd::arithmetic::div_mod::lemma_mod_bound(
        state.next_seed as int,
        state.config.num_shards as int,
    );
}

/// A seed who is ahead of a waiter is not ahead any more after the attempt.
proof fn lemma_seed_is_passed(
    before: EngineState,
    event: Event,
    after: EngineState,
    waiter: Waiter,
)
    requires
        before.adds_up(0),
        is_step(before, event, after),
        is_turn(before, event, before.axis.shard(waiter.skill)),
        shard::waits(before.waiting, waiter),
        before.is_seed(before.seed()),
        before.seed() != waiter,
        0 <= before.seed_shard() < before.places.len(),
    ensures
        ahead_of(before, waiter).contains(before.seed().key()),
        ahead_of(after, waiter).subset_of(
            ahead_of(before, waiter).remove(before.seed().key()),
        ),
{
    let index = before.seed_shard();
    let place = before.places[index];
    let seed = before.seed();
    assert(pool::stands_in(before.waiting, before.axis, index, seed));
    assert(pool::stands_in(before.waiting, before.axis, index, waiter));
    assert(seed.key() != waiter.key());
    assert(shard::rank_in(before.waiting, seed.key()) == seed.rank());
    assert(shard::sooner(place, seed.rank(), waiter.rank()));
    assert forall|key: (u32, u64)| ahead_of(after, waiter).contains(key) implies ahead_of(
        before,
        waiter,
    ).remove(seed.key()).contains(key) by {
        assert(before.waiting.contains_key(key));
        let other = Waiter { id: key.1, skill: key.0, ticket: before.waiting[key] };
        assert(other.key() == key);
        assert(pool::stands_in(before.waiting, before.axis, index, other));
        assert(!shard::sooner(place, other.rank(), seed.rank()));
        assert(shard::rank_in(before.waiting, key) == other.rank());
        assert(shard::rank_in(after.waiting, key) == other.rank());
        if event is Formed {
            let group = event->group;
            if shard::lists(group, seed.key()) && key == seed.key() {
                let a = choose|a: int|
                    0 <= a < group.len() && (#[trigger] group[a]).key() == seed.key();
                lemma_members_wait(
                    before,
                    event->Formed_now_ns,
                    event->Formed_bands,
                    group,
                    a,
                );
            }
        }
    }
}

/// Everyone has their turn: as long as a waiter stays, the turns of their shard make them the
/// seed within as many turns as the shard has waiters, and one more for each player who is
/// enqueued into the shard meanwhile.
pub proof fn law_everyone_has_their_turn(
    states: Seq<EngineState>,
    events: Seq<Event>,
    waiter: Waiter,
    n: int,
) -> (turn: int)
    requires
        is_path(states, events),
        states[0].adds_up(0),
        0 <= n <= events.len(),
        shard::waits(states[0].waiting, waiter),
        forall|m: int| 0 <= m < n ==> shard::waits((#[trigger] states[m]).waiting, waiter),
        turns_in(states, events, states[0].axis.shard(waiter.skill), n as nat) >= waiters_in(
            states[0],
            states[0].axis.shard(waiter.skill),
        ).len() + arrivals_in(
            states,
            events,
            states[0].axis.shard(waiter.skill),
            n as nat,
        ),
    ensures
        0 <= turn < n,
        is_turn(states[turn], events[turn], states[0].axis.shard(waiter.skill)),
        states[turn].is_seed(waiter),
        states[turn].seed() == waiter,
{
    let index = states[0].axis.shard(waiter.skill);
    lemma_ahead_is_part(states[0], waiter);
    assert(n > 0);
    if forall|m: int|
        0 <= m < n && is_turn(#[trigger] states[m], events[m], index) ==> states[m].seed()
            != waiter {
        let last = states[n - 1];
        lemma_turns_are_counted(states, events, waiter, n - 1);
        law_path_adds_up(states, events, n - 1);
        assert(is_step(last, events[n - 1], states[n]));
        assert(shard::waits(last.waiting, waiter));
        assert(last.waiting.contains_key(waiter.key()));
        lemma_ahead_is_part(last, waiter);
        if is_turn(last, events[n - 1], index) {
            lemma_shard_is_there(last, waiter);
            engine::law_seed_exists(last);
            lemma_seed_is_passed(last, events[n - 1], states[n], waiter);
        }
        assert(false);
    }
    let turn = choose|m: int|
        0 <= m < n && is_turn(#[trigger] states[m], events[m], index) && states[m].seed()
            == waiter;
    law_path_adds_up(states, events, turn);
    assert(shard::waits(states[turn].waiting, waiter));
    assert(states[turn].waiting.contains_key(waiter.key()));
    engine::law_seed_exists(states[turn]);
    turn
}

proof fn lemma_turns_are_counted(
    states: Seq<EngineState>,
    events: Seq<Event>,
    waiter: Waiter,
    n: int,
)
    requires
        is_path(states, events),
        states[0].adds_up(0),
        0 <= n <= events.len(),
        forall|m: int| 0 <= m <= n ==> shard::waits((#[trigger] states[m]).waiting, waiter),
        forall|m: int|
            0 <= m < n && is_turn(
                #[trigger] states[m],
                events[m],
                states[0].axis.shard(waiter.skill),
            ) ==> states[m].seed() != waiter,
    ensures
        ahead_of(states[n], waiter).len() + turns_in(
            states,
            events,
            states[0].axis.shard(waiter.skill),
            n as nat,
        ) <= ahead_of(states[0], waiter).len() + arrivals_in(
            states,
            events,
            states[0].axis.shard(waiter.skill),
            n as nat,
        ),
    decreases n,
{
    if n > 0 {
        lemma_turns_are_counted(states, events, waiter, n - 1);
        law_path_adds_up(states, events, n - 1);
        assert(is_step(states[n - 1], events[n - 1], states[n]));
        assert(shard::waits(states[n - 1].waiting, waiter));
        assert(shard::waits(states[n].waiting, waiter));
        lemma_turn_brings_forward(states[n - 1], events[n - 1], states[n], waiter);
    }
}

/// All of `group` are in the queue.
pub open spec fn all_wait(state: EngineState, group: Seq<Waiter>) -> bool {
    forall|i: int| 0 <= i < group.len() ==> shard::waits(state.waiting, #[trigger] group[i])
}

/// Where a group is not complete any more, there was an event with which it ceased to be.
proof fn lemma_first_to_leave(
    states: Seq<EngineState>,
    group: Seq<Waiter>,
    n: int,
) -> (m: int)
    requires
        0 <= n < states.len(),
        all_wait(states[0], group),
        !all_wait(states[n], group),
    ensures
        0 < m <= n,
        all_wait(states[m - 1], group),
        !all_wait(states[m], group),
    decreases n,
{
    if all_wait(states[n - 1], group) {
        n
    } else {
        lemma_first_to_leave(states, group, n - 1)
    }
}

/// Only players with fewer than a match of compatible peers stay unmatched: where a full match
/// of waiters fits inside the band of the oldest of them, then within as many turns of that
/// oldest one's shard as it has waiters, and one more for each player who is enqueued into it
/// meanwhile, a match is formed that takes one of them or that is formed around the oldest of
/// them. None of them may be enqueued again meanwhile.
pub proof fn law_no_lobby_is_left_waiting(
    states: Seq<EngineState>,
    events: Seq<Event>,
    group: Seq<Waiter>,
    k: int,
    n: int,
) -> (turn: int)
    requires
        is_path(states, events),
        states[0].adds_up(0),
        states[0].arrivals.count + events.len() < u64::MAX,
        0 <= n <= events.len(),
        group.len() == states[0].config.match_size(),
        nearest::is_distinct(group),
        acceptance::is_oldest(group, k),
        all_wait(states[0], group),
        forall|m: int|
            0 <= m < n && #[trigger] events[m] is Enqueued ==> !shard::lists(
                group,
                states[m].key_for(events[m]->id, events[m]->skill),
            ),
        forall|m: int|
            0 <= m < n && (#[trigger] events[m] is Formed || events[m] is Missed)
                ==> acceptance::all_fit(
                group,
                k,
                bands_of(events[m])(group[k].wait(time_of(events[m]))),
            ),
        turns_in(states, events, states[0].axis.shard(group[k].skill), n as nat) >= waiters_in(
            states[0],
            states[0].axis.shard(group[k].skill),
        ).len() + arrivals_in(
            states,
            events,
            states[0].axis.shard(group[k].skill),
            n as nat,
        ),
    ensures
        0 <= turn < n,
        events[turn] is Formed,
        states[turn].seed() == group[k] || exists|i: int|
            0 <= i < group.len() && shard::lists(
                events[turn]->group,
                (#[trigger] group[i]).key(),
            ),
{
    if forall|m: int| 0 <= m < n ==> all_wait(#[trigger] states[m], group) {
        assert forall|m: int| 0 <= m < n implies shard::waits(
            (#[trigger] states[m]).waiting,
            group[k],
        ) by {
            assert(all_wait(states[m], group));
        }
        let turn = law_everyone_has_their_turn(states, events, group[k], n);
        law_path_adds_up(states, events, turn);
        law_numbers_last(states, events, turn);
        assert(is_step(states[turn], events[turn], states[turn + 1]));
        assert(all_wait(states[turn], group));
        engine::law_every_lobby_is_found(
            states[turn],
            group,
            k,
            time_of(events[turn]),
            bands_of(events[turn]),
        );
        turn
    } else {
        let gone = choose|m: int| 0 <= m < n && !all_wait(#[trigger] states[m], group);
        let turn = lemma_first_to_leave(states, group, gone) - 1;
        assert(is_step(states[turn], events[turn], states[turn + 1]));
        let i = choose|i: int|
            0 <= i < group.len() && !shard::waits(
                states[turn + 1].waiting,
                #[trigger] group[i],
            );
        assert(shard::waits(states[turn].waiting, group[i]));
        match events[turn] {
            Event::Enqueued { id, skill, at } => {
                assert(shard::lists(group, group[i].key()));
                assert(states[turn].key_for(id, skill) != group[i].key());
                assert(false);
            },
            Event::Formed { now_ns, bands, group: taken, formed } => {
                let keys = taken.map_values(|w: Waiter| w.key());
                assert(nearest::keys_of(taken).contains(group[i].key()));
                let a = choose|a: int| 0 <= a < keys.len() && keys[a] == group[i].key();
                assert(taken[a].key() == group[i].key());
            },
            _ => {},
        }
        turn
    }
}

/// The oldest member of a group that an attempt takes is the one who was enqueued first.
pub proof fn law_oldest_member_came_first(
    states: Seq<EngineState>,
    events: Seq<Event>,
    i: int,
    oldest: int,
    a: int,
)
    requires
        is_life(states, events),
        events.len() < u64::MAX,
        0 <= i < events.len(),
        events[i] is Formed,
        acceptance::is_oldest(events[i]->group, oldest),
        0 <= a < events[i]->group.len(),
    ensures
        events[i]->group[oldest].ticket.arrival <= events[i]->group[a].ticket.arrival,
{
    let group = events[i]->group;
    assert(is_step(states[i], events[i], states[i + 1]));
    law_engine_always_adds_up(states, events, i);
    law_numbers_last(states, events, i);
    lemma_members_wait(states[i], events[i]->Formed_now_ns, events[i]->Formed_bands, group, a);
    lemma_members_wait(states[i], events[i]->Formed_now_ns, events[i]->Formed_bands, group, oldest);
    assert(!group[a].is_older(group[oldest]));
    assert(states[i].waiting.contains_key(group[a].key()));
    assert(states[i].waiting.contains_key(group[oldest].key()));
    let waiting: Map<(u32, u64), Ticket> = states[i].waiting;
    assert(waiting[group[a].key()] == group[a].ticket);
    assert(waiting[group[oldest].key()] == group[oldest].ticket);
}

/// How many of the first `n` events are attempts.
pub open spec fn attempts_in(events: Seq<Event>, n: nat) -> nat
    decreases n,
{
    if n == 0 {
        0
    } else {
        attempts_in(events, (n - 1) as nat) + if events[n - 1] is Formed || events[n
            - 1] is Missed {
            1nat
        } else {
            0nat
        }
    }
}

/// How many of the numbers below `x` leave the remainder `index` when divided by `shards`.
spec fn turns_below(x: int, shards: int, index: int) -> int {
    x / shards + if x % shards > index {
        1int
    } else {
        0int
    }
}

proof fn lemma_turns_below_step(x: int, shards: int, index: int)
    requires
        x >= 0,
        0 <= index < shards,
    ensures
        turns_below(x + 1, shards, index) == turns_below(x, shards, index) + if x % shards
            == index {
            1int
        } else {
            0int
        },
        turns_below(x + shards, shards, index) == turns_below(x, shards, index) + 1,
{
    let q = x / shards;
    let r = x % shards;
    vstd::arithmetic::div_mod::lemma_fundamental_div_mod(x, shards);
    vstd::arithmetic::div_mod::lemma_mod_bound(x, shards);
    assert(q * shards == shards * q) by (nonlinear_arith);
    assert((q + 1) * shards == q * shards + shards) by (nonlinear_arith);
    vstd::arithmetic::div_mod::lemma_fundamental_div_mod_converse(x + shards, shards, q + 1, r);
    assert((x + shards) / shards == q + 1 && (x + shards) % shards == r);
    if r + 1 < shards {
        vstd::arithmetic::div_mod::lemma_fundamental_div_mod_converse(x + 1, shards, q, r + 1);
        assert((x + 1) / shards == q && (x + 1) % shards == r + 1);
    } else {
        vstd::arithmetic::div_mod::lemma_fundamental_div_mod_converse(x + 1, shards, q + 1, 0);
        assert((x + 1) / shards == q + 1 && (x + 1) % shards == 0);
    }
}

proof fn lemma_turns_below_grow(x: int, more: int, shards: int, index: int, rounds: int)
    requires
        x >= 0,
        rounds >= 0,
        0 <= index < shards,
        more >= shards * rounds,
    ensures
        turns_below(x + more, shards, index) >= turns_below(x, shards, index) + rounds,
    decreases more,
{
    assert(shards * rounds >= 0) by (nonlinear_arith)
        requires
            shards >= 0,
            rounds >= 0,
    ;
    if rounds > 0 {
        assert(shards * rounds == shards * (rounds - 1) + shards) by (nonlinear_arith);
        assert(shards * (rounds - 1) >= 0) by (nonlinear_arith)
            requires
                shards >= 0,
                rounds >= 1,
        ;
        lemma_turns_below_grow(x, more - shards, shards, index, rounds - 1);
        lemma_turns_below_step(x + more - shards, shards, index);
    } else if more > 0 {
        lemma_turns_below_grow(x, more - 1, shards, index, 0);
        lemma_turns_below_step(x + more - 1, shards, index);
    }
}

/// How often a shard has had its turn follows from how many attempts there were.
proof fn lemma_turns_follow_attempts(
    states: Seq<EngineState>,
    events: Seq<Event>,
    index: int,
    n: int,
)
    requires
        is_path(states, events),
        states[0].adds_up(0),
        states[0].next_seed + events.len() <= usize::MAX,
        0 <= n <= events.len(),
        0 <= index < states[0].config.num_shards,
    ensures
        attempts_in(events, n as nat) <= n,
        states[n].next_seed == states[0].next_seed + attempts_in(events, n as nat),
        states[n].config == states[0].config,
        turns_in(states, events, index, n as nat) == turns_below(
            states[0].next_seed + attempts_in(events, n as nat),
            states[0].config.num_shards as int,
            index,
        ) - turns_below(states[0].next_seed as int, states[0].config.num_shards as int, index),
    decreases n,
{
    if n > 0 {
        lemma_turns_follow_attempts(states, events, index, n - 1);
        assert(is_step(states[n - 1], events[n - 1], states[n]));
        lemma_turns_below_step(
            states[n - 1].next_seed as int,
            states[0].config.num_shards as int,
            index,
        );
    }
}

/// Every shard has its turn: however many events there are, in every `num_shards` attempts each
/// shard is the one from which the seed is taken (as long as the count of attempts does not run
/// over).
pub proof fn law_every_shard_is_tried(
    states: Seq<EngineState>,
    events: Seq<Event>,
    index: int,
    n: int,
    rounds: int,
)
    requires
        is_path(states, events),
        states[0].adds_up(0),
        states[0].next_seed + events.len() <= usize::MAX,
        0 <= n <= events.len(),
        0 <= index < states[0].config.num_shards,
        rounds >= 0,
        attempts_in(events, n as nat) >= states[0].config.num_shards * rounds,
    ensures
        turns_in(states, events, index, n as nat) >= rounds,
{
    lemma_turns_follow_attempts(states, events, index, n);
    lemma_turns_below_grow(
        states[0].next_seed as int,
        attempts_in(events, n as nat) as int,
        states[0].config.num_shards as int,
        index,
        rounds,
    );
}

/// Among any `num_shards` attempts there is one that takes its seed from the given shard.
pub proof fn law_shard_is_tried_once_a_round(
    states: Seq<EngineState>,
    events: Seq<Event>,
    index: int,
    n: int,
) -> (turn: int)
    requires
        is_path(states, events),
        states[0].adds_up(0),
        states[0].next_seed + events.len() <= usize::MAX,
        0 <= n <= events.len(),
        0 <= index < states[0].config.num_shards,
        attempts_in(events, n as nat) >= states[0].config.num_shards,
    ensures
        0 <= turn < n,
        events[turn] is Formed || events[turn] is Missed,
        states[turn].seed_shard() == index,
{
    law_every_shard_is_tried(states, events, index, n, 1);
    lemma_a_turn_is_there(states, events, index, n)
}

proof fn lemma_a_turn_is_there(
    states: Seq<EngineState>,
    events: Seq<Event>,
    index: int,
    n: int,
) -> (turn: int)
    requires
        0 <= n,
        turns_in(states, events, index, n as nat) > 0,
    ensures
        0 <= turn < n,
        is_turn(states[turn], events[turn], index),
    decreases n,
{
    if is_turn(states[n - 1], events[n - 1], index) {
        n - 1
    } else {
        lemma_a_turn_is_there(states, events, index, n - 1)
    }
}

/// Nobody starves: as long as a waiter stays, they are the seed of an attempt within `num_shards`
/// attempts for each waiter of their shard and for each player who is enqueued into it
/// meanwhile.
pub proof fn law_every_waiter_becomes_the_seed(
    states: Seq<EngineState>,
    events: Seq<Event>,
    waiter: Waiter,
    n: int,
) -> (turn: int)
    requires
        is_path(states, events),
        states[0].adds_up(0),
        states[0].next_seed + events.len() <= usize::MAX,
        0 <= n <= events.len(),
        shard::waits(states[0].waiting, waiter),
        forall|m: int| 0 <= m < n ==> shard::waits((#[trigger] states[m]).waiting, waiter),
        attempts_in(events, n as nat) >= states[0].config.num_shards * (waiters_in(
            states[0],
            states[0].axis.shard(waiter.skill),
        ).len() + arrivals_in(
            states,
            events,
            states[0].axis.shard(waiter.skill),
            n as nat,
        )),
    ensures
        0 <= turn < n,
        events[turn] is Formed || events[turn] is Missed,
        states[turn].seed_shard() == states[0].axis.shard(waiter.skill),
        states[turn].seed() == waiter,
{
    let index = states[0].axis.shard(waiter.skill);
    lemma_shard_is_there(states[0], waiter);
    law_every_shard_is_tried(
        states,
        events,
        index,
        n,
        (waiters_in(states[0], index).len() + arrivals_in(
            states,
            events,
            index,
            n as nat,
        )) as int,
    );
    law_everyone_has_their_turn(states, events, waiter, n)
}

/// Whoever waits has the ticket that they were given when they were enqueued, and waits under
/// the skill that they came with, or under the maximum where that was higher.
pub proof fn law_waiters_keep_what_they_came_with(
    states: Seq<EngineState>,
    events: Seq<Event>,
    n: int,
    key: (u32, u64),
) -> (k: int)
    requires
        is_life(states, events),
        0 <= n <= events.len(),
        states[n].waiting.contains_key(key),
    ensures
        0 <= k < n,
        events[k] is Enqueued,
        events[k]->id == key.1,
        events[k]->skill <= states[0].config.skill_max ==> key.0 == events[k]->skill,
        events[k]->skill > states[0].config.skill_max ==> key.0 == states[0].config.skill_max,
        states[n].waiting[key].at == events[k]->at,
        states[n].waiting[key].at_ns == states[k].reading(events[k]->at),
        states[n].waiting[key].arrival == states[k].arrivals.count,
    decreases n,
{
    assert(n > 0);
    assert(is_step(states[n - 1], events[n - 1], states[n]));
    law_engine_always_adds_up(states, events, n - 1);
    match events[n - 1] {
        Event::Enqueued { id, skill, at } => {
            if states[n - 1].key_for(id, skill) == key {
                n - 1
            } else {
                law_waiters_keep_what_they_came_with(states, events, n - 1, key)
            }
        },
        _ => law_waiters_keep_what_they_came_with(states, events, n - 1, key),
    }
}

/// Whoever is matched plays as who they came: on one of the two teams of the match there is a
/// player with the id with which they were enqueued, the skill with which they were enqueued
/// (or the maximum where that was higher), and the reading of the clock at which they were.
pub proof fn law_matched_players_play_as_they_came(
    states: Seq<EngineState>,
    events: Seq<Event>,
    i: int,
    a: int,
) -> (k: int)
    requires
        is_life(states, events),
        0 <= i < events.len(),
        events[i] is Formed,
        0 <= a < events[i]->group.len(),
    ensures
        0 <= k < i,
        events[k] is Enqueued,
        events[i]->group[a].id == events[k]->id,
        events[k]->skill <= states[0].config.skill_max ==> events[i]->group[a].skill
            == events[k]->skill,
        events[k]->skill > states[0].config.skill_max ==> events[i]->group[a].skill
            == states[0].config.skill_max,
        events[i]->group[a].ticket.at == events[k]->at,
        events[i]->group[a].ticket.at_ns == states[k].reading(events[k]->at),
        ({
            let player = Player {
                id: events[i]->group[a].id,
                skill: events[i]->group[a].skill,
                enqueued_at: events[k]->at,
            };
            events[i]->formed.team_a.contains(player) || events[i]->formed.team_b.contains(player)
        }),
{
    let group = events[i]->group;
    assert(is_step(states[i], events[i], states[i + 1]));
    lemma_members_wait(states[i], events[i]->Formed_now_ns, events[i]->Formed_bands, group, a);
    let k = law_waiters_keep_what_they_came_with(states, events, i, group[a].key());
    let player = record::law_match_has_the_players_of_its_group(
        states[i],
        events[i]->Formed_now_ns,
        group,
        events[i]->formed,
        a,
    );
    k
}

/// The high-water mark is the greatest depth that the queue has ever had.
pub proof fn law_high_water_mark_is_the_greatest_depth(
    states: Seq<EngineState>,
    events: Seq<Event>,
    n: int,
) -> (deepest: int)
    requires
        is_life(states, events),
        0 <= n <= events.len(),
    ensures
        0 <= deepest <= n,
        states[n].metrics.max_queue_depth == states[deepest].queued,
        forall|m: int|
            0 <= m <= n ==> (#[trigger] states[m]).queued <= states[n].metrics.max_queue_depth,
    decreases n,
{
    if n == 0 {
        0
    } else {
        let earlier = law_high_water_mark_is_the_greatest_depth(states, events, n - 1);
        assert(is_step(states[n - 1], events[n - 1], states[n]));
        law_engine_always_adds_up(states, events, n - 1);
        law_engine_always_adds_up(states, events, n);
        assert(states[n - 1].queued <= states[n - 1].metrics.max_queue_depth);
        let deepest = if states[n].metrics.max_queue_depth
            == states[n - 1].metrics.max_queue_depth {
            earlier
        } else {
            n
        };
        assert forall|m: int| 0 <= m <= n implies (#[trigger] states[m]).queued
            <= states[n].metrics.max_queue_depth by {
            if m < n {
                assert(states[m].queued <= states[n - 1].metrics.max_queue_depth);
            }
        }
        deepest
    }
}

/// The totals are those of the matches that were formed: their imbalances and their spreads,
/// each added up; and every attempt was counted once.
pub proof fn law_totals_are_those_of_the_matches(
    states: Seq<EngineState>,
    events: Seq<Event>,
    n: int,
)
    requires
        is_life(states, events),
        0 <= n <= events.len(),
        events.len() <= u32::MAX,
    ensures
        states[n].metrics.total_spread == formed_in(events.take(n)).fold_left(
            0int,
            |sum: int, m: MatchView| sum + m.skill_spread,
        ),
        states[n].metrics.total_imbalance == formed_in(events.take(n)).fold_left(
            0int,
            |sum: int, m: MatchView| sum + m.imbalance,
        ),
        states[n].metrics.attempts == attempts_in(events, n as nat),
        states[n].metrics.total_spread <= n * u32::MAX,
        states[n].metrics.total_imbalance <= n * u32::MAX,
        states[n].metrics.attempts <= n,
    decreases n,
{
    reveal_with_fuel(Seq::fold_left, 2);
    if n > 0 {
        law_totals_are_those_of_the_matches(states, events, n - 1);
        assert(is_step(states[n - 1], events[n - 1], states[n]));
        assert(events.take(n).drop_last() =~= events.take(n - 1));
        assert(events.take(n).last() == events[n - 1]);
        assert(n * u32::MAX == (n - 1) * u32::MAX + u32::MAX) by (nonlinear_arith);
        assert(n * u32::MAX <= u32::MAX * u32::MAX) by (nonlinear_arith)
            requires
                n <= u32::MAX,
        ;
        let all = formed_in(events.take(n));
        if events[n - 1] is Formed {
            assert(all.drop_last() =~= formed_in(events.take(n - 1)));
            assert(all.last() == events[n - 1]->formed);
        }
    }
}

} // verus!
