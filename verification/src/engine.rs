//! The matchmaking engine.
//!
//! Waiting players live in a skill-sharded pool. A match attempt takes its seed from one shard:
//! the first in line behind the place where the last attempt there left its seed waiting, or
//! the first of all. Around the seed it gathers the waiters nearest in skill within the seed's
//! band, and if they fit inside the band of the oldest of them, it evicts them and makes them a
//! match. How wide the band is after a given wait is told by the window that the caller brings
//! along.
use crate::acceptance;
use crate::arrivals::{Arrivals, Ticket, Waiter};
use crate::axis;
use crate::axis::Axis;
use crate::balance;
use crate::clock;
use crate::lobby;
use crate::metrics::Metrics;
use crate::nearest;
use crate::player::{Match, MatchView, Player};
use crate::pool;
use crate::pool::Pool;
use crate::recent;
use crate::recent::RecentLog;
use crate::relaxation;
use crate::shard;
use std::time::Instant;
use vstd::prelude::*;

verus! {

/// The shape of an engine.
#[derive(Clone, Copy, Debug, PartialEq, Eq, Structural)]
pub struct Config {
    /// Number of skill shards. More shards = less lock contention but sparser buckets.
    pub num_shards: usize,
    /// Maximum skill rating; skills are clamped to `0..=skill_max`.
    pub skill_max: u32,
    /// Players per team. A match is `team_size * 2` players.
    pub team_size: usize,
    /// How many recently-formed matches to retain for inspection (0 = none).
    pub keep_recent: usize,
}

impl Default for Config {
    fn default() -> (config: Self)
        ensures
            config == (Config { num_shards: 32, skill_max: 5000, team_size: 5, keep_recent: 64 }),
            config.is_valid(),
    {
        proof {
            assert(32usize as u32 == 32);
        }
        Config { num_shards: 32, skill_max: 5000, team_size: 5, keep_recent: 64 }
    }
}

impl Config {
    /// An engine can be made with this configuration: there is a shard, a team has a
    /// player, and the width of a shard and the size of a match can be represented.
    pub open spec fn is_valid(self) -> bool {
        &&& self.num_shards >= 1
        &&& self.team_size >= 1
        &&& self.num_shards as u32 != 0
        &&& axis::width_for(self.num_shards, self.skill_max) <= u32::MAX
        &&& self.team_size * 2 <= usize::MAX
    }

    /// The number of players of a match.
    pub open spec fn match_size(self) -> int {
        self.team_size * 2
    }
}

/// The lowest skill of a group.
pub open spec fn lowest_skill(group: Seq<Player>) -> int
    recommends
        group.len() > 0,
    decreases group.len(),
{
    if group.len() <= 1 {
        group[0].skill as int
    } else {
        axis::min_of(lowest_skill(group.drop_last()), group.last().skill as int)
    }
}

/// The highest skill of a group.
pub open spec fn highest_skill(group: Seq<Player>) -> int
    recommends
        group.len() > 0,
    decreases group.len(),
{
    if group.len() <= 1 {
        group[0].skill as int
    } else {
        axis::max_of(highest_skill(group.drop_last()), group.last().skill as int)
    }
}

/// The difference between the highest and the lowest skill of a group.
fn spread_of(group: &Vec<Player>) -> (spread: u32)
    requires
        group@.len() > 0,
    ensures
        spread == highest_skill(group@) - lowest_skill(group@),
{
    let mut low: u32 = group[0].skill;
    let mut high: u32 = group[0].skill;
    let mut i: usize = 1;
    while i < group.len()
        invariant
            1 <= i <= group@.len(),
            low == lowest_skill(group@.take(i as int)),
            high == highest_skill(group@.take(i as int)),
            low <= high,
        decreases group@.len() - i,
    {
        assert(group@.take(i + 1).drop_last() =~= group@.take(i as int));
        let skill: u32 = group[i].skill;
        if skill < low {
            low = skill;
        }
        if skill > high {
            high = skill;
        }
        i = i + 1;
    }
    assert(group@.take(i as int) =~= group@);
    high - low
}

/// The sum of `waits`, which wraps around at 64 bits.
pub open spec fn wait_sum(waits: Seq<u64>) -> u64
    decreases waits.len(),
{
    if waits.len() == 0 {
        0
    } else {
        wait_sum(waits.drop_last()).wrapping_add(waits.last())
    }
}

/// Adds up the waits of a group.
pub fn sum_waits(waits: &Vec<u64>) -> (total: u64)
    ensures
        total == wait_sum(waits@),
{
    let mut total: u64 = 0;
    let mut i: usize = 0;
    while i < waits.len()
        invariant
            i <= waits@.len(),
            total == wait_sum(waits@.take(i as int)),
        decreases waits@.len() - i,
    {
        assert(waits@.take(i + 1).drop_last() =~= waits@.take(i as int));
        total = total.wrapping_add(waits[i]);
        i = i + 1;
    }
    assert(waits@.take(i as int) =~= waits@);
    total
}

/// How long each player of a group has waited at `now_ns`, in whole microseconds.
pub open spec fn waits_of(group: Seq<Waiter>, now_ns: u64) -> Seq<u64> {
    Seq::new(group.len(), |i: int| group[i].wait(now_ns) / 1000)
}

/// How long each player of a group has waited at `now_ns`, in whole microseconds.
pub fn read_waits(group: &Vec<Waiter>, now_ns: u64) -> (waits: Vec<u64>)
    ensures
        waits@ == waits_of(group@, now_ns),
{
    let mut waits: Vec<u64> = Vec::new();
    let mut i: usize = 0;
    while i < group.len()
        invariant
            i <= group@.len(),
            waits@.len() == i,
            forall|x: int| 0 <= x < i ==> #[trigger] waits@[x] == group@[x].wait(now_ns) / 1000,
        decreases group@.len() - i,
    {
        waits.push(group[i].wait_ns(now_ns) / 1000);
        i = i + 1;
    }
    assert(waits@ =~= waits_of(group@, now_ns));
    waits
}

/// The players of a group.
pub open spec fn players_of(group: Seq<Waiter>) -> Seq<Player> {
    group.map_values(|w: Waiter| w.as_player())
}

/// The players of a group.
pub fn roster_of(group: &Vec<Waiter>) -> (roster: Vec<Player>)
    ensures
        roster@ == players_of(group@),
{
    let mut roster: Vec<Player> = Vec::new();
    let mut i: usize = 0;
    while i < group.len()
        invariant
            i <= group@.len(),
            roster@.len() == i,
            forall|x: int| 0 <= x < i ==> #[trigger] roster@[x] == group@[x].as_player(),
        decreases group@.len() - i,
    {
        roster.push(group[i].player());
        i = i + 1;
    }
    assert(roster@ =~= players_of(group@));
    roster
}

/// `formed` is match number `id`, made of `group`.
pub open spec fn is_match_of(
    id: u64,
    group: Seq<Player>,
    total_wait_us: u64,
    formed: MatchView,
) -> bool {
    &&& formed.id == id
    &&& balance::is_balanced(group, formed.team_a, formed.team_b, formed.imbalance as int)
    &&& formed.total_skill == balance::skill_sum(group)
    &&& formed.total_wait_us == total_wait_us
    &&& formed.skill_spread == highest_skill(group) - lowest_skill(group)
}

/// Makes a match of a group: splits it into two balanced teams and takes its measure.
pub fn assemble(id: u64, group: &Vec<Player>, total_wait_us: u64) -> (formed: Match)
    requires
        0 < group@.len() <= 20,
        group@.len() % 2 == 0,
    ensures
        is_match_of(id, group@, total_wait_us, formed@),
{
    let spread: u32 = spread_of(group);
    let (team_a, team_b, imbalance): (Vec<Player>, Vec<Player>, u32) = balance::balance_teams(
        group.as_slice(),
    );
    Match {
        id,
        team_a,
        team_b,
        imbalance,
        total_skill: balance::total_skill(group.as_slice()),
        total_wait_us,
        skill_spread: spread,
    }
}

/// Everything that there is to know of an engine.
#[verifier::ext_equal]
pub struct EngineState {
    pub config: Config,
    pub axis: Axis,
    /// The engine's clock, and what the next arrival is given.
    pub arrivals: Arrivals,
    /// The waiters: `(skill, id)` to their tickets.
    pub waiting: Map<(u32, u64), Ticket>,
    /// The place in line of each shard, behind which its next seed stands.
    pub places: Seq<Option<(u32, u64, u64)>>,
    /// The queue depth that is reported.
    pub queued: int,
    /// How many attempts were made; it picks the next seed shard.
    pub next_seed: usize,
    /// How many matches were formed; it numbers the next one.
    pub match_seq: u64,
    pub running: bool,
    pub metrics: Metrics,
    /// The matches that are retained, the oldest first.
    pub recent: Seq<MatchView>,
}

impl EngineState {
    /// An engine that has just been made.
    pub open spec fn is_new(self) -> bool {
        &&& self.axis.shards() == self.config.num_shards
        &&& self.axis.top_skill() == self.config.skill_max
        &&& self.axis.width() == axis::width_for(self.config.num_shards, self.config.skill_max)
        &&& self.arrivals == (Arrivals { epoch: self.arrivals.epoch, latest_ns: 0, count: 0 })
        &&& self.waiting == Map::<(u32, u64), Ticket>::empty()
        &&& self.places == Seq::new(
            self.config.num_shards as nat,
            |s: int| None::<(u32, u64, u64)>,
        )
        &&& self.queued == 0
        &&& self.next_seed == 0
        &&& self.match_seq == 0
        &&& self.running
        &&& self.metrics == crate::metrics::zero()
        &&& self.recent == Seq::<MatchView>::empty()
    }

    /// What an engine keeps to while `in_flight` players are out of the pool and not yet
    /// counted as matched. The reported depth is the number of waiters; every player who was
    /// ever enqueued is waiting, in flight or counted as matched; every match has counted a
    /// full match of players; nobody waits with a skill above the maximum; and the tickets of
    /// the waiters are in order.
    pub open spec fn adds_up(self, in_flight: int) -> bool {
        &&& self.config.is_valid()
        &&& self.axis.wf()
        &&& self.axis.shards() == self.config.num_shards
        &&& self.axis.top_skill() == self.config.skill_max
        &&& self.places.len() == self.config.num_shards
        &&& self.waiting.dom().finite()
        &&& self.queued == self.waiting.dom().len()
        &&& self.queued <= usize::MAX
        &&& 0 <= in_flight <= usize::MAX
        &&& self.metrics.enqueued == self.metrics.players_matched.wrapping_add(
            self.queued as u64,
        ).wrapping_add(in_flight as u64)
        &&& self.metrics.players_matched == self.metrics.matches.wrapping_mul(
            self.config.match_size() as u64,
        )
        &&& self.match_seq == self.metrics.matches
        &&& forall|key: (u32, u64)| #[trigger]
            self.waiting.contains_key(key) ==> key.0 <= self.config.skill_max
        &&& self.tickets_are_in_order()
    }

    /// Every ticket was handed out: its number is below the next one, unless there are no
    /// numbers left, and its time is not after the latest one. Of two waiters, who has the
    /// lower number came no later, and while there are numbers left no two have the same.
    pub open spec fn tickets_are_in_order(self) -> bool {
        &&& forall|key: (u32, u64)| #[trigger]
            self.waiting.contains_key(key) ==> {
                &&& self.waiting[key].at_ns <= self.arrivals.latest_ns
                &&& self.waiting[key].arrival < self.arrivals.count || self.arrivals.count
                    == u64::MAX
            }
        &&& forall|a: (u32, u64), b: (u32, u64)|
            #![trigger self.waiting.contains_key(a), self.waiting.contains_key(b)]
            self.waiting.contains_key(a) && self.waiting.contains_key(b) && a != b ==> {
                &&& self.waiting[a].arrival != self.waiting[b].arrival || self.arrivals.count
                    == u64::MAX
                &&& self.waiting[a].arrival < self.waiting[b].arrival ==> self.waiting[a].at_ns
                    <= self.waiting[b].at_ns
            }
    }

    /// The shard that the next attempt takes its seed from.
    pub open spec fn seed_shard(self) -> int {
        self.next_seed as int % self.config.num_shards as int
    }

    /// The next attempt finds nobody in its shard.
    pub open spec fn finds_nobody(self) -> bool {
        pool::is_empty_shard(self.waiting, self.axis, self.seed_shard())
    }

    /// `seed` is the waiter around whom the next attempt tries to form a match: nobody in the
    /// shard has their turn sooner.
    pub open spec fn is_seed(self, seed: Waiter) -> bool {
        pool::is_seed(
            self.waiting,
            self.axis,
            self.seed_shard(),
            self.places[self.seed_shard()],
            seed,
        )
    }

    /// The waiter around whom the next attempt tries to form a match, where its shard has one.
    pub open spec fn seed(self) -> Waiter {
        choose|seed: Waiter| #[trigger] self.is_seed(seed)
    }

    /// The time that the engine's clock shows when the machine's clock reads `now`.
    pub open spec fn reading(self, now: Instant) -> u64 {
        self.arrivals.reading(now)
    }

    /// There is a reading of the machine's clock at which the engine's clock shows `now_ns`.
    pub open spec fn clock_may_read(self, now_ns: u64) -> bool {
        exists|now: Instant| #[trigger] self.reading(now) == now_ns
    }

    /// By what a player of this skill is found in the queue.
    pub open spec fn key_for(self, id: u64, skill: u32) -> (u32, u64) {
        (axis::min_of(skill as int, self.config.skill_max as int) as u32, id)
    }

    /// The state after a player was enqueued at `at`. A player who waits already gets a new
    /// ticket and is not counted again.
    pub open spec fn after_enqueue(self, id: u64, skill: u32, at: Instant) -> EngineState {
        let key = self.key_for(id, skill);
        let fresh = !self.waiting.contains_key(key);
        EngineState {
            arrivals: self.arrivals.after(at),
            waiting: self.waiting.insert(key, self.arrivals.ticket(at)),
            queued: if fresh {
                self.queued + 1
            } else {
                self.queued
            },
            metrics: if fresh {
                self.metrics.with_enqueued().with_depth((self.queued + 1) as usize)
            } else {
                self.metrics
            },
            ..self
        }
    }

    /// The places in line once the shard of the next attempt goes on behind its seed.
    pub open spec fn places_behind_seed(self) -> Seq<Option<(u32, u64, u64)>> {
        self.places.update(self.seed_shard(), Some(self.seed().rank()))
    }

    /// The state after an attempt at `now_ns` that formed no match: the next attempt in this
    /// shard goes on behind the seed.
    pub open spec fn after_miss(self, now_ns: u64) -> EngineState {
        EngineState {
            arrivals: self.arrivals.at_time(now_ns),
            places: if self.finds_nobody() {
                self.places
            } else {
                self.places_behind_seed()
            },
            next_seed: self.next_seed.wrapping_add(1),
            metrics: self.metrics.with_attempt(self.finds_nobody()),
            ..self
        }
    }

    /// The state after an attempt at `now_ns` that took `group` out of the pool. Only where
    /// the seed was left out does the next attempt in this shard go on behind the seed.
    pub open spec fn after_eviction(self, now_ns: u64, group: Seq<Waiter>) -> EngineState {
        EngineState {
            arrivals: self.arrivals.at_time(now_ns),
            waiting: self.waiting.remove_keys(nearest::keys_of(group)),
            places: if shard::lists(group, self.seed().key()) {
                self.places
            } else {
                self.places_behind_seed()
            },
            queued: self.queued - group.len(),
            next_seed: self.next_seed.wrapping_add(1),
            metrics: self.metrics.with_attempt(false),
            ..self
        }
    }

    /// The state after `formed`, a match of `size` players, was put on record.
    pub open spec fn after_match(self, size: int, formed: MatchView) -> EngineState {
        EngineState {
            match_seq: self.match_seq.wrapping_add(1),
            metrics: self.metrics.with_match(
                size as usize,
                formed.total_wait_us,
                formed.imbalance,
                formed.skill_spread,
            ),
            recent: recent::last_of(self.recent.push(formed), self.config.keep_recent as int),
            ..self
        }
    }

    /// The state after the engine was told to stop.
    pub open spec fn after_stop(self) -> EngineState {
        EngineState { running: false, ..self }
    }

    /// A match can be formed around `seed` at `now_ns`.
    pub open spec fn can_match_around(
        self,
        seed: Waiter,
        now_ns: u64,
        bands: spec_fn(u64) -> u32,
    ) -> bool {
        lobby::can_match_around(
            self.waiting,
            self.axis.top_skill(),
            seed,
            self.config.match_size(),
            now_ns,
            bands,
        )
    }

    /// An attempt at `now_ns` forms a match: its shard has a seed, and a match can be formed
    /// around that seed.
    pub open spec fn can_match(self, now_ns: u64, bands: spec_fn(u64) -> u32) -> bool {
        !self.finds_nobody() && self.can_match_around(self.seed(), now_ns, bands)
    }

    /// `group` is the group that an attempt at `now_ns` forms.
    pub open spec fn is_group(
        self,
        now_ns: u64,
        bands: spec_fn(u64) -> u32,
        group: Seq<Waiter>,
    ) -> bool {
        &&& !self.finds_nobody()
        &&& lobby::is_group_around(
            self.waiting,
            self.axis.top_skill(),
            self.seed(),
            self.config.match_size(),
            now_ns,
            bands,
            group,
        )
    }

    /// `formed` is the match that is made of `group` at `now_ns`.
    pub open spec fn is_match(self, now_ns: u64, group: Seq<Waiter>, formed: MatchView) -> bool {
        is_match_of(
            self.match_seq,
            players_of(group),
            wait_sum(waits_of(group, now_ns)),
            formed,
        )
    }

    /// `after` is the state after an attempt at `now_ns` that made the match `formed` of
    /// `group`.
    pub open spec fn is_formed(
        self,
        now_ns: u64,
        bands: spec_fn(u64) -> u32,
        group: Seq<Waiter>,
        formed: MatchView,
        after: EngineState,
    ) -> bool {
        &&& self.is_group(now_ns, bands, group)
        &&& self.is_match(now_ns, group, formed)
        &&& after == self.after_eviction(now_ns, group).after_match(group.len() as int, formed)
    }

    /// `after` is the state that an attempt at `now_ns` leaves behind.
    pub open spec fn is_attempt(
        self,
        now_ns: u64,
        bands: spec_fn(u64) -> u32,
        after: EngineState,
    ) -> bool {
        &&& self.arrivals.latest_ns <= now_ns
        &&& if self.can_match(now_ns, bands) {
            exists|group: Seq<Waiter>, formed: MatchView| #[trigger]
                self.is_formed(now_ns, bands, group, formed, after)
        } else {
            after == self.after_miss(now_ns)
        }
    }
}

/// A shard has one next seed.
pub proof fn law_seed_is_unique(state: EngineState, a: Waiter, b: Waiter)
    requires
        state.is_seed(a),
        state.is_seed(b),
    ensures
        a == b,
        state.seed() == a,
{
    let s = state.seed();
    let index = state.seed_shard();
    assert(state.is_seed(s));
    assert(pool::stands_in(state.waiting, state.axis, index, a));
    assert(pool::stands_in(state.waiting, state.axis, index, b));
    assert(pool::stands_in(state.waiting, state.axis, index, s));
    assert(a.rank() == b.rank());
    assert(a.rank() == s.rank());
}

/// Of finitely many ranks one has its turn soonest.
proof fn lemma_soonest_exists(
    waiting: Map<(u32, u64), Ticket>,
    place: Option<(u32, u64, u64)>,
    keys: Set<(u32, u64)>,
) -> (soonest: (u32, u64))
    requires
        keys.finite(),
        keys.len() > 0,
    ensures
        keys.contains(soonest),
        forall|key: (u32, u64)| #[trigger]
            keys.contains(key) ==> !shard::sooner(
                place,
                shard::rank_in(waiting, key),
                shard::rank_in(waiting, soonest),
            ),
    decreases keys.len(),
{
    let one = keys.choose();
    let rest = keys.remove(one);
    if rest.len() == 0 {
        assert forall|key: (u32, u64)| keys.contains(key) implies key == one by {
            if key != one {
                assert(rest.contains(key));
            }
        }
        one
    } else {
        let best = lemma_soonest_exists(waiting, place, rest);
        let a = shard::rank_in(waiting, best);
        let b = shard::rank_in(waiting, one);
        let soonest = if shard::sooner(place, b, a) {
            one
        } else {
            best
        };
        assert forall|key: (u32, u64)| #[trigger] keys.contains(key) implies !shard::sooner(
            place,
            shard::rank_in(waiting, key),
            shard::rank_in(waiting, soonest),
        ) by {
            if key != one {
                assert(rest.contains(key));
            }
        }
        soonest
    }
}

/// Where the shard of the next attempt has a waiter, it has a seed.
pub proof fn law_seed_exists(state: EngineState)
    requires
        state.waiting.dom().finite(),
        !state.finds_nobody(),
    ensures
        state.is_seed(state.seed()),
{
    let index = state.seed_shard();
    let place = state.places[index];
    let keys = state.waiting.dom().filter(|key: (u32, u64)| state.axis.shard(key.0) == index);
    vstd::set_lib::lemma_len_subset(keys, state.waiting.dom());
    let some = choose|key: (u32, u64)| #[trigger]
        state.waiting.contains_key(key) && state.axis.shard(key.0) == index;
    assert(keys.contains(some));
    assert(keys.len() > 0) by {
        if keys.len() == 0 {
            assert(keys =~= Set::empty());
        }
    }
    let key = lemma_soonest_exists(state.waiting, place, keys);
    let seed = Waiter { id: key.1, skill: key.0, ticket: state.waiting[key] };
    assert(seed.key() == key);
    assert forall|other: Waiter| #[trigger]
        pool::stands_in(state.waiting, state.axis, index, other) implies !shard::sooner(
        place,
        other.rank(),
        seed.rank(),
    ) by {
        assert(keys.contains(other.key()));
        assert(shard::rank_in(state.waiting, other.key()) == other.rank());
    }
    assert(state.is_seed(seed));
}

/// One more match counts one more match of players.
proof fn lemma_one_more_match(matches: u64, size: u64)
    ensures
        matches.wrapping_add(1).wrapping_mul(size) == matches.wrapping_mul(size).wrapping_add(
            size,
        ),
{
    let range: int = 0x1_0000_0000_0000_0000;
    let m: int = matches as int;
    let s: int = size as int;
    let product: int = m * s;
    let sum: int = product % range + s;
    assert((m + 1) * s == product + s) by (nonlinear_arith)
        requires
            product == m * s,
    ;
    assert(product >= 0) by (nonlinear_arith)
        requires
            product == m * s,
            m >= 0,
            s >= 0,
    ;
    vstd::arithmetic::div_mod::lemma_small_mod(size as nat, range as nat);
    vstd::arithmetic::div_mod::lemma_add_mod_noop(product, s, range);
    assert((product + s) % range == sum % range);
    assert(sum % range == if sum < range {
        sum
    } else {
        sum - range
    });
    assert(matches.wrapping_mul(size) == product % range);
    if m + 1 == range {
        assert((m + 1) * s == s * range) by (nonlinear_arith)
            requires
                m + 1 == range,
        ;
        vstd::arithmetic::div_mod::lemma_mod_multiples_basic(s, range);
        assert(0u64.wrapping_mul(size) == 0) by {
            assert(0 * s == 0);
        }
    } else {
        assert(matches.wrapping_add(1).wrapping_mul(size) == ((m + 1) * s) % range);
    }
}

/// An engine that has just been made adds up.
pub proof fn law_new_engine_adds_up(state: EngineState)
    requires
        state.is_new(),
        state.config.is_valid(),
        state.axis.wf(),
    ensures
        state.adds_up(0),
{
    assert(state.waiting.dom() =~= Set::empty());
}

/// Enqueueing keeps an engine adding up.
pub proof fn law_enqueue_adds_up(
    state: EngineState,
    in_flight: int,
    id: u64,
    skill: u32,
    at: Instant,
)
    requires
        state.adds_up(in_flight),
        !state.waiting.contains_key(state.key_for(id, skill)) ==> state.queued < usize::MAX,
    ensures
        state.after_enqueue(id, skill, at).adds_up(in_flight),
{
    let key = state.key_for(id, skill);
    let after = state.after_enqueue(id, skill, at);
    assert(after.waiting.dom() =~= state.waiting.dom().insert(key));
    assert forall|k: (u32, u64)| #[trigger] after.waiting.contains_key(k) && k != key implies {
        &&& state.waiting.contains_key(k)
        &&& after.waiting[k] == state.waiting[k]
    } by {}
}

/// An attempt that forms no match keeps an engine adding up.
pub proof fn law_miss_adds_up(state: EngineState, now_ns: u64)
    requires
        state.adds_up(0),
        state.arrivals.latest_ns <= now_ns,
    ensures
        state.after_miss(now_ns).adds_up(0),
{
}

/// Taking a group out of the pool keeps an engine adding up: the group is in flight.
pub proof fn law_eviction_adds_up(
    state: EngineState,
    now_ns: u64,
    bands: spec_fn(u64) -> u32,
    group: Seq<Waiter>,
)
    requires
        state.adds_up(0),
        state.is_group(now_ns, bands, group),
        state.arrivals.latest_ns <= now_ns,
    ensures
        group.len() == state.config.match_size(),
        state.after_eviction(now_ns, group).adds_up(group.len() as int),
{
    let seed = state.seed();
    let after = state.after_eviction(now_ns, group);
    lobby::law_match_eviction_is_exact(
        state.waiting,
        state.axis.top_skill(),
        seed,
        bands(seed.wait(now_ns)),
        state.config.match_size(),
        now_ns,
        bands,
        group,
    );
    assert forall|k: (u32, u64)| #[trigger] after.waiting.contains_key(k) implies {
        &&& state.waiting.contains_key(k)
        &&& after.waiting[k] == state.waiting[k]
    } by {}
}

/// Putting a match on record keeps an engine adding up: its players are counted as matched.
pub proof fn law_match_adds_up(state: EngineState, formed: MatchView)
    requires
        state.adds_up(state.config.match_size()),
    ensures
        state.after_match(state.config.match_size(), formed).adds_up(0),
{
    lemma_one_more_match(state.metrics.matches, state.config.match_size() as u64);
}

/// The matchmaking engine.
pub struct Engine {
    config: Config,
    pool: Pool,
    arrivals: Arrivals,
    queued: usize,
    next_seed: usize,
    match_seq: u64,
    running: bool,
    pub metrics: Metrics,
    recent: RecentLog,
}

impl View for Engine {
    type V = EngineState;

    closed spec fn view(&self) -> EngineState {
        EngineState {
            config: self.config,
            axis: self.pool.axis_spec(),
            arrivals: self.arrivals,
            waiting: self.pool@,
            places: self.pool.places(),
            queued: self.queued as int,
            next_seed: self.next_seed,
            match_seq: self.match_seq,
            running: self.running,
            metrics: self.metrics,
            recent: self.recent@,
        }
    }
}

impl Engine {
    /// The invariant of an engine: it is built as its configuration says, and its counts add
    /// up.
    pub open spec fn wf(self) -> bool {
        self.is_built() && self@.adds_up(0)
    }

    /// The invariant while `in_flight` players are out of the pool and not yet counted as
    /// matched.
    pub open spec fn wf_but_for(self, in_flight: int) -> bool {
        self.is_built() && self@.adds_up(in_flight)
    }

    /// The pool covers the whole axis that the configuration describes, and the log keeps as
    /// many matches as it asks for.
    pub closed spec fn is_built(self) -> bool {
        &&& self.pool.wf()
        &&& self.pool.start() == 0
        &&& self.pool.count() == self.config.num_shards
        &&& self.pool.axis_spec().width() == axis::width_for(
            self.config.num_shards,
            self.config.skill_max,
        )
        &&& self.recent.wf()
        &&& self.recent.capacity() == self.config.keep_recent
    }

    /// An engine with no waiters.
    pub fn new(config: Config) -> (engine: Self)
        requires
            config.is_valid(),
        ensures
            engine.wf(),
            engine@.config == config,
            engine@.is_new(),
    {
        let axis: Axis = Axis::new(config.num_shards, config.skill_max);
        let engine = Engine {
            config,
            pool: Pool::new(axis),
            arrivals: Arrivals::new(clock::now()),
            queued: 0,
            next_seed: 0,
            match_seq: 0,
            running: true,
            metrics: Metrics::default(),
            recent: RecentLog::new(config.keep_recent),
        };
        proof {
            assert(engine@.places =~= Seq::new(
                config.num_shards as nat,
                |s: int| None::<(u32, u64, u64)>,
            ));
            law_new_engine_adds_up(engine@);
        }
        engine
    }

    /// Add a player to the waiting pool who came at `at`. Touches a single shard. A player
    /// who waits already at the same skill gets a new ticket and is not counted again.
    pub fn enqueue_at(&mut self, id: u64, skill: u32, at: Instant)
        requires
            old(self).wf(),
            !old(self)@.waiting.contains_key(old(self)@.key_for(id, skill)) ==> old(self)@.queued
                < usize::MAX,
        ensures
            final(self).wf(),
            final(self)@ == old(self)@.after_enqueue(id, skill, at),
    {
        let skill_on_axis: u32 = self.pool.axis().clamp(skill);
        proof {
            axis::law_shards_follow_skill(self.pool.axis_spec(), skill_on_axis, skill_on_axis);
            law_enqueue_adds_up(self@, 0, id, skill, at);
        }
        let ticket: Ticket = self.arrivals.hand_out(at);
        let fresh: bool = self.pool.insert(skill_on_axis, id, ticket);
        if fresh {
            self.queued = self.queued + 1;
            self.metrics.record_enqueued();
            self.metrics.observe_depth(self.queued);
        }
        assert(self@ =~= old(self)@.after_enqueue(id, skill, at));
    }

    /// Add a player to the waiting pool. Touches a single shard.
    pub fn enqueue(&mut self, id: u64, skill: u32)
        requires
            old(self).wf(),
            !old(self)@.waiting.contains_key(old(self)@.key_for(id, skill)) ==> old(self)@.queued
                < usize::MAX,
        ensures
            final(self).wf(),
            exists|at: Instant| final(self)@ == #[trigger] old(self)@.after_enqueue(id, skill, at),
    {
        self.enqueue_at(id, skill, clock::now());
    }

    /// Current number of players waiting.
    pub fn queued(&self) -> (depth: usize)
        ensures
            depth == self@.queued,
    {
        self.queued
    }

    /// The counters.
    pub fn metrics(&self) -> (metrics: &Metrics)
        ensures
            *metrics == self@.metrics,
    {
        &self.metrics
    }

    /// The waiter around whom the next attempt will try to form a match.
    pub fn peek_seed(&self) -> (seed: Option<Waiter>)
        requires
            self.wf(),
        ensures
            seed is None <==> self@.finds_nobody(),
            seed matches Some(s) ==> self@.is_seed(s) && s == self@.seed() && s.skill
                <= self@.config.skill_max,
    {
        let seed: Option<Waiter> = self.pool.seed_in(self.next_seed % self.config.num_shards);
        proof {
            if let Some(s) = seed {
                law_seed_is_unique(self@, s, s);
            }
        }
        seed
    }

    /// The first half of an attempt at `now_ns`: picks the next seed, and takes the group that
    /// is formed around it out of the pool.
    pub fn take_group<W: Fn(u64) -> u32>(&mut self, now_ns: u64, window: &W) -> (group: Option<
        Vec<Waiter>,
    >)
        requires
            old(self).wf(),
            old(self)@.arrivals.latest_ns <= now_ns,
            acceptance::is_steady(*window),
        ensures
            forall|bands: spec_fn(u64) -> u32| #[trigger]
                acceptance::agrees(*window, bands) ==> {
                    &&& group is Some <==> old(self)@.can_match(now_ns, bands)
                    &&& group matches Some(g) ==> old(self)@.is_group(now_ns, bands, g@)
                },
            match group {
                Some(g) => {
                    &&& final(self).wf_but_for(g@.len() as int)
                    &&& g@.len() == old(self)@.config.match_size()
                    &&& final(self)@ == old(self)@.after_eviction(now_ns, g@)
                },
                None => final(self).wf() && final(self)@ == old(self)@.after_miss(now_ns),
            },
    {
        let ghost pre = self@;
        let size: usize = self.config.team_size * 2;
        let seed: Option<Waiter> = self.peek_seed();
        self.arrivals.advance(now_ns);
        self.next_seed = self.next_seed.wrapping_add(1);
        self.metrics.record_attempt(seed.is_none());
        match seed {
            None => {
                proof {
                    law_miss_adds_up(pre, now_ns);
                }
                assert(self@ =~= pre.after_miss(now_ns));
                None
            },
            Some(waiter) => {
                let band: u32 = acceptance::band_after(window, waiter.wait_ns(now_ns));
                proof {
                    axis::law_shards_follow_skill(
                        pre.axis,
                        axis::low_end(waiter.skill, band),
                        axis::high_end(waiter.skill, band, pre.axis.top_skill()),
                    );
                    assert(pool::stands_in(pre.waiting, pre.axis, pre.seed_shard(), waiter));
                }
                let group: Option<Vec<Waiter>> = self.pool.attempt(
                    &waiter,
                    band,
                    size,
                    now_ns,
                    window,
                );
                match group {
                    None => {
                        proof {
                            assert forall|bands: spec_fn(u64) -> u32| #[trigger]
                                acceptance::agrees(*window, bands) implies !pre.can_match(
                                now_ns,
                                bands,
                            ) by {
                                assert(bands(waiter.wait(now_ns)) == band);
                            }
                            law_miss_adds_up(pre, now_ns);
                        }
                        assert(self@ =~= pre.after_miss(now_ns));
                        None
                    },
                    Some(players) => {
                        proof {
                            assert forall|bands: spec_fn(u64) -> u32| #[trigger]
                                acceptance::agrees(*window, bands) implies {
                                &&& pre.can_match(now_ns, bands)
                                &&& pre.is_group(now_ns, bands, players@)
                            } by {
                                assert(bands(waiter.wait(now_ns)) == band);
                                assert(lobby::is_group_around(
                                    pre.waiting,
                                    pre.axis.top_skill(),
                                    waiter,
                                    size as int,
                                    now_ns,
                                    bands,
                                    players@,
                                ));
                            }
                            let bands = acceptance::law_steady_window_is_a_function(*window);
                            assert(pre.is_group(now_ns, bands, players@));
                            law_eviction_adds_up(pre, now_ns, bands, players@);
                            lobby::law_match_eviction_is_exact(
                                pre.waiting,
                                pre.axis.top_skill(),
                                waiter,
                                band,
                                size as int,
                                now_ns,
                                bands,
                                players@,
                            );
                            if shard::lists(players@, waiter.key()) {
                                let i = choose|i: int|
                                    0 <= i < players@.len() && (#[trigger] players@[i]).key()
                                        == waiter.key();
                                assert(!self.pool@.contains_key(players@[i].key()));
                            } else {
                                assert(self.pool@.contains_key(waiter.key()));
                            }
                        }
                        self.queued = self.queued - size;
                        assert(self@ =~= pre.after_eviction(now_ns, players@));
                        Some(players)
                    },
                }
            },
        }
    }

    /// The second half of an attempt at `now_ns`: makes a match of the group that was taken
    /// and puts it on record.
    pub fn record_group(&mut self, group: &Vec<Waiter>, now_ns: u64)
        requires
            old(self).wf_but_for(group@.len() as int),
            group@.len() == old(self)@.config.match_size(),
            group@.len() <= 20,
        ensures
            final(self).wf(),
            exists|formed: MatchView|
                {
                    &&& #[trigger] old(self)@.is_match(now_ns, group@, formed)
                    &&& final(self)@ == old(self)@.after_match(group@.len() as int, formed)
                },
    {
        let roster: Vec<Player> = roster_of(group);
        let waits: Vec<u64> = read_waits(group, now_ns);
        let formed: Match = assemble(self.match_seq, &roster, sum_waits(&waits));
        let ghost contents = formed@;
        proof {
            law_match_adds_up(self@, contents);
        }
        self.metrics.record_match(
            group.len(),
            formed.total_wait_us,
            formed.imbalance,
            formed.skill_spread,
        );
        self.match_seq = self.match_seq.wrapping_add(1);
        self.recent.push(formed);
        assert(old(self)@.is_match(now_ns, group@, contents));
        assert(self@ =~= old(self)@.after_match(group@.len() as int, contents));
    }

    /// Attempt to form exactly one match when the machine's clock reads `now`. Returns `true`
    /// if a match was formed.
    pub fn try_match_at<W: Fn(u64) -> u32>(&mut self, now: Instant, window: W) -> (matched: bool)
        requires
            old(self).wf(),
            acceptance::is_steady(window),
            forall|bands: spec_fn(u64) -> u32| #[trigger]
                acceptance::agrees(window, bands) && old(self)@.can_match(
                    old(self)@.reading(now),
                    bands,
                ) ==> old(self)@.config.match_size() <= 20,
        ensures
            final(self).wf(),
            forall|bands: spec_fn(u64) -> u32| #[trigger]
                acceptance::agrees(window, bands) ==> {
                    &&& matched == old(self)@.can_match(old(self)@.reading(now), bands)
                    &&& old(self)@.is_attempt(old(self)@.reading(now), bands, final(self)@)
                },
    {
        let ghost pre = self@;
        let now_ns: u64 = self.arrivals.time_at(now);
        match self.take_group(now_ns, &window) {
            Some(group) => {
                let ghost taken = self@;
                proof {
                    let bands = acceptance::law_steady_window_is_a_function(window);
                    assert(pre.can_match(now_ns, bands));
                }
                self.record_group(&group, now_ns);
                proof {
                    let formed = choose|formed: MatchView|
                        {
                            &&& #[trigger] taken.is_match(now_ns, group@, formed)
                            &&& self@ == taken.after_match(group@.len() as int, formed)
                        };
                    assert(pre.is_match(now_ns, group@, formed));
                    assert forall|bands: spec_fn(u64) -> u32| #[trigger]
                        acceptance::agrees(window, bands) implies pre.is_attempt(
                        now_ns,
                        bands,
                        self@,
                    ) by {
                        assert(pre.is_formed(now_ns, bands, group@, formed, self@));
                    }
                }
                true
            },
            None => false,
        }
    }

    /// Attempt to form exactly one match. Returns `true` if a match was formed.
    pub fn try_match<W: Fn(u64) -> u32>(&mut self, window: W) -> (matched: bool)
        requires
            old(self).wf(),
            acceptance::is_steady(window),
            forall|bands: spec_fn(u64) -> u32, now_ns: u64|
                #![trigger acceptance::agrees(window, bands), old(self)@.can_match(now_ns, bands)]
                acceptance::agrees(window, bands) && old(self)@.can_match(now_ns, bands)
                    ==> old(self)@.config.match_size() <= 20,
        ensures
            final(self).wf(),
            exists|now_ns: u64|
                #![trigger old(self)@.clock_may_read(now_ns)]
                old(self)@.clock_may_read(now_ns) && forall|bands: spec_fn(u64) -> u32| #[trigger]
                    acceptance::agrees(window, bands) ==> {
                        &&& matched == old(self)@.can_match(now_ns, bands)
                        &&& old(self)@.is_attempt(now_ns, bands, final(self)@)
                    },
    {
        let now: Instant = clock::now();
        let matched: bool = self.try_match_at(now, window);
        assert(old(self)@.clock_may_read(old(self)@.reading(now)));
        matched
    }

    /// Tells the workers to stop.
    pub fn stop(&mut self)
        requires
            old(self).wf(),
        ensures
            final(self).wf(),
            final(self)@ == old(self)@.after_stop(),
    {
        self.running = false;
    }

    /// Whether workers shall go on.
    pub fn is_running(&self) -> (running: bool)
        ensures
            running == self@.running,
    {
        self.running
    }

    /// Snapshot of the most recently formed matches (for inspection/sampling).
    pub fn recent_matches(&self) -> (matches: Vec<Match>)
        ensures
            matches@.map_values(|m: Match| m@) == self@.recent,
    {
        self.recent.to_vec()
    }

    pub fn config(&self) -> (config: &Config)
        ensures
            *config == self@.config,
    {
        &self.config
    }
}

/// `lowest_skill` and `highest_skill` are skills of the group, and every skill of the group
/// is between them.
pub proof fn law_spread_spans_the_group(group: Seq<Player>)
    requires
        group.len() > 0,
    ensures
        exists|i: int| 0 <= i < group.len() && (#[trigger] group[i]).skill == lowest_skill(group),
        exists|i: int| 0 <= i < group.len() && (#[trigger] group[i]).skill == highest_skill(group),
        forall|i: int|
            0 <= i < group.len() ==> lowest_skill(group) <= (#[trigger] group[i]).skill
                <= highest_skill(group),
    decreases group.len(),
{
    if group.len() == 1 {
        assert(group[0].skill == lowest_skill(group));
    } else {
        let front = group.drop_last();
        law_spread_spans_the_group(front);
        let a = choose|a: int|
            0 <= a < front.len() && (#[trigger] front[a]).skill == lowest_skill(front);
        let b = choose|b: int|
            0 <= b < front.len() && (#[trigger] front[b]).skill == highest_skill(front);
        assert(group[a] == front[a] && group[b] == front[b]);
        assert(group[group.len() - 1] == group.last());
        assert forall|i: int| 0 <= i < group.len() implies lowest_skill(group) <= (
        #[trigger] group[i]).skill <= highest_skill(group) by {
            if i < front.len() {
                assert(group[i] == front[i]);
            }
        }
    }
}

/// Players are conserved: those who were matched and those who are waiting are, together,
/// those who were ever enqueued, every match has counted a full match of players, and the
/// reported depth is the number of waiters (as long as the counters have not wrapped around).
pub proof fn law_players_are_conserved(engine: Engine)
    requires
        engine.wf(),
        engine@.metrics.players_matched + engine@.queued <= u64::MAX,
        engine@.metrics.matches * engine@.config.match_size() <= u64::MAX,
    ensures
        engine@.metrics.players_matched + engine@.queued == engine@.metrics.enqueued,
        engine@.metrics.players_matched == engine@.config.match_size() * engine@.metrics.matches,
        engine@.waiting.dom().finite(),
        engine@.waiting.dom().len() == engine@.queued,
{
    let m: int = engine@.metrics.matches as int;
    let s: int = engine@.config.match_size();
    assert(m * s == s * m) by (nonlinear_arith);
    vstd::arithmetic::div_mod::lemma_small_mod((m * s) as nat, 0x1_0000_0000_0000_0000);
}

/// Nobody waits with a skill above the maximum.
pub proof fn law_skills_are_clamped(engine: Engine, key: (u32, u64))
    requires
        engine.wf(),
        engine@.waiting.contains_key(key),
    ensures
        key.0 <= engine@.config.skill_max,
{
}

/// The group and the match of an attempt that succeeded.
pub proof fn law_attempt_forms_a_match(
    before: EngineState,
    now_ns: u64,
    bands: spec_fn(u64) -> u32,
    after: EngineState,
) -> (made: (Seq<Waiter>, MatchView))
    requires
        before.is_attempt(now_ns, bands, after),
        before.can_match(now_ns, bands),
    ensures
        before.is_formed(now_ns, bands, made.0, made.1, after),
{
    choose|group: Seq<Waiter>, formed: MatchView| #[trigger]
        before.is_formed(now_ns, bands, group, formed, after)
}

/// A match moves its players from the waiting to the matched, and creates or loses none.
pub proof fn law_match_conserves_players(
    before: EngineState,
    now_ns: u64,
    bands: spec_fn(u64) -> u32,
    after: EngineState,
)
    requires
        before.is_attempt(now_ns, bands, after),
        before.can_match(now_ns, bands),
        before.adds_up(0),
        before.metrics.players_matched + before.config.match_size() <= u64::MAX,
    ensures
        after.adds_up(0),
        after.queued == before.queued - before.config.match_size(),
        after.metrics.players_matched == before.metrics.players_matched
            + before.config.match_size(),
        after.metrics.enqueued == before.metrics.enqueued,
        after.waiting.submap_of(before.waiting),
{
    let (group, formed) = law_attempt_forms_a_match(before, now_ns, bands, after);
    law_eviction_adds_up(before, now_ns, bands, group);
    law_match_adds_up(before.after_eviction(now_ns, group), formed);
}

/// An attempt forms no match only where its shard has no waiter, or where around its seed none
/// can be formed. It then changes nobody's place in the queue; what changes is that the next
/// attempt in this shard goes on behind the seed.
pub proof fn law_miss_leaves_the_queue(
    before: EngineState,
    now_ns: u64,
    bands: spec_fn(u64) -> u32,
    after: EngineState,
)
    requires
        before.is_attempt(now_ns, bands, after),
        !before.can_match(now_ns, bands),
        before.adds_up(0),
    ensures
        before.finds_nobody() || before.is_seed(before.seed()) && !before.can_match_around(
            before.seed(),
            now_ns,
            bands,
        ),
        after.waiting == before.waiting,
        after.queued == before.queued,
        after.match_seq == before.match_seq,
        after.recent == before.recent,
        after.metrics.matches == before.metrics.matches,
        after.metrics.players_matched == before.metrics.players_matched,
        !before.finds_nobody() ==> after.places[before.seed_shard()] == Some(
            before.seed().rank(),
        ),
        forall|s: int|
            0 <= s < before.places.len() && s != before.seed_shard()
                ==> #[trigger] after.places[s] == before.places[s],
{
    if !before.finds_nobody() {
        law_seed_exists(before);
    }
}

/// Too few players in reach form no match: where fewer than a match of waiters are within the
/// band of the seed, the attempt is refused.
pub proof fn law_sparse_seed_is_refused(
    state: EngineState,
    now_ns: u64,
    bands: spec_fn(u64) -> u32,
)
    requires
        state.adds_up(0),
        nearest::in_range(
            state.waiting,
            axis::low_end(state.seed().skill, bands(state.seed().wait(now_ns))),
            axis::high_end(
                state.seed().skill,
                bands(state.seed().wait(now_ns)),
                state.config.skill_max,
            ),
        ).len() < state.config.match_size(),
    ensures
        !state.can_match(now_ns, bands),
{
    if state.can_match(now_ns, bands) {
        let seed = state.seed();
        let band = bands(seed.wait(now_ns));
        let low = axis::low_end(seed.skill, band);
        let high = axis::high_end(seed.skill, band, state.axis.top_skill());
        let group = choose|group: Seq<Waiter>| #[trigger]
            lobby::is_group_around(
                state.waiting,
                state.axis.top_skill(),
                seed,
                state.config.match_size(),
                now_ns,
                bands,
                group,
            );
        lobby::law_match_takes_waiters(
            state.waiting,
            state.axis.top_skill(),
            seed,
            band,
            state.config.match_size(),
            now_ns,
            bands,
            group,
        );
        nearest::law_listed_waiters_are_counted(state.waiting, seed.skill, low, high, group);
    }
}

/// A match needs a full match of waiters: with fewer in the queue, whatever their skills, the
/// size of a team and the bands, no attempt succeeds.
pub proof fn law_match_needs_enough_waiters(
    state: EngineState,
    now_ns: u64,
    bands: spec_fn(u64) -> u32,
)
    requires
        state.adds_up(0),
        state.can_match(now_ns, bands),
    ensures
        state.queued >= state.config.match_size(),
{
    let seed = state.seed();
    let group = choose|group: Seq<Waiter>| #[trigger]
        lobby::is_group_around(
            state.waiting,
            state.axis.top_skill(),
            seed,
            state.config.match_size(),
            now_ns,
            bands,
            group,
        );
    lobby::law_match_eviction_is_exact(
        state.waiting,
        state.axis.top_skill(),
        seed,
        bands(seed.wait(now_ns)),
        state.config.match_size(),
        now_ns,
        bands,
        group,
    );
}

/// No match is missed for good: where a full match of waiters fits inside the band of the
/// oldest of them, the attempt that has that oldest one as its seed succeeds, whoever else is
/// in the way.
pub proof fn law_every_lobby_is_found(
    state: EngineState,
    group: Seq<Waiter>,
    k: int,
    now_ns: u64,
    bands: spec_fn(u64) -> u32,
)
    requires
        state.adds_up(0),
        state.arrivals.count < u64::MAX,
        nearest::is_distinct(group),
        group.len() == state.config.match_size(),
        forall|i: int|
            0 <= i < group.len() ==> shard::waits(state.waiting, #[trigger] group[i]),
        acceptance::is_oldest(group, k),
        acceptance::all_fit(group, k, bands(group[k].wait(now_ns))),
        state.is_seed(group[k]),
    ensures
        state.can_match_around(group[k], now_ns, bands),
        state.can_match(now_ns, bands),
{
    assert forall|i: int| 0 <= i < group.len() implies shard::is_waiter(
        state.waiting,
        0,
        state.config.skill_max,
        #[trigger] group[i],
    ) by {
        assert(shard::waits(state.waiting, group[i]));
        assert(state.waiting.contains_key(group[i].key()));
    }
    relaxation::law_every_lobby_is_found(
        state.waiting,
        state.config.skill_max,
        group,
        k,
        now_ns,
        bands,
    );
    law_seed_is_unique(state, group[k], group[k]);
    assert(state.waiting.contains_key(group[k].key()));
}

/// A match has two full teams, which differ in summed skill by the recorded imbalance; all its
/// players are inside the band of its oldest member and inside the band of the seed, and no two
/// of them are further apart in skill than two such bands.
pub proof fn law_match_quality(
    state: EngineState,
    now_ns: u64,
    bands: spec_fn(u64) -> u32,
    group: Seq<Waiter>,
    formed: MatchView,
    oldest: int,
)
    requires
        state.adds_up(0),
        state.is_group(now_ns, bands, group),
        state.is_match(now_ns, group, formed),
        acceptance::is_oldest(group, oldest),
    ensures
        formed.team_a.len() == state.config.team_size,
        formed.team_b.len() == state.config.team_size,
        formed.team_a.to_multiset().add(formed.team_b.to_multiset()) == players_of(
            group,
        ).to_multiset(),
        formed.imbalance == balance::skill_gap(formed.team_a, formed.team_b),
        forall|i: int|
            0 <= i < group.len() ==> nearest::distance(
                (#[trigger] group[i]).skill,
                group[oldest].skill,
            ) <= bands(group[oldest].wait(now_ns)),
        forall|i: int|
            0 <= i < group.len() ==> nearest::distance(
                (#[trigger] group[i]).skill,
                state.seed().skill,
            ) <= bands(state.seed().wait(now_ns)),
        formed.skill_spread <= 2 * bands(group[oldest].wait(now_ns)),
{
    let seed = state.seed();
    let roster = players_of(group);
    let band = bands(seed.wait(now_ns));
    law_seed_exists(state);
    assert(state.waiting.contains_key(seed.key()));
    lobby::law_match_takes_waiters(
        state.waiting,
        state.axis.top_skill(),
        seed,
        band,
        state.config.match_size(),
        now_ns,
        bands,
        group,
    );
    assert forall|i: int| 0 <= i < group.len() implies nearest::distance(
        (#[trigger] group[i]).skill,
        seed.skill,
    ) <= band by {
        assert(shard::is_waiter(
            state.waiting,
            axis::low_end(seed.skill, band),
            axis::high_end(seed.skill, band, state.axis.top_skill()),
            group[i],
        ));
    }
    balance::law_teams_partition_the_roster(
        roster,
        formed.team_a,
        formed.team_b,
        formed.imbalance as int,
    );
    acceptance::law_accepted_group_fits_the_oldest_band(group, now_ns, bands, oldest);
    law_spread_spans_the_group(roster);
    let i = choose|i: int|
        0 <= i < roster.len() && (#[trigger] roster[i]).skill == lowest_skill(roster);
    let j = choose|j: int|
        0 <= j < roster.len() && (#[trigger] roster[j]).skill == highest_skill(roster);
    assert(roster[i] == group[i].as_player() && roster[j] == group[j].as_player());
    assert(nearest::distance(group[i].skill, group[j].skill) <= 2 * bands(
        group[oldest].wait(now_ns),
    ));
}

/// Relaxing never costs a match: an attempt that succeeds would succeed with wider bands, and
/// would succeed later where the band grows with the wait.
pub proof fn law_relaxing_never_costs_a_match(
    state: EngineState,
    now_ns: u64,
    bands: spec_fn(u64) -> u32,
    later_ns: u64,
    wider: spec_fn(u64) -> u32,
)
    requires
        state.adds_up(0),
        state.can_match(now_ns, bands),
        now_ns <= later_ns,
        forall|a: u64, b: u64| a <= b ==> #[trigger] bands(a) <= #[trigger] wider(b),
    ensures
        state.can_match(later_ns, wider),
{
    law_seed_exists(state);
    assert(state.waiting.contains_key(state.seed().key()));
    relaxation::law_relaxing_never_costs_the_seed(
        state.waiting,
        state.axis.top_skill(),
        state.seed(),
        state.config.match_size(),
        now_ns,
        bands,
        later_ns,
        wider,
    );
}

/// An attempt is determined: the state before it, the time and the bands leave no choice of
/// what state it leaves behind.
pub proof fn law_attempt_is_determined(
    before: EngineState,
    now_ns: u64,
    bands: spec_fn(u64) -> u32,
    after: EngineState,
    other: EngineState,
)
    requires
        before.is_attempt(now_ns, bands, after),
        before.is_attempt(now_ns, bands, other),
    ensures
        after == other,
{
    if before.can_match(now_ns, bands) {
        let (g, f) = law_attempt_forms_a_match(before, now_ns, bands, after);
        let (h, e) = law_attempt_forms_a_match(before, now_ns, bands, other);
        law_group_is_determined(before, now_ns, bands, g, h);
        balance::law_balance_is_unique(
            players_of(g),
            f.team_a,
            f.team_b,
            f.imbalance as int,
            e.team_a,
            e.team_b,
            e.imbalance as int,
        );
        assert(f == e);
    }
}

/// The state, the time and the bands determine which players an attempt takes.
pub proof fn law_group_is_determined(
    state: EngineState,
    now_ns: u64,
    bands: spec_fn(u64) -> u32,
    group: Seq<Waiter>,
    other: Seq<Waiter>,
)
    requires
        state.is_group(now_ns, bands, group),
        state.is_group(now_ns, bands, other),
    ensures
        group == other,
{
    lobby::law_group_within_is_unique(
        state.waiting,
        state.axis.top_skill(),
        state.seed(),
        bands(state.seed().wait(now_ns)),
        state.config.match_size(),
        now_ns,
        bands,
        group,
        other,
    );
}

/// The widest band reaches everyone: once every band covers the axis, an attempt forms a match
/// if and only if its shard has a waiter and the pool holds enough players for a match,
/// whatever their skills.
pub proof fn law_widest_band_reaches_everyone(
    state: EngineState,
    now_ns: u64,
    bands: spec_fn(u64) -> u32,
)
    requires
        state.adds_up(0),
        forall|wait: u64| #[trigger] bands(wait) >= state.config.skill_max,
    ensures
        state.can_match(now_ns, bands) <==> {
            &&& !state.finds_nobody()
            &&& state.queued >= state.config.match_size()
        },
{
    let size = state.config.match_size();
    if !state.finds_nobody() && state.queued >= size {
        law_seed_exists(state);
        let seed = state.seed();
        assert(state.waiting.contains_key(seed.key()));
        let band = bands(seed.wait(now_ns));
        let low = axis::low_end(seed.skill, band);
        let high = axis::high_end(seed.skill, band, state.config.skill_max);
        assert(nearest::in_range(state.waiting, low, high) =~= state.waiting.dom()) by {
            assert forall|k: (u32, u64)| state.waiting.dom().contains(k) implies nearest::in_range(
                state.waiting,
                low,
                high,
            ).contains(k) by {
                assert(state.waiting.contains_key(k));
            }
        }
        let group = nearest::law_group_exists(state.waiting, seed.skill, low, high, size as nat);
        assert forall|k: int| #[trigger]
            acceptance::is_oldest(group, k) implies acceptance::all_fit(
            group,
            k,
            bands(group[k].wait(now_ns)),
        ) by {
            assert(bands(group[k].wait(now_ns)) >= state.config.skill_max);
            assert(shard::is_waiter(state.waiting, low, high, group[k]));
            assert forall|i: int| 0 <= i < group.len() implies nearest::distance(
                (#[trigger] group[i]).skill,
                group[k].skill,
            ) <= bands(group[k].wait(now_ns)) by {
                assert(shard::is_waiter(state.waiting, low, high, group[i]));
            }
        }
        assert(lobby::is_lobby(
            state.waiting,
            state.axis.top_skill(),
            seed.skill,
            band,
            size,
            now_ns,
            bands,
            group,
        ));
        assert(lobby::is_group_around(
            state.waiting,
            state.axis.top_skill(),
            seed,
            size,
            now_ns,
            bands,
            group,
        ));
        assert(state.can_match_around(seed, now_ns, bands));
    }
    if state.can_match(now_ns, bands) {
        law_match_needs_enough_waiters(state, now_ns, bands);
    }
}

/// Every shard has its turn: of any `num_shards` attempts in a row, as long as their count
/// does not wrap around, one takes its seed from the given shard.
pub proof fn law_every_shard_has_its_turn(next_seed: int, num_shards: int, shard: int) -> (turn:
    int)
    requires
        0 <= next_seed,
        0 <= shard < num_shards,
    ensures
        0 <= turn < num_shards,
        (next_seed + turn) % num_shards == shard,
{
    let at = next_seed % num_shards;
    let turn = if shard >= at {
        shard - at
    } else {
        shard - at + num_shards
    };
    let q = next_seed / num_shards;
    vstd::arithmetic::div_mod::lemma_fundamental_div_mod(next_seed, num_shards);
    vstd::arithmetic::mul::lemma_mul_is_distributive_add(num_shards, q, 1);
    vstd::arithmetic::div_mod::lemma_mod_multiples_vanish(q, shard, num_shards);
    vstd::arithmetic::div_mod::lemma_mod_multiples_vanish(q + 1, shard, num_shards);
    vstd::arithmetic::div_mod::lemma_small_mod(shard as nat, num_shards as nat);
    turn
}

} // verus!
