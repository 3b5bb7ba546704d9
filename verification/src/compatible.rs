//! Who is matched with whom: what an attempt does with the waiters in reach of its seed, stated
//! by skills, numbers and times.
use crate::acceptance;
use crate::arrivals::Waiter;
use crate::axis;
use crate::engine;
use crate::engine::EngineState;
use crate::lobby;
use crate::nearest;
use crate::pool;
use crate::shard;
use vstd::prelude::*;

verus! {

/// Compatible players get a match: where a full match of waiters is no further in skill, above
/// or below, from the one of them who came first than that one's band, and it is that one's
/// turn, the attempt forms a match, whoever else waits.
pub proof fn law_compatible_players_get_a_match(
    state: EngineState,
    group: Seq<Waiter>,
    k: int,
    now_ns: u64,
    bands: spec_fn(u64) -> u32,
)
    requires
        state.adds_up(0),
        state.arrivals.count < u64::MAX,
        group.len() == 2 * state.config.team_size,
        0 <= k < group.len(),
        forall|i: int|
            0 <= i < group.len() ==> state.waiting.contains_key(
                ((#[trigger] group[i]).skill, group[i].id),
            ) && state.waiting[(group[i].skill, group[i].id)] == group[i].ticket,
        forall|i: int|
            0 <= i < group.len() && i != k ==> group[k].ticket.arrival < (
            #[trigger] group[i]).ticket.arrival,
        forall|i: int, j: int|
            0 <= i < j < group.len() ==> (#[trigger] group[i]).ticket.arrival != (
            #[trigger] group[j]).ticket.arrival,
        group[k].ticket.at_ns <= now_ns,
        forall|i: int|
            0 <= i < group.len() ==> {
                let band = bands((now_ns - group[k].ticket.at_ns) as u64);
                &&& (#[trigger] group[i]).skill - group[k].skill <= band
                &&& group[k].skill - group[i].skill <= band
            },
        state.axis.shard(group[k].skill) == state.next_seed as int
            % state.config.num_shards as int,
        state.seed() == group[k],
    ensures
        state.can_match(now_ns, bands),
{
    assert(state.waiting.contains_key((group[k].skill, group[k].id)));
    engine::law_seed_exists(state);
    assert forall|i: int| 0 <= i < group.len() implies shard::waits(
        state.waiting,
        #[trigger] group[i],
    ) by {
        assert(group[i].key() == (group[i].skill, group[i].id));
    }
    assert forall|i: int| 0 <= i < group.len() && i != k implies group[k].is_older(
        #[trigger] group[i],
    ) && !group[i].is_older(group[k]) by {
        let a = (group[k].skill, group[k].id);
        let b = (group[i].skill, group[i].id);
        assert(state.waiting.contains_key(a) && state.waiting.contains_key(b));
        assert(a != b);
    }
    assert(acceptance::is_oldest(group, k));
    assert(nearest::is_distinct(group)) by {
        assert forall|i: int, j: int| 0 <= i < j < group.len() implies (#[trigger] group[i]).key()
            != (#[trigger] group[j]).key() by {
            assert(shard::waits(state.waiting, group[i]));
            assert(shard::waits(state.waiting, group[j]));
        }
    }
    let band = bands((now_ns - group[k].ticket.at_ns) as u64);
    assert(group[k].wait(now_ns) == now_ns - group[k].ticket.at_ns);
    assert forall|i: int| 0 <= i < group.len() implies nearest::distance(
        (#[trigger] group[i]).skill,
        group[k].skill,
    ) <= band by {
        assert(group[i].skill - group[k].skill <= band);
    }
    engine::law_every_lobby_is_found(state, group, k, now_ns, bands);
}

/// The nearest players form the match: where a full match of waiters is within the seed's band,
/// none of the waiters in the band who are left out is closer to the seed or as close and came
/// earlier, and none of the players is further from the one who came first than that one's
/// band, then the attempt forms a match of exactly these players.
pub proof fn law_nearest_players_form_the_match(
    state: EngineState,
    now_ns: u64,
    bands: spec_fn(u64) -> u32,
    best: Seq<Waiter>,
    oldest: int,
) -> (group: Seq<Waiter>)
    requires
        state.adds_up(0),
        state.arrivals.count < u64::MAX,
        state.arrivals.latest_ns <= now_ns,
        exists|key: (u32, u64)| #[trigger]
            state.waiting.contains_key(key) && state.axis.shard(key.0) == state.next_seed as int
                % state.config.num_shards as int,
        best.len() == 2 * state.config.team_size,
        forall|i: int|
            0 <= i < best.len() ==> {
                let seed = state.seed();
                let band = bands((now_ns - seed.ticket.at_ns) as u64);
                &&& state.waiting.contains_key(((#[trigger] best[i]).skill, best[i].id))
                &&& state.waiting[(best[i].skill, best[i].id)] == best[i].ticket
                &&& best[i].skill - seed.skill <= band
                &&& seed.skill - best[i].skill <= band
            },
        forall|i: int, j: int|
            0 <= i < j < best.len() ==> (#[trigger] best[i]).ticket.arrival != (
            #[trigger] best[j]).ticket.arrival,
        forall|key: (u32, u64), i: int|
            #![trigger state.waiting.contains_key(key), best[i]]
            state.waiting.contains_key(key) && 0 <= i < best.len() && !(exists|j: int|
                0 <= j < best.len() && (#[trigger] best[j]).skill == key.0 && best[j].id == key.1)
                ==> {
                let s = state.seed().skill;
                let band = bands((now_ns - state.seed().ticket.at_ns) as u64);
                let x = if best[i].skill >= s {
                    best[i].skill - s
                } else {
                    s - best[i].skill
                };
                let y = if key.0 >= s {
                    key.0 - s
                } else {
                    s - key.0
                };
                y > band || x < y || x == y && best[i].ticket.arrival
                    < state.waiting[key].arrival
            },
        0 <= oldest < best.len(),
        forall|i: int|
            0 <= i < best.len() && i != oldest ==> best[oldest].ticket.arrival < (
            #[trigger] best[i]).ticket.arrival,
        forall|i: int|
            0 <= i < best.len() ==> {
                let band = bands((now_ns - best[oldest].ticket.at_ns) as u64);
                &&& (#[trigger] best[i]).skill - best[oldest].skill <= band
                &&& best[oldest].skill - best[i].skill <= band
            },
    ensures
        state.can_match(now_ns, bands),
        state.is_group(now_ns, bands, group),
        group.len() == best.len(),
        forall|w: Waiter| #[trigger] group.contains(w) <==> best.contains(w),
{
    let some = choose|key: (u32, u64)| #[trigger]
        state.waiting.contains_key(key) && state.axis.shard(key.0) == state.next_seed as int
            % state.config.num_shards as int;
    assert(!state.finds_nobody());
    engine::law_seed_exists(state);
    let seed = state.seed();
    assert(pool::stands_in(state.waiting, state.axis, state.seed_shard(), seed));
    assert(state.waiting.contains_key(seed.key()));
    let band = bands((now_ns - seed.ticket.at_ns) as u64);
    assert(seed.wait(now_ns) == now_ns - seed.ticket.at_ns);
    let top = state.axis.top_skill();
    let low = axis::low_end(seed.skill, band);
    let high = axis::high_end(seed.skill, band, top);
    assert(nearest::is_distinct(best)) by {
        assert forall|i: int, j: int| 0 <= i < j < best.len() implies (#[trigger] best[i]).key()
            != (#[trigger] best[j]).key() by {
            assert(state.waiting.contains_key((best[i].skill, best[i].id)));
            assert(state.waiting.contains_key((best[j].skill, best[j].id)));
        }
    }
    let group = nearest::lemma_line_up(seed.skill, best);
    assert forall|i: int| 0 <= i < group.len() implies shard::is_waiter(
        state.waiting,
        low,
        high,
        #[trigger] group[i],
    ) && best.contains(group[i]) by {
        assert(group.contains(group[i]));
        let j = choose|j: int| 0 <= j < best.len() && best[j] == group[i];
        assert(state.waiting.contains_key((best[j].skill, best[j].id)));
        axis::law_band_reaches_both_ways(seed.skill, band, top, best[j].skill);
    }
    assert forall|key: (u32, u64), i: int|
        #![trigger state.waiting.contains_key(key), group[i]]
        state.waiting.contains_key(key) && low <= key.0 <= high && !shard::lists(group, key) && 0
            <= i < group.len() implies nearest::nearer(
        seed.skill,
        group[i].rank(),
        shard::rank_in(state.waiting, key),
    ) by {
        assert(best.contains(group[i]));
        let j = choose|j: int| 0 <= j < best.len() && best[j] == group[i];
        axis::law_band_reaches_both_ways(seed.skill, band, top, key.0);
        if exists|z: int|
            0 <= z < best.len() && (#[trigger] best[z]).skill == key.0 && best[z].id == key.1 {
            let z = choose|z: int|
                0 <= z < best.len() && (#[trigger] best[z]).skill == key.0 && best[z].id == key.1;
            assert(best.contains(best[z]));
            assert(group.contains(best[z]));
            let y = choose|y: int| 0 <= y < group.len() && group[y] == best[z];
            assert(group[y].key() == key);
        }
        assert(state.waiting.contains_key(key) && best[j] == group[i]);
    }
    assert(best.contains(best[oldest]));
    assert(group.contains(best[oldest]));
    let o = choose|o: int| 0 <= o < group.len() && group[o] == best[oldest];
    assert(state.waiting.contains_key((best[oldest].skill, best[oldest].id)));
    assert forall|i: int| 0 <= i < group.len() && i != o implies {
        ||| group[o].ticket.at_ns < (#[trigger] group[i]).ticket.at_ns
        ||| group[o].ticket.at_ns == group[i].ticket.at_ns && group[o].ticket.arrival
            < group[i].ticket.arrival
    } by {
        assert(best.contains(group[i]));
        let j = choose|j: int| 0 <= j < best.len() && best[j] == group[i];
        nearest::lemma_listed_is_distinct(seed.skill, group);
        assert(group[i].key() != group[o].key());
        assert(j != oldest);
        assert(state.waiting.contains_key((best[j].skill, best[j].id)));
        assert(best[oldest].ticket.arrival < best[j].ticket.arrival);
    }
    acceptance::law_oldest_member_decides(group, now_ns, bands, o);
    assert forall|i: int| 0 <= i < group.len() implies {
        let band = bands((now_ns - group[o].ticket.at_ns) as u64);
        &&& (#[trigger] group[i]).skill - group[o].skill <= band
        &&& group[o].skill - group[i].skill <= band
    } by {
        assert(best.contains(group[i]));
        let j = choose|j: int| 0 <= j < best.len() && best[j] == group[i];
        assert(best[j].skill - best[oldest].skill <= bands(
            (now_ns - best[oldest].ticket.at_ns) as u64,
        ));
    }
    let size = state.config.match_size();
    assert(lobby::is_lobby(
        state.waiting,
        top,
        seed.skill,
        band,
        size,
        now_ns,
        bands,
        group,
    ));
    assert(lobby::is_group_around(state.waiting, top, seed, size, now_ns, bands, group));
    group
}

/// Whoever is taken is in the queue and in the seed's band; whoever is in the band and left out
/// is further from the seed, or as far and came later. The only ones who may be passed over are
/// those who came before the seed, and then for a match of players none of whom did.
pub proof fn law_taken_players_are_the_nearest(
    state: EngineState,
    now_ns: u64,
    bands: spec_fn(u64) -> u32,
    group: Seq<Waiter>,
    i: int,
    key: (u32, u64),
)
    requires
        state.adds_up(0),
        state.arrivals.latest_ns <= now_ns,
        state.is_group(now_ns, bands, group),
        0 <= i < group.len(),
        state.waiting.contains_key(key),
        forall|j: int|
            0 <= j < group.len() ==> !((#[trigger] group[j]).skill == key.0 && group[j].id
                == key.1),
    ensures
        state.waiting.contains_key((group[i].skill, group[i].id)),
        state.waiting[(group[i].skill, group[i].id)] == group[i].ticket,
        ({
            let seed = state.seed();
            let band = bands((now_ns - seed.ticket.at_ns) as u64);
            let x = if group[i].skill >= seed.skill {
                group[i].skill - seed.skill
            } else {
                seed.skill - group[i].skill
            };
            let y = if key.0 >= seed.skill {
                key.0 - seed.skill
            } else {
                seed.skill - key.0
            };
            &&& x <= band
            &&& {
                ||| y > band
                ||| x < y
                ||| x == y && group[i].ticket.arrival <= state.waiting[key].arrival
                ||| state.waiting[key].arrival < seed.ticket.arrival && forall|j: int|
                    0 <= j < group.len() ==> (#[trigger] group[j]).ticket.arrival
                        >= seed.ticket.arrival
            }
        }),
{
    engine::law_seed_exists(state);
    let seed = state.seed();
    assert(pool::stands_in(state.waiting, state.axis, state.seed_shard(), seed));
    assert(state.waiting.contains_key(seed.key()));
    let band = bands((now_ns - seed.ticket.at_ns) as u64);
    assert(seed.wait(now_ns) == now_ns - seed.ticket.at_ns);
    let top = state.axis.top_skill();
    let size = state.config.match_size();
    let low = axis::low_end(seed.skill, band);
    let high = axis::high_end(seed.skill, band, top);
    lobby::law_match_takes_waiters(
        state.waiting,
        top,
        seed,
        band,
        size,
        now_ns,
        bands,
        group,
    );
    assert(shard::is_waiter(state.waiting, low, high, group[i]));
    axis::law_band_reaches_both_ways(seed.skill, band, top, group[i].skill);
    axis::law_band_reaches_both_ways(seed.skill, band, top, key.0);
    assert(!shard::lists(group, key)) by {
        if shard::lists(group, key) {
            let j = choose|j: int| 0 <= j < group.len() && (#[trigger] group[j]).key() == key;
            assert(group[j].skill == key.0 && group[j].id == key.1);
        }
    }
    if low <= key.0 <= high {
        if lobby::has_lobby(state.waiting, top, seed.skill, band, size, now_ns, bands) {
            assert(nearest::nearer(
                seed.skill,
                group[i].rank(),
                shard::rank_in(state.waiting, key),
            ));
        } else {
            let part = shard::since(state.waiting, seed.ticket.arrival);
            shard::lemma_since_is_part(state.waiting, seed.ticket.arrival);
            assert forall|j: int| 0 <= j < group.len() implies (#[trigger] group[j]).ticket.arrival
                >= seed.ticket.arrival by {
                assert(shard::is_waiter(part, low, high, group[j]));
                assert(part.contains_key(group[j].key()));
            }
            if part.contains_key(key) {
                assert(nearest::nearer(
                    seed.skill,
                    group[i].rank(),
                    shard::rank_in(part, key),
                ));
            }
        }
    }
}

/// Whoever is matched fits: no player of a match is further in skill, above or below, from the
/// one of them who came first than the band that the time since that one came gives.
pub proof fn law_matched_players_fit_the_oldest(
    state: EngineState,
    now_ns: u64,
    bands: spec_fn(u64) -> u32,
    group: Seq<Waiter>,
    oldest: int,
    i: int,
)
    requires
        state.adds_up(0),
        state.arrivals.latest_ns <= now_ns,
        state.is_group(now_ns, bands, group),
        0 <= oldest < group.len(),
        0 <= i < group.len(),
        forall|j: int|
            0 <= j < group.len() && j != oldest ==> {
                ||| group[oldest].ticket.at_ns < (#[trigger] group[j]).ticket.at_ns
                ||| group[oldest].ticket.at_ns == group[j].ticket.at_ns
                    && group[oldest].ticket.arrival < group[j].ticket.arrival
            },
    ensures
        group.len() == 2 * state.config.team_size,
        ({
            let band = bands((now_ns - group[oldest].ticket.at_ns) as u64);
            &&& group[i].skill - group[oldest].skill <= band
            &&& group[oldest].skill - group[i].skill <= band
        }),
{
    let seed = state.seed();
    lobby::law_match_takes_waiters(
        state.waiting,
        state.axis.top_skill(),
        seed,
        bands(seed.wait(now_ns)),
        state.config.match_size(),
        now_ns,
        bands,
        group,
    );
    assert(shard::waits(state.waiting, group[oldest]));
    assert(state.waiting.contains_key(group[oldest].key()));
    acceptance::law_oldest_member_decides(group, now_ns, bands, oldest);
}

} // verus!
