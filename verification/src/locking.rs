//! Why workers may share the pool by locking only the shards that a band reaches.
//!
//! An attempt locks a contiguous range of shards, always in ascending order, and gathers and
//! evicts its group while it holds them.
use crate::arrivals::{Ticket, Waiter};
use crate::axis;
use crate::axis::{Axis, Reach};
use crate::lobby;
use crate::nearest;
use crate::pool;
use crate::shard;
use crate::shard::Shard;
use vstd::prelude::*;

verus! {

/// The two hold the same waiters between `low` and `high`.
pub open spec fn agree_between(
    waiting: Map<(u32, u64), Ticket>,
    other: Map<(u32, u64), Ticket>,
    low: u32,
    high: u32,
) -> bool {
    forall|key: (u32, u64)|
        #![trigger waiting.contains_key(key)]
        #![trigger other.contains_key(key)]
        low <= key.0 <= high ==> {
            &&& waiting.contains_key(key) == other.contains_key(key)
            &&& waiting.contains_key(key) ==> waiting[key] == other[key]
        }
}

/// The shards of a reach are all that an attempt needs: they hold the same waiters within
/// the band as the whole pool does, and the same match is formed around the seed.
pub proof fn law_locked_shards_are_enough(
    axis: Axis,
    shards: Seq<Shard>,
    seed: Waiter,
    band: u32,
    reach: Reach,
    size: int,
    now_ns: u64,
    bands: spec_fn(u64) -> u32,
    group: Seq<Waiter>,
)
    requires
        axis.wf(),
        shards.len() == axis.shards(),
        pool::is_placed(axis, 0, shards),
        axis.is_reach(seed.skill, band, reach),
    ensures
        pool::is_placed(
            axis,
            reach.low as int,
            shards.subrange(reach.low as int, reach.high + 1),
        ),
        agree_between(
            pool::waiters(
                axis,
                reach.low as int,
                shards.subrange(reach.low as int, reach.high + 1),
            ),
            pool::waiters(axis, 0, shards),
            reach.low_skill,
            reach.high_skill,
        ),
        lobby::is_group_within(
            pool::waiters(
                axis,
                reach.low as int,
                shards.subrange(reach.low as int, reach.high + 1),
            ),
            axis.top_skill(),
            seed,
            band,
            size,
            now_ns,
            bands,
            group,
        ) <==> lobby::is_group_within(
            pool::waiters(axis, 0, shards),
            axis.top_skill(),
            seed,
            band,
            size,
            now_ns,
            bands,
            group,
        ),
{
    let locked = shards.subrange(reach.low as int, reach.high + 1);
    let all = pool::waiters(axis, 0, shards);
    let part = pool::waiters(axis, reach.low as int, locked);
    assert forall|key: (u32, u64)|
        #![trigger part.contains_key(key)]
        #![trigger all.contains_key(key)]
        reach.low_skill <= key.0 <= reach.high_skill implies {
        &&& part.contains_key(key) == all.contains_key(key)
        &&& part.contains_key(key) ==> part[key] == all[key]
    } by {
        axis::law_reach_covers_its_skills(axis, seed.skill, band, reach, key.0);
        let s = axis.shard(key.0);
        assert(locked[s - reach.low] == shards[s]);
    }
    assert forall|s: int, key: (u32, u64)|
        #![trigger locked[s]@.contains_key(key)]
        0 <= s < locked.len() && locked[s]@.contains_key(key) implies {
        &&& key.0 <= axis.top_skill()
        &&& axis.shard(key.0) == reach.low + s
    } by {
        assert(shards[reach.low + s]@.contains_key(key));
    }
    lemma_match_depends_on_range(
        part,
        all,
        axis.top_skill(),
        seed,
        band,
        size,
        now_ns,
        bands,
        group,
    );
}

/// Which group is nearest depends on the waiters within the range alone.
proof fn lemma_group_depends_on_range(
    waiting: Map<(u32, u64), Ticket>,
    other: Map<(u32, u64), Ticket>,
    seed_skill: u32,
    low: u32,
    high: u32,
    group: Seq<Waiter>,
)
    requires
        agree_between(waiting, other, low, high),
        nearest::is_nearest_group(waiting, seed_skill, low, high, group),
    ensures
        nearest::is_nearest_group(other, seed_skill, low, high, group),
{
    assert forall|i: int| 0 <= i < group.len() implies shard::is_waiter(
        other,
        low,
        high,
        #[trigger] group[i],
    ) by {
        assert(shard::is_waiter(waiting, low, high, group[i]));
        assert(waiting.contains_key(group[i].key()));
    }
    assert forall|key: (u32, u64), i: int|
        #![trigger other.contains_key(key), group[i]]
        other.contains_key(key) && low <= key.0 <= high && !shard::lists(group, key) && 0 <= i
            < group.len() implies nearest::nearer(
        seed_skill,
        group[i].rank(),
        shard::rank_in(other, key),
    ) by {
        assert(waiting.contains_key(key));
    }
}

/// Whether the nearest waiters are accepted depends on the waiters within the band alone.
proof fn lemma_lobby_depends_on_range(
    waiting: Map<(u32, u64), Ticket>,
    other: Map<(u32, u64), Ticket>,
    skill_max: u32,
    seed_skill: u32,
    band: u32,
    size: int,
    now_ns: u64,
    bands: spec_fn(u64) -> u32,
    group: Seq<Waiter>,
)
    requires
        agree_between(
            waiting,
            other,
            axis::low_end(seed_skill, band),
            axis::high_end(seed_skill, band, skill_max),
        ),
    ensures
        lobby::is_lobby(waiting, skill_max, seed_skill, band, size, now_ns, bands, group)
            <==> lobby::is_lobby(other, skill_max, seed_skill, band, size, now_ns, bands, group),
{
    let low = axis::low_end(seed_skill, band);
    let high = axis::high_end(seed_skill, band, skill_max);
    if nearest::is_nearest_group(waiting, seed_skill, low, high, group) {
        lemma_group_depends_on_range(waiting, other, seed_skill, low, high, group);
    }
    if nearest::is_nearest_group(other, seed_skill, low, high, group) {
        lemma_group_depends_on_range(other, waiting, seed_skill, low, high, group);
    }
}

/// Which match is formed around a seed depends on the waiters within the band alone.
proof fn lemma_match_depends_on_range(
    waiting: Map<(u32, u64), Ticket>,
    other: Map<(u32, u64), Ticket>,
    skill_max: u32,
    seed: Waiter,
    band: u32,
    size: int,
    now_ns: u64,
    bands: spec_fn(u64) -> u32,
    group: Seq<Waiter>,
)
    requires
        agree_between(
            waiting,
            other,
            axis::low_end(seed.skill, band),
            axis::high_end(seed.skill, band, skill_max),
        ),
    ensures
        lobby::is_group_within(waiting, skill_max, seed, band, size, now_ns, bands, group)
            <==> lobby::is_group_within(other, skill_max, seed, band, size, now_ns, bands, group),
{
    let low = axis::low_end(seed.skill, band);
    let high = axis::high_end(seed.skill, band, skill_max);
    let floor = seed.ticket.arrival;
    let late = shard::since(waiting, floor);
    let other_late = shard::since(other, floor);
    assert forall|g: Seq<Waiter>|
        lobby::is_lobby(waiting, skill_max, seed.skill, band, size, now_ns, bands, g)
            <==> #[trigger] lobby::is_lobby(
            other,
            skill_max,
            seed.skill,
            band,
            size,
            now_ns,
            bands,
            g,
        ) by {
        lemma_lobby_depends_on_range(
            waiting,
            other,
            skill_max,
            seed.skill,
            band,
            size,
            now_ns,
            bands,
            g,
        );
    }
    if lobby::has_lobby(waiting, skill_max, seed.skill, band, size, now_ns, bands) {
        let g = choose|g: Seq<Waiter>| #[trigger]
            lobby::is_lobby(waiting, skill_max, seed.skill, band, size, now_ns, bands, g);
        assert(lobby::is_lobby(other, skill_max, seed.skill, band, size, now_ns, bands, g));
    }
    if lobby::has_lobby(other, skill_max, seed.skill, band, size, now_ns, bands) {
        let g = choose|g: Seq<Waiter>| #[trigger]
            lobby::is_lobby(other, skill_max, seed.skill, band, size, now_ns, bands, g);
        assert(lobby::is_lobby(waiting, skill_max, seed.skill, band, size, now_ns, bands, g));
    }
    assert forall|key: (u32, u64)|
        #![trigger late.contains_key(key)]
        #![trigger other_late.contains_key(key)]
        low <= key.0 <= high implies {
        &&& late.contains_key(key) == other_late.contains_key(key)
        &&& late.contains_key(key) ==> late[key] == other_late[key]
    } by {
        assert(waiting.contains_key(key) == other.contains_key(key));
    }
    lemma_lobby_depends_on_range(
        late,
        other_late,
        skill_max,
        seed.skill,
        band,
        size,
        now_ns,
        bands,
        group,
    );
}

/// Workers on different skill ranges do not interfere: taking waiters out of one range leaves
/// the match around a seed whose band is apart from it as it was.
pub proof fn law_ranges_apart_do_not_interfere(
    waiting: Map<(u32, u64), Ticket>,
    low: u32,
    high: u32,
    taken: Seq<Waiter>,
    skill_max: u32,
    seed: Waiter,
    band: u32,
    size: int,
    now_ns: u64,
    bands: spec_fn(u64) -> u32,
    group: Seq<Waiter>,
)
    requires
        forall|i: int|
            0 <= i < taken.len() ==> shard::is_waiter(waiting, low, high, #[trigger] taken[i]),
        high < axis::low_end(seed.skill, band) || axis::high_end(seed.skill, band, skill_max) < low,
    ensures
        lobby::is_group_within(waiting, skill_max, seed, band, size, now_ns, bands, group)
            <==> lobby::is_group_within(
            waiting.remove_keys(nearest::keys_of(taken)),
            skill_max,
            seed,
            band,
            size,
            now_ns,
            bands,
            group,
        ),
{
    let left = waiting.remove_keys(nearest::keys_of(taken));
    let keys = taken.map_values(|w: Waiter| w.key());
    assert forall|key: (u32, u64)|
        #![trigger waiting.contains_key(key)]
        #![trigger left.contains_key(key)]
        axis::low_end(seed.skill, band) <= key.0 <= axis::high_end(
            seed.skill,
            band,
            skill_max,
        ) implies {
        &&& waiting.contains_key(key) == left.contains_key(key)
        &&& waiting.contains_key(key) ==> waiting[key] == left[key]
    } by {
        if nearest::keys_of(taken).contains(key) {
            let i = choose|i: int| 0 <= i < keys.len() && keys[i] == key;
            assert(shard::is_waiter(waiting, low, high, taken[i]));
        }
    }
    lemma_match_depends_on_range(
        waiting,
        left,
        skill_max,
        seed,
        band,
        size,
        now_ns,
        bands,
        group,
    );
}

/// A worker that locks shards in ascending order: it holds those from `low` up to, but not
/// including, `next`, and waits for `next`.
pub struct Climb {
    pub low: int,
    pub next: int,
}

/// The shard that `a` waits for is held by `b`.
pub open spec fn waits_for(a: Climb, b: Climb) -> bool {
    b.low <= a.next < b.next
}

/// Ascending locks never deadlock: among workers that all lock ascending ranges there is
/// always one that waits for no other.
pub proof fn law_ascending_locks_never_deadlock(workers: Seq<Climb>) -> (free: int)
    requires
        workers.len() > 0,
    ensures
        0 <= free < workers.len(),
        forall|j: int| 0 <= j < workers.len() ==> !waits_for(workers[free], #[trigger] workers[j]),
        forall|j: int|
            0 <= j < workers.len() ==> (#[trigger] workers[j]).next <= workers[free].next,
    decreases workers.len(),
{
    let last = workers.len() - 1;
    if last == 0 {
        0
    } else {
        let front = workers.drop_last();
        let free = law_ascending_locks_never_deadlock(front);
        let best = if workers[last].next > workers[free].next {
            last
        } else {
            free
        };
        assert forall|j: int| 0 <= j < workers.len() implies (#[trigger] workers[j]).next
            <= workers[best].next by {
            if j < last {
                assert(front[j] == workers[j]);
            }
        }
        best
    }
}

} // verus!
