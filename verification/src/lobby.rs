//! When the waiters around a seed become a match.
//!
//! The nearest waiters within the band of the seed are a match if the oldest of them accepts
//! them all. Where they are not, the nearest of those who came no earlier than the seed are
//! tried: the oldest of them is the seed, so that all of them fit.
use crate::acceptance;
use crate::arrivals::{Ticket, Waiter};
use crate::axis;
use crate::nearest;
use crate::shard;
use vstd::prelude::*;

verus! {

/// `group` are the `size` waiters nearest to `seed_skill` within `band`, and they are accepted
/// as a match at `now_ns`.
pub open spec fn is_lobby(
    waiting: Map<(u32, u64), Ticket>,
    skill_max: u32,
    seed_skill: u32,
    band: u32,
    size: int,
    now_ns: u64,
    bands: spec_fn(u64) -> u32,
    group: Seq<Waiter>,
) -> bool {
    &&& group.len() == size
    &&& nearest::is_nearest_group(
        waiting,
        seed_skill,
        axis::low_end(seed_skill, band),
        axis::high_end(seed_skill, band, skill_max),
        group,
    )
    &&& acceptance::is_accepted(group, now_ns, bands)
}

/// A match of `size` players can be made of the waiters nearest to `seed_skill` within `band`.
pub open spec fn has_lobby(
    waiting: Map<(u32, u64), Ticket>,
    skill_max: u32,
    seed_skill: u32,
    band: u32,
    size: int,
    now_ns: u64,
    bands: spec_fn(u64) -> u32,
) -> bool {
    exists|group: Seq<Waiter>| #[trigger]
        is_lobby(waiting, skill_max, seed_skill, band, size, now_ns, bands, group)
}

/// `group` is the match of `size` players that is formed around `seed` within `band`: of the
/// nearest waiters, or, where these are not accepted, of the nearest of those who came no
/// earlier than the seed.
pub open spec fn is_group_within(
    waiting: Map<(u32, u64), Ticket>,
    skill_max: u32,
    seed: Waiter,
    band: u32,
    size: int,
    now_ns: u64,
    bands: spec_fn(u64) -> u32,
    group: Seq<Waiter>,
) -> bool {
    if has_lobby(waiting, skill_max, seed.skill, band, size, now_ns, bands) {
        is_lobby(waiting, skill_max, seed.skill, band, size, now_ns, bands, group)
    } else {
        is_lobby(
            shard::since(waiting, seed.ticket.arrival),
            skill_max,
            seed.skill,
            band,
            size,
            now_ns,
            bands,
            group,
        )
    }
}

/// `group` is the match of `size` players that is formed around `seed` at `now_ns`.
pub open spec fn is_group_around(
    waiting: Map<(u32, u64), Ticket>,
    skill_max: u32,
    seed: Waiter,
    size: int,
    now_ns: u64,
    bands: spec_fn(u64) -> u32,
    group: Seq<Waiter>,
) -> bool {
    is_group_within(
        waiting,
        skill_max,
        seed,
        bands(seed.wait(now_ns)),
        size,
        now_ns,
        bands,
        group,
    )
}

/// A match of `size` players can be formed around `seed` at `now_ns`.
pub open spec fn can_match_around(
    waiting: Map<(u32, u64), Ticket>,
    skill_max: u32,
    seed: Waiter,
    size: int,
    now_ns: u64,
    bands: spec_fn(u64) -> u32,
) -> bool {
    exists|group: Seq<Waiter>| #[trigger]
        is_group_around(waiting, skill_max, seed, size, now_ns, bands, group)
}

/// Which match is formed around a seed is determined.
pub proof fn law_group_within_is_unique(
    waiting: Map<(u32, u64), Ticket>,
    skill_max: u32,
    seed: Waiter,
    band: u32,
    size: int,
    now_ns: u64,
    bands: spec_fn(u64) -> u32,
    group: Seq<Waiter>,
    other: Seq<Waiter>,
)
    requires
        is_group_within(waiting, skill_max, seed, band, size, now_ns, bands, group),
        is_group_within(waiting, skill_max, seed, band, size, now_ns, bands, other),
    ensures
        group == other,
{
    let low = axis::low_end(seed.skill, band);
    let high = axis::high_end(seed.skill, band, skill_max);
    if has_lobby(waiting, skill_max, seed.skill, band, size, now_ns, bands) {
        nearest::law_group_is_unique(waiting, seed.skill, low, high, group, other);
    } else {
        nearest::law_group_is_unique(
            shard::since(waiting, seed.ticket.arrival),
            seed.skill,
            low,
            high,
            group,
            other,
        );
    }
}

/// A match that is formed around a seed is a full and accepted one of waiters within the band,
/// each of them once.
pub proof fn law_match_takes_waiters(
    waiting: Map<(u32, u64), Ticket>,
    skill_max: u32,
    seed: Waiter,
    band: u32,
    size: int,
    now_ns: u64,
    bands: spec_fn(u64) -> u32,
    group: Seq<Waiter>,
)
    requires
        is_group_within(waiting, skill_max, seed, band, size, now_ns, bands, group),
    ensures
        group.len() == size,
        acceptance::is_accepted(group, now_ns, bands),
        nearest::is_listed(seed.skill, group),
        nearest::is_distinct(group),
        forall|i: int|
            0 <= i < group.len() ==> shard::is_waiter(
                waiting,
                axis::low_end(seed.skill, band),
                axis::high_end(seed.skill, band, skill_max),
                #[trigger] group[i],
            ),
{
    let low = axis::low_end(seed.skill, band);
    let high = axis::high_end(seed.skill, band, skill_max);
    shard::lemma_since_is_part(waiting, seed.ticket.arrival);
    if !has_lobby(waiting, skill_max, seed.skill, band, size, now_ns, bands) {
        let part = shard::since(waiting, seed.ticket.arrival);
        assert forall|i: int| 0 <= i < group.len() implies shard::is_waiter(
            waiting,
            low,
            high,
            #[trigger] group[i],
        ) by {
            assert(shard::is_waiter(part, low, high, group[i]));
            assert(part.dom().contains(group[i].key()));
        }
    }
    nearest::lemma_listed_is_distinct(seed.skill, group);
}

/// A match takes exactly as many waiters from the pool as it has players: none of them is left
/// waiting, and everybody else stays.
pub proof fn law_match_eviction_is_exact(
    waiting: Map<(u32, u64), Ticket>,
    skill_max: u32,
    seed: Waiter,
    band: u32,
    size: int,
    now_ns: u64,
    bands: spec_fn(u64) -> u32,
    group: Seq<Waiter>,
)
    requires
        waiting.dom().finite(),
        is_group_within(waiting, skill_max, seed, band, size, now_ns, bands, group),
    ensures
        group.len() == size,
        waiting.remove_keys(nearest::keys_of(group)).dom().finite(),
        waiting.remove_keys(nearest::keys_of(group)).dom().len() + group.len()
            == waiting.dom().len(),
        forall|i: int|
            0 <= i < group.len() ==> !waiting.remove_keys(nearest::keys_of(group)).contains_key(
                (#[trigger] group[i]).key(),
            ),
        forall|key: (u32, u64)|
            waiting.contains_key(key) && !shard::lists(group, key)
                ==> #[trigger] waiting.remove_keys(nearest::keys_of(group)).contains_key(key),
{
    law_match_takes_waiters(
        waiting,
        skill_max,
        seed,
        band,
        size,
        now_ns,
        bands,
        group,
    );
    nearest::law_eviction_is_exact(
        waiting,
        seed.skill,
        axis::low_end(seed.skill, band),
        axis::high_end(seed.skill, band, skill_max),
        group,
    );
}

} // verus!
