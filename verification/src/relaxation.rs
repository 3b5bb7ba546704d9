//! What the skill band promises: how tight a group is, who is taken first, and what it means
//! that the band widens while players wait.
use crate::acceptance;
use crate::arrivals::{Ticket, Waiter};
use crate::axis;
use crate::lobby;
use crate::nearest;
use crate::shard;
use vstd::prelude::*;

verus! {

/// `group` are the waiters nearest to a seed of skill `seed_skill` within a band of
/// width `band`, on an axis that ends at `skill_max`.
pub open spec fn is_group_in_band(
    waiting: Map<(u32, u64), Ticket>,
    skill_max: u32,
    seed_skill: u32,
    band: u32,
    group: Seq<Waiter>,
) -> bool {
    nearest::is_nearest_group(
        waiting,
        seed_skill,
        axis::low_end(seed_skill, band),
        axis::high_end(seed_skill, band, skill_max),
        group,
    )
}

/// Every player of a group is within the band of the seed, so no two of them are
/// further apart than two bands.
pub proof fn law_group_is_within_the_band(
    waiting: Map<(u32, u64), Ticket>,
    skill_max: u32,
    seed_skill: u32,
    band: u32,
    group: Seq<Waiter>,
)
    requires
        seed_skill <= skill_max,
        is_group_in_band(waiting, skill_max, seed_skill, band, group),
    ensures
        forall|i: int|
            0 <= i < group.len() ==> nearest::distance((#[trigger] group[i]).skill, seed_skill)
                <= band,
        forall|i: int, j: int|
            0 <= i < group.len() && 0 <= j < group.len() ==> nearest::distance(
                (#[trigger] group[i]).skill,
                (#[trigger] group[j]).skill,
            ) <= 2 * band,
{
    assert forall|i: int| 0 <= i < group.len() implies nearest::distance(
        (#[trigger] group[i]).skill,
        seed_skill,
    ) <= band by {
        assert(shard::is_waiter(
            waiting,
            axis::low_end(seed_skill, band),
            axis::high_end(seed_skill, band, skill_max),
            group[i],
        ));
    }
}

/// The group is the tightest one around the seed: no waiter within the band that is
/// left out is closer in skill to the seed than one that is taken.
pub proof fn law_group_is_tightest(
    waiting: Map<(u32, u64), Ticket>,
    skill_max: u32,
    seed_skill: u32,
    band: u32,
    group: Seq<Waiter>,
    left_out: (u32, u64),
    i: int,
)
    requires
        is_group_in_band(waiting, skill_max, seed_skill, band, group),
        waiting.contains_key(left_out),
        axis::low_end(seed_skill, band) <= left_out.0 <= axis::high_end(
            seed_skill,
            band,
            skill_max,
        ),
        !shard::lists(group, left_out),
        0 <= i < group.len(),
    ensures
        nearest::distance(group[i].skill, seed_skill) <= nearest::distance(left_out.0, seed_skill),
{
    assert(nearest::nearer(seed_skill, group[i].rank(), shard::rank_in(waiting, left_out)));
}

/// A wider band holds every waiter that a narrower one does.
pub proof fn law_wider_band_holds_more(
    waiting: Map<(u32, u64), Ticket>,
    skill_max: u32,
    seed_skill: u32,
    band: u32,
    wider: u32,
)
    requires
        waiting.dom().finite(),
        band <= wider,
    ensures
        nearest::in_range(
            waiting,
            axis::low_end(seed_skill, band),
            axis::high_end(seed_skill, band, skill_max),
        ).subset_of(
            nearest::in_range(
                waiting,
                axis::low_end(seed_skill, wider),
                axis::high_end(seed_skill, wider, skill_max),
            ),
        ),
        nearest::in_range(
            waiting,
            axis::low_end(seed_skill, band),
            axis::high_end(seed_skill, band, skill_max),
        ).len() <= nearest::in_range(
            waiting,
            axis::low_end(seed_skill, wider),
            axis::high_end(seed_skill, wider, skill_max),
        ).len(),
{
    let narrow = nearest::in_range(
        waiting,
        axis::low_end(seed_skill, band),
        axis::high_end(seed_skill, band, skill_max),
    );
    let wide = nearest::in_range(
        waiting,
        axis::low_end(seed_skill, wider),
        axis::high_end(seed_skill, wider, skill_max),
    );
    vstd::set_lib::lemma_len_subset(wide, waiting.dom());
    assert(narrow.subset_of(wide));
    vstd::set_lib::lemma_len_subset(narrow, wide);
}

/// Relaxing the band keeps the match: where a narrower band yields a group, a wider one
/// yields the same group.
pub proof fn law_relaxing_keeps_the_match(
    waiting: Map<(u32, u64), Ticket>,
    skill_max: u32,
    seed_skill: u32,
    band: u32,
    wider: u32,
    group: Seq<Waiter>,
)
    requires
        seed_skill <= skill_max,
        band <= wider,
        is_group_in_band(waiting, skill_max, seed_skill, band, group),
    ensures
        is_group_in_band(waiting, skill_max, seed_skill, wider, group),
{
    let low = axis::low_end(seed_skill, band);
    let high = axis::high_end(seed_skill, band, skill_max);
    let wide_low = axis::low_end(seed_skill, wider);
    let wide_high = axis::high_end(seed_skill, wider, skill_max);
    assert forall|i: int| 0 <= i < group.len() implies shard::is_waiter(
        waiting,
        wide_low,
        wide_high,
        #[trigger] group[i],
    ) by {
        assert(shard::is_waiter(waiting, low, high, group[i]));
    }
    assert forall|key: (u32, u64), i: int|
        #![trigger waiting.contains_key(key), group[i]]
        waiting.contains_key(key) && wide_low <= key.0 <= wide_high && !shard::lists(group, key)
            && 0 <= i < group.len() implies nearest::nearer(
        seed_skill,
        group[i].rank(),
        shard::rank_in(waiting, key),
    ) by {
        assert(shard::is_waiter(waiting, low, high, group[i]));
        if !(low <= key.0 <= high) {
            assert(nearest::distance(key.0, seed_skill) > band);
            assert(nearest::distance(group[i].skill, seed_skill) <= band);
        }
    }
}

/// Oldest players are matched first: of two waiters equally close in skill to the seed, the
/// one who came later is not taken while the one who came earlier is left out.
pub proof fn law_oldest_are_matched_first(
    waiting: Map<(u32, u64), Ticket>,
    skill_max: u32,
    seed_skill: u32,
    band: u32,
    group: Seq<Waiter>,
    left_out: Waiter,
    i: int,
)
    requires
        is_group_in_band(waiting, skill_max, seed_skill, band, group),
        shard::is_waiter(
            waiting,
            axis::low_end(seed_skill, band),
            axis::high_end(seed_skill, band, skill_max),
            left_out,
        ),
        !shard::lists(group, left_out.key()),
        0 <= i < group.len(),
        nearest::distance(group[i].skill, seed_skill) == nearest::distance(
            left_out.skill,
            seed_skill,
        ),
    ensures
        group[i].ticket.arrival <= left_out.ticket.arrival,
{
    assert(waiting.contains_key(left_out.key()));
    assert(nearest::nearer(seed_skill, group[i].rank(), shard::rank_in(waiting, left_out.key())));
}

/// The seed plays, unless a full group has exactly the seed's skill and stands before the
/// seed in line.
pub proof fn law_seed_plays(
    waiting: Map<(u32, u64), Ticket>,
    skill_max: u32,
    seed: Waiter,
    band: u32,
    group: Seq<Waiter>,
)
    requires
        seed.skill <= skill_max,
        shard::waits(waiting, seed),
        is_group_in_band(waiting, skill_max, seed.skill, band, group),
    ensures
        shard::lists(group, seed.key()) || forall|i: int|
            0 <= i < group.len() ==> (#[trigger] group[i]).skill == seed.skill && shard::before(
                group[i].rank(),
                seed.rank(),
            ),
{
    if !shard::lists(group, seed.key()) {
        assert forall|i: int| 0 <= i < group.len() implies (#[trigger] group[i]).skill
            == seed.skill && shard::before(group[i].rank(), seed.rank()) by {
            assert(waiting.contains_key(seed.key()));
            assert(nearest::nearer(
                seed.skill,
                group[i].rank(),
                shard::rank_in(waiting, seed.key()),
            ));
        }
    }
}

/// The tickets of `waiting` are in order: no two have the same number, and who has the lower
/// number came no later.
pub open spec fn is_in_order(waiting: Map<(u32, u64), Ticket>) -> bool {
    forall|a: (u32, u64), b: (u32, u64)|
        #![trigger waiting.contains_key(a), waiting.contains_key(b)]
        waiting.contains_key(a) && waiting.contains_key(b) && a != b ==> {
            &&& waiting[a].arrival != waiting[b].arrival
            &&& waiting[a].arrival < waiting[b].arrival ==> waiting[a].at_ns <= waiting[b].at_ns
        }
}

/// No match is missed for good: wherever a full match of waiters fits inside the band of the
/// oldest of them, a match can be formed around that oldest one, whoever else is in the way.
pub proof fn law_every_lobby_is_found(
    waiting: Map<(u32, u64), Ticket>,
    skill_max: u32,
    group: Seq<Waiter>,
    k: int,
    now_ns: u64,
    bands: spec_fn(u64) -> u32,
)
    requires
        waiting.dom().finite(),
        is_in_order(waiting),
        nearest::is_distinct(group),
        forall|i: int|
            0 <= i < group.len() ==> shard::is_waiter(waiting, 0, skill_max, #[trigger] group[i]),
        acceptance::is_oldest(group, k),
        acceptance::all_fit(group, k, bands(group[k].wait(now_ns))),
    ensures
        lobby::can_match_around(
            waiting,
            skill_max,
            group[k],
            group.len() as int,
            now_ns,
            bands,
        ),
{
    let seed = group[k];
    let size: int = group.len() as int;
    let band = bands(seed.wait(now_ns));
    let low = axis::low_end(seed.skill, band);
    let high = axis::high_end(seed.skill, band, skill_max);
    let part = shard::since(waiting, seed.ticket.arrival);
    shard::lemma_since_is_part(waiting, seed.ticket.arrival);
    assert(shard::is_waiter(waiting, 0, skill_max, seed));
    if lobby::has_lobby(waiting, skill_max, seed.skill, band, size, now_ns, bands) {
        let found = choose|found: Seq<Waiter>| #[trigger]
            lobby::is_lobby(waiting, skill_max, seed.skill, band, size, now_ns, bands, found);
        assert(lobby::is_group_around(waiting, skill_max, seed, size, now_ns, bands, found));
    } else {
        assert forall|i: int| 0 <= i < group.len() implies shard::is_waiter(
            part,
            low,
            high,
            #[trigger] group[i],
        ) by {
            assert(shard::is_waiter(waiting, 0, skill_max, group[i]));
            assert(!group[i].is_older(seed));
            assert(waiting.contains_key(group[i].key()) && waiting.contains_key(seed.key()));
            assert(nearest::distance(group[i].skill, seed.skill) <= band);
            assert(part.contains_key(group[i].key()));
        }
        nearest::lemma_count(part, low, high, group);
        let found = nearest::law_group_exists(part, seed.skill, low, high, group.len());
        lemma_seed_leads(waiting, seed, low, high, found);
        assert forall|o: int| #[trigger]
            acceptance::is_oldest(found, o) implies acceptance::all_fit(
            found,
            o,
            bands(found[o].wait(now_ns)),
        ) by {
            let z = choose|z: int| 0 <= z < found.len() && (#[trigger] found[z]).key()
                == seed.key();
            assert(shard::is_waiter(part, low, high, found[z]));
            assert(shard::is_waiter(part, low, high, found[o]));
            assert(part.contains_key(found[z].key()) && part.contains_key(found[o].key()));
            assert(found[z] == seed);
            if found[o].key() != seed.key() {
                assert(waiting.contains_key(found[o].key()) && waiting.contains_key(seed.key()));
                assert(found[z].is_older(found[o]));
            }
            assert(found[o] == seed);
            law_group_is_within_the_band(part, skill_max, seed.skill, band, found);
        }
        assert(lobby::is_lobby(
            part,
            skill_max,
            seed.skill,
            band,
            size,
            now_ns,
            bands,
            found,
        ));
        assert(lobby::is_group_around(waiting, skill_max, seed, size, now_ns, bands, found));
    }
}

/// Among those who came no earlier than the seed, the seed is taken first.
proof fn lemma_seed_leads(
    waiting: Map<(u32, u64), Ticket>,
    seed: Waiter,
    low: u32,
    high: u32,
    found: Seq<Waiter>,
)
    requires
        is_in_order(waiting),
        shard::is_waiter(waiting, low, high, seed),
        found.len() > 0,
        nearest::is_nearest_group(
            shard::since(waiting, seed.ticket.arrival),
            seed.skill,
            low,
            high,
            found,
        ),
    ensures
        shard::lists(found, seed.key()),
{
    let part = shard::since(waiting, seed.ticket.arrival);
    shard::lemma_since_is_part(waiting, seed.ticket.arrival);
    assert(part.contains_key(seed.key()));
    if !shard::lists(found, seed.key()) {
        assert(nearest::nearer(seed.skill, found[0].rank(), shard::rank_in(part, seed.key())));
        assert(shard::is_waiter(part, low, high, found[0]));
        assert(part.contains_key(found[0].key()));
        assert(waiting.contains_key(found[0].key()) && waiting.contains_key(seed.key()));
        assert(found[0].key() != seed.key());
    }
}

/// Relaxing never costs a match: where a match can be formed around a seed, it can be formed
/// when the bands are wider, and when time has passed and the band grows with the wait.
pub proof fn law_relaxing_never_costs_the_seed(
    waiting: Map<(u32, u64), Ticket>,
    skill_max: u32,
    seed: Waiter,
    size: int,
    now_ns: u64,
    bands: spec_fn(u64) -> u32,
    later_ns: u64,
    wider: spec_fn(u64) -> u32,
)
    requires
        seed.skill <= skill_max,
        now_ns <= later_ns,
        forall|a: u64, b: u64| a <= b ==> #[trigger] bands(a) <= #[trigger] wider(b),
        lobby::can_match_around(waiting, skill_max, seed, size, now_ns, bands),
    ensures
        lobby::can_match_around(waiting, skill_max, seed, size, later_ns, wider),
{
    let group = choose|group: Seq<Waiter>| #[trigger]
        lobby::is_group_around(waiting, skill_max, seed, size, now_ns, bands, group);
    let band = bands(seed.wait(now_ns));
    let wide = wider(seed.wait(later_ns));
    assert(band <= wide);
    let part = shard::since(waiting, seed.ticket.arrival);
    acceptance::law_relaxing_keeps_acceptance(group, now_ns, bands, later_ns, wider);
    if lobby::has_lobby(waiting, skill_max, seed.skill, band, size, now_ns, bands) {
        law_relaxing_keeps_the_match(waiting, skill_max, seed.skill, band, wide, group);
        assert(lobby::is_lobby(waiting, skill_max, seed.skill, wide, size, later_ns, wider, group));
        assert(lobby::is_group_around(waiting, skill_max, seed, size, later_ns, wider, group));
    } else if lobby::has_lobby(waiting, skill_max, seed.skill, wide, size, later_ns, wider) {
        let found = choose|found: Seq<Waiter>| #[trigger]
            lobby::is_lobby(waiting, skill_max, seed.skill, wide, size, later_ns, wider, found);
        assert(lobby::is_group_around(waiting, skill_max, seed, size, later_ns, wider, found));
    } else {
        law_relaxing_keeps_the_match(part, skill_max, seed.skill, band, wide, group);
        assert(lobby::is_group_around(waiting, skill_max, seed, size, later_ns, wider, group));
    }
}

} // verus!
