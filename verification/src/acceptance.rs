//! When a group that was gathered becomes a match.
//!
//! Acceptance is gated by a skill band that grows with the wait: a match only goes through
//! when all its players fit inside the band of the oldest member, the one most at risk of
//! starving. How wide the band is after a given wait is told by a window, a function from
//! nanoseconds to skill points that the caller brings along.
use crate::arrivals::Waiter;
use crate::nearest;
use vstd::prelude::*;

verus! {

/// Member number `k` is the oldest of the group: the one who came first.
pub open spec fn is_oldest(group: Seq<Waiter>, k: int) -> bool {
    &&& 0 <= k < group.len()
    &&& forall|i: int| 0 <= i < group.len() ==> !(#[trigger] group[i]).is_older(group[k])
    &&& forall|i: int| 0 <= i < k ==> group[k].is_older(#[trigger] group[i])
}

/// Every player of the group is within `band` of member number `oldest`.
pub open spec fn all_fit(group: Seq<Waiter>, oldest: int, band: u32) -> bool {
    forall|i: int|
        0 <= i < group.len() ==> nearest::distance((#[trigger] group[i]).skill, group[oldest].skill)
            <= band
}

/// The group is accepted at `now_ns`: all its players fit inside the band of its oldest
/// member, which is `bands` of how long that member has waited.
pub open spec fn is_accepted(
    group: Seq<Waiter>,
    now_ns: u64,
    bands: spec_fn(u64) -> u32,
) -> bool {
    forall|k: int| #[trigger]
        is_oldest(group, k) ==> all_fit(group, k, bands(group[k].wait(now_ns)))
}

/// Whatever the window answers is what `bands` says.
pub open spec fn agrees<W: Fn(u64) -> u32>(window: W, bands: spec_fn(u64) -> u32) -> bool {
    forall|wait: u64, band: u32| #[trigger]
        call_ensures(window, (wait,), band) ==> band == bands(wait)
}

/// A window can be asked for any wait, and always gives the same band for the same wait.
pub open spec fn is_steady<W: Fn(u64) -> u32>(window: W) -> bool {
    &&& forall|wait: u64| #[trigger] call_requires(window, (wait,))
    &&& forall|wait: u64, a: u32, b: u32|
        #![trigger call_ensures(window, (wait,), a), call_ensures(window, (wait,), b)]
        call_ensures(window, (wait,), a) && call_ensures(window, (wait,), b) ==> a == b
}

/// A steady window is a function from waits to bands.
pub proof fn law_steady_window_is_a_function<W: Fn(u64) -> u32>(window: W) -> (bands: spec_fn(
    u64,
) -> u32)
    requires
        is_steady(window),
    ensures
        agrees(window, bands),
{
    |wait: u64| choose|band: u32| call_ensures(window, (wait,), band)
}

/// Asks a window for the band after a wait.
pub fn band_after<W: Fn(u64) -> u32>(window: &W, wait: u64) -> (band: u32)
    requires
        is_steady(*window),
    ensures
        forall|bands: spec_fn(u64) -> u32| #[trigger]
            agrees(*window, bands) ==> band == bands(wait),
{
    window(wait)
}

/// The oldest member of a group.
pub fn oldest_of(group: &Vec<Waiter>) -> (oldest: usize)
    requires
        group@.len() > 0,
    ensures
        is_oldest(group@, oldest as int),
{
    let mut oldest: usize = 0;
    let mut i: usize = 1;
    while i < group.len()
        invariant
            0 <= oldest < i <= group@.len(),
            forall|x: int| 0 <= x < i ==> !(#[trigger] group@[x]).is_older(group@[oldest as int]),
            forall|x: int|
                0 <= x < oldest ==> group@[oldest as int].is_older(#[trigger] group@[x]),
        decreases group@.len() - i,
    {
        let a = group[i].ticket;
        let b = group[oldest].ticket;
        if a.at_ns < b.at_ns || a.at_ns == b.at_ns && a.arrival < b.arrival {
            oldest = i;
        }
        i = i + 1;
    }
    oldest
}

/// Whether every player of the group is within `band` of the oldest member.
pub fn fits(group: &Vec<Waiter>, oldest: usize, band: u32) -> (accepted: bool)
    requires
        oldest < group@.len(),
    ensures
        accepted == all_fit(group@, oldest as int, band),
{
    let middle: u32 = group[oldest].skill;
    let mut i: usize = 0;
    while i < group.len()
        invariant
            i <= group@.len(),
            oldest < group@.len(),
            middle == group@[oldest as int].skill,
            forall|x: int|
                0 <= x < i ==> nearest::distance((#[trigger] group@[x]).skill, middle) <= band,
        decreases group@.len() - i,
    {
        let skill: u32 = group[i].skill;
        let apart: u32 = if skill >= middle {
            skill - middle
        } else {
            middle - skill
        };
        if apart > band {
            assert(nearest::distance(group@[i as int].skill, middle) > band);
            return false;
        }
        i = i + 1;
    }
    true
}

/// Whether the group is accepted at `now_ns`.
pub fn accepts<W: Fn(u64) -> u32>(group: &Vec<Waiter>, now_ns: u64, window: &W) -> (accepted: bool)
    requires
        group@.len() > 0,
        is_steady(*window),
    ensures
        forall|bands: spec_fn(u64) -> u32| #[trigger]
            agrees(*window, bands) ==> accepted == is_accepted(group@, now_ns, bands),
{
    let oldest: usize = oldest_of(group);
    let band: u32 = band_after(window, group[oldest].wait_ns(now_ns));
    proof {
        assert forall|k: int| is_oldest(group@, k) implies k == oldest by {
            law_oldest_is_unique(group@, k, oldest as int);
        }
        assert(is_oldest(group@, oldest as int));
    }
    fits(group, oldest, band)
}

/// A group has one oldest member.
pub proof fn law_oldest_is_unique(group: Seq<Waiter>, a: int, b: int)
    requires
        is_oldest(group, a),
        is_oldest(group, b),
    ensures
        a == b,
{
    if a < b {
        assert(group[b].is_older(group[a]));
    }
    if b < a {
        assert(group[a].is_older(group[b]));
    }
}

/// A group that is not empty has an oldest member.
pub proof fn law_oldest_exists(group: Seq<Waiter>) -> (oldest: int)
    requires
        group.len() > 0,
    ensures
        is_oldest(group, oldest),
    decreases group.len(),
{
    let last = group.len() - 1;
    if last == 0 {
        0
    } else {
        let front = group.drop_last();
        let k = law_oldest_exists(front);
        let oldest = if group[last].is_older(group[k]) {
            last
        } else {
            k
        };
        assert(front[k] == group[k]);
        assert forall|i: int| 0 <= i < group.len() implies !(#[trigger] group[i]).is_older(
            group[oldest],
        ) by {
            if i < last {
                assert(front[i] == group[i]);
                assert(!front[i].is_older(front[k]));
            }
        }
        assert forall|i: int| 0 <= i < oldest implies group[oldest].is_older(
            #[trigger] group[i],
        ) by {
            assert(front[i] == group[i]);
            assert(!front[i].is_older(front[k]));
        }
        oldest
    }
}

/// Nobody in the group came earlier or has waited longer than its oldest member.
pub proof fn law_oldest_has_waited_longest(group: Seq<Waiter>, oldest: int, i: int, now_ns: u64)
    requires
        is_oldest(group, oldest),
        0 <= i < group.len(),
    ensures
        group[oldest].ticket.at_ns <= group[i].ticket.at_ns,
        group[i].wait(now_ns) <= group[oldest].wait(now_ns),
{
    assert(!group[i].is_older(group[oldest]));
}

/// An accepted group is inside the band of its oldest member, so no two of its players are
/// further apart than two such bands.
pub proof fn law_accepted_group_fits_the_oldest_band(
    group: Seq<Waiter>,
    now_ns: u64,
    bands: spec_fn(u64) -> u32,
    oldest: int,
)
    requires
        is_accepted(group, now_ns, bands),
        is_oldest(group, oldest),
    ensures
        forall|i: int|
            0 <= i < group.len() ==> nearest::distance(
                (#[trigger] group[i]).skill,
                group[oldest].skill,
            ) <= bands(group[oldest].wait(now_ns)),
        forall|i: int, j: int|
            0 <= i < group.len() && 0 <= j < group.len() ==> nearest::distance(
                (#[trigger] group[i]).skill,
                (#[trigger] group[j]).skill,
            ) <= 2 * bands(group[oldest].wait(now_ns)),
{
    assert(all_fit(group, oldest, bands(group[oldest].wait(now_ns))));
}

/// A player who has just come vetoes nobody: whether a group is accepted does not depend on
/// the waits of its younger members.
pub proof fn law_newcomers_veto_nobody(
    group: Seq<Waiter>,
    other: Seq<Waiter>,
    now_ns: u64,
    bands: spec_fn(u64) -> u32,
    oldest: int,
)
    requires
        is_oldest(group, oldest),
        is_oldest(other, oldest),
        group.len() == other.len(),
        group[oldest].ticket.at_ns == other[oldest].ticket.at_ns,
        forall|i: int|
            0 <= i < group.len() ==> (#[trigger] group[i]).skill == (#[trigger] other[i]).skill,
    ensures
        is_accepted(group, now_ns, bands) == is_accepted(other, now_ns, bands),
{
    let band = bands(group[oldest].wait(now_ns));
    assert forall|k: int| is_oldest(group, k) implies k == oldest by {
        law_oldest_is_unique(group, k, oldest);
    }
    assert forall|k: int| is_oldest(other, k) implies k == oldest by {
        law_oldest_is_unique(other, k, oldest);
    }
    assert(group[oldest].skill == other[oldest].skill);
    if all_fit(group, oldest, band) {
        assert forall|i: int| 0 <= i < other.len() implies nearest::distance(
            (#[trigger] other[i]).skill,
            other[oldest].skill,
        ) <= band by {
            assert(group[i].skill == other[i].skill);
        }
    }
    if all_fit(other, oldest, band) {
        assert forall|i: int| 0 <= i < group.len() implies nearest::distance(
            (#[trigger] group[i]).skill,
            group[oldest].skill,
        ) <= band by {
            assert(group[i].skill == other[i].skill);
        }
    }
    assert(is_accepted(group, now_ns, bands) == all_fit(group, oldest, band));
    assert(is_accepted(other, now_ns, bands) == all_fit(other, oldest, band));
}

/// Relaxing never costs a match: a group that is accepted stays accepted when the bands are
/// wider, and when its players have waited longer and the band grows with the wait.
pub proof fn law_relaxing_keeps_acceptance(
    group: Seq<Waiter>,
    now_ns: u64,
    bands: spec_fn(u64) -> u32,
    later_ns: u64,
    wider: spec_fn(u64) -> u32,
)
    requires
        is_accepted(group, now_ns, bands),
        now_ns <= later_ns,
        forall|a: u64, b: u64| a <= b ==> #[trigger] bands(a) <= #[trigger] wider(b),
    ensures
        is_accepted(group, later_ns, wider),
{
    assert forall|k: int| #[trigger] is_oldest(group, k) implies all_fit(
        group,
        k,
        wider(group[k].wait(later_ns)),
    ) by {
        assert(all_fit(group, k, bands(group[k].wait(now_ns))));
        assert(bands(group[k].wait(now_ns)) <= wider(group[k].wait(later_ns)));
    }
}

/// The oldest member decides: a group is accepted exactly if no skill in it is more than the
/// oldest member's band above or below the oldest member's skill, where that band is what the
/// time since they came gives.
pub proof fn law_oldest_member_decides(
    group: Seq<Waiter>,
    now_ns: u64,
    bands: spec_fn(u64) -> u32,
    oldest: int,
)
    requires
        0 <= oldest < group.len(),
        forall|i: int|
            0 <= i < group.len() && i != oldest ==> {
                ||| group[oldest].ticket.at_ns < (#[trigger] group[i]).ticket.at_ns
                ||| group[oldest].ticket.at_ns == group[i].ticket.at_ns
                    && group[oldest].ticket.arrival < group[i].ticket.arrival
            },
        group[oldest].ticket.at_ns <= now_ns,
    ensures
        is_oldest(group, oldest),
        is_accepted(group, now_ns, bands) <==> forall|i: int|
            0 <= i < group.len() ==> {
                let band = bands((now_ns - group[oldest].ticket.at_ns) as u64);
                &&& (#[trigger] group[i]).skill - group[oldest].skill <= band
                &&& group[oldest].skill - group[i].skill <= band
            },
{
    let band = bands((now_ns - group[oldest].ticket.at_ns) as u64);
    assert(is_oldest(group, oldest));
    assert forall|k: int| is_oldest(group, k) implies k == oldest by {
        law_oldest_is_unique(group, k, oldest);
    }
    assert(group[oldest].wait(now_ns) == now_ns - group[oldest].ticket.at_ns);
    assert(is_accepted(group, now_ns, bands) == all_fit(group, oldest, band));
    if forall|i: int|
        0 <= i < group.len() ==> {
            &&& (#[trigger] group[i]).skill - group[oldest].skill <= band
            &&& group[oldest].skill - group[i].skill <= band
        } {
        assert(all_fit(group, oldest, band));
    }
    if all_fit(group, oldest, band) {
        assert forall|i: int| 0 <= i < group.len() implies {
            &&& (#[trigger] group[i]).skill - group[oldest].skill <= band
            &&& group[oldest].skill - group[i].skill <= band
        } by {
            assert(nearest::distance(group[i].skill, group[oldest].skill) <= band);
        }
    }
}

} // verus!
