//! A skill-ordered bucket of waiting players.
//!
//! The tickets of the waiters are kept in a `BTreeMap` keyed by `(skill, id)`. Beside it
//! stands the line: a `BTreeSet` of `(skill, arrival, id)`, i.e. permanently sorted by skill
//! and, at the same skill, by who came first. The waiters near a skill are bounded range
//! queries on the line, and a bucket is never cloned or scanned end to end.
//!
//! A bucket remembers a place in its line: where the last attempt that left its seed waiting
//! had it. The next seed stands behind that place, so that nobody is left behind the lowest
//! waiter for good.
use crate::arrivals::{Ticket, Waiter};
use std::collections::{BTreeMap, BTreeSet};
use std::collections::btree_set::Range;
use std::ops::Bound;
use vstd::prelude::*;

verus! {

broadcast use {
    vstd::laws_cmp::group_laws_cmp,
    vstd::std_specs::btree::group_btree_axioms,
};

/// The order of a line: by skill, then by arrival, then by id.
pub open spec fn before(a: (u32, u64, u64), b: (u32, u64, u64)) -> bool {
    ||| a.0 < b.0
    ||| a.0 == b.0 && a.1 < b.1
    ||| a.0 == b.0 && a.1 == b.1 && a.2 < b.2
}

/// `rank` is behind `place` in line. Everybody is behind no place.
pub open spec fn follows(place: Option<(u32, u64, u64)>, rank: (u32, u64, u64)) -> bool {
    match place {
        Some(p) => before(p, rank),
        None => true,
    }
}

/// The order in which the waiters of a line have their turn as the seed: first those behind
/// `place`, then the others, each in the order of the line.
pub open spec fn sooner(
    place: Option<(u32, u64, u64)>,
    a: (u32, u64, u64),
    b: (u32, u64, u64),
) -> bool {
    ||| follows(place, a) && !follows(place, b)
    ||| follows(place, a) == follows(place, b) && before(a, b)
}

/// The order in which a line is walked downward: from the highest skill to the lowest, and
/// at the same skill still by arrival.
pub open spec fn above(a: (u32, u64, u64), b: (u32, u64, u64)) -> bool {
    ||| a.0 > b.0
    ||| a.0 == b.0 && before(a, b)
}

/// `rank` lies between `low` and `high`, both included.
pub open spec fn between(
    rank: (u32, u64, u64),
    low: (u32, u64, u64),
    high: (u32, u64, u64),
) -> bool {
    !before(rank, low) && !before(high, rank)
}

/// The iterator of `std` over a sub-range of a `BTreeSet`.
#[verifier::external_type_specification]
#[verifier::external_body]
#[verifier::reject_recursive_types(T)]
pub struct ExRange<'a, T: 'a>(Range<'a, T>);

/// The items that a range iterator has still to give, from the lowest to the highest.
pub uninterp spec fn pending(range: Range<'_, (u32, u64, u64)>) -> Seq<(u32, u64, u64)>;

/// `items` lists, in ascending order, the items of `set` that lie between `low` and `high`.
pub open spec fn lists_range(
    set: Set<(u32, u64, u64)>,
    low: (u32, u64, u64),
    high: (u32, u64, u64),
    items: Seq<(u32, u64, u64)>,
) -> bool {
    &&& forall|i: int, j: int|
        0 <= i < j < items.len() ==> before(#[trigger] items[i], #[trigger] items[j])
    &&& forall|i: int|
        0 <= i < items.len() ==> set.contains(#[trigger] items[i]) && between(items[i], low, high)
    &&& forall|rank: (u32, u64, u64)| #[trigger]
        set.contains(rank) && between(rank, low, high) ==> items.contains(rank)
}

/// Calls `BTreeSet::range` with both bounds included. The iterator that comes back holds the
/// items of the set between the bounds, in order. `range` panics where the lower bound is
/// above the upper one.
#[verifier::external_body]
fn range_of<'a>(
    set: &'a BTreeSet<(u32, u64, u64)>,
    low: (u32, u64, u64),
    high: (u32, u64, u64),
) -> (range: Range<'a, (u32, u64, u64)>)
    requires
        !before(high, low),
    ensures
        lists_range(set@, low, high, pending(range)),
{
    set.range((Bound::Included(low), Bound::Included(high)))
}

/// Calls `Iterator::next` on a range: takes the lowest pending item.
#[verifier::external_body]
fn take_lowest(range: &mut Range<'_, (u32, u64, u64)>) -> (rank: Option<(u32, u64, u64)>)
    ensures
        pending(*old(range)).len() == 0 ==> rank is None && pending(*final(range)) == pending(
            *old(range),
        ),
        pending(*old(range)).len() > 0 ==> rank == Some(pending(*old(range)).first()) && pending(
            *final(range),
        ) == pending(*old(range)).drop_first(),
{
    match range.next() {
        Some(rank) => Some(*rank),
        None => None,
    }
}

/// Calls `DoubleEndedIterator::next_back` on a range: takes the highest pending item.
#[verifier::external_body]
fn take_highest(range: &mut Range<'_, (u32, u64, u64)>) -> (rank: Option<(u32, u64, u64)>)
    ensures
        pending(*old(range)).len() == 0 ==> rank is None && pending(*final(range)) == pending(
            *old(range),
        ),
        pending(*old(range)).len() > 0 ==> rank == Some(pending(*old(range)).last()) && pending(
            *final(range),
        ) == pending(*old(range)).drop_last(),
{
    match range.next_back() {
        Some(rank) => Some(*rank),
        None => None,
    }
}

/// Where the waiter with this key stands in line.
pub open spec fn rank_in(waiting: Map<(u32, u64), Ticket>, key: (u32, u64)) -> (u32, u64, u64) {
    (key.0, waiting[key].arrival, key.1)
}

/// `key` is the key of one of `waiters`.
pub open spec fn lists(waiters: Seq<Waiter>, key: (u32, u64)) -> bool {
    exists|i: int| 0 <= i < waiters.len() && (#[trigger] waiters[i]).key() == key
}

/// `waiter` is in the queue `waiting`.
pub open spec fn waits(waiting: Map<(u32, u64), Ticket>, waiter: Waiter) -> bool {
    waiting.contains_key(waiter.key()) && waiting[waiter.key()] == waiter.ticket
}

/// Those of `waiting` whose number is at least `floor`.
pub open spec fn since(waiting: Map<(u32, u64), Ticket>, floor: u64) -> Map<(u32, u64), Ticket> {
    waiting.restrict(
        waiting.dom().filter(|key: (u32, u64)| waiting[key].arrival >= floor),
    )
}

/// A waiter of `waiting` whose skill is between `low` and `high`.
pub open spec fn is_waiter(
    waiting: Map<(u32, u64), Ticket>,
    low: u32,
    high: u32,
    waiter: Waiter,
) -> bool {
    waits(waiting, waiter) && low <= waiter.skill <= high
}

/// `run` are the first up to `limit` waiters between `low` and `high`, walking the line
/// downward.
pub open spec fn is_run_down(
    waiting: Map<(u32, u64), Ticket>,
    low: u32,
    high: u32,
    limit: int,
    run: Seq<Waiter>,
) -> bool {
    &&& run.len() <= limit
    &&& forall|i: int| 0 <= i < run.len() ==> is_waiter(waiting, low, high, #[trigger] run[i])
    &&& forall|i: int, j: int|
        0 <= i < j < run.len() ==> above((#[trigger] run[i]).rank(), (#[trigger] run[j]).rank())
    &&& forall|key: (u32, u64)| #[trigger]
        waiting.contains_key(key) && low <= key.0 <= high && !lists(run, key) ==> {
            &&& run.len() == limit
            &&& forall|i: int|
                0 <= i < run.len() ==> above((#[trigger] run[i]).rank(), rank_in(waiting, key))
        }
}

/// `run` are the first up to `limit` waiters between `low` and `high`, walking the line
/// upward.
pub open spec fn is_run_up(
    waiting: Map<(u32, u64), Ticket>,
    low: u32,
    high: u32,
    limit: int,
    run: Seq<Waiter>,
) -> bool {
    &&& run.len() <= limit
    &&& forall|i: int| 0 <= i < run.len() ==> is_waiter(waiting, low, high, #[trigger] run[i])
    &&& forall|i: int, j: int|
        0 <= i < j < run.len() ==> before((#[trigger] run[i]).rank(), (#[trigger] run[j]).rank())
    &&& forall|key: (u32, u64)| #[trigger]
        waiting.contains_key(key) && low <= key.0 <= high && !lists(run, key) ==> {
            &&& run.len() == limit
            &&& forall|i: int|
                0 <= i < run.len() ==> before((#[trigger] run[i]).rank(), rank_in(waiting, key))
        }
}

/// A bucket of waiting players.
pub struct Shard {
    tickets: BTreeMap<(u32, u64), Ticket>,
    line: BTreeSet<(u32, u64, u64)>,
    place: Option<(u32, u64, u64)>,
}

impl View for Shard {
    type V = Map<(u32, u64), Ticket>;

    closed spec fn view(&self) -> Map<(u32, u64), Ticket> {
        self.tickets@
    }
}

/// A bucket holds finitely many waiters.
pub proof fn lemma_finite(shard: Shard)
    ensures
        shard@.dom().finite(),
{
}

impl Shard {
    /// The place in line behind which the next seed stands.
    pub closed spec fn place(self) -> Option<(u32, u64, u64)> {
        self.place
    }

    /// Somebody stands in line at `rank`.
    pub open spec fn has_at(self, rank: (u32, u64, u64)) -> bool {
        self@.contains_key((rank.0, rank.2)) && self@[(rank.0, rank.2)].arrival == rank.1
    }

    /// Exactly the waiters of the bucket stand in line.
    pub closed spec fn wf(self) -> bool {
        forall|rank: (u32, u64, u64)| #[trigger]
            self.line@.contains(rank) <==> self.has_at(rank)
    }

    /// An empty bucket.
    pub fn new() -> (shard: Self)
        ensures
            shard.wf(),
            shard@ == Map::<(u32, u64), Ticket>::empty(),
            shard.place() is None,
    {
        Shard { tickets: BTreeMap::new(), line: BTreeSet::new(), place: None }
    }

    /// Adds a waiter, or gives a waiter of the same skill and id a new ticket. Says whether
    /// the waiter is new.
    pub fn insert(&mut self, skill: u32, id: u64, ticket: Ticket) -> (fresh: bool)
        requires
            old(self).wf(),
        ensures
            final(self).wf(),
            final(self)@ == old(self)@.insert((skill, id), ticket),
            final(self).place() == old(self).place(),
            fresh == !old(self)@.contains_key((skill, id)),
    {
        let earlier: Option<Ticket> = self.tickets.insert((skill, id), ticket);
        let fresh: bool = match earlier {
            Some(old_ticket) => {
                self.line.remove(&(skill, old_ticket.arrival, id));
                false
            },
            None => true,
        };
        self.line.insert((skill, ticket.arrival, id));
        fresh
    }

    /// Takes a waiter out.
    pub fn remove(&mut self, skill: u32, id: u64)
        requires
            old(self).wf(),
        ensures
            final(self).wf(),
            final(self)@ == old(self)@.remove((skill, id)),
            final(self).place() == old(self).place(),
    {
        match self.tickets.remove(&(skill, id)) {
            Some(ticket) => {
                self.line.remove(&(skill, ticket.arrival, id));
            },
            None => {},
        }
        assert(self@ =~= old(self)@.remove((skill, id)));
    }

    /// The waiter that stands in line at `rank`.
    fn waiter_at(&self, rank: (u32, u64, u64)) -> (waiter: Waiter)
        requires
            self.wf(),
            self.line@.contains(rank),
        ensures
            waiter.rank() == rank,
            waits(self@, waiter),
    {
        let ticket: Ticket = *self.tickets.get(&(rank.0, rank.2)).unwrap();
        Waiter { id: rank.2, skill: rank.0, ticket }
    }

    /// The first waiter in line.
    pub fn lowest(&self) -> (waiter: Option<Waiter>)
        requires
            self.wf(),
        ensures
            match waiter {
                Some(w) => {
                    &&& waits(self@, w)
                    &&& forall|key: (u32, u64)| #[trigger]
                        self@.contains_key(key) ==> !before(rank_in(self@, key), w.rank())
                },
                None => self@.dom() == Set::<(u32, u64)>::empty(),
            },
    {
        let mut range = range_of(&self.line, (0u32, 0u64, 0u64), (u32::MAX, u64::MAX, u64::MAX));
        let ghost all = pending(range);
        let first: Option<(u32, u64, u64)> = take_lowest(&mut range);
        proof {
            assert forall|key: (u32, u64)| #[trigger] self@.contains_key(key) implies all.contains(
                rank_in(self@, key),
            ) by {
                assert(self.line@.contains(rank_in(self@, key)));
            }
        }
        match first {
            Some(rank) => {
                assert(all[0] == rank);
                Some(self.waiter_at(rank))
            },
            None => {
                assert(self@.dom() =~= Set::empty());
                None
            },
        }
    }

    /// The first waiter in line behind `rank`.
    pub fn next_after(&self, rank: (u32, u64, u64)) -> (waiter: Option<Waiter>)
        requires
            self.wf(),
        ensures
            match waiter {
                Some(w) => {
                    &&& waits(self@, w)
                    &&& before(rank, w.rank())
                    &&& forall|key: (u32, u64)| #[trigger]
                        self@.contains_key(key) && before(rank, rank_in(self@, key)) ==> !before(
                            rank_in(self@, key),
                            w.rank(),
                        )
                },
                None => forall|key: (u32, u64)| #[trigger]
                    self@.contains_key(key) ==> !before(rank, rank_in(self@, key)),
            },
    {
        let mut range = range_of(&self.line, rank, (u32::MAX, u64::MAX, u64::MAX));
        let ghost all = pending(range);
        proof {
            assert forall|key: (u32, u64)| #[trigger]
                self@.contains_key(key) && before(rank, rank_in(self@, key)) implies all.contains(
                rank_in(self@, key),
            ) by {
                assert(self.line@.contains(rank_in(self@, key)));
            }
        }
        match take_lowest(&mut range) {
            None => None,
            Some(first) => {
                assert(all[0] == first);
                if first.0 == rank.0 && first.1 == rank.1 && first.2 == rank.2 {
                    match take_lowest(&mut range) {
                        None => {
                            assert(all.drop_first().len() == 0);
                            None
                        },
                        Some(second) => {
                            assert(all.drop_first()[0] == all[1]);
                            Some(self.waiter_at(second))
                        },
                    }
                } else {
                    Some(self.waiter_at(first))
                }
            },
        }
    }

    /// The next seed: the first in line behind the place, or the first of all where nobody is
    /// behind it.
    pub fn seed(&self) -> (waiter: Option<Waiter>)
        requires
            self.wf(),
        ensures
            match waiter {
                Some(w) => {
                    &&& waits(self@, w)
                    &&& forall|key: (u32, u64)| #[trigger]
                        self@.contains_key(key) ==> !sooner(
                            self.place(),
                            rank_in(self@, key),
                            w.rank(),
                        )
                },
                None => self@.dom() == Set::<(u32, u64)>::empty(),
            },
    {
        match self.place {
            Some(place) => match self.next_after(place) {
                Some(waiter) => Some(waiter),
                None => self.lowest(),
            },
            None => self.lowest(),
        }
    }

    /// Moves the place to `rank` where somebody stands there.
    pub fn settle(&mut self, rank: (u32, u64, u64))
        requires
            old(self).wf(),
        ensures
            final(self).wf(),
            final(self)@ == old(self)@,
            final(self).place() == if old(self).has_at(rank) {
                Some(rank)
            } else {
                old(self).place()
            },
    {
        if self.line.contains(&rank) {
            self.place = Some(rank);
        }
    }

    /// The highest skill of a waiter between `low` and `high`.
    fn highest_skill(&self, low: u32, high: u32) -> (skill: Option<u32>)
        requires
            self.wf(),
            low <= high,
        ensures
            match skill {
                Some(s) => {
                    &&& low <= s <= high
                    &&& forall|key: (u32, u64)| #[trigger]
                        self@.contains_key(key) && low <= key.0 <= high ==> key.0 <= s
                },
                None => forall|key: (u32, u64)| #[trigger]
                    self@.contains_key(key) ==> !(low <= key.0 <= high),
            },
    {
        let mut range = range_of(&self.line, (low, 0u64, 0u64), (high, u64::MAX, u64::MAX));
        let ghost all = pending(range);
        let last: Option<(u32, u64, u64)> = take_highest(&mut range);
        proof {
            assert forall|key: (u32, u64)| #[trigger]
                self@.contains_key(key) && low <= key.0 <= high implies all.contains(
                rank_in(self@, key),
            ) by {
                assert(self.line@.contains(rank_in(self@, key)));
                assert(between(
                    rank_in(self@, key),
                    (low, 0u64, 0u64),
                    (high, u64::MAX, u64::MAX),
                ));
            }
        }
        match last {
            Some(rank) => {
                assert(all[all.len() - 1] == rank);
                Some(rank.0)
            },
            None => None,
        }
    }

    /// The lowest skill of a waiter between `low` and `high`.
    fn lowest_skill(&self, low: u32, high: u32) -> (skill: Option<u32>)
        requires
            self.wf(),
            low <= high,
        ensures
            match skill {
                Some(s) => {
                    &&& low <= s <= high
                    &&& forall|key: (u32, u64)| #[trigger]
                        self@.contains_key(key) && low <= key.0 <= high ==> key.0 >= s
                },
                None => forall|key: (u32, u64)| #[trigger]
                    self@.contains_key(key) ==> !(low <= key.0 <= high),
            },
    {
        let mut range = range_of(&self.line, (low, 0u64, 0u64), (high, u64::MAX, u64::MAX));
        let ghost all = pending(range);
        let first: Option<(u32, u64, u64)> = take_lowest(&mut range);
        proof {
            assert forall|key: (u32, u64)| #[trigger]
                self@.contains_key(key) && low <= key.0 <= high implies all.contains(
                rank_in(self@, key),
            ) by {
                assert(self.line@.contains(rank_in(self@, key)));
                assert(between(
                    rank_in(self@, key),
                    (low, 0u64, 0u64),
                    (high, u64::MAX, u64::MAX),
                ));
            }
        }
        match first {
            Some(rank) => {
                assert(all[0] == rank);
                Some(rank.0)
            },
            None => None,
        }
    }

    /// Appends the waiters of this skill whose number is at least `floor` to `out`, walking
    /// the line upward, until `out` holds `limit` waiters.
    fn collect_at(&self, skill: u32, floor: u64, limit: usize, out: &mut Vec<Waiter>)
        requires
            self.wf(),
            old(out)@.len() <= limit,
        ensures
            final(out)@.len() >= old(out)@.len(),
            final(out)@.take(old(out)@.len() as int) == old(out)@,
            is_run_up(
                since(self@, floor),
                skill,
                skill,
                limit - old(out)@.len(),
                final(out)@.skip(old(out)@.len() as int),
            ),
    {
        let ghost here = since(self@, floor);
        let mut range = range_of(&self.line, (skill, floor, 0u64), (skill, u64::MAX, u64::MAX));
        let ghost all = pending(range);
        let ghost base = out@;
        let ghost mut done: int = 0;
        assert(all.skip(0) =~= all);
        while out.len() < limit
            invariant
                self.wf(),
                here == since(self@, floor),
                forall|i: int|
                    0 <= i < all.len() ==> self.line@.contains(#[trigger] all[i]) && all[i].0
                        == skill && all[i].1 >= floor,
                0 <= done <= all.len(),
                pending(range) == all.skip(done),
                out@.len() == base.len() + done,
                out@.len() <= limit,
                forall|i: int| 0 <= i < base.len() ==> #[trigger] out@[i] == base[i],
                forall|i: int|
                    base.len() <= i < out@.len() ==> (#[trigger] out@[i]).rank() == all[i
                        - base.len()] && waits(here, out@[i]),
            ensures
                done == all.len() || out@.len() == limit,
            decreases all.len() - done,
        {
            match take_lowest(&mut range) {
                Some(rank) => {
                    assert(all.skip(done).first() == all[done]);
                    assert(all.skip(done).drop_first() =~= all.skip(done + 1));
                    out.push(self.waiter_at(rank));
                    proof {
                        done = done + 1;
                    }
                },
                None => {
                    break;
                },
            }
        }
        proof {
            let taken = out@.skip(base.len() as int);
            assert(out@.take(base.len() as int) =~= base);
            assert forall|i: int| 0 <= i < taken.len() implies (#[trigger] taken[i]).rank()
                == all[i] && waits(here, taken[i]) by {
                assert(taken[i] == out@[base.len() + i]);
            }
            assert forall|key: (u32, u64)| #[trigger]
                here.contains_key(key) && skill <= key.0 <= skill && !lists(taken, key) implies {
                &&& taken.len() == limit - base.len()
                &&& forall|i: int|
                    0 <= i < taken.len() ==> before(
                        (#[trigger] taken[i]).rank(),
                        rank_in(here, key),
                    )
            } by {
                let rank = rank_in(here, key);
                assert(self@.contains_key(key) && self@[key] == here[key]);
                assert(self.line@.contains(rank));
                assert(between(rank, (skill, floor, 0u64), (skill, u64::MAX, u64::MAX)));
                let j = choose|j: int| 0 <= j < all.len() && all[j] == rank;
                if j < done {
                    assert(taken[j].key() == key);
                }
            }
        }
    }

    /// Appends the waiters of skill `low` to `high` whose number is at least `floor` to `out`,
    /// walking the line upward, until `out` holds `limit` waiters.
    pub fn collect_up(
        &self,
        low: u32,
        high: u32,
        floor: u64,
        limit: usize,
        out: &mut Vec<Waiter>,
    )
        requires
            self.wf(),
            low <= high,
            old(out)@.len() <= limit,
        ensures
            final(out)@.len() >= old(out)@.len(),
            final(out)@.take(old(out)@.len() as int) == old(out)@,
            is_run_up(
                since(self@, floor),
                low,
                high,
                limit - old(out)@.len(),
                final(out)@.skip(old(out)@.len() as int),
            ),
    {
        let ghost here = since(self@, floor);
        let ghost base = out@;
        let ghost n: int = base.len() as int;
        let mut bottom: u32 = low;
        let mut more: bool = true;
        // every waiter below `edge` has been walked past
        let ghost mut edge: int = low as int;
        assert(out@.skip(n) =~= Seq::empty());
        assert(out@.take(n) =~= base);
        while more && out.len() < limit
            invariant
                self.wf(),
                here == since(self@, floor),
                n == base.len(),
                low <= bottom <= high,
                more ==> edge == bottom,
                !more ==> edge > high,
                low <= edge,
                n <= out@.len() <= limit,
                out@.take(n) == base,
                forall|i: int|
                    n <= i < out@.len() ==> is_waiter(here, low, high, #[trigger] out@[i])
                        && out@[i].skill < edge,
                forall|i: int, j: int|
                    n <= i < j < out@.len() ==> before(
                        (#[trigger] out@[i]).rank(),
                        (#[trigger] out@[j]).rank(),
                    ),
                forall|key: (u32, u64)| #[trigger]
                    here.contains_key(key) && low <= key.0 < edge && key.0 <= high && !lists(
                        out@.skip(n),
                        key,
                    ) ==> {
                        &&& out@.len() == limit
                        &&& forall|i: int|
                            n <= i < out@.len() ==> before(
                                (#[trigger] out@[i]).rank(),
                                rank_in(here, key),
                            )
                    },
            decreases
                    if more {
                        1 + high - bottom
                    } else {
                        0
                    },
        {
            let ghost prev = out@;
            match self.lowest_skill(bottom, high) {
                None => {
                    more = false;
                    proof {
                        edge = high + 1;
                    }
                },
                Some(skill) => {
                    self.collect_at(skill, floor, limit, out);
                    proof {
                        let m: int = prev.len() as int;
                        let taken = out@.skip(m);
                        assert forall|i: int| 0 <= i < m implies #[trigger] out@[i] == prev[i] by {
                            assert(out@[i] == out@.take(m)[i]);
                        }
                        assert forall|i: int| m <= i < out@.len() implies is_waiter(
                            here,
                            skill,
                            skill,
                            #[trigger] out@[i],
                        ) by {
                            assert(out@[i] == taken[i - m]);
                        }
                        assert(out@.take(n) =~= prev.take(n));
                        assert forall|i: int, j: int| n <= i < j < out@.len() implies before(
                            (#[trigger] out@[i]).rank(),
                            (#[trigger] out@[j]).rank(),
                        ) by {
                            if i >= m {
                                assert(out@[i] == taken[i - m] && out@[j] == taken[j - m]);
                            } else if j < m {
                                assert(before(prev[i].rank(), prev[j].rank()));
                            }
                        }
                        assert forall|key: (u32, u64)| #[trigger]
                            here.contains_key(key) && low <= key.0 <= skill && key.0 <= high
                                && !lists(out@.skip(n), key) implies {
                            &&& out@.len() == limit
                            &&& forall|i: int|
                                n <= i < out@.len() ==> before(
                                    (#[trigger] out@[i]).rank(),
                                    rank_in(here, key),
                                )
                        } by {
                            if lists(prev.skip(n), key) {
                                let x = choose|x: int|
                                    0 <= x < prev.skip(n).len() && (#[trigger] prev.skip(
                                        n,
                                    )[x]).key() == key;
                                assert(out@.skip(n)[x] == prev.skip(n)[x]);
                            }
                            if lists(taken, key) {
                                let x = choose|x: int|
                                    0 <= x < taken.len() && (#[trigger] taken[x]).key() == key;
                                assert(out@.skip(n)[x + m - n] == taken[x]);
                            }
                            if key.0 == skill {
                                assert forall|i: int| n <= i < out@.len() implies before(
                                    (#[trigger] out@[i]).rank(),
                                    rank_in(here, key),
                                ) by {
                                    if i >= m {
                                        assert(out@[i] == taken[i - m]);
                                    }
                                }
                            }
                        }
                    }
                    if skill == high {
                        more = false;
                    } else {
                        bottom = skill + 1;
                    }
                    proof {
                        edge = skill + 1;
                    }
                },
            }
        }
        proof {
            let taken = out@.skip(n);
            assert forall|i: int| 0 <= i < taken.len() implies #[trigger] taken[i] == out@[n
                + i] by {}
            assert forall|key: (u32, u64)| #[trigger]
                here.contains_key(key) && low <= key.0 <= high && !lists(taken, key) implies {
                &&& taken.len() == limit - base.len()
                &&& forall|i: int|
                    0 <= i < taken.len() ==> before(
                        (#[trigger] taken[i]).rank(),
                        rank_in(here, key),
                    )
            } by {
                assert forall|i: int| 0 <= i < taken.len() implies before(
                    (#[trigger] taken[i]).rank(),
                    rank_in(here, key),
                ) by {
                    assert(taken[i] == out@[n + i]);
                }
            }
        }
    }

    /// Appends the waiters of skill `low` to `high` whose number is at least `floor` to `out`,
    /// walking the line downward, until `out` holds `limit` waiters.
    pub fn collect_down(
        &self,
        low: u32,
        high: u32,
        floor: u64,
        limit: usize,
        out: &mut Vec<Waiter>,
    )
        requires
            self.wf(),
            low <= high,
            old(out)@.len() <= limit,
        ensures
            final(out)@.len() >= old(out)@.len(),
            final(out)@.take(old(out)@.len() as int) == old(out)@,
            is_run_down(
                since(self@, floor),
                low,
                high,
                limit - old(out)@.len(),
                final(out)@.skip(old(out)@.len() as int),
            ),
    {
        let ghost here = since(self@, floor);
        let ghost base = out@;
        let ghost n: int = base.len() as int;
        let mut top: u32 = high;
        let mut more: bool = true;
        // every waiter above `edge` has been walked past
        let ghost mut edge: int = high as int;
        assert(out@.skip(n) =~= Seq::empty());
        assert(out@.take(n) =~= base);
        while more && out.len() < limit
            invariant
                self.wf(),
                here == since(self@, floor),
                n == base.len(),
                low <= top <= high,
                more ==> edge == top,
                !more ==> edge < low,
                edge <= high,
                n <= out@.len() <= limit,
                out@.take(n) == base,
                forall|i: int|
                    n <= i < out@.len() ==> is_waiter(here, low, high, #[trigger] out@[i])
                        && out@[i].skill > edge,
                forall|i: int, j: int|
                    n <= i < j < out@.len() ==> above(
                        (#[trigger] out@[i]).rank(),
                        (#[trigger] out@[j]).rank(),
                    ),
                forall|key: (u32, u64)| #[trigger]
                    here.contains_key(key) && edge < key.0 <= high && low <= key.0 && !lists(
                        out@.skip(n),
                        key,
                    ) ==> {
                        &&& out@.len() == limit
                        &&& forall|i: int|
                            n <= i < out@.len() ==> above(
                                (#[trigger] out@[i]).rank(),
                                rank_in(here, key),
                            )
                    },
            decreases
                    if more {
                        1 + top - low
                    } else {
                        0
                    },
        {
            let ghost prev = out@;
            match self.highest_skill(low, top) {
                None => {
                    more = false;
                    proof {
                        edge = low - 1;
                    }
                },
                Some(skill) => {
                    self.collect_at(skill, floor, limit, out);
                    proof {
                        let m: int = prev.len() as int;
                        let taken = out@.skip(m);
                        assert forall|i: int| 0 <= i < m implies #[trigger] out@[i] == prev[i] by {
                            assert(out@[i] == out@.take(m)[i]);
                        }
                        assert forall|i: int| m <= i < out@.len() implies is_waiter(
                            here,
                            skill,
                            skill,
                            #[trigger] out@[i],
                        ) by {
                            assert(out@[i] == taken[i - m]);
                        }
                        assert(out@.take(n) =~= prev.take(n));
                        assert forall|i: int, j: int| n <= i < j < out@.len() implies above(
                            (#[trigger] out@[i]).rank(),
                            (#[trigger] out@[j]).rank(),
                        ) by {
                            if i >= m {
                                assert(out@[i] == taken[i - m] && out@[j] == taken[j - m]);
                            } else if j < m {
                                assert(above(prev[i].rank(), prev[j].rank()));
                            }
                        }
                        assert forall|key: (u32, u64)| #[trigger]
                            here.contains_key(key) && skill <= key.0 <= high && low <= key.0
                                && !lists(out@.skip(n), key) implies {
                            &&& out@.len() == limit
                            &&& forall|i: int|
                                n <= i < out@.len() ==> above(
                                    (#[trigger] out@[i]).rank(),
                                    rank_in(here, key),
                                )
                        } by {
                            if lists(prev.skip(n), key) {
                                let x = choose|x: int|
                                    0 <= x < prev.skip(n).len() && (#[trigger] prev.skip(
                                        n,
                                    )[x]).key() == key;
                                assert(out@.skip(n)[x] == prev.skip(n)[x]);
                            }
                            if lists(taken, key) {
                                let x = choose|x: int|
                                    0 <= x < taken.len() && (#[trigger] taken[x]).key() == key;
                                assert(out@.skip(n)[x + m - n] == taken[x]);
                            }
                            if key.0 == skill {
                                assert forall|i: int| n <= i < out@.len() implies above(
                                    (#[trigger] out@[i]).rank(),
                                    rank_in(here, key),
                                ) by {
                                    if i >= m {
                                        assert(out@[i] == taken[i - m]);
                                    }
                                }
                            }
                        }
                    }
                    if skill == low {
                        more = false;
                    } else {
                        top = skill - 1;
                    }
                    proof {
                        edge = skill - 1;
                    }
                },
            }
        }
        proof {
            let taken = out@.skip(n);
            assert forall|i: int| 0 <= i < taken.len() implies #[trigger] taken[i] == out@[n
                + i] by {}
            assert forall|key: (u32, u64)| #[trigger]
                here.contains_key(key) && low <= key.0 <= high && !lists(taken, key) implies {
                &&& taken.len() == limit - base.len()
                &&& forall|i: int|
                    0 <= i < taken.len() ==> above(
                        (#[trigger] taken[i]).rank(),
                        rank_in(here, key),
                    )
            } by {
                assert forall|i: int| 0 <= i < taken.len() implies above(
                    (#[trigger] taken[i]).rank(),
                    rank_in(here, key),
                ) by {
                    assert(taken[i] == out@[n + i]);
                }
            }
        }
    }
}

/// Those who came late enough are some of those who wait.
pub proof fn lemma_since_is_part(waiting: Map<(u32, u64), Ticket>, floor: u64)
    ensures
        waiting.dom().finite() ==> since(waiting, floor).dom().finite(),
        since(waiting, floor).submap_of(waiting),
        since(waiting, 0) == waiting,
        forall|key: (u32, u64)| #[trigger]
            since(waiting, floor).contains_key(key) <==> waiting.contains_key(key)
                && waiting[key].arrival >= floor,
{
    assert(since(waiting, 0) =~= waiting);
    if waiting.dom().finite() {
        assert(since(waiting, floor).dom().subset_of(waiting.dom()));
        vstd::set_lib::lemma_len_subset(since(waiting, floor).dom(), waiting.dom());
    }
}

} // verus!
