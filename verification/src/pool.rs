//! The waiting pool: a contiguous run of the shards of a skill axis.
//!
//! A match attempt takes one waiter as its seed. It gathers up to a match's worth of waiters on
//! each side of the seed within its band, nearest first and, at the same distance, who came
//! first, and keeps those that are closest in skill. Where the oldest of them does not accept
//! them all, it gathers once more among those who came no earlier than the seed. Whoever is
//! accepted is taken out of the pool.
use crate::acceptance;
use crate::arrivals::{Ticket, Waiter};
use crate::axis;
use crate::axis::{Axis, Reach};
use crate::lobby;
use crate::nearest;
use crate::shard;
use crate::shard::Shard;
use vstd::prelude::*;

verus! {

/// `player` is one of the first `n` of `run`.
spec fn is_among(run: Seq<Waiter>, n: int, player: Waiter) -> bool {
    exists|y: int| 0 <= y < n && #[trigger] run[y] == player
}

/// Shard number `index` holds no waiter.
pub open spec fn is_empty_shard(
    waiting: Map<(u32, u64), Ticket>,
    axis: Axis,
    index: int,
) -> bool {
    forall|key: (u32, u64)| #[trigger] waiting.contains_key(key) ==> axis.shard(key.0) != index
}

/// `waiter` stands in line in shard number `index`.
pub open spec fn stands_in(
    waiting: Map<(u32, u64), Ticket>,
    axis: Axis,
    index: int,
    waiter: Waiter,
) -> bool {
    shard::waits(waiting, waiter) && axis.shard(waiter.skill) == index
}

/// `seed` is the next seed of shard number `index`, whose place in line is `place`: nobody in
/// the shard has their turn sooner.
pub open spec fn is_seed(
    waiting: Map<(u32, u64), Ticket>,
    axis: Axis,
    index: int,
    place: Option<(u32, u64, u64)>,
    seed: Waiter,
) -> bool {
    &&& stands_in(waiting, axis, index, seed)
    &&& forall|other: Waiter| #[trigger]
        stands_in(waiting, axis, index, other) ==> !shard::sooner(
            place,
            other.rank(),
            seed.rank(),
        )
}

/// A contiguous run of the shards of an axis.
pub struct Pool {
    axis: Axis,
    first: usize,
    shards: Vec<Shard>,
}

/// Every entry of `shards` is in the shard of its skill, the first of `shards`
/// being number `first` of the axis.
pub open spec fn is_placed(axis: Axis, first: int, shards: Seq<Shard>) -> bool {
    forall|s: int, key: (u32, u64)|
        #![trigger shards[s]@.contains_key(key)]
        0 <= s < shards.len() && shards[s]@.contains_key(key) ==> {
            &&& key.0 <= axis.top_skill()
            &&& axis.shard(key.0) == first + s
        }
}

/// The waiters of a run of shards.
pub open spec fn waiters(axis: Axis, first: int, shards: Seq<Shard>) -> Map<(u32, u64), Ticket> {
    Map::new(
        |key: (u32, u64)|
            {
                let s = axis.shard(key.0) - first;
                0 <= s < shards.len() && shards[s]@.contains_key(key)
            },
        |key: (u32, u64)| shards[axis.shard(key.0) - first]@[key],
    )
}

/// The keys of the first `n` of `shards`.
spec fn keys_upto(shards: Seq<Shard>, n: nat) -> Set<(u32, u64)>
    decreases n,
{
    if n == 0 {
        Set::empty()
    } else {
        keys_upto(shards, (n - 1) as nat).union(shards[n - 1]@.dom())
    }
}

proof fn lemma_keys_upto(shards: Seq<Shard>, n: nat)
    requires
        n <= shards.len(),
    ensures
        keys_upto(shards, n).finite(),
        forall|s: int, key: (u32, u64)|
            #![trigger shards[s]@.contains_key(key)]
            0 <= s < n && shards[s]@.contains_key(key) ==> keys_upto(shards, n).contains(key),
    decreases n,
{
    if n > 0 {
        lemma_keys_upto(shards, (n - 1) as nat);
        shard::lemma_finite(shards[n - 1]);
    }
}

/// A run of shards holds finitely many waiters.
proof fn lemma_waiters_finite(axis: Axis, first: int, shards: Seq<Shard>)
    ensures
        waiters(axis, first, shards).dom().finite(),
{
    lemma_keys_upto(shards, shards.len());
    assert(waiters(axis, first, shards).dom().subset_of(keys_upto(shards, shards.len())));
    vstd::set_lib::lemma_len_subset(
        waiters(axis, first, shards).dom(),
        keys_upto(shards, shards.len()),
    );
}

impl View for Pool {
    type V = Map<(u32, u64), Ticket>;

    closed spec fn view(&self) -> Map<(u32, u64), Ticket> {
        waiters(self.axis, self.first as int, self.shards@)
    }
}

impl Pool {
    pub closed spec fn wf(self) -> bool {
        &&& self.axis.wf()
        &&& self.first + self.shards@.len() <= self.axis.shards()
        &&& is_placed(self.axis, self.first as int, self.shards@)
        &&& forall|s: int| 0 <= s < self.shards@.len() ==> (#[trigger] self.shards@[s]).wf()
    }

    /// The axis that the shards belong to.
    pub closed spec fn axis_spec(self) -> Axis {
        self.axis
    }

    /// The number of the first shard of the pool.
    pub closed spec fn start(self) -> int {
        self.first as int
    }

    /// The places in line of the shards of the pool.
    pub closed spec fn places(self) -> Seq<Option<(u32, u64, u64)>> {
        Seq::new(self.shards@.len(), |s: int| self.shards@[s].place())
    }

    /// The number of shards of the pool.
    pub closed spec fn count(self) -> int {
        self.shards@.len() as int
    }

    /// The pool holds the shards from number `low` to number `high`.
    pub open spec fn spans(self, low: int, high: int) -> bool {
        self.start() <= low && high < self.start() + self.count()
    }

    /// The waiters between `reach.low_skill` and `seed_skill` whose number is at least
    /// `floor`, walking the line downward, up to `limit` of them.
    fn gather_down(
        &self,
        reach: Reach,
        seed_skill: u32,
        floor: u64,
        limit: usize,
    ) -> (below: Vec<Waiter>)
        requires
            self.wf(),
            self.spans(reach.low as int, reach.seed as int),
            reach.low_skill <= seed_skill,
            reach.low == self.axis_spec().shard(reach.low_skill),
            reach.seed == self.axis_spec().shard(seed_skill),
        ensures
            shard::is_run_down(
                shard::since(self@, floor),
                reach.low_skill,
                seed_skill,
                limit as int,
                below@,
            ),
    {
        let mut below: Vec<Waiter> = Vec::new();
        let mut top: usize = reach.seed + 1;
        let ghost low = reach.low_skill;
        let ghost axis = self.axis;
        let ghost everyone = shard::since(self@, floor);
        proof {
            axis::law_shards_follow_skill(axis, low, seed_skill);
            assert forall|key: (u32, u64)| everyone.contains_key(key) && low <= key.0
                <= seed_skill implies reach.low <= #[trigger] axis.shard(key.0) <= reach.seed by {
                axis::law_shards_follow_skill(axis, low, key.0);
                axis::law_shards_follow_skill(axis, key.0, seed_skill);
            }
        }
        while top > reach.low && below.len() < limit
            invariant
                self.wf(),
                axis == self.axis,
                everyone == shard::since(self@, floor),
                low == reach.low_skill,
                low <= seed_skill,
                self.spans(reach.low as int, reach.seed as int),
                reach.low <= top <= reach.seed + 1,
                below@.len() <= limit,
                forall|i: int|
                    0 <= i < below@.len() ==> {
                        &&& shard::is_waiter(everyone, low, seed_skill, #[trigger] below@[i])
                        &&& axis.shard(below@[i].skill) >= top
                    },
                forall|i: int, j: int|
                    0 <= i < j < below@.len() ==> shard::above(
                        (#[trigger] below@[i]).rank(),
                        (#[trigger] below@[j]).rank(),
                    ),
                forall|key: (u32, u64)| #[trigger]
                    everyone.contains_key(key) && low <= key.0 <= seed_skill && !shard::lists(
                        below@,
                        key,
                    ) ==> axis.shard(key.0) < top || below@.len() == limit && forall|i: int|
                        0 <= i < below@.len() ==> shard::above(
                            (#[trigger] below@[i]).rank(),
                            shard::rank_in(everyone, key),
                        ),
            decreases top,
        {
            top = top - 1;
            let ghost base = below@;
            let ghost s: int = top - self.first;
            self.shards[top - self.first].collect_down(
                reach.low_skill,
                seed_skill,
                floor,
                limit,
                &mut below,
            );
            proof {
                let here = shard::since(self.shards@[s]@, floor);
                let n: int = base.len() as int;
                let taken = below@.skip(n);
                assert forall|i: int| n <= i < below@.len() implies {
                    &&& shard::is_waiter(everyone, low, seed_skill, #[trigger] below@[i])
                    &&& axis.shard(below@[i].skill) == top
                } by {
                    assert(below@[i] == taken[i - n]);
                    assert(here.contains_key(below@[i].key()));
                }
                assert forall|i: int| 0 <= i < n implies #[trigger] below@[i] == base[i] by {
                    assert(below@[i] == below@.take(n)[i]);
                }
                assert forall|i: int, j: int| 0 <= i < j < below@.len() implies shard::above(
                        (#[trigger] below@[i]).rank(),
                        (#[trigger] below@[j]).rank(),
                    ) by {
                    if i >= n {
                        assert(below@[i] == taken[i - n] && below@[j] == taken[j - n]);
                    } else if j >= n {
                        if below@[j].skill >= below@[i].skill {
                            axis::law_shards_follow_skill(axis, below@[i].skill, below@[j].skill);
                        }
                    } else {
                        assert(below@[i] == base[i] && below@[j] == base[j]);
                    }
                }
                assert forall|key: (u32, u64)| #[trigger]
                    everyone.contains_key(key) && low <= key.0 <= seed_skill && !shard::lists(
                        below@,
                        key,
                    ) implies axis.shard(key.0) < top || below@.len() == limit && forall|i: int|
                    0 <= i < below@.len() ==> shard::above(
                            (#[trigger] below@[i]).rank(),
                            shard::rank_in(everyone, key),
                        ) by {
                    if shard::lists(base, key) {
                        let i = choose|i: int| 0 <= i < n && (#[trigger] base[i]).key() == key;
                        assert(below@[i].key() == key);
                    }
                    if axis.shard(key.0) == top {
                        assert(here.contains_key(key));
                        if shard::lists(taken, key) {
                            let i = choose|i: int|
                                0 <= i < taken.len() && (#[trigger] taken[i]).key() == key;
                            assert(below@[i + n].key() == key);
                        }
                        assert forall|i: int| 0 <= i < below@.len() implies shard::above(
                            (#[trigger] below@[i]).rank(),
                            shard::rank_in(everyone, key),
                        ) by {
                            if i >= n {
                                assert(below@[i] == taken[i - n]);
                            } else if key.0 >= below@[i].skill {
                                axis::law_shards_follow_skill(axis, below@[i].skill, key.0);
                            }
                        }
                    }
                }
            }
        }
        proof {
            assert forall|key: (u32, u64)| #[trigger]
                everyone.contains_key(key) && low <= key.0 <= seed_skill && !shard::lists(
                    below@,
                    key,
                ) implies {
                &&& below@.len() == limit
                &&& forall|i: int|
                    0 <= i < below@.len() ==> shard::above(
                            (#[trigger] below@[i]).rank(),
                            shard::rank_in(everyone, key),
                        )
            } by {
                axis::law_shards_follow_skill(axis, low, key.0);
                if axis.shard(key.0) < top {
                    assert forall|i: int| 0 <= i < below@.len() implies shard::above(
                            (#[trigger] below@[i]).rank(),
                            shard::rank_in(everyone, key),
                        ) by {
                        if key.0 >= below@[i].skill {
                            axis::law_shards_follow_skill(axis, below@[i].skill, key.0);
                        }
                    }
                }
            }
        }
        below
    }

    /// The waiters above `seed_skill` up to `reach.high_skill` whose number is at least
    /// `floor`, walking the line upward, up to `limit` of them.
    fn gather_up(
        &self,
        reach: Reach,
        seed_skill: u32,
        floor: u64,
        limit: usize,
    ) -> (above: Vec<Waiter>)
        requires
            self.wf(),
            self.spans(reach.seed as int, reach.high as int),
            seed_skill < reach.high_skill,
            reach.seed == self.axis_spec().shard(seed_skill),
            reach.high == self.axis_spec().shard(reach.high_skill),
        ensures
            shard::is_run_up(
                shard::since(self@, floor),
                (seed_skill + 1) as u32,
                reach.high_skill,
                limit as int,
                above@,
            ),
    {
        let mut above: Vec<Waiter> = Vec::new();
        let mut next: usize = reach.seed;
        let low: u32 = seed_skill + 1;
        let ghost high = reach.high_skill;
        let ghost axis = self.axis;
        let ghost everyone = shard::since(self@, floor);
        proof {
            axis::law_shards_follow_skill(axis, seed_skill, high);
            assert forall|key: (u32, u64)| everyone.contains_key(key) && low <= key.0
                <= high implies reach.seed <= #[trigger] axis.shard(key.0) <= reach.high by {
                axis::law_shards_follow_skill(axis, seed_skill, key.0);
                axis::law_shards_follow_skill(axis, key.0, high);
            }
        }
        while next <= reach.high && above.len() < limit
            invariant
                self.wf(),
                axis == self.axis,
                everyone == shard::since(self@, floor),
                high == reach.high_skill,
                low <= high,
                self.spans(reach.seed as int, reach.high as int),
                reach.seed <= next <= reach.high + 1,
                above@.len() <= limit,
                forall|i: int|
                    0 <= i < above@.len() ==> {
                        &&& shard::is_waiter(everyone, low, high, #[trigger] above@[i])
                        &&& axis.shard(above@[i].skill) < next
                    },
                forall|i: int, j: int|
                    0 <= i < j < above@.len() ==> shard::before(
                        (#[trigger] above@[i]).rank(),
                        (#[trigger] above@[j]).rank(),
                    ),
                forall|key: (u32, u64)| #[trigger]
                    everyone.contains_key(key) && low <= key.0 <= high && !shard::lists(above@, key)
                        ==> axis.shard(key.0) >= next || above@.len() == limit && forall|i: int|
                        0 <= i < above@.len() ==> shard::before(
                            (#[trigger] above@[i]).rank(),
                            shard::rank_in(everyone, key),
                        ),
            decreases reach.high + 1 - next,
        {
            let ghost base = above@;
            let ghost s: int = next - self.first;
            self.shards[next - self.first].collect_up(
                low,
                reach.high_skill,
                floor,
                limit,
                &mut above,
            );
            proof {
                let here = shard::since(self.shards@[s]@, floor);
                let n: int = base.len() as int;
                let taken = above@.skip(n);
                assert forall|i: int| n <= i < above@.len() implies {
                    &&& shard::is_waiter(everyone, low, high, #[trigger] above@[i])
                    &&& axis.shard(above@[i].skill) == next
                } by {
                    assert(above@[i] == taken[i - n]);
                    assert(here.contains_key(above@[i].key()));
                }
                assert forall|i: int| 0 <= i < n implies #[trigger] above@[i] == base[i] by {
                    assert(above@[i] == above@.take(n)[i]);
                }
                assert forall|i: int, j: int| 0 <= i < j < above@.len() implies shard::before(
                        (#[trigger] above@[i]).rank(),
                        (#[trigger] above@[j]).rank(),
                    ) by {
                    if i >= n {
                        assert(above@[i] == taken[i - n] && above@[j] == taken[j - n]);
                    } else if j >= n {
                        if above@[j].skill <= above@[i].skill {
                            axis::law_shards_follow_skill(axis, above@[j].skill, above@[i].skill);
                        }
                    } else {
                        assert(above@[i] == base[i] && above@[j] == base[j]);
                    }
                }
                assert forall|key: (u32, u64)| #[trigger]
                    everyone.contains_key(key) && low <= key.0 <= high && !shard::lists(
                        above@,
                        key,
                    ) implies axis.shard(key.0) > next || above@.len() == limit && forall|i: int|
                    0 <= i < above@.len() ==> shard::before(
                            (#[trigger] above@[i]).rank(),
                            shard::rank_in(everyone, key),
                        ) by {
                    if shard::lists(base, key) {
                        let i = choose|i: int| 0 <= i < n && (#[trigger] base[i]).key() == key;
                        assert(above@[i].key() == key);
                    }
                    if axis.shard(key.0) == next {
                        assert(here.contains_key(key));
                        if shard::lists(taken, key) {
                            let i = choose|i: int|
                                0 <= i < taken.len() && (#[trigger] taken[i]).key() == key;
                            assert(above@[i + n].key() == key);
                        }
                        assert forall|i: int| 0 <= i < above@.len() implies shard::before(
                            (#[trigger] above@[i]).rank(),
                            shard::rank_in(everyone, key),
                        ) by {
                            if i >= n {
                                assert(above@[i] == taken[i - n]);
                            } else if key.0 <= above@[i].skill {
                                axis::law_shards_follow_skill(axis, key.0, above@[i].skill);
                            }
                        }
                    }
                }
            }
            next = next + 1;
        }
        proof {
            assert forall|key: (u32, u64)| #[trigger]
                everyone.contains_key(key) && low <= key.0 <= high && !shard::lists(
                    above@,
                    key,
                ) implies {
                &&& above@.len() == limit
                &&& forall|i: int|
                    0 <= i < above@.len() ==> shard::before(
                            (#[trigger] above@[i]).rank(),
                            shard::rank_in(everyone, key),
                        )
            } by {
                axis::law_shards_follow_skill(axis, key.0, high);
                if axis.shard(key.0) >= next {
                    assert forall|i: int| 0 <= i < above@.len() implies shard::before(
                            (#[trigger] above@[i]).rank(),
                            shard::rank_in(everyone, key),
                        ) by {
                        if key.0 <= above@[i].skill {
                            axis::law_shards_follow_skill(axis, key.0, above@[i].skill);
                        }
                    }
                }
            }
        }
        above
    }

    /// Merges what was gathered on the two sides of the seed into the `size` waiters
    /// nearest to it.
    fn keep_nearest(
        &self,
        reach: Reach,
        seed_skill: u32,
        floor: u64,
        size: usize,
        below: &Vec<Waiter>,
        above: &Vec<Waiter>,
    ) -> (group: Vec<Waiter>)
        requires
            shard::is_run_down(
                shard::since(self@, floor),
                reach.low_skill,
                seed_skill,
                size as int,
                below@,
            ),
            seed_skill < reach.high_skill ==> shard::is_run_up(
                shard::since(self@, floor),
                (seed_skill + 1) as u32,
                reach.high_skill,
                size as int,
                above@,
            ),
            seed_skill == reach.high_skill ==> above@.len() == 0,
            reach.low_skill <= seed_skill <= reach.high_skill,
            below@.len() + above@.len() >= size,
        ensures
            group@.len() == size,
            nearest::is_nearest_run(
                shard::since(self@, floor),
                seed_skill,
                reach.low_skill,
                reach.high_skill,
                group@,
            ),
    {
        let mut group: Vec<Waiter> = Vec::new();
        let mut i: usize = 0;
        let mut j: usize = 0;
        let ghost everyone = shard::since(self@, floor);
        let ghost low = reach.low_skill;
        let ghost high = reach.high_skill;
        proof {
            assert forall|x: int, y: int| 0 <= x < y < below@.len() implies nearest::nearer(
                seed_skill,
                (#[trigger] below@[x]).rank(),
                (#[trigger] below@[y]).rank(),
            ) by {
                assert(shard::above(below@[x].rank(), below@[y].rank()));
            }
            assert forall|x: int, y: int| 0 <= x < y < above@.len() implies nearest::nearer(
                seed_skill,
                (#[trigger] above@[x]).rank(),
                (#[trigger] above@[y]).rank(),
            ) by {
                assert(shard::before(above@[x].rank(), above@[y].rank()));
            }
        }
        while group.len() < size
            invariant
                group@.len() == i + j,
                group@.len() <= size,
                0 <= i <= below@.len(),
                0 <= j <= above@.len(),
                low <= seed_skill <= high,
                below@.len() + above@.len() >= size,
                forall|x: int|
                    0 <= x < below@.len() ==> shard::is_waiter(
                        everyone,
                        low,
                        seed_skill,
                        #[trigger] below@[x],
                    ),
                forall|x: int|
                    0 <= x < above@.len() ==> seed_skill < (#[trigger] above@[x]).skill
                        && shard::is_waiter(everyone, low, high, above@[x]),
                forall|x: int, y: int|
                    0 <= x < y < below@.len() ==> nearest::nearer(
                        seed_skill,
                        (#[trigger] below@[x]).rank(),
                        (#[trigger] below@[y]).rank(),
                    ),
                forall|x: int, y: int|
                    0 <= x < y < above@.len() ==> nearest::nearer(
                        seed_skill,
                        (#[trigger] above@[x]).rank(),
                        (#[trigger] above@[y]).rank(),
                    ),
                forall|x: int|
                    0 <= x < group@.len() ==> shard::is_waiter(
                        everyone,
                        low,
                        high,
                        #[trigger] group@[x],
                    ),
                forall|x: int, y: int|
                    0 <= x < y < group@.len() ==> nearest::nearer(
                        seed_skill,
                        (#[trigger] group@[x]).rank(),
                        (#[trigger] group@[y]).rank(),
                    ),
                forall|x: int, y: int|
                    0 <= x < group@.len() && i <= y < below@.len() ==> nearest::nearer(
                        seed_skill,
                        (#[trigger] group@[x]).rank(),
                        (#[trigger] below@[y]).rank(),
                    ),
                forall|x: int, y: int|
                    0 <= x < group@.len() && j <= y < above@.len() ==> nearest::nearer(
                        seed_skill,
                        (#[trigger] group@[x]).rank(),
                        (#[trigger] above@[y]).rank(),
                    ),
                forall|x: int|
                    0 <= x < group@.len() ==> is_among(below@, i as int, #[trigger] group@[x])
                        || is_among(above@, j as int, group@[x]),
                forall|x: int|
                    0 <= x < i ==> shard::lists(group@, (#[trigger] below@[x]).key()),
                forall|x: int|
                    0 <= x < j ==> shard::lists(group@, (#[trigger] above@[x]).key()),
            decreases size - group@.len(),
        {
            let ghost before = group@;
            let from_below: bool = if i == below.len() {
                false
            } else if j == above.len() {
                true
            } else {
                let down: u32 = seed_skill - below[i].skill;
                let up: u32 = above[j].skill - seed_skill;
                down < up || down == up && below[i].ticket.arrival <= above[j].ticket.arrival
            };
            let pick: Waiter = if from_below {
                below[i]
            } else {
                above[j]
            };
            group.push(pick);
            if from_below {
                i = i + 1;
            } else {
                j = j + 1;
            }
            proof {
                assert(forall|x: int| 0 <= x < before.len() ==> #[trigger] group@[x] == before[x]);
                assert(group@[before.len() as int] == pick);
                assert forall|key: (u32, u64)| shard::lists(before, key) implies shard::lists(
                    group@,
                    key,
                ) by {
                    let x = choose|x: int|
                        0 <= x < before.len() && (#[trigger] before[x]).key() == key;
                    assert(group@[x].key() == key);
                }
                assert(shard::lists(group@, pick.key()));
                if from_below {
                    assert(below@[i - 1] == pick);
                } else {
                    assert(above@[j - 1] == pick);
                }
                assert forall|x: int| 0 <= x < group@.len() implies is_among(
                    below@,
                    i as int,
                    #[trigger] group@[x],
                ) || is_among(above@, j as int, group@[x]) by {
                    if x < before.len() {
                        assert(group@[x] == before[x]);
                    }
                }
            }
        }
        proof {
            assert forall|key: (u32, u64), x: int|
                #![trigger everyone.contains_key(key), group@[x]]
                everyone.contains_key(key) && low <= key.0 <= high && !shard::lists(group@, key)
                    && 0 <= x < group@.len() implies nearest::nearer(
                seed_skill,
                group@[x].rank(),
                shard::rank_in(everyone, key),
            ) by {
                let rank = shard::rank_in(everyone, key);
                let run = if key.0 <= seed_skill {
                    below@
                } else {
                    above@
                };
                let k: int = if key.0 <= seed_skill {
                    i as int
                } else {
                    j as int
                };
                if shard::lists(run, key) {
                    let y = choose|y: int| 0 <= y < run.len() && (#[trigger] run[y]).key() == key;
                    assert(y >= k);
                } else {
                    assert(run.len() == size);
                    assert forall|y: int| 0 <= y < run.len() implies nearest::nearer(
                        seed_skill,
                        (#[trigger] run[y]).rank(),
                        rank,
                    ) by {}
                    if k < run.len() {
                        nearest::law_nearer_is_a_strict_order(
                            seed_skill,
                            group@[x].rank(),
                            run[k].rank(),
                            rank,
                        );
                    } else {
                        // the whole group came from this run
                        assert(is_among(run, k, group@[x]));
                    }
                }
            }
        }
        group
    }

    /// The `size` waiters nearest to the seed within its band whose number is at least
    /// `floor`, in the order in which they are listed; `None` where the band holds fewer.
    pub fn choose_group(
        &self,
        seed_skill: u32,
        band: u32,
        floor: u64,
        size: usize,
    ) -> (group: Option<Vec<Waiter>>)
        requires
            self.wf(),
            seed_skill <= self.axis_spec().top_skill(),
            self.spans_band(seed_skill, band),
        ensures
            group is Some <==> nearest::in_range(
                shard::since(self@, floor),
                axis::low_end(seed_skill, band),
                axis::high_end(seed_skill, band, self.axis_spec().top_skill()),
            ).len() >= size,
            group matches Some(g) ==> g@.len() == size && nearest::is_nearest_group(
                shard::since(self@, floor),
                seed_skill,
                axis::low_end(seed_skill, band),
                axis::high_end(seed_skill, band, self.axis_spec().top_skill()),
                g@,
            ),
    {
        let reach: Reach = self.axis.reach(seed_skill, band);
        let below: Vec<Waiter> = self.gather_down(reach, seed_skill, floor, size);
        let above: Vec<Waiter> = if seed_skill < reach.high_skill {
            self.gather_up(reach, seed_skill, floor, size)
        } else {
            Vec::new()
        };
        let ghost everyone = shard::since(self@, floor);
        let ghost low = reach.low_skill;
        let ghost high = reach.high_skill;
        proof {
            lemma_waiters_finite(self.axis, self.first as int, self.shards@);
            shard::lemma_since_is_part(self@, floor);
            let both = below@ + above@;
            assert forall|i: int| 0 <= i < both.len() implies shard::is_waiter(
                everyone,
                low,
                high,
                #[trigger] both[i],
            ) by {
                if i < below@.len() {
                    assert(both[i] == below@[i]);
                } else {
                    assert(both[i] == above@[i - below@.len()]);
                }
            }
            assert forall|i: int, j: int| 0 <= i < j < both.len() implies (
            #[trigger] both[i]).key() != (#[trigger] both[j]).key() by {
                if j < below@.len() {
                    assert(shard::above(below@[i].rank(), below@[j].rank()));
                } else if i >= below@.len() {
                    assert(shard::before(
                        above@[i - below@.len()].rank(),
                        above@[j - below@.len()].rank(),
                    ));
                } else {
                    assert(below@[i].skill <= seed_skill);
                    assert(above@[j - below@.len()].skill > seed_skill);
                }
            }
            nearest::lemma_count(everyone, low, high, both);
            if below@.len() < size && above@.len() < size {
                assert forall|key: (u32, u64)| #[trigger]
                    everyone.contains_key(key) && low <= key.0 <= high implies shard::lists(
                    both,
                    key,
                ) by {
                    if key.0 <= seed_skill {
                        assert(shard::lists(below@, key));
                        let i = choose|i: int|
                            0 <= i < below@.len() && (#[trigger] below@[i]).key() == key;
                        assert(both[i].key() == key);
                    } else {
                        assert(shard::lists(above@, key));
                        let i = choose|i: int|
                            0 <= i < above@.len() && (#[trigger] above@[i]).key() == key;
                        assert(both[i + below@.len()].key() == key);
                    }
                }
            }
        }
        if below.len() < size && above.len() < size - below.len() {
            None  // not enough compatible players within the band yet

        } else {
            let run: Vec<Waiter> = self.keep_nearest(
                reach,
                seed_skill,
                floor,
                size,
                &below,
                &above,
            );
            proof {
                nearest::lemma_run_is_distinct(everyone, seed_skill, low, high, run@);
            }
            let group: Vec<Waiter> = nearest::line_up(seed_skill, &run);
            proof {
                nearest::lemma_listed_run_is_group(everyone, seed_skill, low, high, run@, group@);
            }
            Some(group)
        }
    }

    /// The pool holds every shard that the seed's band reaches.
    pub open spec fn spans_band(self, seed_skill: u32, band: u32) -> bool {
        self.spans(
            self.axis_spec().shard(axis::low_end(seed_skill, band)),
            self.axis_spec().shard(
                axis::high_end(seed_skill, band, self.axis_spec().top_skill()),
            ),
        )
    }

    /// Takes the players of a group out of the pool.
    pub fn evict(&mut self, group: &Vec<Waiter>)
        requires
            old(self).wf(),
            forall|i: int|
                0 <= i < group@.len() ==> old(self)@.contains_key((#[trigger] group@[i]).key()),
        ensures
            final(self).wf(),
            final(self).axis_spec() == old(self).axis_spec(),
            final(self)@ == old(self)@.remove_keys(nearest::keys_of(group@)),
            final(self).start() == old(self).start(),
            final(self).count() == old(self).count(),
            final(self).places() == old(self).places(),
    {
        let mut i: usize = 0;
        let ghost keys = group@.map_values(|w: Waiter| w.key());
        assert(self@ =~= old(self)@.remove_keys(keys.take(0).to_set()));
        while i < group.len()
            invariant
                i <= group@.len(),
                keys == group@.map_values(|w: Waiter| w.key()),
                self.wf(),
                self.axis == old(self).axis,
                self.first == old(self).first,
                self.shards@.len() == old(self).shards@.len(),
                self.places() == old(self).places(),
                self@ == old(self)@.remove_keys(keys.take(i as int).to_set()),
                forall|x: int|
                    0 <= x < group@.len() ==> old(self)@.contains_key(
                        (#[trigger] group@[x]).key(),
                    ),
            decreases group@.len() - i,
        {
            let player: Waiter = group[i];
            let index: usize = self.axis.shard_of(player.skill);
            let ghost s: int = index - self.first;
            let ghost earlier = self.shards@;
            let ghost left = self@;
            assert forall|x: int| 0 <= x < earlier.len() implies earlier[x].place() == old(
                self,
            ).places()[x] by {
                assert(self.places()[x] == earlier[x].place());
            }
            assert(old(self)@.contains_key(player.key()));
            self.shards[index - self.first].remove(player.skill, player.id);
            proof {
                assert(forall|x: int|
                    0 <= x < earlier.len() && x != s ==> #[trigger] self.shards@[x] == earlier[x]);
                let done = keys.take(i as int);
                let next = keys.take(i + 1);
                assert(next =~= done.push(player.key()));
                assert forall|key: (u32, u64)| next.to_set().contains(key) <==> (
                done.to_set().contains(key) || key == player.key()) by {
                    if done.to_set().contains(key) {
                        let x = choose|x: int| 0 <= x < done.len() && done[x] == key;
                        assert(next[x] == key);
                    }
                    assert(next[i as int] == player.key());
                    if next.to_set().contains(key) {
                        let x = choose|x: int| 0 <= x < next.len() && next[x] == key;
                        if x < i {
                            assert(done[x] == key);
                        }
                    }
                }
                assert(self.shards@[s]@ == earlier[s]@.remove(player.key()));
                assert(self.places() =~= old(self).places()) by {
                    assert(self.shards@[s].place() == earlier[s].place());
                    assert forall|x: int| 0 <= x < earlier.len() implies self.places()[x] == old(
                        self,
                    ).places()[x] by {
                        assert(self.shards@[x].place() == earlier[x].place());
                    }
                }
                assert(self@ =~= left.remove(player.key()));
                assert(left.remove(player.key()) =~= old(self)@.remove_keys(next.to_set()));
            }
            i = i + 1;
        }
        assert(keys.take(i as int) =~= keys);
    }

    /// All the shards of an axis, empty.
    pub fn new(axis: Axis) -> (pool: Self)
        requires
            axis.wf(),
        ensures
            pool.wf(),
            pool.axis_spec() == axis,
            pool@ == Map::<(u32, u64), Ticket>::empty(),
            pool.start() == 0,
            pool.count() == axis.shards(),
            pool.places() == Seq::new(axis.shards() as nat, |s: int| None::<(u32, u64, u64)>),
    {
        let count: usize = axis.num_shards();
        let mut shards: Vec<Shard> = Vec::new();
        while shards.len() < count
            invariant
                count == axis.shards(),
                shards@.len() <= count,
                forall|s: int|
                    0 <= s < shards@.len() ==> (#[trigger] shards@[s]).wf()
                        && shards@[s].place() is None && shards@[s]@ == Map::<
                        (u32, u64),
                        Ticket,
                    >::empty(),
            decreases count - shards@.len(),
        {
            shards.push(Shard::new());
        }
        let pool = Pool { axis, first: 0, shards };
        assert(pool@ =~= Map::empty());
        assert(pool.places() =~= Seq::new(
            axis.shards() as nat,
            |s: int| None::<(u32, u64, u64)>,
        ));
        pool
    }

    /// The run of shards of an axis that starts at number `first`.
    pub fn from_shards(axis: Axis, first: usize, shards: Vec<Shard>) -> (pool: Self)
        requires
            axis.wf(),
            first + shards@.len() <= axis.shards(),
            is_placed(axis, first as int, shards@),
            forall|s: int| 0 <= s < shards@.len() ==> (#[trigger] shards@[s]).wf(),
        ensures
            pool.wf(),
            pool.axis_spec() == axis,
            pool@ == waiters(axis, first as int, shards@),
            pool.start() == first,
            pool.count() == shards@.len(),
            forall|s: int|
                0 <= s < shards@.len() ==> #[trigger] pool.places()[s] == shards@[s].place(),
    {
        Pool { axis, first, shards }
    }

    /// Gives the shards back.
    pub fn into_shards(self) -> (shards: Vec<Shard>)
        requires
            self.wf(),
        ensures
            shards@.len() == self.count(),
            is_placed(self.axis_spec(), self.start(), shards@),
            waiters(self.axis_spec(), self.start(), shards@) == self@,
            forall|s: int|
                0 <= s < shards@.len() ==> (#[trigger] shards@[s]).wf() && shards@[s].place()
                    == self.places()[s],
    {
        self.shards
    }

    /// The axis that the shards belong to.
    pub fn axis(&self) -> (axis: &Axis)
        ensures
            *axis == self.axis_spec(),
    {
        &self.axis
    }

    /// Adds a waiter to the shard of their skill, or gives a waiter of the same skill and id a
    /// new ticket. Says whether the waiter is new.
    pub fn insert(&mut self, skill: u32, id: u64, ticket: Ticket) -> (fresh: bool)
        requires
            old(self).wf(),
            skill <= old(self).axis_spec().top_skill(),
            old(self).spans(
                old(self).axis_spec().shard(skill),
                old(self).axis_spec().shard(skill),
            ),
        ensures
            final(self).wf(),
            final(self).axis_spec() == old(self).axis_spec(),
            final(self)@ == old(self)@.insert((skill, id), ticket),
            fresh == !old(self)@.contains_key((skill, id)),
            final(self).start() == old(self).start(),
            final(self).count() == old(self).count(),
            final(self).places() == old(self).places(),
    {
        let index: usize = self.axis.shard_of(skill);
        let ghost s: int = index - self.first;
        let ghost earlier = self.shards@;
        let fresh: bool = self.shards[index - self.first].insert(skill, id, ticket);
        proof {
            assert(forall|x: int|
                0 <= x < earlier.len() && x != s ==> #[trigger] self.shards@[x] == earlier[x]);
            assert(self.shards@[s]@ == earlier[s]@.insert((skill, id), ticket));
            assert(self@ =~= old(self)@.insert((skill, id), ticket));
            assert(self.places() =~= old(self).places());
        }
        fresh
    }

    /// The next seed of shard number `index`.
    pub fn seed_in(&self, index: usize) -> (seed: Option<Waiter>)
        requires
            self.wf(),
            self.spans(index as int, index as int),
        ensures
            seed is None <==> is_empty_shard(self@, self.axis_spec(), index as int),
            seed matches Some(w) ==> is_seed(
                self@,
                self.axis_spec(),
                index as int,
                self.places()[index - self.start()],
                w,
            ) && w.skill <= self.axis_spec().top_skill(),
    {
        let ghost s: int = index - self.first;
        let seed: Option<Waiter> = self.shards[index - self.first].seed();
        proof {
            let here = self.shards@[s]@;
            let place = self.shards@[s].place();
            assert(self.places()[s] == place);
            match seed {
                Some(w) => {
                    assert(here.contains_key(w.key()));
                    assert(self@.contains_key(w.key()));
                    assert forall|other: Waiter| #[trigger]
                        stands_in(self@, self.axis, index as int, other) implies !shard::sooner(
                        place,
                        other.rank(),
                        w.rank(),
                    ) by {
                        assert(here.contains_key(other.key()));
                        assert(shard::rank_in(here, other.key()) == other.rank());
                    }
                },
                None => {
                    assert forall|key: (u32, u64)| #[trigger]
                        self@.contains_key(key) implies self.axis.shard(key.0) != index by {
                        if self.axis.shard(key.0) == index {
                            assert(here.contains_key(key));
                            assert(here.dom().contains(key));
                        }
                    }
                },
            }
        }
        seed
    }

    /// Takes the match that is formed around `seed` within `band` at `now_ns` out of the pool.
    /// Where there is none, the pool is left as it was.
    pub fn take_group<W: Fn(u64) -> u32>(
        &mut self,
        seed: &Waiter,
        band: u32,
        size: usize,
        now_ns: u64,
        window: &W,
    ) -> (group: Option<Vec<Waiter>>)
        requires
            old(self).wf(),
            seed.skill <= old(self).axis_spec().top_skill(),
            old(self).spans_band(seed.skill, band),
            size > 0,
            acceptance::is_steady(*window),
        ensures
            final(self).wf(),
            final(self).axis_spec() == old(self).axis_spec(),
            final(self).start() == old(self).start(),
            final(self).count() == old(self).count(),
            final(self).places() == old(self).places(),
            match group {
                Some(g) => {
                    &&& forall|bands: spec_fn(u64) -> u32| #[trigger]
                        acceptance::agrees(*window, bands) ==> lobby::is_group_within(
                            old(self)@,
                            old(self).axis_spec().top_skill(),
                            *seed,
                            band,
                            size as int,
                            now_ns,
                            bands,
                            g@,
                        )
                    &&& final(self)@ == old(self)@.remove_keys(nearest::keys_of(g@))
                },
                None => {
                    &&& final(self)@ == old(self)@
                    &&& forall|g: Seq<Waiter>, bands: spec_fn(u64) -> u32|
                        #![trigger lobby::is_group_within(
                            old(self)@,
                            old(self).axis_spec().top_skill(),
                            *seed,
                            band,
                            size as int,
                            now_ns,
                            bands,
                            g,
                        ), acceptance::agrees(*window, bands)]
                        acceptance::agrees(*window, bands) ==> !lobby::is_group_within(
                            old(self)@,
                            old(self).axis_spec().top_skill(),
                            *seed,
                            band,
                            size as int,
                            now_ns,
                            bands,
                            g,
                        )
                },
            },
    {
        let ghost top = self.axis_spec().top_skill();
        let ghost n: int = size as int;
        proof {
            shard::lemma_since_is_part(self@, 0);
            shard::lemma_since_is_part(self@, seed.ticket.arrival);
        }
        match self.find_lobby(seed.skill, band, 0, size, now_ns, window) {
            Some(group) => {
                proof {
                    assert(shard::since(self@, 0) =~= self@);
                    assert forall|bands: spec_fn(u64) -> u32| #[trigger]
                        acceptance::agrees(*window, bands) implies lobby::has_lobby(
                        self@,
                        top,
                        seed.skill,
                        band,
                        n,
                        now_ns,
                        bands,
                    ) by {
                        assert(lobby::is_lobby(
                            self@,
                            top,
                            seed.skill,
                            band,
                            n,
                            now_ns,
                            bands,
                            group@,
                        ));
                    }
                    assert forall|i: int| 0 <= i < group@.len() implies self@.contains_key(
                        (#[trigger] group@[i]).key(),
                    ) by {
                        let bands = acceptance::law_steady_window_is_a_function(*window);
                        assert(lobby::is_lobby(
                            self@,
                            top,
                            seed.skill,
                            band,
                            n,
                            now_ns,
                            bands,
                            group@,
                        ));
                    }
                }
                self.evict(&group);
                Some(group)
            },
            None => {
                assert(shard::since(self@, 0) =~= self@);
                match self.find_lobby(
                    seed.skill,
                    band,
                    seed.ticket.arrival,
                    size,
                    now_ns,
                    window,
                ) {
                    Some(group) => {
                        proof {
                            assert forall|i: int|
                                0 <= i < group@.len() implies self@.contains_key(
                                (#[trigger] group@[i]).key(),
                            ) by {
                                let bands = acceptance::law_steady_window_is_a_function(*window);
                                assert(lobby::is_lobby(
                                    shard::since(self@, seed.ticket.arrival),
                                    top,
                                    seed.skill,
                                    band,
                                    n,
                                    now_ns,
                                    bands,
                                    group@,
                                ));
                            }
                        }
                        self.evict(&group);
                        Some(group)
                    },
                    None => None,
                }
            },
        }
    }

    /// The nearest waiters whose number is at least `floor`, where they are accepted.
    fn find_lobby<W: Fn(u64) -> u32>(
        &self,
        seed_skill: u32,
        band: u32,
        floor: u64,
        size: usize,
        now_ns: u64,
        window: &W,
    ) -> (group: Option<Vec<Waiter>>)
        requires
            self.wf(),
            seed_skill <= self.axis_spec().top_skill(),
            self.spans_band(seed_skill, band),
            size > 0,
            acceptance::is_steady(*window),
        ensures
            match group {
                Some(g) => forall|bands: spec_fn(u64) -> u32| #[trigger]
                    acceptance::agrees(*window, bands) ==> lobby::is_lobby(
                        shard::since(self@, floor),
                        self.axis_spec().top_skill(),
                        seed_skill,
                        band,
                        size as int,
                        now_ns,
                        bands,
                        g@,
                    ),
                None => forall|bands: spec_fn(u64) -> u32| #[trigger]
                    acceptance::agrees(*window, bands) ==> !lobby::has_lobby(
                        shard::since(self@, floor),
                        self.axis_spec().top_skill(),
                        seed_skill,
                        band,
                        size as int,
                        now_ns,
                        bands,
                    ),
            },
    {
        let ghost everyone = shard::since(self@, floor);
        let ghost low = axis::low_end(seed_skill, band);
        let ghost high = axis::high_end(seed_skill, band, self.axis_spec().top_skill());
        proof {
            lemma_waiters_finite(self.axis, self.first as int, self.shards@);
            shard::lemma_since_is_part(self@, floor);
        }
        match self.choose_group(seed_skill, band, floor, size) {
            Some(group) => {
                if acceptance::accepts(&group, now_ns, window) {
                    Some(group)
                } else {
                    proof {
                        assert forall|g: Seq<Waiter>|
                            g.len() == size && #[trigger] nearest::is_nearest_group(
                                everyone,
                                seed_skill,
                                low,
                                high,
                                g,
                            ) implies g == group@ by {
                            nearest::law_group_is_unique(
                                everyone,
                                seed_skill,
                                low,
                                high,
                                g,
                                group@,
                            );
                        }
                    }
                    None
                }
            },
            None => {
                proof {
                    assert forall|g: Seq<Waiter>| #[trigger]
                        nearest::is_nearest_group(
                            everyone,
                            seed_skill,
                            low,
                            high,
                            g,
                        ) implies g.len() < size by {
                        nearest::law_group_is_counted(everyone, seed_skill, low, high, g);
                    }
                }
                None
            },
        }
    }

    /// Moves the place in line of the shard of `seed` to where they stand, if they still wait.
    fn settle(&mut self, seed: &Waiter)
        requires
            old(self).wf(),
            old(self).spans(
                old(self).axis_spec().shard(seed.skill),
                old(self).axis_spec().shard(seed.skill),
            ),
        ensures
            final(self).wf(),
            final(self).axis_spec() == old(self).axis_spec(),
            final(self).start() == old(self).start(),
            final(self).count() == old(self).count(),
            final(self)@ == old(self)@,
            final(self).places() == old(self).places_after(*seed),
    {
        let index: usize = self.axis.shard_of(seed.skill);
        let ghost s: int = index - self.first;
        let ghost earlier = self.shards@;
        let rank: (u32, u64, u64) = (seed.skill, seed.ticket.arrival, seed.id);
        self.shards[index - self.first].settle(rank);
        proof {
            assert(forall|x: int|
                0 <= x < earlier.len() && x != s ==> #[trigger] self.shards@[x] == earlier[x]);
            assert(self.shards@[s]@ == earlier[s]@);
            assert(earlier[s].has_at(rank) == self.has_at(rank)) by {
                assert(earlier[s]@.contains_key(seed.key()) == old(self)@.contains_key(seed.key()));
            }
            assert(self@ =~= old(self)@);
            assert(self.places() =~= old(self).places_after(*seed));
        }
    }

    /// Somebody stands in line at `rank`.
    pub open spec fn has_at(self, rank: (u32, u64, u64)) -> bool {
        self@.contains_key((rank.0, rank.2)) && self@[(rank.0, rank.2)].arrival == rank.1
    }

    /// The places in line after an attempt around `seed` has left the pool as it is: that of
    /// the shard of the seed is where they stand, if they still wait.
    pub open spec fn places_after(self, seed: Waiter) -> Seq<Option<(u32, u64, u64)>> {
        if self.has_at(seed.rank()) {
            self.places().update(
                self.axis_spec().shard(seed.skill) - self.start(),
                Some(seed.rank()),
            )
        } else {
            self.places()
        }
    }

    /// One attempt around `seed`: takes the match that is formed around them within `band` at
    /// `now_ns` out of the pool. If they still wait afterwards, their shard goes on behind them
    /// at its next turn.
    pub fn attempt<W: Fn(u64) -> u32>(
        &mut self,
        seed: &Waiter,
        band: u32,
        size: usize,
        now_ns: u64,
        window: &W,
    ) -> (group: Option<Vec<Waiter>>)
        requires
            old(self).wf(),
            seed.skill <= old(self).axis_spec().top_skill(),
            old(self).spans_band(seed.skill, band),
            size > 0,
            acceptance::is_steady(*window),
        ensures
            final(self).wf(),
            final(self).axis_spec() == old(self).axis_spec(),
            final(self).start() == old(self).start(),
            final(self).count() == old(self).count(),
            match group {
                Some(g) => {
                    &&& forall|bands: spec_fn(u64) -> u32| #[trigger]
                        acceptance::agrees(*window, bands) ==> lobby::is_group_within(
                            old(self)@,
                            old(self).axis_spec().top_skill(),
                            *seed,
                            band,
                            size as int,
                            now_ns,
                            bands,
                            g@,
                        )
                    &&& final(self)@ == old(self)@.remove_keys(nearest::keys_of(g@))
                },
                None => {
                    &&& final(self)@ == old(self)@
                    &&& forall|g: Seq<Waiter>, bands: spec_fn(u64) -> u32|
                        #![trigger lobby::is_group_within(
                            old(self)@,
                            old(self).axis_spec().top_skill(),
                            *seed,
                            band,
                            size as int,
                            now_ns,
                            bands,
                            g,
                        ), acceptance::agrees(*window, bands)]
                        acceptance::agrees(*window, bands) ==> !lobby::is_group_within(
                            old(self)@,
                            old(self).axis_spec().top_skill(),
                            *seed,
                            band,
                            size as int,
                            now_ns,
                            bands,
                            g,
                        )
                },
            },
            final(self).places() == if final(self).has_at(seed.rank()) {
                old(self).places().update(
                    old(self).axis_spec().shard(seed.skill) - old(self).start(),
                    Some(seed.rank()),
                )
            } else {
                old(self).places()
            },
    {
        proof {
            axis::law_shards_follow_skill(
                self.axis,
                axis::low_end(seed.skill, band),
                seed.skill,
            );
            axis::law_shards_follow_skill(
                self.axis,
                seed.skill,
                axis::high_end(seed.skill, band, self.axis.top_skill()),
            );
        }
        let group: Option<Vec<Waiter>> = self.take_group(seed, band, size, now_ns, window);
        self.settle(seed);
        group
    }
}

/// Every waiter of a pool has a skill of the axis and waits in the shard of that skill,
/// which the pool holds.
pub proof fn law_waiters_are_on_the_axis(pool: Pool, key: (u32, u64))
    requires
        pool.wf(),
        pool@.contains_key(key),
    ensures
        key.0 <= pool.axis_spec().top_skill(),
        pool.spans(pool.axis_spec().shard(key.0), pool.axis_spec().shard(key.0)),
{
    let s = pool.axis.shard(key.0) - pool.first;
    assert(pool.shards@[s]@.contains_key(key));
}

} // verus!
