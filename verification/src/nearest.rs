//! Which waiters a match around a seed would rather have.
//!
//! The closest in skill come first and, at the same distance, who came first. That decides who
//! is taken; the players who are taken are then listed by skill and id alone.
use crate::arrivals::{Ticket, Waiter};
use crate::axis;
use crate::shard;
use vstd::prelude::*;

verus! {

/// How far apart two skills are.
pub open spec fn distance(a: u32, b: u32) -> int {
    if a >= b {
        a - b
    } else {
        b - a
    }
}

/// A match around `seed_skill` would rather have the waiter with rank `a` than the one with
/// rank `b`: the one closer in skill; of two equally close the one who came first. Where both
/// have the same number, the one of lower skill or else of lower id.
pub open spec fn nearer(seed_skill: u32, a: (u32, u64, u64), b: (u32, u64, u64)) -> bool {
    ||| distance(a.0, seed_skill) < distance(b.0, seed_skill)
    ||| distance(a.0, seed_skill) == distance(b.0, seed_skill) && {
        ||| a.1 < b.1
        ||| a.1 == b.1 && (a.0 < b.0 || a.0 == b.0 && a.2 < b.2)
    }
}

/// The keys of `waiting` whose skill is between `low` and `high`.
pub open spec fn in_range(waiting: Map<(u32, u64), Ticket>, low: u32, high: u32) -> Set<
    (u32, u64),
> {
    waiting.dom().filter(|key: (u32, u64)| low <= key.0 <= high)
}

/// The order in which the players of a match are listed: the closer in skill to the seed
/// first; of two equally close the one at or below the seed; of two of the same skill, at or
/// below the seed the one with the higher id, above it the one with the lower id.
pub open spec fn listed(seed_skill: u32, a: (u32, u64), b: (u32, u64)) -> bool {
    ||| distance(a.0, seed_skill) < distance(b.0, seed_skill)
    ||| distance(a.0, seed_skill) == distance(b.0, seed_skill) && {
        if a.0 != b.0 {
            a.0 < b.0
        } else if a.0 <= seed_skill {
            a.1 > b.1
        } else {
            a.1 < b.1
        }
    }
}

/// `group` are the waiters between `low` and `high` that a match around `seed_skill` would
/// rather have than any other, in the order in which they are listed.
pub open spec fn is_nearest_group(
    waiting: Map<(u32, u64), Ticket>,
    seed_skill: u32,
    low: u32,
    high: u32,
    group: Seq<Waiter>,
) -> bool {
    &&& forall|i: int|
        0 <= i < group.len() ==> shard::is_waiter(waiting, low, high, #[trigger] group[i])
    &&& is_listed(seed_skill, group)
    &&& forall|key: (u32, u64), i: int|
        #![trigger waiting.contains_key(key), group[i]]
        waiting.contains_key(key) && low <= key.0 <= high && !shard::lists(group, key) && 0 <= i
            < group.len() ==> nearer(seed_skill, group[i].rank(), shard::rank_in(waiting, key))
}

/// The players of `group` are in the order in which they are listed.
pub open spec fn is_listed(seed_skill: u32, group: Seq<Waiter>) -> bool {
    forall|i: int, j: int|
        0 <= i < j < group.len() ==> listed(
            seed_skill,
            (#[trigger] group[i]).key(),
            (#[trigger] group[j]).key(),
        )
}

/// No two of `group` are the same player.
pub open spec fn is_distinct(group: Seq<Waiter>) -> bool {
    forall|i: int, j: int|
        0 <= i < j < group.len() ==> (#[trigger] group[i]).key() != (#[trigger] group[j]).key()
}

/// `group` are the waiters between `low` and `high` that a match around `seed_skill` would
/// rather have than any other, the most wanted first.
pub open spec fn is_nearest_run(
    waiting: Map<(u32, u64), Ticket>,
    seed_skill: u32,
    low: u32,
    high: u32,
    group: Seq<Waiter>,
) -> bool {
    &&& forall|i: int|
        0 <= i < group.len() ==> shard::is_waiter(waiting, low, high, #[trigger] group[i])
    &&& forall|i: int, j: int|
        0 <= i < j < group.len() ==> nearer(
            seed_skill,
            (#[trigger] group[i]).rank(),
            (#[trigger] group[j]).rank(),
        )
    &&& forall|key: (u32, u64), i: int|
        #![trigger waiting.contains_key(key), group[i]]
        waiting.contains_key(key) && low <= key.0 <= high && !shard::lists(group, key) && 0 <= i
            < group.len() ==> nearer(seed_skill, group[i].rank(), shard::rank_in(waiting, key))
}

/// The keys of a group of players.
pub open spec fn keys_of(group: Seq<Waiter>) -> Set<(u32, u64)> {
    group.map_values(|w: Waiter| w.key()).to_set()
}

/// `nearer` is a strict total order on waiters: of any two, exactly one is
/// preferred, and preferences chain.
pub proof fn law_nearer_is_a_strict_order(
    seed_skill: u32,
    a: (u32, u64, u64),
    b: (u32, u64, u64),
    c: (u32, u64, u64),
)
    ensures
        !nearer(seed_skill, a, a),
        a != b ==> nearer(seed_skill, a, b) != nearer(seed_skill, b, a),
        nearer(seed_skill, a, b) && nearer(seed_skill, b, c) ==> nearer(seed_skill, a, c),
{
}

/// `listed` is a strict total order on players.
pub proof fn law_listed_is_a_strict_order(
    seed_skill: u32,
    a: (u32, u64),
    b: (u32, u64),
    c: (u32, u64),
)
    ensures
        !listed(seed_skill, a, a),
        a != b ==> listed(seed_skill, a, b) != listed(seed_skill, b, a),
        listed(seed_skill, a, b) && listed(seed_skill, b, c) ==> listed(seed_skill, a, c),
{
}

/// Distinct waiters of a range are no more than the range holds, and exactly as
/// many where they are all of it.
pub proof fn lemma_count(
    waiting: Map<(u32, u64), Ticket>,
    low: u32,
    high: u32,
    players: Seq<Waiter>,
)
    requires
        waiting.dom().finite(),
        forall|i: int|
            0 <= i < players.len() ==> shard::is_waiter(waiting, low, high, #[trigger] players[i]),
        is_distinct(players),
    ensures
        keys_of(players).finite(),
        keys_of(players).len() == players.len(),
        keys_of(players).subset_of(in_range(waiting, low, high)),
        players.len() <= in_range(waiting, low, high).len(),
        (forall|key: (u32, u64)| #[trigger]
            waiting.contains_key(key) && low <= key.0 <= high ==> shard::lists(players, key))
            ==> players.len() == in_range(waiting, low, high).len(),
{
    let keys = players.map_values(|w: Waiter| w.key());
    assert(keys.no_duplicates());
    keys.unique_seq_to_set();
    let all = in_range(waiting, low, high);
    vstd::set_lib::lemma_len_subset(all, waiting.dom());
    assert forall|key: (u32, u64)| keys.to_set().contains(key) implies all.contains(key) by {
        let i = choose|i: int| 0 <= i < keys.len() && keys[i] == key;
        assert(players[i].key() == key);
    }
    assert(keys.to_set().subset_of(all));
    vstd::set_lib::lemma_len_subset(keys.to_set(), all);
    if forall|key: (u32, u64)| #[trigger]
        waiting.contains_key(key) && low <= key.0 <= high ==> shard::lists(players, key) {
        assert forall|key: (u32, u64)| all.contains(key) implies keys.to_set().contains(key) by {
            assert(waiting.contains_key(key));
            let i = choose|i: int| 0 <= i < players.len() && (#[trigger] players[i]).key() == key;
            assert(keys[i] == key);
        }
        assert(keys.to_set() =~= all);
    }
}

/// Whether `a` is listed before `b`.
fn comes_first(seed_skill: u32, a: &Waiter, b: &Waiter) -> (first: bool)
    ensures
        first == listed(seed_skill, a.key(), b.key()),
{
    let x: u32 = if a.skill >= seed_skill {
        a.skill - seed_skill
    } else {
        seed_skill - a.skill
    };
    let y: u32 = if b.skill >= seed_skill {
        b.skill - seed_skill
    } else {
        seed_skill - b.skill
    };
    if x != y {
        x < y
    } else if a.skill != b.skill {
        a.skill < b.skill
    } else if a.skill <= seed_skill {
        a.id > b.id
    } else {
        a.id < b.id
    }
}

/// Brings waiters into the order in which they are listed.
pub fn line_up(seed_skill: u32, run: &Vec<Waiter>) -> (group: Vec<Waiter>)
    requires
        is_distinct(run@),
    ensures
        group@.len() == run@.len(),
        is_listed(seed_skill, group@),
        forall|w: Waiter| #[trigger] group@.contains(w) <==> run@.contains(w),
{
    let mut group: Vec<Waiter> = Vec::new();
    let mut i: usize = 0;
    while i < run.len()
        invariant
            i <= run@.len(),
            is_distinct(run@),
            group@.len() == i,
            is_listed(seed_skill, group@),
            forall|w: Waiter| #[trigger] group@.contains(w) <==> run@.take(i as int).contains(w),
        decreases run@.len() - i,
    {
        let next: Waiter = run[i];
        let mut p: usize = 0;
        while p < group.len() && comes_first(seed_skill, &group[p], &next)
            invariant
                p <= group@.len(),
                forall|x: int|
                    0 <= x < p ==> listed(seed_skill, (#[trigger] group@[x]).key(), next.key()),
            decreases group@.len() - p,
        {
            p = p + 1;
        }
        let ghost earlier = group@;
        proof {
            assert forall|x: int| 0 <= x < earlier.len() implies (#[trigger] earlier[x]).key()
                != next.key() by {
                assert(earlier.contains(earlier[x]));
                let y = choose|y: int|
                    0 <= y < run@.take(i as int).len() && run@.take(i as int)[y] == earlier[x];
                assert(run@[y].key() != run@[i as int].key());
            }
            assert forall|x: int| p <= x < earlier.len() implies listed(
                seed_skill,
                next.key(),
                (#[trigger] earlier[x]).key(),
            ) by {
                law_listed_is_a_strict_order(
                    seed_skill,
                    next.key(),
                    earlier[p as int].key(),
                    earlier[x].key(),
                );
            }
            lemma_insert_keeps_listed(seed_skill, earlier, next, p as int);
        }
        group.insert(p, next);
        proof {
            assert forall|w: Waiter| #[trigger] group@.contains(w) <==> run@.take(
                i + 1,
            ).contains(w) by {
                let done = run@.take(i as int);
                let more = run@.take(i + 1);
                assert(more =~= done.push(next));
                if done.contains(w) {
                    let y = choose|y: int| 0 <= y < done.len() && done[y] == w;
                    assert(more[y] == w);
                    assert(earlier.contains(w));
                }
                assert(more[i as int] == next);
                if more.contains(w) && w != next {
                    let y = choose|y: int| 0 <= y < more.len() && more[y] == w;
                    assert(done[y] == w);
                    assert(earlier.contains(w));
                }
                if group@.contains(w) && w != next {
                    assert(earlier.contains(w));
                }
            }
        }
        i = i + 1;
    }
    assert(run@.take(i as int) =~= run@);
    group
}

/// Where a waiter is inserted between those listed before and those listed after, the order
/// stays.
proof fn lemma_insert_keeps_listed(seed_skill: u32, group: Seq<Waiter>, next: Waiter, p: int)
    requires
        is_listed(seed_skill, group),
        0 <= p <= group.len(),
        forall|x: int| 0 <= x < p ==> listed(seed_skill, (#[trigger] group[x]).key(), next.key()),
        forall|x: int|
            p <= x < group.len() ==> listed(seed_skill, next.key(), (#[trigger] group[x]).key()),
    ensures
        is_listed(seed_skill, group.insert(p, next)),
        forall|w: Waiter| #[trigger]
            group.insert(p, next).contains(w) <==> w == next || group.contains(w),
{
    let more = group.insert(p, next);
    assert forall|i: int, j: int| 0 <= i < j < more.len() implies listed(
        seed_skill,
        (#[trigger] more[i]).key(),
        (#[trigger] more[j]).key(),
    ) by {
        let a = if i < p {
            group[i]
        } else {
            group[i - 1]
        };
        let b = if j < p {
            group[j]
        } else {
            group[j - 1]
        };
        if i == p {
            assert(more[i] == next && more[j] == group[j - 1]);
        } else if j == p {
            assert(more[j] == next && more[i] == group[i]);
        } else {
            assert(more[i] == a && more[j] == b);
        }
    }
    assert forall|w: Waiter| #[trigger] more.contains(w) <==> w == next || group.contains(w) by {
        assert(more[p] == next);
        if group.contains(w) {
            let x = choose|x: int| 0 <= x < group.len() && group[x] == w;
            assert(more[if x < p {
                x
            } else {
                x + 1
            }] == w);
        }
        if more.contains(w) && w != next {
            let x = choose|x: int| 0 <= x < more.len() && more[x] == w;
            assert(group[if x < p {
                x
            } else {
                x - 1
            }] == w);
        }
    }
}

/// Distinct waiters can be brought into the order in which they are listed.
pub proof fn lemma_line_up(seed_skill: u32, run: Seq<Waiter>) -> (group: Seq<Waiter>)
    requires
        is_distinct(run),
    ensures
        group.len() == run.len(),
        is_listed(seed_skill, group),
        forall|w: Waiter| #[trigger] group.contains(w) <==> run.contains(w),
    decreases run.len(),
{
    if run.len() == 0 {
        run
    } else {
        let front = run.drop_last();
        let next = run.last();
        assert forall|i: int, j: int| 0 <= i < j < front.len() implies (
        #[trigger] front[i]).key() != (#[trigger] front[j]).key() by {
            assert(run[i] == front[i] && run[j] == front[j]);
        }
        let group = lemma_line_up(seed_skill, front);
        assert forall|x: int| 0 <= x < group.len() implies (#[trigger] group[x]).key()
            != next.key() by {
            assert(group.contains(group[x]));
            let y = choose|y: int| 0 <= y < front.len() && front[y] == group[x];
            assert(run[y].key() != run[run.len() - 1].key());
        }
        let p = lemma_position(seed_skill, group, next);
        lemma_insert_keeps_listed(seed_skill, group, next, p);
        let more = group.insert(p, next);
        assert forall|w: Waiter| #[trigger] more.contains(w) <==> run.contains(w) by {
            if run.contains(w) && w != next {
                let y = choose|y: int| 0 <= y < run.len() && run[y] == w;
                assert(front[y] == w);
            }
            if front.contains(w) {
                let y = choose|y: int| 0 <= y < front.len() && front[y] == w;
                assert(run[y] == w);
            }
            assert(run[run.len() - 1] == next);
        }
        more
    }
}

/// Where in a listed group another player belongs.
proof fn lemma_position(seed_skill: u32, group: Seq<Waiter>, next: Waiter) -> (p: int)
    requires
        is_listed(seed_skill, group),
        forall|x: int| 0 <= x < group.len() ==> (#[trigger] group[x]).key() != next.key(),
    ensures
        0 <= p <= group.len(),
        forall|x: int| 0 <= x < p ==> listed(seed_skill, (#[trigger] group[x]).key(), next.key()),
        forall|x: int|
            p <= x < group.len() ==> listed(seed_skill, next.key(), (#[trigger] group[x]).key()),
    decreases group.len(),
{
    if group.len() == 0 {
        0
    } else {
        let last = group.len() - 1;
        law_listed_is_a_strict_order(seed_skill, group[last].key(), next.key(), next.key());
        if listed(seed_skill, group[last].key(), next.key()) {
            assert forall|x: int| 0 <= x < group.len() implies listed(
                seed_skill,
                (#[trigger] group[x]).key(),
                next.key(),
            ) by {
                if x < last {
                    law_listed_is_a_strict_order(
                        seed_skill,
                        group[x].key(),
                        group[last].key(),
                        next.key(),
                    );
                }
            }
            group.len() as int
        } else {
            let front = group.drop_last();
            assert forall|i: int, j: int| 0 <= i < j < front.len() implies listed(
                seed_skill,
                (#[trigger] front[i]).key(),
                (#[trigger] front[j]).key(),
            ) by {
                assert(group[i] == front[i] && group[j] == front[j]);
            }
            assert forall|x: int| 0 <= x < front.len() implies (#[trigger] front[x]).key()
                != next.key() by {
                assert(group[x] == front[x]);
            }
            let p = lemma_position(seed_skill, front, next);
            assert forall|x: int| 0 <= x < p implies listed(
                seed_skill,
                (#[trigger] group[x]).key(),
                next.key(),
            ) by {
                assert(group[x] == front[x]);
            }
            assert forall|x: int| p <= x < group.len() implies listed(
                seed_skill,
                next.key(),
                (#[trigger] group[x]).key(),
            ) by {
                if x < last {
                    assert(group[x] == front[x]);
                }
            }
            p
        }
    }
}

/// Whoever is listed is listed once.
pub proof fn lemma_listed_is_distinct(seed_skill: u32, group: Seq<Waiter>)
    requires
        is_listed(seed_skill, group),
    ensures
        is_distinct(group),
{
    assert forall|i: int, j: int| 0 <= i < j < group.len() implies (#[trigger] group[i]).key() != (
    #[trigger] group[j]).key() by {
        law_listed_is_a_strict_order(
            seed_skill,
            group[i].key(),
            group[j].key(),
            group[i].key(),
        );
    }
}

pub proof fn lemma_run_is_distinct(
    waiting: Map<(u32, u64), Ticket>,
    seed_skill: u32,
    low: u32,
    high: u32,
    run: Seq<Waiter>,
)
    requires
        is_nearest_run(waiting, seed_skill, low, high, run),
    ensures
        is_distinct(run),
{
    assert forall|i: int, j: int| 0 <= i < j < run.len() implies (#[trigger] run[i]).key() != (
    #[trigger] run[j]).key() by {
        assert(nearer(seed_skill, run[i].rank(), run[j].rank()));
        assert(shard::is_waiter(waiting, low, high, run[i]));
        assert(shard::is_waiter(waiting, low, high, run[j]));
    }
}

/// The most wanted waiters, listed, are the nearest group.
pub proof fn lemma_listed_run_is_group(
    waiting: Map<(u32, u64), Ticket>,
    seed_skill: u32,
    low: u32,
    high: u32,
    run: Seq<Waiter>,
    group: Seq<Waiter>,
)
    requires
        is_nearest_run(waiting, seed_skill, low, high, run),
        is_listed(seed_skill, group),
        forall|w: Waiter| #[trigger] group.contains(w) <==> run.contains(w),
    ensures
        is_nearest_group(waiting, seed_skill, low, high, group),
{
    assert forall|i: int| 0 <= i < group.len() implies shard::is_waiter(
        waiting,
        low,
        high,
        #[trigger] group[i],
    ) by {
        assert(group.contains(group[i]));
        let y = choose|y: int| 0 <= y < run.len() && run[y] == group[i];
        assert(shard::is_waiter(waiting, low, high, run[y]));
    }
    assert forall|key: (u32, u64), i: int|
        #![trigger waiting.contains_key(key), group[i]]
        waiting.contains_key(key) && low <= key.0 <= high && !shard::lists(group, key) && 0 <= i
            < group.len() implies nearer(
        seed_skill,
        group[i].rank(),
        shard::rank_in(waiting, key),
    ) by {
        assert(group.contains(group[i]));
        let y = choose|y: int| 0 <= y < run.len() && run[y] == group[i];
        if shard::lists(run, key) {
            let x = choose|x: int| 0 <= x < run.len() && (#[trigger] run[x]).key() == key;
            assert(run.contains(run[x]));
            assert(group.contains(run[x]));
            let z = choose|z: int| 0 <= z < group.len() && group[z] == run[x];
            assert(group[z].key() == key);
        }
        assert(nearer(seed_skill, run[y].rank(), shard::rank_in(waiting, key)));
    }
}

/// Of finitely many waiters one is nearest.
proof fn lemma_nearest_exists(
    waiting: Map<(u32, u64), Ticket>,
    seed_skill: u32,
    keys: Set<(u32, u64)>,
) -> (nearest: (u32, u64))
    requires
        keys.finite(),
        keys.len() > 0,
    ensures
        keys.contains(nearest),
        forall|key: (u32, u64)| #[trigger]
            keys.contains(key) && key != nearest ==> nearer(
                seed_skill,
                shard::rank_in(waiting, nearest),
                shard::rank_in(waiting, key),
            ),
    decreases keys.len(),
{
    let one = keys.choose();
    let rest = keys.remove(one);
    if rest.len() == 0 {
        assert forall|key: (u32, u64)| keys.contains(key) implies key == one by {
            if key != one {
                assert(rest.contains(key));
            }
        }
        one
    } else {
        let best = lemma_nearest_exists(waiting, seed_skill, rest);
        let a = shard::rank_in(waiting, best);
        let b = shard::rank_in(waiting, one);
        law_nearer_is_a_strict_order(seed_skill, a, b, a);
        let nearest = if nearer(seed_skill, a, b) {
            best
        } else {
            one
        };
        assert forall|key: (u32, u64)| #[trigger]
            keys.contains(key) && key != nearest implies nearer(
            seed_skill,
            shard::rank_in(waiting, nearest),
            shard::rank_in(waiting, key),
        ) by {
            if key != one {
                assert(rest.contains(key));
            }
            if nearest == one && key != best {
                law_nearer_is_a_strict_order(seed_skill, b, a, shard::rank_in(waiting, key));
            }
        }
        nearest
    }
}

/// A range that holds enough waiters has some that are most wanted.
proof fn lemma_run_exists(
    waiting: Map<(u32, u64), Ticket>,
    seed_skill: u32,
    low: u32,
    high: u32,
    size: nat,
) -> (group: Seq<Waiter>)
    requires
        waiting.dom().finite(),
        in_range(waiting, low, high).len() >= size,
    ensures
        group.len() == size,
        is_nearest_run(waiting, seed_skill, low, high, group),
    decreases size,
{
    if size == 0 {
        Seq::empty()
    } else {
        let front = lemma_run_exists(waiting, seed_skill, low, high, (size - 1) as nat);
        let all = in_range(waiting, low, high);
        vstd::set_lib::lemma_len_subset(all, waiting.dom());
        let taken = keys_of(front);
        let keys = front.map_values(|w: Waiter| w.key());
        assert forall|i: int, j: int| 0 <= i < j < front.len() implies (
        #[trigger] front[i]).key() != (#[trigger] front[j]).key() by {
            assert(nearer(seed_skill, front[i].rank(), front[j].rank()));
            assert(shard::is_waiter(waiting, low, high, front[i]));
            assert(shard::is_waiter(waiting, low, high, front[j]));
        }
        lemma_count(waiting, low, high, front);
        let rest = all.difference(taken);
        assert(rest + taken =~= all);
        assert(rest.disjoint(taken));
        vstd::set_lib::lemma_len_subset(rest, all);
        vstd::set_lib::lemma_set_disjoint_lens(rest, taken);
        let key = lemma_nearest_exists(waiting, seed_skill, rest);
        let last = Waiter { id: key.1, skill: key.0, ticket: waiting[key] };
        let group = front.push(last);
        assert forall|k: (u32, u64)| #[trigger]
            waiting.contains_key(k) && low <= k.0 <= high implies (rest.contains(k)
            || shard::lists(front, k)) by {
            if taken.contains(k) {
                let i = choose|i: int| 0 <= i < keys.len() && keys[i] == k;
                assert(front[i].key() == k);
            }
        }
        assert(!shard::lists(front, key)) by {
            if shard::lists(front, key) {
                let i = choose|i: int| 0 <= i < front.len() && (#[trigger] front[i]).key() == key;
                assert(keys[i] == key);
                assert(taken.contains(key));
            }
        }
        assert forall|i: int| 0 <= i < group.len() implies shard::is_waiter(
            waiting,
            low,
            high,
            #[trigger] group[i],
        ) by {
            if i < front.len() {
                assert(group[i] == front[i]);
            } else {
                assert(all.contains(key));
            }
        }
        assert forall|i: int, j: int| 0 <= i < j < group.len() implies nearer(
            seed_skill,
            (#[trigger] group[i]).rank(),
            (#[trigger] group[j]).rank(),
        ) by {
            assert(group[i] == front[i]);
            if j < front.len() {
                assert(group[j] == front[j]);
            } else {
                assert(waiting.contains_key(key));
                assert(nearer(seed_skill, front[i].rank(), shard::rank_in(waiting, key)));
            }
        }
        assert forall|k: (u32, u64), i: int|
            #![trigger waiting.contains_key(k), group[i]]
            waiting.contains_key(k) && low <= k.0 <= high && !shard::lists(group, k) && 0 <= i
                < group.len() implies nearer(
            seed_skill,
            group[i].rank(),
            shard::rank_in(waiting, k),
        ) by {
            if shard::lists(front, k) {
                let x = choose|x: int| 0 <= x < front.len() && (#[trigger] front[x]).key() == k;
                assert(group[x].key() == k);
            }
            if k == key {
                assert(group[front.len() as int].key() == k);
            }
            if i < front.len() {
                assert(group[i] == front[i]);
            }
        }
        group
    }
}

/// A group has no more players than its range holds waiters.
pub proof fn law_group_is_counted(
    waiting: Map<(u32, u64), Ticket>,
    seed_skill: u32,
    low: u32,
    high: u32,
    group: Seq<Waiter>,
)
    requires
        waiting.dom().finite(),
        is_nearest_group(waiting, seed_skill, low, high, group),
    ensures
        group.len() <= in_range(waiting, low, high).len(),
{
    law_listed_waiters_are_counted(waiting, seed_skill, low, high, group);
}

/// Listed waiters of a range are no more than the range holds.
pub proof fn law_listed_waiters_are_counted(
    waiting: Map<(u32, u64), Ticket>,
    seed_skill: u32,
    low: u32,
    high: u32,
    group: Seq<Waiter>,
)
    requires
        waiting.dom().finite(),
        is_listed(seed_skill, group),
        forall|i: int|
            0 <= i < group.len() ==> shard::is_waiter(waiting, low, high, #[trigger] group[i]),
    ensures
        group.len() <= in_range(waiting, low, high).len(),
{
    lemma_listed_is_distinct(seed_skill, group);
    lemma_count(waiting, low, high, group);
}

/// A range that holds enough waiters has a nearest group.
pub proof fn law_group_exists(
    waiting: Map<(u32, u64), Ticket>,
    seed_skill: u32,
    low: u32,
    high: u32,
    size: nat,
) -> (group: Seq<Waiter>)
    requires
        waiting.dom().finite(),
        in_range(waiting, low, high).len() >= size,
    ensures
        group.len() == size,
        is_nearest_group(waiting, seed_skill, low, high, group),
{
    let run = lemma_run_exists(waiting, seed_skill, low, high, size);
    lemma_run_is_distinct(waiting, seed_skill, low, high, run);
    let group = lemma_line_up(seed_skill, run);
    lemma_listed_run_is_group(waiting, seed_skill, low, high, run, group);
    group
}

/// A group of listed waiters takes exactly as many from the pool as it has players, and none
/// of its players is left waiting.
pub proof fn law_eviction_is_exact(
    waiting: Map<(u32, u64), Ticket>,
    seed_skill: u32,
    low: u32,
    high: u32,
    group: Seq<Waiter>,
)
    requires
        waiting.dom().finite(),
        forall|i: int|
            0 <= i < group.len() ==> shard::is_waiter(waiting, low, high, #[trigger] group[i]),
        is_listed(seed_skill, group),
    ensures
        waiting.remove_keys(keys_of(group)).dom().finite(),
        waiting.remove_keys(keys_of(group)).dom().len() + group.len() == waiting.dom().len(),
        forall|i: int|
            0 <= i < group.len() ==> !waiting.remove_keys(keys_of(group)).contains_key(
                (#[trigger] group[i]).key(),
            ),
        forall|key: (u32, u64)|
            waiting.contains_key(key) && !shard::lists(group, key)
                ==> #[trigger] waiting.remove_keys(keys_of(group)).contains_key(key),
{
    lemma_listed_is_distinct(seed_skill, group);
    lemma_count(waiting, low, high, group);
    let keys = group.map_values(|w: Waiter| w.key());
    let gone = keys_of(group);
    let left = waiting.remove_keys(gone).dom();
    vstd::set_lib::lemma_len_subset(left, waiting.dom());
    assert(left.disjoint(gone));
    assert(left + gone =~= waiting.dom()) by {
        assert forall|key: (u32, u64)| gone.contains(key) implies waiting.dom().contains(key) by {
            assert(in_range(waiting, low, high).contains(key));
        }
    }
    vstd::set_lib::lemma_set_disjoint_lens(left, gone);
    assert forall|i: int| 0 <= i < group.len() implies !waiting.remove_keys(gone).contains_key(
        (#[trigger] group[i]).key(),
    ) by {
        assert(keys[i] == group[i].key());
        assert(gone.contains(keys[i]));
    }
    assert forall|key: (u32, u64)|
        waiting.contains_key(key) && !shard::lists(
            group,
            key,
        ) implies #[trigger] waiting.remove_keys(gone).contains_key(key) by {
        if gone.contains(key) {
            let i = choose|i: int| 0 <= i < keys.len() && keys[i] == key;
            assert(group[i].key() == key);
        }
    }
}

/// The waiters and the band determine the group: which players are taken, and
/// in which order, is not left open.
pub proof fn law_group_is_unique(
    waiting: Map<(u32, u64), Ticket>,
    seed_skill: u32,
    low: u32,
    high: u32,
    group: Seq<Waiter>,
    other: Seq<Waiter>,
)
    requires
        is_nearest_group(waiting, seed_skill, low, high, group),
        is_nearest_group(waiting, seed_skill, low, high, other),
        group.len() == other.len(),
    ensures
        group == other,
{
    lemma_same_players(waiting, seed_skill, low, high, group, other);
    lemma_same_players(waiting, seed_skill, low, high, other, group);
    lemma_same_list(seed_skill, group, other);
}

/// Two nearest groups of the same size have the same players.
proof fn lemma_same_players(
    waiting: Map<(u32, u64), Ticket>,
    seed_skill: u32,
    low: u32,
    high: u32,
    group: Seq<Waiter>,
    other: Seq<Waiter>,
)
    requires
        is_nearest_group(waiting, seed_skill, low, high, group),
        is_nearest_group(waiting, seed_skill, low, high, other),
        group.len() == other.len(),
    ensures
        forall|w: Waiter| #[trigger] group.contains(w) ==> other.contains(w),
{
    lemma_listed_is_distinct(seed_skill, group);
    lemma_listed_is_distinct(seed_skill, other);
    assert forall|w: Waiter| #[trigger] group.contains(w) implies other.contains(w) by {
        let i = choose|i: int| 0 <= i < group.len() && group[i] == w;
        assert(shard::is_waiter(waiting, low, high, group[i]));
        if !shard::lists(other, w.key()) {
            // somebody else must be in the other group in their place
            let j = lemma_someone_is_missing(group, other, i);
            assert(shard::is_waiter(waiting, low, high, other[j]));
            assert(waiting.contains_key(group[i].key()));
            assert(waiting.contains_key(other[j].key()));
            assert(nearer(seed_skill, other[j].rank(), group[i].rank()));
            assert(nearer(seed_skill, group[i].rank(), other[j].rank()));
            law_nearer_is_a_strict_order(
                seed_skill,
                group[i].rank(),
                other[j].rank(),
                group[i].rank(),
            );
        } else {
            let j = choose|j: int| 0 <= j < other.len() && (#[trigger] other[j]).key() == w.key();
            assert(shard::is_waiter(waiting, low, high, other[j]));
            assert(other[j] == w);
        }
    }
}

/// Of two groups of the same size, where a player of the first is not in the second, some
/// player of the second is not in the first.
proof fn lemma_someone_is_missing(group: Seq<Waiter>, other: Seq<Waiter>, i: int) -> (j: int)
    requires
        is_distinct(group),
        is_distinct(other),
        group.len() == other.len(),
        0 <= i < group.len(),
        !shard::lists(other, group[i].key()),
    ensures
        0 <= j < other.len(),
        !shard::lists(group, other[j].key()),
{
    let a = group.map_values(|w: Waiter| w.key());
    let b = other.map_values(|w: Waiter| w.key());
    assert(a.no_duplicates());
    assert(b.no_duplicates());
    a.unique_seq_to_set();
    b.unique_seq_to_set();
    if forall|j: int| 0 <= j < other.len() ==> shard::lists(group, (#[trigger] other[j]).key()) {
        assert forall|key: (u32, u64)| b.to_set().contains(key) implies a.to_set().remove(
            group[i].key(),
        ).contains(key) by {
            let j = choose|j: int| 0 <= j < b.len() && b[j] == key;
            assert(other[j].key() == key);
            let x = choose|x: int| 0 <= x < group.len() && (#[trigger] group[x]).key() == key;
            assert(a[x] == key);
        }
        assert(a[i] == group[i].key());
        assert(a.to_set().contains(a[i]));
        assert(b.to_set().subset_of(a.to_set().remove(a[i])));
        vstd::set_lib::lemma_len_subset(b.to_set(), a.to_set().remove(a[i]));
        assert(false);
    }
    choose|j: int| 0 <= j < other.len() && !shard::lists(group, (#[trigger] other[j]).key())
}

/// The same players are listed in one order only.
proof fn lemma_same_list(seed_skill: u32, group: Seq<Waiter>, other: Seq<Waiter>)
    requires
        is_listed(seed_skill, group),
        is_listed(seed_skill, other),
        group.len() == other.len(),
        forall|w: Waiter| #[trigger] group.contains(w) ==> other.contains(w),
        forall|w: Waiter| #[trigger] other.contains(w) ==> group.contains(w),
    ensures
        group == other,
    decreases group.len(),
{
    if group.len() > 0 {
        let last = group.len() - 1;
        // the last of each is the one that no other is listed behind
        assert(group.contains(group[last]));
        assert(other.contains(other[last]));
        let x = choose|x: int| 0 <= x < other.len() && other[x] == group[last];
        let y = choose|y: int| 0 <= y < group.len() && group[y] == other[last];
        if x < last {
            assert(listed(seed_skill, other[x].key(), other[last].key()));
            law_listed_is_a_strict_order(
                seed_skill,
                group[last].key(),
                other[last].key(),
                group[last].key(),
            );
            if y < last {
                assert(listed(seed_skill, group[y].key(), group[last].key()));
            }
        }
        assert(x == last);
        let a = group.drop_last();
        let b = other.drop_last();
        lemma_listed_is_distinct(seed_skill, group);
        lemma_listed_is_distinct(seed_skill, other);
        assert forall|i: int, j: int| 0 <= i < j < a.len() implies listed(
            seed_skill,
            (#[trigger] a[i]).key(),
            (#[trigger] a[j]).key(),
        ) by {
            assert(a[i] == group[i] && a[j] == group[j]);
        }
        assert forall|i: int, j: int| 0 <= i < j < b.len() implies listed(
            seed_skill,
            (#[trigger] b[i]).key(),
            (#[trigger] b[j]).key(),
        ) by {
            assert(b[i] == other[i] && b[j] == other[j]);
        }
        assert forall|w: Waiter| #[trigger] a.contains(w) implies b.contains(w) by {
            let i = choose|i: int| 0 <= i < a.len() && a[i] == w;
            assert(group[i] == w);
            assert(group.contains(w));
            let j = choose|j: int| 0 <= j < other.len() && other[j] == w;
            assert(group[i].key() != group[last].key());
            assert(b[j] == w);
        }
        assert forall|w: Waiter| #[trigger] b.contains(w) implies a.contains(w) by {
            let i = choose|i: int| 0 <= i < b.len() && b[i] == w;
            assert(other[i] == w);
            assert(other.contains(w));
            let j = choose|j: int| 0 <= j < group.len() && group[j] == w;
            assert(other[i].key() != other[last].key());
            assert(a[j] == w);
        }
        lemma_same_list(seed_skill, a, b);
        assert(group =~= a.push(group[last]));
        assert(other =~= b.push(other[last]));
    } else {
        assert(group =~= other);
    }
}

/// The distance of two skills is how much must be added to the lower to make the higher. It is
/// the same from both sides, and a detour is never shorter.
pub proof fn law_distance_is_the_difference(a: u32, b: u32, c: u32)
    ensures
        distance(a, b) >= 0,
        a + distance(a, b) == b || b + distance(a, b) == a,
        distance(a, b) == distance(b, a),
        distance(a, c) <= distance(a, b) + distance(b, c),
{
}

/// A band holds exactly the waiters whose skill is at most `band` away from the seed's, above
/// or below.
pub proof fn law_band_holds_those_within(
    waiting: Map<(u32, u64), Ticket>,
    skill_max: u32,
    seed_skill: u32,
    band: u32,
    key: (u32, u64),
)
    requires
        seed_skill <= skill_max,
        key.0 <= skill_max,
    ensures
        in_range(
            waiting,
            axis::low_end(seed_skill, band),
            axis::high_end(seed_skill, band, skill_max),
        ).contains(key) <==> waiting.contains_key(key) && key.0 - seed_skill <= band && seed_skill
            - key.0 <= band,
{
    axis::law_band_reaches_both_ways(seed_skill, band, skill_max, key.0);
}

/// A match would rather have who is closer in skill to the seed and, of two who are equally
/// close, above or below, who came first.
pub proof fn law_closer_then_earlier_is_nearer(
    seed_skill: u32,
    a: (u32, u64, u64),
    b: (u32, u64, u64),
    x: int,
    y: int,
)
    requires
        x >= 0,
        y >= 0,
        a.0 == seed_skill + x || a.0 == seed_skill - x,
        b.0 == seed_skill + y || b.0 == seed_skill - y,
    ensures
        x < y ==> nearer(seed_skill, a, b) && !nearer(seed_skill, b, a),
        x == y && a.1 < b.1 ==> nearer(seed_skill, a, b) && !nearer(seed_skill, b, a),
{
}

/// A roster lists its players nearest first. Of two who are equally far from the seed, the one
/// below comes before the one above; of two of the same skill, the one with the higher id
/// first where they are not above the seed, and the one with the lower id first where they are.
pub proof fn law_roster_lists_nearest_first(
    seed_skill: u32,
    group: Seq<Waiter>,
    i: int,
    j: int,
    x: int,
    y: int,
)
    requires
        is_listed(seed_skill, group),
        0 <= i < j < group.len(),
        x >= 0,
        y >= 0,
        group[i].skill == seed_skill + x || group[i].skill == seed_skill - x,
        group[j].skill == seed_skill + y || group[j].skill == seed_skill - y,
    ensures
        x <= y,
        x == y ==> group[i].skill <= group[j].skill,
        group[i].skill == group[j].skill && group[i].skill <= seed_skill ==> group[i].id
            > group[j].id,
        group[i].skill == group[j].skill && group[i].skill > seed_skill ==> group[i].id
            < group[j].id,
{
    assert(listed(seed_skill, group[i].key(), group[j].key()));
}

/// No two of a group are the same player: they differ in skill or in id.
pub proof fn law_distinct_players_differ(group: Seq<Waiter>)
    ensures
        is_distinct(group) <==> forall|i: int, j: int|
            0 <= i < j < group.len() ==> (#[trigger] group[i]).skill != (#[trigger] group[j]).skill
                || group[i].id != group[j].id,
{
}

/// Taking a group out takes out exactly the entries of its players, and leaves all others as
/// they were.
pub proof fn law_taking_a_group_out(
    waiting: Map<(u32, u64), Ticket>,
    group: Seq<Waiter>,
    key: (u32, u64),
)
    ensures
        waiting.remove_keys(keys_of(group)).contains_key(key) <==> waiting.contains_key(key)
            && forall|i: int|
            0 <= i < group.len() ==> !((#[trigger] group[i]).skill == key.0 && group[i].id
                == key.1),
        waiting.remove_keys(keys_of(group)).contains_key(key) ==> waiting.remove_keys(
            keys_of(group),
        )[key] == waiting[key],
{
    let keys = group.map_values(|w: Waiter| w.key());
    if keys_of(group).contains(key) {
        let i = choose|i: int| 0 <= i < keys.len() && keys[i] == key;
        assert(group[i].skill == key.0 && group[i].id == key.1);
    } else {
        assert forall|i: int| 0 <= i < group.len() implies !((#[trigger] group[i]).skill == key.0
            && group[i].id == key.1) by {
            assert(keys[i] == group[i].key());
            assert(keys.contains(keys[i]));
        }
    }
}

} // verus!
