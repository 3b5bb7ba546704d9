//! Whose turn it is: the shards take turns, and so do the waiters of a shard.
use crate::arrivals::Waiter;
use crate::engine;
use crate::engine::EngineState;
use crate::nearest;
use crate::pool;
use crate::shard;
use vstd::prelude::*;

verus! {

/// The first attempt of an engine takes its seed from the first shard.
pub proof fn law_first_turn_is_the_first_shards(state: EngineState)
    requires
        state.is_new(),
        state.config.num_shards >= 1,
    ensures
        state.seed_shard() == 0,
{
    vstd::arithmetic::div_mod::lemma_small_mod(0, state.config.num_shards as nat);
}

/// The shards take turns: after an attempt in one shard the next attempt is in the shard that
/// follows, and after the last shard the first one follows (as long as the count of attempts
/// does not run over).
pub proof fn law_next_shard_follows(
    before: EngineState,
    now_ns: u64,
    bands: spec_fn(u64) -> u32,
    after: EngineState,
)
    requires
        before.is_attempt(now_ns, bands, after),
        before.config.num_shards >= 1,
        before.next_seed < usize::MAX,
    ensures
        0 <= before.seed_shard() < before.config.num_shards,
        before.seed_shard() + 1 < before.config.num_shards ==> after.seed_shard()
            == before.seed_shard() + 1,
        before.seed_shard() + 1 == before.config.num_shards ==> after.seed_shard() == 0,
{
    if before.can_match(now_ns, bands) {
        let (group, formed) = engine::law_attempt_forms_a_match(before, now_ns, bands, after);
    }
    lemma_next_remainder(before.next_seed as int, before.config.num_shards as int);
}

proof fn lemma_next_remainder(x: int, n: int)
    requires
        x >= 0,
        n >= 1,
    ensures
        0 <= x % n < n,
        x % n + 1 < n ==> (x + 1) % n == x % n + 1 && (x + 1) / n == x / n,
        x % n + 1 == n ==> (x + 1) % n == 0 && (x + 1) / n == x / n + 1,
{
    let q = x / n;
    let r = x % n;
    vstd::arithmetic::div_mod::lemma_fundamental_div_mod(x, n);
    vstd::arithmetic::div_mod::lemma_mod_bound(x, n);
    assert(q * n == n * q) by (nonlinear_arith);
    if r + 1 < n {
        vstd::arithmetic::div_mod::lemma_fundamental_div_mod_converse(x + 1, n, q, r + 1);
    } else {
        assert((q + 1) * n == q * n + n) by (nonlinear_arith);
        vstd::arithmetic::div_mod::lemma_fundamental_div_mod_converse(x + 1, n, q + 1, 0);
    }
}

/// Every shard has its turn: whichever shard it is, of any `num_shards` attempts in a row one
/// takes its seed from that shard, and only one (as long as their count does not run over).
pub proof fn law_every_shard_comes_round(state: EngineState, index: int) -> (turn: usize)
    requires
        0 <= index < state.config.num_shards,
        state.next_seed + state.config.num_shards <= usize::MAX,
    ensures
        turn < state.config.num_shards,
        (EngineState { next_seed: (state.next_seed + turn) as usize, ..state }).seed_shard()
            == index,
        forall|other: usize|
            other < state.config.num_shards && (#[trigger] (EngineState {
                next_seed: (state.next_seed + other) as usize,
                ..state
            }).seed_shard()) == index ==> other == turn,
{
    let n: int = state.config.num_shards as int;
    let x: int = state.next_seed as int;
    let turn = engine::law_every_shard_has_its_turn(x, n, index);
    assert forall|other: usize|
        other < state.config.num_shards && (#[trigger] (EngineState {
            next_seed: (state.next_seed + other) as usize,
            ..state
        }).seed_shard()) == index implies other == turn by {
        let a = x + turn;
        let b = x + other;
        vstd::arithmetic::div_mod::lemma_fundamental_div_mod(a, n);
        vstd::arithmetic::div_mod::lemma_fundamental_div_mod(b, n);
        let p = a / n;
        let q = b / n;
        assert(n * p - n * q == turn - other);
        assert(n * p - n * q == n * (p - q)) by (nonlinear_arith);
        assert(p == q) by (nonlinear_arith)
            requires
                -n < n * (p - q) < n,
                n >= 1,
        ;
    }
    turn as usize
}

/// The seed waits in the shard whose turn it is, and an attempt finds nobody exactly if nobody
/// waits there.
pub proof fn law_seed_waits_in_the_shard(state: EngineState)
    requires
        state.adds_up(0),
    ensures
        state.finds_nobody() <==> forall|key: (u32, u64)| #[trigger]
            state.waiting.contains_key(key) ==> state.axis.shard(key.0) != state.next_seed as int
                % state.config.num_shards as int,
        !state.finds_nobody() ==> {
            let seed = state.seed();
            &&& state.waiting.contains_key((seed.skill, seed.id))
            &&& state.waiting[(seed.skill, seed.id)] == seed.ticket
            &&& state.axis.shard(seed.skill) == state.next_seed as int
                % state.config.num_shards as int
        },
{
    if !state.finds_nobody() {
        engine::law_seed_exists(state);
        assert(pool::stands_in(
            state.waiting,
            state.axis,
            state.seed_shard(),
            state.seed(),
        ));
    }
}

/// The waiters of a shard take turns in line, lowest skill first and at the same skill who came
/// first: the seed is the first of those who stand behind the place where the shard left off;
/// where nobody does, or the shard has not left off anywhere, it is the first of all.
pub proof fn law_seed_is_next_in_line(state: EngineState, key: (u32, u64))
    requires
        state.adds_up(0),
        state.waiting.contains_key(key),
        state.axis.shard(key.0) == state.next_seed as int % state.config.num_shards as int,
    ensures
        ({
            let seed = state.seed();
            let place = state.places[state.next_seed as int % state.config.num_shards as int];
            let arrival = state.waiting[key].arrival;
            let not_after = seed.skill < key.0 || seed.skill == key.0 && (seed.ticket.arrival
                < arrival || seed.ticket.arrival == arrival && seed.id <= key.1);
            match place {
                None => not_after,
                Some(p) => {
                    let seed_behind = seed.skill > p.0 || seed.skill == p.0 && (
                    seed.ticket.arrival > p.1 || seed.ticket.arrival == p.1 && seed.id > p.2);
                    let other_behind = key.0 > p.0 || key.0 == p.0 && (arrival > p.1 || arrival
                        == p.1 && key.1 > p.2);
                    &&& other_behind ==> seed_behind
                    &&& other_behind == seed_behind ==> not_after
                },
            }
        }),
{
    let other = Waiter { id: key.1, skill: key.0, ticket: state.waiting[key] };
    assert(other.key() == key);
    engine::law_seed_exists(state);
    assert(pool::stands_in(state.waiting, state.axis, state.seed_shard(), other));
    assert(!shard::sooner(
        state.places[state.seed_shard()],
        other.rank(),
        state.seed().rank(),
    ));
}

/// A shard leaves off where its last seed stands who was left waiting. All other shards keep
/// their places.
pub proof fn law_shard_leaves_off_at_its_seed(
    before: EngineState,
    now_ns: u64,
    bands: spec_fn(u64) -> u32,
    after: EngineState,
    s: int,
)
    requires
        before.adds_up(0),
        before.is_attempt(now_ns, bands, after),
        0 <= s < before.config.num_shards,
    ensures
        s != before.next_seed as int % before.config.num_shards as int ==> after.places[s]
            == before.places[s],
        s == before.next_seed as int % before.config.num_shards as int ==> {
            let seed = before.seed();
            if !before.finds_nobody() && after.waiting.contains_key((seed.skill, seed.id)) {
                after.places[s] == Some((seed.skill, seed.ticket.arrival, seed.id))
            } else {
                after.places[s] == before.places[s]
            }
        },
{
    let seed = before.seed();
    if !before.finds_nobody() {
        engine::law_seed_exists(before);
        assert(pool::stands_in(before.waiting, before.axis, before.seed_shard(), seed));
    }
    if before.can_match(now_ns, bands) {
        let (group, formed) = engine::law_attempt_forms_a_match(before, now_ns, bands, after);
        nearest::law_taking_a_group_out(before.waiting, group, seed.key());
        if shard::lists(group, seed.key()) {
            let i = choose|i: int| 0 <= i < group.len() && (#[trigger] group[i]).key()
                == seed.key();
            assert(group[i].skill == seed.skill && group[i].id == seed.id);
        } else {
            assert forall|i: int| 0 <= i < group.len() implies !((#[trigger] group[i]).skill
                == seed.skill && group[i].id == seed.id) by {
                assert(group[i].key() != seed.key());
            }
        }
    }
}

} // verus!
