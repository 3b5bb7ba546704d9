//! Team balancing.
//!
//! Once the players of a match are gathered, they must be split into two teams of
//! equal size as fairly as possible. Minimizing the difference of the two teams'
//! summed skill is the balanced-partition problem (NP-hard in general), but for a
//! fixed 10-player match the search space is tiny: choosing 5 of 10 is C(10,5) = 252
//! subsets, halved to 126 once player 0 is pinned to team A to remove mirror
//! duplicates. All of them are tried, which yields a provably optimal balance.
use crate::player::Player;
use vstd::multiset::Multiset;
use vstd::prelude::*;

verus! {

/// How many entries of `sides` are `true`: the size of team A.
pub open spec fn team_size(sides: Seq<bool>) -> nat
    decreases sides.len(),
{
    if sides.len() == 0 {
        0
    } else {
        team_size(sides.drop_last()) + if sides.last() {
            1nat
        } else {
            0nat
        }
    }
}

/// The players whose entry in `sides` is `side`, in roster order.
pub open spec fn team(players: Seq<Player>, sides: Seq<bool>, side: bool) -> Seq<Player>
    decreases players.len(),
{
    if players.len() == 0 {
        Seq::empty()
    } else {
        let front = team(players.drop_last(), sides, side);
        if sides[players.len() - 1] == side {
            front.push(players.last())
        } else {
            front
        }
    }
}

/// The summed skill of a group of players.
pub open spec fn skill_sum(players: Seq<Player>) -> int
    decreases players.len(),
{
    if players.len() == 0 {
        0
    } else {
        skill_sum(players.drop_last()) + players.last().skill
    }
}

/// The absolute difference of the summed skills of two teams.
pub open spec fn skill_gap(team_a: Seq<Player>, team_b: Seq<Player>) -> int {
    if skill_sum(team_a) >= skill_sum(team_b) {
        skill_sum(team_a) - skill_sum(team_b)
    } else {
        skill_sum(team_b) - skill_sum(team_a)
    }
}

/// The imbalance of the split `sides` of the roster `players`.
pub open spec fn imbalance(players: Seq<Player>, sides: Seq<bool>) -> int {
    skill_gap(team(players, sides, true), team(players, sides, false))
}

/// `sides` sends exactly half of a roster of `n` players to team A.
pub open spec fn is_even_split(sides: Seq<bool>, n: nat) -> bool {
    &&& sides.len() == n
    &&& 2 * team_size(sides) == n
}

/// An even split that has player 0 in team A.
pub open spec fn is_pinned_split(sides: Seq<bool>, n: nat) -> bool {
    &&& is_even_split(sides, n)
    &&& n > 0 ==> sides[0]
}

/// The number whose binary digits are `sides`, player 0 being the lowest: the
/// order in which splits are tried.
pub open spec fn code(sides: Seq<bool>) -> nat
    decreases sides.len(),
{
    if sides.len() == 0 {
        0
    } else {
        2 * code(sides.drop_first()) + if sides[0] {
            1nat
        } else {
            0nat
        }
    }
}

/// `sides` is the split that is chosen: of all pinned splits the one of least
/// imbalance, and of several such the one with the lowest code.
pub open spec fn is_best_split(players: Seq<Player>, sides: Seq<bool>) -> bool {
    &&& is_pinned_split(sides, players.len())
    &&& forall|other: Seq<bool>| #[trigger]
        is_pinned_split(other, players.len()) ==> {
            ||| imbalance(players, sides) < imbalance(players, other)
            ||| imbalance(players, sides) == imbalance(players, other) && code(sides) <= code(other)
        }
}

/// `team_a` and `team_b` are the teams of the best split of `players`, and
/// `gap` is its imbalance.
pub open spec fn is_balanced(
    players: Seq<Player>,
    team_a: Seq<Player>,
    team_b: Seq<Player>,
    gap: int,
) -> bool {
    exists|sides: Seq<bool>|
        {
            &&& #[trigger] is_best_split(players, sides)
            &&& team_a == team(players, sides, true)
            &&& team_b == team(players, sides, false)
            &&& gap == imbalance(players, sides)
        }
}

/// The split that teams are made by.
proof fn lemma_split_behind(
    players: Seq<Player>,
    team_a: Seq<Player>,
    team_b: Seq<Player>,
    gap: int,
) -> (sides: Seq<bool>)
    requires
        is_balanced(players, team_a, team_b, gap),
    ensures
        is_best_split(players, sides),
        team_a == team(players, sides, true),
        team_b == team(players, sides, false),
        gap == imbalance(players, sides),
{
    choose|sides: Seq<bool>|
        {
            &&& #[trigger] is_best_split(players, sides)
            &&& team_a == team(players, sides, true)
            &&& team_b == team(players, sides, false)
            &&& gap == imbalance(players, sides)
        }
}

/// The split whose code is `mask`.
spec fn sides_of(mask: u32, n: nat) -> Seq<bool> {
    Seq::new(n, |i: int| mask & (1u32 << (i as u32)) != 0)
}

proof fn lemma_sides_of_step(mask: u32, n: nat)
    requires
        0 < n <= 20,
    ensures
        sides_of(mask, n).drop_first() =~= sides_of(mask / 2, (n - 1) as nat),
        sides_of(mask, n)[0] == (mask % 2 == 1),
{
    assert((mask & (1u32 << 0u32) != 0) == (mask % 2 == 1)) by (bit_vector);
    assert forall|i: int| 0 <= i < n - 1 implies sides_of(mask, n).drop_first()[i] == sides_of(
        mask / 2,
        (n - 1) as nat,
    )[i] by {
        let k: u32 = i as u32;
        let k1: u32 = (i + 1) as u32;
        assert((mask & (1u32 << k1) != 0) == ((mask / 2) & (1u32 << k) != 0)) by (bit_vector)
            requires
                k < 20,
                k1 == k + 1,
        ;
    }
}

/// Below `2^n` the masks and their codes agree.
proof fn lemma_code_of_mask(mask: u32, n: nat)
    requires
        n <= 20,
        mask < 1u32 << (n as u32),
    ensures
        code(sides_of(mask, n)) == mask,
    decreases n,
{
    let k: u32 = n as u32;
    if n == 0 {
        assert(mask == 0) by (bit_vector)
            requires
                mask < 1u32 << k,
                k == 0,
        ;
    } else {
        let j: u32 = (n - 1) as u32;
        let half: u32 = mask / 2;
        assert(half < 1u32 << j) by (bit_vector)
            requires
                mask < 1u32 << k,
                half == mask / 2,
                k == j + 1,
                k <= 20,
        ;
        lemma_sides_of_step(mask, n);
        lemma_code_of_mask(half, (n - 1) as nat);
    }
}

/// Every split of at most 20 players is tried: its code is the mask that stands for it.
proof fn lemma_mask_of_split(sides: Seq<bool>)
    requires
        sides.len() <= 20,
    ensures
        code(sides) < 1u32 << (sides.len() as u32),
        sides_of(code(sides) as u32, sides.len()) =~= sides,
    decreases sides.len(),
{
    let n: nat = sides.len();
    let k: u32 = n as u32;
    assert(1u32 << k <= 0x10_0000) by (bit_vector)
        requires
            k <= 20,
    ;
    if n == 0 {
        assert(1u32 << k == 1) by (bit_vector)
            requires
                k == 0,
        ;
    } else {
        let rest = sides.drop_first();
        lemma_mask_of_split(rest);
        let j: u32 = (n - 1) as u32;
        assert(1u32 << k == 2 * (1u32 << j)) by (bit_vector)
            requires
                k == j + 1,
                k <= 20,
        ;
        let mask: u32 = code(sides) as u32;
        lemma_sides_of_step(mask, n);
        assert(mask / 2 == code(rest));
        assert(sides_of(mask, n).drop_first() == rest);
        assert forall|i: int| 0 <= i < n implies sides_of(mask, n)[i] == sides[i] by {
            if i > 0 {
                assert(sides_of(mask, n).drop_first()[i - 1] == rest[i - 1]);
            }
        }
    }
}

/// Two splits of a roster with the same code are the same split.
pub proof fn law_code_is_injective(a: Seq<bool>, b: Seq<bool>)
    requires
        a.len() == b.len(),
        code(a) == code(b),
    ensures
        a == b,
    decreases a.len(),
{
    if a.len() > 0 {
        law_code_is_injective(a.drop_first(), b.drop_first());
        assert forall|i: int| 0 <= i < a.len() implies a[i] == b[i] by {
            if i > 0 {
                assert(a.drop_first()[i - 1] == b.drop_first()[i - 1]);
            }
        }
    }
    assert(a =~= b);
}

/// What is computed of one candidate split: the size of team A and its summed skill.
fn weigh(players: &[Player], mask: u32) -> (weight: (usize, u64))
    requires
        players@.len() <= 20,
    ensures
        weight.0 == team_size(sides_of(mask, players@.len())),
        weight.1 == skill_sum(team(players@, sides_of(mask, players@.len()), true)),
        weight.1 <= players@.len() * u32::MAX,
{
    let n: usize = players.len();
    let ghost sides = sides_of(mask, n as nat);
    let mut size: usize = 0;
    let mut sum: u64 = 0;
    let mut i: usize = 0;
    assert(team(players@.take(0), sides, true) =~= Seq::empty());
    while i < n
        invariant
            i <= n <= 20,
            n == players@.len(),
            sides == sides_of(mask, n as nat),
            size == team_size(sides.take(i as int)),
            size <= i,
            sum == skill_sum(team(players@.take(i as int), sides, true)),
            sum <= i * u32::MAX,
        decreases n - i,
    {
        let bit: u32 = i as u32;
        let ghost next = players@.take(i + 1);
        assert(next.drop_last() =~= players@.take(i as int));
        assert(sides.take(i + 1).drop_last() =~= sides.take(i as int));
        assert(next.last() == players@[i as int]);
        if mask & (1u32 << bit) != 0 {
            assert(team(next, sides, true).drop_last() =~= team(next.drop_last(), sides, true));
            size = size + 1;
            sum = sum + players[i].skill as u64;
        }
        i = i + 1;
    }
    assert(players@.take(n as int) =~= players@);
    assert(sides.take(n as int) =~= sides);
    (size, sum)
}

/// Whatever the split, the two teams' summed skills make up that of the roster.
pub proof fn law_split_keeps_total_skill(players: Seq<Player>, sides: Seq<bool>)
    ensures
        skill_sum(team(players, sides, true)) + skill_sum(team(players, sides, false)) == skill_sum(
            players,
        ),
    decreases players.len(),
{
    if players.len() > 0 {
        law_split_keeps_total_skill(players.drop_last(), sides);
        let side = sides[players.len() - 1];
        assert(team(players, sides, side).drop_last() =~= team(players.drop_last(), sides, side));
    }
}

/// The split in which the two teams trade places.
pub open spec fn mirror(sides: Seq<bool>) -> Seq<bool> {
    Seq::new(sides.len(), |i: int| !sides[i])
}

proof fn lemma_mirror_team(players: Seq<Player>, sides: Seq<bool>, side: bool)
    requires
        players.len() <= sides.len(),
    ensures
        team(players, mirror(sides), side) == team(players, sides, !side),
    decreases players.len(),
{
    if players.len() > 0 {
        lemma_mirror_team(players.drop_last(), sides, side);
    }
}

proof fn lemma_mirror_size(sides: Seq<bool>)
    ensures
        team_size(mirror(sides)) + team_size(sides) == sides.len(),
    decreases sides.len(),
{
    if sides.len() > 0 {
        assert(mirror(sides).drop_last() =~= mirror(sides.drop_last()));
        lemma_mirror_size(sides.drop_last());
    }
}

/// Pinning player 0 to team A loses nothing: of an even split and its mirror
/// image, which have the same imbalance, one is pinned.
pub proof fn law_pinning_loses_nothing(players: Seq<Player>, sides: Seq<bool>)
    requires
        is_even_split(sides, players.len()),
    ensures
        is_even_split(mirror(sides), players.len()),
        imbalance(players, mirror(sides)) == imbalance(players, sides),
        is_pinned_split(sides, players.len()) || is_pinned_split(mirror(sides), players.len()),
{
    lemma_mirror_size(sides);
    lemma_mirror_team(players, sides, true);
    lemma_mirror_team(players, sides, false);
}

/// The signed difference that a greedy pairing leaves stays within one player's skill.
proof fn lemma_greedy_split(players: Seq<Player>) -> (sides: Seq<bool>)
    requires
        players.len() % 2 == 0,
    ensures
        is_even_split(sides, players.len()),
        imbalance(players, sides) <= u32::MAX,
    decreases players.len(),
{
    if players.len() == 0 {
        Seq::empty()
    } else {
        let n: int = players.len() as int;
        let front = players.take(n - 2);
        let start = lemma_greedy_split(front);
        let x = players[n - 2];
        let y = players[n - 1];
        let ahead = skill_sum(team(front, start, true)) >= skill_sum(team(front, start, false));
        // the stronger of the next two joins the team that is behind
        let first = if ahead {
            x.skill <= y.skill
        } else {
            x.skill > y.skill
        };
        let sides = start.push(first).push(!first);
        assert(sides.drop_last() =~= start.push(first));
        assert(start.push(first).drop_last() =~= start);
        assert(team_size(start.push(first)) == team_size(start) + if first {
            1nat
        } else {
            0nat
        });
        assert(players.drop_last().drop_last() =~= front);
        lemma_team_ignores_tail(front, sides, start);
        let mid = players.drop_last();
        assert(team(mid, sides, first) == team(front, sides, first).push(x));
        assert(team(mid, sides, !first) == team(front, sides, !first));
        assert(team(players, sides, !first) == team(front, sides, !first).push(y));
        assert(team(players, sides, first) == team(front, sides, first).push(x));
        assert(team(front, sides, first).push(x).drop_last() =~= team(front, sides, first));
        assert(team(front, sides, !first).push(y).drop_last() =~= team(front, sides, !first));
        sides
    }
}

proof fn lemma_team_ignores_tail(players: Seq<Player>, long: Seq<bool>, short: Seq<bool>)
    requires
        players.len() <= short.len() <= long.len(),
        short =~= long.take(short.len() as int),
    ensures
        team(players, long, true) == team(players, short, true),
        team(players, long, false) == team(players, short, false),
    decreases players.len(),
{
    if players.len() > 0 {
        lemma_team_ignores_tail(players.drop_last(), long, short);
        assert(short[players.len() - 1] == long[players.len() - 1]);
    }
}

/// A roster of even size has a pinned split whose imbalance fits 32 bits.
proof fn lemma_small_pinned_split(players: Seq<Player>) -> (sides: Seq<bool>)
    requires
        players.len() % 2 == 0,
    ensures
        is_pinned_split(sides, players.len()),
        imbalance(players, sides) <= u32::MAX,
{
    let start = lemma_greedy_split(players);
    law_pinning_loses_nothing(players, start);
    if is_pinned_split(start, players.len()) {
        start
    } else {
        mirror(start)
    }
}

/// The teams of the split whose code is `mask`.
fn deal(players: &[Player], mask: u32) -> (teams: (Vec<Player>, Vec<Player>))
    requires
        players@.len() <= 20,
    ensures
        teams.0@ == team(players@, sides_of(mask, players@.len()), true),
        teams.1@ == team(players@, sides_of(mask, players@.len()), false),
{
    let n: usize = players.len();
    let ghost sides = sides_of(mask, n as nat);
    let mut a: Vec<Player> = Vec::with_capacity(n / 2);
    let mut b: Vec<Player> = Vec::with_capacity(n - n / 2);
    let mut i: usize = 0;
    while i < n
        invariant
            i <= n <= 20,
            n == players@.len(),
            sides == sides_of(mask, n as nat),
            a@ == team(players@.take(i as int), sides, true),
            b@ == team(players@.take(i as int), sides, false),
        decreases n - i,
    {
        let bit: u32 = i as u32;
        assert(players@.take(i + 1).drop_last() =~= players@.take(i as int));
        if mask & (1u32 << bit) != 0 {
            a.push(players[i]);
        } else {
            b.push(players[i]);
        }
        i = i + 1;
    }
    assert(players@.take(n as int) =~= players@);
    (a, b)
}

/// The absolute difference of two sums.
fn gap_of(x: u64, y: u64) -> (gap: u64)
    ensures
        gap == if x >= y {
            x - y
        } else {
            y - x
        },
{
    if x >= y {
        x - y
    } else {
        y - x
    }
}

/// The summed skill of a roster.
pub fn total_skill(players: &[Player]) -> (total: u64)
    requires
        players@.len() <= u32::MAX,
    ensures
        total == skill_sum(players@),
{
    let n: usize = players.len();
    let mut total: u64 = 0;
    let mut i: usize = 0;
    while i < n
        invariant
            i <= n <= u32::MAX,
            n == players@.len(),
            total == skill_sum(players@.take(i as int)),
            total <= i * u32::MAX,
        decreases n - i,
    {
        assert(players@.take(i + 1).drop_last() =~= players@.take(i as int));
        assert((i + 1) * u32::MAX == i * u32::MAX + u32::MAX) by (nonlinear_arith);
        assert((i + 1) * u32::MAX <= u32::MAX * u32::MAX) by (nonlinear_arith)
            requires
                i + 1 <= u32::MAX,
        ;
        total = total + players[i].skill as u64;
        i = i + 1;
    }
    assert(players@.take(n as int) =~= players@);
    total
}

/// Split players into two equal halves minimizing |sum(A) - sum(B)|.
///
/// Returns `(team_a, team_b, imbalance)`. The roster has an even size of at
/// most 20. Of several optimal splits the one that is tried first is returned.
pub fn balance_teams(players: &[Player]) -> (split: (Vec<Player>, Vec<Player>, u32))
    requires
        players@.len() % 2 == 0,
        players@.len() <= 20,
    ensures
        is_balanced(players@, split.0@, split.1@, split.2 as int),
        split.2 == skill_gap(split.0@, split.1@),
        2 * split.0@.len() == players@.len(),
        2 * split.1@.len() == players@.len(),
{
    let n: usize = players.len();
    let half: usize = n / 2;
    let total: u64 = total_skill(players);
    let ghost roster = players@;
    if n == 0 {
        let ghost none = Seq::<bool>::empty();
        assert(is_best_split(roster, none)) by {
            assert forall|other: Seq<bool>| #[trigger] is_pinned_split(other, 0) implies other
                == none by {
                assert(other =~= none);
            }
        }
        let a: Vec<Player> = Vec::new();
        let b: Vec<Player> = Vec::new();
        assert(a@ =~= team(roster, none, true));
        assert(b@ =~= team(roster, none, false));
        return (a, b, 0);
    }
    let width: u32 = n as u32;
    let end: u32 = 1u32 << width;
    assert(end >= 1 && end <= 0x10_0000) by (bit_vector)
        requires
            end == 1u32 << width,
            width <= 20,
    ;
    let mut best_mask: u32 = 0;
    let mut best_gap: u64 = u64::MAX;
    let mut mask: u32 = 0;
    while mask < end
        invariant_except_break
            best_gap != 0,
        invariant
            mask <= end,
            end == 1u32 << width,
            end <= 0x10_0000,
            width == n,
            0 < n <= 20,
            n == players@.len(),
            n % 2 == 0,
            half == n / 2,
            roster == players@,
            total == skill_sum(roster),
            best_gap != u64::MAX ==> {
                &&& best_mask < end
                &&& best_mask <= mask
                &&& is_pinned_split(sides_of(best_mask, n as nat), n as nat)
                &&& best_gap == imbalance(roster, sides_of(best_mask, n as nat))
            },
            forall|other: Seq<bool>| #[trigger]
                is_pinned_split(other, n as nat) && code(other) < mask ==> {
                    &&& best_gap != u64::MAX
                    &&& best_gap < imbalance(roster, other) || best_gap == imbalance(roster, other)
                        && best_mask <= code(other)
                },
        ensures
            mask == end || best_gap == 0,
        decreases end - mask,
    {
        let ghost sides = sides_of(mask, n as nat);
        proof {
            lemma_code_of_mask(mask, n as nat);
            lemma_sides_of_step(mask, n as nat);
            assert((mask & 1u32 == 1) == (mask % 2 == 1)) by (bit_vector);
            assert forall|other: Seq<bool>| is_pinned_split(other, n as nat) && code(other)
                == mask implies other == sides by {
                law_code_is_injective(other, sides);
            }
            law_split_keeps_total_skill(roster, sides);
            lemma_sum_nonnegative(team(roster, sides, false));
            lemma_sum_nonnegative(roster);
        }
        // player 0 is pinned to team A to skip the symmetric duplicates
        if mask & 1u32 == 1 {
            let (size, sum_a): (usize, u64) = weigh(players, mask);
            if size == half {
                assert(is_pinned_split(sides, n as nat));
                let sum_b: u64 = total - sum_a;
                let gap: u64 = gap_of(sum_a, sum_b);
                assert(gap == imbalance(roster, sides));
                if gap < best_gap {
                    best_gap = gap;
                    best_mask = mask;
                    if gap == 0 {
                        break;  // can't do better than a perfect split
                    }
                }
            }
        }
        mask = mask + 1;
    }
    let ghost best = sides_of(best_mask, n as nat);
    proof {
        let small = lemma_small_pinned_split(roster);
        lemma_mask_of_split(small);
        assert forall|other: Seq<bool>| #[trigger] is_pinned_split(other, n as nat) implies {
            ||| best_gap < imbalance(roster, other)
            ||| best_gap == imbalance(roster, other) && best_mask <= code(other)
        } by {
            lemma_mask_of_split(other);
        }
        assert(best_gap <= imbalance(roster, small));
        lemma_code_of_mask(best_mask, n as nat);
        assert(is_best_split(roster, best));
    }
    let (a, b): (Vec<Player>, Vec<Player>) = deal(players, best_mask);
    proof {
        law_teams_partition_the_roster(roster, a@, b@, best_gap as int);
    }
    (a, b, best_gap as u32)
}

proof fn lemma_sum_nonnegative(players: Seq<Player>)
    ensures
        0 <= skill_sum(players) <= players.len() * u32::MAX,
    decreases players.len(),
{
    if players.len() > 0 {
        lemma_sum_nonnegative(players.drop_last());
        assert(players.len() * u32::MAX == (players.len() - 1) * u32::MAX + u32::MAX)
            by (nonlinear_arith);
    }
}

/// No even split of the roster, pinned or not, is fairer than the teams that
/// are returned.
pub proof fn law_balance_is_optimal(
    players: Seq<Player>,
    team_a: Seq<Player>,
    team_b: Seq<Player>,
    gap: int,
    other: Seq<bool>,
)
    requires
        is_balanced(players, team_a, team_b, gap),
        is_even_split(other, players.len()),
    ensures
        gap == skill_gap(team_a, team_b),
        gap <= imbalance(players, other),
{
    law_pinning_loses_nothing(players, other);
    assert(is_pinned_split(other, players.len()) || is_pinned_split(mirror(other), players.len()));
}

/// The roster determines the teams: which of several optimal splits is
/// returned is not left open.
pub proof fn law_balance_is_unique(
    players: Seq<Player>,
    team_a: Seq<Player>,
    team_b: Seq<Player>,
    gap: int,
    other_a: Seq<Player>,
    other_b: Seq<Player>,
    other_gap: int,
)
    requires
        is_balanced(players, team_a, team_b, gap),
        is_balanced(players, other_a, other_b, other_gap),
    ensures
        team_a == other_a,
        team_b == other_b,
        gap == other_gap,
{
    let x = lemma_split_behind(players, team_a, team_b, gap);
    let y = lemma_split_behind(players, other_a, other_b, other_gap);
    assert(is_pinned_split(x, players.len()) && is_pinned_split(y, players.len()));
    law_code_is_injective(x, y);
}

proof fn lemma_team_lens(players: Seq<Player>, sides: Seq<bool>)
    requires
        players.len() <= sides.len(),
    ensures
        team(players, sides, true).len() == team_size(sides.take(players.len() as int)),
        team(players, sides, true).len() + team(players, sides, false).len() == players.len(),
        team(players, sides, true).to_multiset().add(team(players, sides, false).to_multiset())
            =~= players.to_multiset(),
    decreases players.len(),
{
    broadcast use vstd::seq_lib::group_to_multiset_ensures;

    if players.len() > 0 {
        let front = players.drop_last();
        lemma_team_lens(front, sides);
        assert(sides.take(players.len() as int).drop_last() =~= sides.take(front.len() as int));
        assert(players =~= front.push(players.last()));
    }
}

/// The two teams are equal halves of the roster, and every player of the
/// roster is on exactly one of them.
pub proof fn law_teams_partition_the_roster(
    players: Seq<Player>,
    team_a: Seq<Player>,
    team_b: Seq<Player>,
    gap: int,
)
    requires
        is_balanced(players, team_a, team_b, gap),
    ensures
        2 * team_a.len() == players.len(),
        2 * team_b.len() == players.len(),
        team_a.to_multiset().add(team_b.to_multiset()) == players.to_multiset(),
{
    let sides = lemma_split_behind(players, team_a, team_b, gap);
    lemma_team_lens(players, sides);
    assert(sides.take(players.len() as int) =~= sides);
}

/// Taking one player out of a roster takes their skill out of the sum.
proof fn lemma_sum_without(players: Seq<Player>, j: int)
    requires
        0 <= j < players.len(),
    ensures
        skill_sum(players) == skill_sum(players.remove(j)) + players[j].skill,
    decreases players.len(),
{
    if j == players.len() - 1 {
        assert(players.remove(j) =~= players.drop_last());
    } else {
        lemma_sum_without(players.drop_last(), j);
        assert(players.remove(j).drop_last() =~= players.drop_last().remove(j));
        assert(players.remove(j).last() == players.last());
    }
}

/// The summed skill does not depend on the order of the players.
proof fn lemma_sum_ignores_order(players: Seq<Player>, other: Seq<Player>)
    requires
        players.to_multiset() == other.to_multiset(),
    ensures
        players.len() == other.len(),
        skill_sum(players) == skill_sum(other),
    decreases players.len(),
{
    broadcast use vstd::seq_lib::group_to_multiset_ensures;

    vstd::seq_lib::to_multiset_len(players);
    vstd::seq_lib::to_multiset_len(other);
    if players.len() > 0 {
        let last = players.len() - 1;
        let x = players[last];
        assert(players.contains(x));
        vstd::seq_lib::to_multiset_contains(players, x);
        vstd::seq_lib::to_multiset_contains(other, x);
        let j = choose|j: int| 0 <= j < other.len() && other[j] == x;
        lemma_sum_without(players, last);
        lemma_sum_without(other, j);
        lemma_sum_ignores_order(players.remove(last), other.remove(j));
    }
}

/// Any part of a roster is one team of a split of it.
proof fn lemma_split_for(players: Seq<Player>, part: Multiset<Player>) -> (sides: Seq<bool>)
    requires
        part.subset_of(players.to_multiset()),
    ensures
        sides.len() == players.len(),
        team(players, sides, true).to_multiset() == part,
    decreases players.len(),
{
    broadcast use vstd::seq_lib::group_to_multiset_ensures;

    if players.len() == 0 {
        assert(part =~= Multiset::empty());
        assert(Seq::<Player>::empty().to_multiset() =~= Multiset::empty());
        Seq::empty()
    } else {
        let front = players.drop_last();
        let x = players.last();
        assert(players =~= front.push(x));
        let joins = part.count(x) > 0;
        let rest = if joins {
            part.remove(x)
        } else {
            part
        };
        assert(rest.subset_of(front.to_multiset())) by {
            assert forall|p: Player| rest.count(p) <= front.to_multiset().count(p) by {
                assert(part.count(p) <= players.to_multiset().count(p));
            }
        }
        let start = lemma_split_for(front, rest);
        let sides = start.push(joins);
        assert(sides.take(start.len() as int) =~= start);
        lemma_team_ignores_tail(front, sides, start);
        if joins {
            assert(team(players, sides, true) == team(front, sides, true).push(x));
            assert(rest.insert(x) =~= part);
        }
        sides
    }
}

/// A reordered roster can be split at least as fairly.
proof fn lemma_reordered_is_no_worse(
    players: Seq<Player>,
    other: Seq<Player>,
    sides: Seq<bool>,
) -> (found: Seq<bool>)
    requires
        players.to_multiset() == other.to_multiset(),
        is_even_split(sides, players.len()),
    ensures
        is_even_split(found, other.len()),
        imbalance(other, found) == imbalance(players, sides),
{
    broadcast use vstd::seq_lib::group_to_multiset_ensures;

    let a = team(players, sides, true);
    let b = team(players, sides, false);
    lemma_sum_ignores_order(players, other);
    lemma_team_lens(players, sides);
    assert(sides.take(players.len() as int) =~= sides);
    assert(a.to_multiset().subset_of(other.to_multiset())) by {
        assert forall|p: Player| a.to_multiset().count(p) <= other.to_multiset().count(p) by {
            assert(a.to_multiset().add(b.to_multiset()).count(p) == other.to_multiset().count(p));
        }
    }
    let found = lemma_split_for(other, a.to_multiset());
    let c = team(other, found, true);
    let d = team(other, found, false);
    lemma_team_lens(other, found);
    assert(found.take(other.len() as int) =~= found);
    lemma_sum_ignores_order(a, c);
    law_split_keeps_total_skill(players, sides);
    law_split_keeps_total_skill(other, found);
    found
}

/// The imbalance does not depend on the order of the roster: a reordered roster is split just
/// as fairly.
pub proof fn law_reordering_keeps_the_imbalance(
    players: Seq<Player>,
    team_a: Seq<Player>,
    team_b: Seq<Player>,
    gap: int,
    other: Seq<Player>,
    other_a: Seq<Player>,
    other_b: Seq<Player>,
    other_gap: int,
)
    requires
        players.to_multiset() == other.to_multiset(),
        is_balanced(players, team_a, team_b, gap),
        is_balanced(other, other_a, other_b, other_gap),
    ensures
        gap == other_gap,
{
    let x = lemma_split_behind(players, team_a, team_b, gap);
    let y = lemma_split_behind(other, other_a, other_b, other_gap);
    let there = lemma_reordered_is_no_worse(players, other, x);
    law_balance_is_optimal(other, other_a, other_b, other_gap, there);
    let back = lemma_reordered_is_no_worse(other, players, y);
    law_balance_is_optimal(players, team_a, team_b, gap, back);
}

/// `shifted` is the roster `players` with `by` added to every skill.
pub open spec fn is_shifted(players: Seq<Player>, shifted: Seq<Player>, by: int) -> bool {
    &&& shifted.len() == players.len()
    &&& forall|i: int|
        #![trigger players[i]]
        #![trigger shifted[i]]
        0 <= i < players.len() ==> shifted[i].id == players[i].id && shifted[i].skill
            == players[i].skill + by
}

/// The ids of a team.
pub open spec fn ids_of(players: Seq<Player>) -> Seq<u64> {
    players.map_values(|p: Player| p.id)
}

proof fn lemma_shifted_team(
    players: Seq<Player>,
    shifted: Seq<Player>,
    by: int,
    sides: Seq<bool>,
    side: bool,
)
    requires
        is_shifted(players, shifted, by),
    ensures
        team(shifted, sides, side).len() == team(players, sides, side).len(),
        ids_of(team(shifted, sides, side)) == ids_of(team(players, sides, side)),
        skill_sum(team(shifted, sides, side)) == skill_sum(team(players, sides, side)) + team(
            players,
            sides,
            side,
        ).len() * by,
    decreases players.len(),
{
    let t = team(players, sides, side);
    let s = team(shifted, sides, side);
    if players.len() > 0 {
        let front = players.drop_last();
        let other = shifted.drop_last();
        lemma_shifted_team(front, other, by, sides, side);
        if sides[players.len() - 1] == side {
            assert(t.drop_last() =~= team(front, sides, side));
            assert(s.drop_last() =~= team(other, sides, side));
            assert(t.len() * by == (t.len() - 1) * by + by) by (nonlinear_arith);
            assert(shifted[players.len() - 1].skill == players[players.len() - 1].skill + by);
            assert forall|i: int| 0 <= i < t.len() implies ids_of(s)[i] == ids_of(t)[i] by {
                if i < t.len() - 1 {
                    assert(ids_of(s.drop_last())[i] == ids_of(t.drop_last())[i]);
                } else {
                    assert(t[i] == players.last() && s[i] == shifted.last());
                }
            }
        }
    } else {
        assert(0 * by == 0);
    }
    assert(ids_of(s) =~= ids_of(t));
}

proof fn lemma_shifted_imbalance(
    players: Seq<Player>,
    shifted: Seq<Player>,
    by: int,
    sides: Seq<bool>,
)
    requires
        is_shifted(players, shifted, by),
        is_even_split(sides, players.len()),
    ensures
        imbalance(shifted, sides) == imbalance(players, sides),
{
    lemma_shifted_team(players, shifted, by, sides, true);
    lemma_shifted_team(players, shifted, by, sides, false);
    lemma_team_lens(players, sides);
    assert(sides.take(players.len() as int) =~= sides);
    assert(team(players, sides, true).len() == team(players, sides, false).len());
}

/// What counts is who is how much stronger than whom: adding the same to every skill keeps
/// the imbalance, and the same players play together.
pub proof fn law_shifting_keeps_the_split(
    players: Seq<Player>,
    team_a: Seq<Player>,
    team_b: Seq<Player>,
    gap: int,
    shifted: Seq<Player>,
    shifted_a: Seq<Player>,
    shifted_b: Seq<Player>,
    shifted_gap: int,
    by: int,
)
    requires
        is_shifted(players, shifted, by),
        is_balanced(players, team_a, team_b, gap),
        is_balanced(shifted, shifted_a, shifted_b, shifted_gap),
    ensures
        gap == shifted_gap,
        ids_of(team_a) == ids_of(shifted_a),
        ids_of(team_b) == ids_of(shifted_b),
{
    let x = lemma_split_behind(players, team_a, team_b, gap);
    let y = lemma_split_behind(shifted, shifted_a, shifted_b, shifted_gap);
    assert(is_pinned_split(x, players.len()) && is_pinned_split(y, players.len()));
    lemma_shifted_imbalance(players, shifted, by, x);
    lemma_shifted_imbalance(players, shifted, by, y);
    law_code_is_injective(x, y);
    lemma_shifted_team(players, shifted, by, x, true);
    lemma_shifted_team(players, shifted, by, x, false);
}

/// The summed skill is what adding up the skills gives.
proof fn lemma_sum_is_fold(players: Seq<Player>)
    ensures
        skill_sum(players) == players.fold_left(0int, |sum: int, p: Player| sum + p.skill),
    decreases players.len(),
{
    reveal_with_fuel(Seq::fold_left, 2);
    if players.len() > 0 {
        lemma_sum_is_fold(players.drop_last());
    }
}

/// No two teams are fairer: however the players of the roster are dealt into two teams of
/// equal size, in whatever order, the summed skills of those teams are at least as far apart as
/// those of the teams that are returned, and these are exactly `gap` apart.
pub proof fn law_no_two_teams_are_fairer(
    players: Seq<Player>,
    team_a: Seq<Player>,
    team_b: Seq<Player>,
    gap: int,
    one: Seq<Player>,
    two: Seq<Player>,
)
    requires
        is_balanced(players, team_a, team_b, gap),
        one.len() == two.len(),
        one.to_multiset().add(two.to_multiset()) == players.to_multiset(),
    ensures
        gap >= 0,
        ({
            let a = team_a.fold_left(0int, |sum: int, p: Player| sum + p.skill);
            let b = team_b.fold_left(0int, |sum: int, p: Player| sum + p.skill);
            a == b + gap || b == a + gap
        }),
        ({
            let x = one.fold_left(0int, |sum: int, p: Player| sum + p.skill);
            let y = two.fold_left(0int, |sum: int, p: Player| sum + p.skill);
            x - y >= gap || y - x >= gap
        }),
{
    broadcast use vstd::seq_lib::group_to_multiset_ensures;

    lemma_sum_is_fold(team_a);
    lemma_sum_is_fold(team_b);
    lemma_sum_is_fold(one);
    lemma_sum_is_fold(two);
    assert(one.to_multiset().subset_of(players.to_multiset())) by {
        assert forall|p: Player| one.to_multiset().count(p) <= players.to_multiset().count(p) by {
            assert(one.to_multiset().add(two.to_multiset()).count(p)
                == players.to_multiset().count(p));
        }
    }
    let sides = lemma_split_for(players, one.to_multiset());
    let x = team(players, sides, true);
    let y = team(players, sides, false);
    lemma_team_lens(players, sides);
    assert(sides.take(players.len() as int) =~= sides);
    assert(y.to_multiset() =~= two.to_multiset()) by {
        assert forall|p: Player| y.to_multiset().count(p) == two.to_multiset().count(p) by {
            assert(x.to_multiset().add(y.to_multiset()).count(p)
                == players.to_multiset().count(p));
            assert(one.to_multiset().add(two.to_multiset()).count(p)
                == players.to_multiset().count(p));
        }
    }
    lemma_sum_ignores_order(x, one);
    lemma_sum_ignores_order(y, two);
    assert(is_even_split(sides, players.len()));
    law_balance_is_optimal(players, team_a, team_b, gap, sides);
}

/// Of two splits the one with the lower code leaves out the last player on whom they differ.
proof fn lemma_lower_code(a: Seq<bool>, b: Seq<bool>) -> (i: int)
    requires
        a.len() == b.len(),
        code(a) < code(b),
    ensures
        0 <= i < a.len(),
        !a[i],
        b[i],
        forall|j: int| i < j < a.len() ==> a[j] == b[j],
    decreases a.len(),
{
    let x = a.drop_first();
    let y = b.drop_first();
    if code(x) < code(y) {
        let i = lemma_lower_code(x, y) + 1;
        assert(x[i - 1] == a[i] && y[i - 1] == b[i]);
        assert forall|j: int| i < j < a.len() implies a[j] == b[j] by {
            assert(x[j - 1] == a[j] && y[j - 1] == b[j]);
        }
        i
    } else {
        assert(code(x) == code(y));
        law_code_is_injective(x, y);
        assert forall|j: int| 0 < j < a.len() implies a[j] == b[j] by {
            assert(x[j - 1] == a[j] && y[j - 1] == b[j]);
        }
        0
    }
}

/// The first of the fairest is taken: player 0 is on team A, and any other even split with
/// player 0 on team A that is as fair has on its team A the last player on whom the two differ.
pub proof fn law_first_of_the_fairest_is_taken(
    players: Seq<Player>,
    team_a: Seq<Player>,
    team_b: Seq<Player>,
    gap: int,
    other: Seq<bool>,
) -> (sides: Seq<bool>)
    requires
        is_balanced(players, team_a, team_b, gap),
        players.len() > 0,
        other.len() == players.len(),
        other[0],
        2 * team(players, other, true).len() == players.len(),
        ({
            let x = team(players, other, true).fold_left(
                0int,
                |sum: int, p: Player| sum + p.skill,
            );
            let y = team(players, other, false).fold_left(
                0int,
                |sum: int, p: Player| sum + p.skill,
            );
            x == y + gap || y == x + gap
        }),
    ensures
        sides.len() == players.len(),
        sides[0],
        team_a == team(players, sides, true),
        team_b == team(players, sides, false),
        sides == other || exists|i: int|
            0 <= i < other.len() && #[trigger] other[i] && !sides[i] && forall|j: int|
                i < j < other.len() ==> other[j] == sides[j],
{
    let sides = lemma_split_behind(players, team_a, team_b, gap);
    lemma_sum_is_fold(team(players, other, true));
    lemma_sum_is_fold(team(players, other, false));
    lemma_team_lens(players, other);
    assert(other.take(players.len() as int) =~= other);
    assert(is_pinned_split(other, players.len()));
    assert(imbalance(players, other) == gap) by {
        assert(imbalance(players, sides) >= 0);
    }
    assert(is_pinned_split(sides, players.len()));
    if code(sides) < code(other) {
        let i = lemma_lower_code(sides, other);
        assert(other[i] && !sides[i]);
    } else {
        law_code_is_injective(sides, other);
    }
    sides
}

/// Teams are dealt in the order of the roster: each player in turn goes to the end of the team
/// of their side.
pub proof fn law_teams_are_dealt_in_order(players: Seq<Player>, sides: Seq<bool>, i: int)
    requires
        0 <= i < players.len() <= sides.len(),
    ensures
        team(players.take(i + 1), sides, sides[i]) == team(players.take(i), sides, sides[i]).push(
            players[i],
        ),
        team(players.take(i + 1), sides, !sides[i]) == team(players.take(i), sides, !sides[i]),
        team(players.take(0), sides, sides[i]).len() == 0,
{
    assert(players.take(i + 1).drop_last() =~= players.take(i));
    assert(players.take(i + 1).last() == players[i]);
}

/// The two teams together have all the skill of the roster.
pub proof fn law_teams_hold_all_the_skill(
    players: Seq<Player>,
    team_a: Seq<Player>,
    team_b: Seq<Player>,
    gap: int,
)
    requires
        is_balanced(players, team_a, team_b, gap),
    ensures
        skill_sum(players) == team_a.fold_left(0int, |sum: int, p: Player| sum + p.skill)
            + team_b.fold_left(0int, |sum: int, p: Player| sum + p.skill),
        skill_sum(players) == players.fold_left(0int, |sum: int, p: Player| sum + p.skill),
{
    let sides = lemma_split_behind(players, team_a, team_b, gap);
    law_split_keeps_total_skill(players, sides);
    lemma_sum_is_fold(team_a);
    lemma_sum_is_fold(team_b);
    lemma_sum_is_fold(players);
}

} // verus!
