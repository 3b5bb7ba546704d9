//! What the record of a match says of its players.
use crate::arrivals::Waiter;
use crate::balance;
use crate::engine;
use crate::engine::EngineState;
use crate::player::{MatchView, Player};
use vstd::prelude::*;

verus! {

/// The players of a match are those of its group: the same ids and skills, and the readings of
/// the clock at which they came, each on exactly one of two teams of equal size. The teams are
/// the fairest of the players in the order of the group.
pub proof fn law_match_has_the_players_of_its_group(
    state: EngineState,
    now_ns: u64,
    group: Seq<Waiter>,
    formed: MatchView,
    i: int,
) -> (player: Player)
    requires
        state.is_match(now_ns, group, formed),
        0 <= i < group.len(),
    ensures
        player.id == group[i].id,
        player.skill == group[i].skill,
        player.enqueued_at == group[i].ticket.at,
        formed.team_a.contains(player) || formed.team_b.contains(player),
        formed.team_a.len() == formed.team_b.len(),
        formed.team_a.len() + formed.team_b.len() == group.len(),
        formed.team_a.to_multiset().add(formed.team_b.to_multiset()) == Seq::new(
            group.len(),
            |n: int|
                Player {
                    id: group[n].id,
                    skill: group[n].skill,
                    enqueued_at: group[n].ticket.at,
                },
        ).to_multiset(),
        balance::is_balanced(
            Seq::new(
                group.len(),
                |n: int|
                    Player {
                        id: group[n].id,
                        skill: group[n].skill,
                        enqueued_at: group[n].ticket.at,
                    },
            ),
            formed.team_a,
            formed.team_b,
            formed.imbalance as int,
        ),
{
    let roster = engine::players_of(group);
    let player = Player {
        id: group[i].id,
        skill: group[i].skill,
        enqueued_at: group[i].ticket.at,
    };
    balance::law_teams_partition_the_roster(
        roster,
        formed.team_a,
        formed.team_b,
        formed.imbalance as int,
    );
    assert(roster =~= Seq::new(
        group.len(),
        |n: int|
            Player { id: group[n].id, skill: group[n].skill, enqueued_at: group[n].ticket.at },
    ));
    assert(roster[i] == player);
    lemma_on_a_team(roster, formed.team_a, formed.team_b, player);
    player
}

/// Whoever is on the roster is on a team, and the other way round.
proof fn lemma_on_a_team(
    roster: Seq<Player>,
    team_a: Seq<Player>,
    team_b: Seq<Player>,
    player: Player,
)
    requires
        team_a.to_multiset().add(team_b.to_multiset()) == roster.to_multiset(),
    ensures
        roster.contains(player) <==> team_a.contains(player) || team_b.contains(player),
{
    vstd::seq_lib::to_multiset_contains(roster, player);
    vstd::seq_lib::to_multiset_contains(team_a, player);
    vstd::seq_lib::to_multiset_contains(team_b, player);
    assert(team_a.to_multiset().add(team_b.to_multiset()).count(player)
        == roster.to_multiset().count(player));
}

/// The recorded spread spans the match and is attained: no two of its players are further apart
/// in skill, and two of them are exactly so far apart.
pub proof fn law_spread_is_that_of_the_players(
    id: u64,
    group: Seq<Player>,
    total_wait_us: u64,
    formed: MatchView,
) -> (ends: (Player, Player))
    requires
        engine::is_match_of(id, group, total_wait_us, formed),
        group.len() > 0,
    ensures
        forall|a: Player, b: Player|
            #![trigger (formed.team_a + formed.team_b).contains(a), (formed.team_a
                + formed.team_b).contains(b)]
            (formed.team_a + formed.team_b).contains(a) && (formed.team_a
                + formed.team_b).contains(b) ==> a.skill - b.skill <= formed.skill_spread,
        (formed.team_a + formed.team_b).contains(ends.0),
        (formed.team_a + formed.team_b).contains(ends.1),
        ends.1.skill - ends.0.skill == formed.skill_spread,
{
    let all = formed.team_a + formed.team_b;
    balance::law_teams_partition_the_roster(
        group,
        formed.team_a,
        formed.team_b,
        formed.imbalance as int,
    );
    engine::law_spread_spans_the_group(group);
    assert forall|p: Player| #[trigger] all.contains(p) <==> group.contains(p) by {
        lemma_on_a_team(group, formed.team_a, formed.team_b, p);
        lemma_in_both(formed.team_a, formed.team_b, p);
    }
    assert forall|a: Player, b: Player|
        #![trigger all.contains(a), all.contains(b)]
        all.contains(a) && all.contains(b) implies a.skill - b.skill <= formed.skill_spread by {
        let i = choose|i: int| 0 <= i < group.len() && group[i] == a;
        let j = choose|j: int| 0 <= j < group.len() && group[j] == b;
        assert(group[i].skill <= engine::highest_skill(group));
        assert(engine::lowest_skill(group) <= group[j].skill);
    }
    let low = choose|i: int|
        0 <= i < group.len() && (#[trigger] group[i]).skill == engine::lowest_skill(group);
    let high = choose|i: int|
        0 <= i < group.len() && (#[trigger] group[i]).skill == engine::highest_skill(group);
    assert(group.contains(group[low]) && group.contains(group[high]));
    assert(all.contains(group[low]) && all.contains(group[high]));
    (group[low], group[high])
}

proof fn lemma_in_both(team_a: Seq<Player>, team_b: Seq<Player>, player: Player)
    ensures
        (team_a + team_b).contains(player) <==> team_a.contains(player) || team_b.contains(player),
{
    let all = team_a + team_b;
    if team_a.contains(player) {
        let i = choose|i: int| 0 <= i < team_a.len() && team_a[i] == player;
        assert(all[i] == player);
    }
    if team_b.contains(player) {
        let i = choose|i: int| 0 <= i < team_b.len() && team_b[i] == player;
        assert(all[i + team_a.len()] == player);
    }
    if all.contains(player) {
        let i = choose|i: int| 0 <= i < all.len() && all[i] == player;
        if i < team_a.len() {
            assert(team_a[i] == player);
        } else {
            assert(team_b[i - team_a.len()] == player);
        }
    }
}

/// The recorded skill of a match is that of its two teams together, and its imbalance is how
/// far apart theirs are.
pub proof fn law_skill_and_imbalance_are_those_of_the_teams(
    id: u64,
    group: Seq<Player>,
    total_wait_us: u64,
    formed: MatchView,
)
    requires
        engine::is_match_of(id, group, total_wait_us, formed),
    ensures
        formed.id == id,
        formed.total_wait_us == total_wait_us,
        ({
            let a = formed.team_a.fold_left(0int, |sum: int, p: Player| sum + p.skill);
            let b = formed.team_b.fold_left(0int, |sum: int, p: Player| sum + p.skill);
            &&& formed.total_skill == a + b
            &&& a == b + formed.imbalance || b == a + formed.imbalance
        }),
{
    balance::law_teams_partition_the_roster(
        group,
        formed.team_a,
        formed.team_b,
        formed.imbalance as int,
    );
    balance::law_no_two_teams_are_fairer(
        group,
        formed.team_a,
        formed.team_b,
        formed.imbalance as int,
        formed.team_a,
        formed.team_b,
    );
    balance::law_teams_hold_all_the_skill(
        group,
        formed.team_a,
        formed.team_b,
        formed.imbalance as int,
    );
}

/// The time that each of a group has waited, added up, never shrinks with one more.
proof fn lemma_waits_fold(group: Seq<Waiter>, now_ns: u64)
    requires
        forall|i: int| 0 <= i < group.len() ==> (#[trigger] group[i]).ticket.at_ns <= now_ns,
    ensures
        group.fold_left(
            0int,
            |sum: int, w: Waiter| sum + (now_ns - w.ticket.at_ns) / 1000,
        ) >= 0,
        group.fold_left(
            0int,
            |sum: int, w: Waiter| sum + (now_ns - w.ticket.at_ns) / 1000,
        ) <= u64::MAX ==> engine::wait_sum(engine::waits_of(group, now_ns)) == group.fold_left(
            0int,
            |sum: int, w: Waiter| sum + (now_ns - w.ticket.at_ns) / 1000,
        ),
    decreases group.len(),
{
    reveal_with_fuel(Seq::fold_left, 2);
    if group.len() > 0 {
        let front = group.drop_last();
        assert forall|i: int| 0 <= i < front.len() implies (#[trigger] front[i]).ticket.at_ns
            <= now_ns by {
            assert(front[i] == group[i]);
        }
        lemma_waits_fold(front, now_ns);
        let waits = engine::waits_of(group, now_ns);
        assert(waits.drop_last() =~= engine::waits_of(front, now_ns));
        assert(group.last() == group[group.len() - 1]);
        assert(waits.last() == (now_ns - group.last().ticket.at_ns) / 1000);
    }
}

/// The recorded wait of a match is the time that passed since each of its players came, in
/// whole microseconds, added up (as long as that fits 64 bits).
pub proof fn law_recorded_wait_is_that_of_the_players(
    state: EngineState,
    now_ns: u64,
    group: Seq<Waiter>,
    formed: MatchView,
)
    requires
        state.is_match(now_ns, group, formed),
        forall|i: int| 0 <= i < group.len() ==> (#[trigger] group[i]).ticket.at_ns <= now_ns,
        group.fold_left(
            0int,
            |sum: int, w: Waiter| sum + (now_ns - w.ticket.at_ns) / 1000,
        ) <= u64::MAX,
    ensures
        formed.total_wait_us == group.fold_left(
            0int,
            |sum: int, w: Waiter| sum + (now_ns - w.ticket.at_ns) / 1000,
        ),
{
    lemma_waits_fold(group, now_ns);
}

/// A match records the skills of those who were taken: its spread is the greatest difference of
/// two of their skills, and its total skill is what all of them add up to.
pub proof fn law_match_records_the_skills_of_its_group(
    state: EngineState,
    now_ns: u64,
    group: Seq<Waiter>,
    formed: MatchView,
) -> (ends: (int, int))
    requires
        state.is_match(now_ns, group, formed),
        group.len() > 0,
    ensures
        forall|i: int, j: int|
            0 <= i < group.len() && 0 <= j < group.len() ==> (#[trigger] group[i]).skill - (
            #[trigger] group[j]).skill <= formed.skill_spread,
        0 <= ends.0 < group.len(),
        0 <= ends.1 < group.len(),
        group[ends.1].skill - group[ends.0].skill == formed.skill_spread,
        formed.total_skill == group.fold_left(0int, |sum: int, w: Waiter| sum + w.skill),
{
    let roster = engine::players_of(group);
    engine::law_spread_spans_the_group(roster);
    assert forall|i: int, j: int| 0 <= i < group.len() && 0 <= j < group.len() implies (
    #[trigger] group[i]).skill - (#[trigger] group[j]).skill <= formed.skill_spread by {
        assert(roster[i].skill == group[i].skill && roster[j].skill == group[j].skill);
    }
    let low = choose|i: int|
        0 <= i < roster.len() && (#[trigger] roster[i]).skill == engine::lowest_skill(roster);
    let high = choose|i: int|
        0 <= i < roster.len() && (#[trigger] roster[i]).skill == engine::highest_skill(roster);
    assert(roster[low].skill == group[low].skill && roster[high].skill == group[high].skill);
    lemma_roster_skill(group);
    (low, high)
}

proof fn lemma_roster_skill(group: Seq<Waiter>)
    ensures
        balance::skill_sum(engine::players_of(group)) == group.fold_left(
            0int,
            |sum: int, w: Waiter| sum + w.skill,
        ),
    decreases group.len(),
{
    reveal_with_fuel(Seq::fold_left, 2);
    if group.len() > 0 {
        lemma_roster_skill(group.drop_last());
        let roster = engine::players_of(group);
        assert(roster.drop_last() =~= engine::players_of(group.drop_last()));
        assert(roster.last() == group.last().as_player());
    }
}

} // verus!
