use matchmaker::balance::{balance_teams, total_skill};
use matchmaker::player::Player;

fn roster(skills: &[u32]) -> Vec<Player> {
    skills.iter().enumerate().map(|(i, &s)| Player::new(i as u64, s)).collect()
}

fn ids(team: &[Player]) -> Vec<u64> {
    team.iter().map(|p| p.id).collect()
}

#[test]
fn perfect_split_is_found() {
    let players = roster(&[100, 100, 100, 100, 100, 100, 100, 100, 100, 100]);
    let (a, b, imb) = balance_teams(&players);
    assert_eq!(a.len(), 5);
    assert_eq!(b.len(), 5);
    assert_eq!(imb, 0);
}

#[test]
fn optimal_imbalance_for_skewed_roster() {
    let players = roster(&[1000, 1000, 1000, 1000, 100, 100, 100, 100, 50, 50]);
    let (_a, _b, imb) = balance_teams(&players);

    // Independently compute the true optimum.
    let n = players.len();
    let total: i64 = players.iter().map(|p| p.skill as i64).sum();
    let mut best = i64::MAX;
    for mask in 0u32..(1 << n) {
        if mask.count_ones() != (n as u32 / 2) {
            continue;
        }
        let mut sa = 0i64;
        for i in 0..n {
            if mask & (1 << i) != 0 {
                sa += players[i].skill as i64;
            }
        }
        best = best.min((sa - (total - sa)).abs());
    }
    assert_eq!(imb as i64, best);
}

#[test]
fn teams_are_the_optimal_ones_in_roster_order() {
    let (a, b, imb) = balance_teams(&roster(&[1, 2, 3, 4]));
    assert_eq!(ids(&a), vec![0, 3]);
    assert_eq!(ids(&b), vec![1, 2]);
    assert_eq!(imb, 0);
}

#[test]
fn ties_go_to_the_split_that_is_tried_first() {
    let (a, b, imb) = balance_teams(&roster(&[10, 10, 10, 10]));
    assert_eq!(ids(&a), vec![0, 1]);
    assert_eq!(ids(&b), vec![2, 3]);
    assert_eq!(imb, 0);
    let (a, _, imb) = balance_teams(&roster(&[0, 9, 9, 9]));
    assert_eq!(ids(&a), vec![0, 1]);
    assert_eq!(imb, 9);
}

#[test]
fn player_zero_is_always_in_team_a() {
    let (a, b, imb) = balance_teams(&roster(&[500, 20]));
    assert_eq!(ids(&a), vec![0]);
    assert_eq!(ids(&b), vec![1]);
    assert_eq!(imb, 480);
}

#[test]
fn extreme_skills_do_not_overflow() {
    let top = u32::MAX;
    let (a, b, imb) = balance_teams(&roster(&[top, 0, 0, 0, 0, 0, 0, 0, 0, 0]));
    assert_eq!((a.len(), b.len()), (5, 5));
    assert_eq!(imb, top);
    let skills = [top; 20];
    let (a, b, imb) = balance_teams(&roster(&skills));
    assert_eq!((a.len(), b.len(), imb), (10, 10, 0));
    assert_eq!(total_skill(&roster(&skills)), 20 * top as u64);
}

#[test]
fn empty_roster_is_balanced() {
    let (a, b, imb) = balance_teams(&roster(&[]));
    assert!(a.is_empty() && b.is_empty());
    assert_eq!(imb, 0);
}

#[test]
fn reordering_keeps_the_imbalance() {
    let skills = [7u32, 1, 30, 22, 9, 14, 3, 3];
    let (_, _, imbalance) = balance_teams(&roster(&skills));
    let mut turned = skills;
    for _ in 0..skills.len() {
        turned.rotate_left(1);
        assert_eq!(balance_teams(&roster(&turned)).2, imbalance);
    }
    turned.reverse();
    assert_eq!(balance_teams(&roster(&turned)).2, imbalance);
}

#[test]
fn adding_the_same_to_every_skill_keeps_the_teams() {
    let skills = [7u32, 1, 30, 22, 9, 14];
    let shifted: Vec<u32> = skills.iter().map(|s| s + 4000).collect();
    let (a, b, imbalance) = balance_teams(&roster(&skills));
    let (c, d, same) = balance_teams(&roster(&shifted));
    assert_eq!((ids(&a), ids(&b), imbalance), (ids(&c), ids(&d), same));
}
