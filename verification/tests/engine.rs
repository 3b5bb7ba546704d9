use matchmaker::engine::{assemble, read_waits, roster_of, sum_waits, Config, Engine};
use matchmaker::player::Player;
use std::collections::HashSet;
use std::time::{Duration, Instant};

/// The band of a group that has not waited.
fn fresh(_wait_ns: u64) -> u32 {
    80
}

/// Attempts until every waiter of every shard has been the seed in vain.
fn drain(engine: &mut Engine, band: u32) -> usize {
    let mut formed = 0;
    let mut misses = 0;
    while misses < engine.config().num_shards * (engine.queued() + 1) {
        if engine.try_match(|_| band) {
            formed += 1;
            misses = 0;
        } else {
            misses += 1;
        }
    }
    formed
}

fn small(num_shards: usize, skill_max: u32, team_size: usize, keep_recent: usize) -> Engine {
    Engine::new(Config { num_shards, skill_max, team_size, keep_recent })
}

/// The ids of the players of the last match, in ascending order.
fn last_ids(engine: &Engine) -> Vec<u64> {
    let m = engine.recent_matches().pop().unwrap();
    let mut ids: Vec<u64> = m.team_a.iter().chain(m.team_b.iter()).map(|p| p.id).collect();
    ids.sort();
    ids
}

#[test]
fn forms_balanced_matches_and_evicts() {
    let mut cfg = Config::default();
    cfg.keep_recent = 8;
    let mut engine = Engine::new(cfg);

    // Enqueue 50 players => expect 5 matches, all players evicted.
    for id in 0..50u64 {
        engine.enqueue(id, 2400 + (id as u32 % 50));
    }
    drain(&mut engine, 80);
    engine.stop();

    let snap = engine.metrics.snapshot(engine.queued());
    assert_eq!(snap.matches, 5, "should form exactly 5 matches");
    assert_eq!(snap.players_matched, 50);
    assert_eq!(engine.queued(), 0, "all players evicted atomically");

    for mch in engine.recent_matches() {
        assert_eq!(mch.team_a.len(), 5);
        assert_eq!(mch.team_b.len(), 5);
    }
    assert_eq!(engine.recent_matches().len(), 5);
    assert!(!engine.is_running());
}

#[test]
fn players_are_conserved_and_matched_once() {
    let mut cfg = Config::default();
    cfg.keep_recent = 1000;
    let mut engine = Engine::new(cfg);
    for id in 0..2000u64 {
        engine.enqueue(id, 2000 + (id as u32 % 1000));
        if id % 7 == 0 {
            engine.try_match(fresh);
        }
        let m = engine.metrics();
        assert_eq!(m.players_matched + engine.queued() as u64, m.enqueued);
        assert_eq!(m.players_matched, 10 * m.matches);
    }
    drain(&mut engine, 80);
    let snap = engine.metrics.snapshot(engine.queued());
    assert!(snap.players_matched <= snap.enqueued);
    assert_eq!(
        snap.players_matched as usize + engine.queued(),
        2000,
        "players are conserved: matched + waiting == enqueued"
    );
    assert_eq!(snap.enqueued, 2000);
    assert_eq!(snap.players_matched, 10 * snap.matches);
    let mut seen = HashSet::new();
    for m in engine.recent_matches() {
        for p in m.team_a.iter().chain(m.team_b.iter()) {
            assert!(seen.insert(p.id), "player {} is in two matches", p.id);
        }
    }
    assert_eq!(seen.len() as u64, snap.players_matched);
}

#[test]
fn default_configuration() {
    let cfg = Config::default();
    assert_eq!(
        (cfg.num_shards, cfg.skill_max, cfg.team_size, cfg.keep_recent),
        (32, 5000, 5, 64)
    );
    let engine = Engine::new(cfg);
    assert_eq!(*engine.config(), cfg);
    assert_eq!(engine.queued(), 0);
    assert!(engine.is_running());
    assert!(engine.recent_matches().is_empty());
}

#[test]
fn oldest_member_must_accept_everyone() {
    let mut engine = small(2, 100, 2, 8);
    engine.enqueue(0, 41);
    engine.enqueue(1, 42);
    engine.enqueue(2, 51);
    engine.enqueue(3, 61);
    // around 51 all four are in reach, but the oldest, at 41, does not accept 61
    for _ in 0..6 {
        assert!(!engine.try_match(|_| 10));
    }
    assert_eq!(engine.queued(), 4);
    // with a band of 20 they fit
    assert!(engine.try_match(|_| 20));
    assert_eq!(engine.queued(), 0);
}

#[test]
fn newcomers_do_not_veto() {
    // the oldest, at 50, has waited long enough to accept everyone; the others have not
    let mut engine = small(1, 100, 2, 1);
    let start = Instant::now();
    engine.enqueue(0, 50);
    while start.elapsed().as_micros() < 3000 {}
    for (id, skill) in [(1, 20), (2, 80), (3, 55)] {
        engine.enqueue(id, skill);
    }
    let relaxed = |wait_ns: u64| if wait_ns >= 2_900_000 { 30 } else { 0 };
    assert!(!engine.try_match(relaxed), "around 20 nobody else is in reach");
    assert!(engine.try_match(relaxed));
    assert_eq!(last_ids(&engine), vec![0, 1, 2, 3]);
}

#[test]
fn nobody_starves_behind_the_lowest_waiter() {
    let mut engine = small(1, 100, 1, 8);
    engine.enqueue(0, 0);
    engine.enqueue(1, 50);
    engine.enqueue(2, 50);
    assert!(!engine.try_match(|_| 10));
    assert!(engine.try_match(|_| 10));
    assert_eq!(last_ids(&engine), vec![1, 2]);
    assert_eq!(engine.queued(), 1);
    assert_eq!(engine.peek_seed().unwrap().id, 0);
}

#[test]
fn longest_waiter_has_their_turn_wherever_they_stand() {
    let mut engine = small(2, 100, 2, 1);
    engine.enqueue(1, 40);
    for (id, skill) in [(2, 0), (3, 12), (4, 33), (5, 47), (6, 50), (7, 60)] {
        engine.enqueue(id, skill);
    }
    // 0, 12 and 33 have too few peers in reach, and so has 60 in the other shard
    let mut seeds = Vec::new();
    loop {
        seeds.push(engine.peek_seed().unwrap().id);
        if engine.try_match(|_| 10) {
            break;
        }
    }
    assert_eq!(seeds, vec![2, 7, 3, 7, 4, 7, 1]);
    assert_eq!(last_ids(&engine), vec![1, 4, 5, 6]);
}

#[test]
fn one_seed_is_tried_per_attempt() {
    let mut engine = small(2, 100, 1, 8);
    for (id, skill) in [(0, 10), (1, 45), (2, 51), (3, 58)] {
        engine.enqueue(id, skill);
    }
    assert!(!engine.try_match(|_| 10), "10 is the seed, and nobody is near");
    assert!(engine.try_match(|_| 10), "51 is the seed, and 45 is nearest");
    assert_eq!(last_ids(&engine), vec![1, 2]);
    let m = engine.recent_matches().pop().unwrap();
    assert_eq!((m.imbalance, m.skill_spread), (6, 6));
    assert_eq!(engine.queued(), 2);
}

#[test]
fn a_lobby_is_not_missed_because_of_somebody_nearer() {
    let mut engine = small(2, 19, 2, 1);
    for (id, skill) in [(0, 3), (1, 10), (2, 5), (3, 18), (4, 19)] {
        engine.enqueue(id, skill);
    }
    assert!(!engine.try_match(|_| 10));
    // around 10 the player at 3 is nearer than the one at 19, but does not accept 18
    assert!(engine.try_match(|_| 10));
    assert_eq!(last_ids(&engine), vec![1, 2, 3, 4]);
    assert_eq!(engine.peek_seed().unwrap().id, 0);
}

#[test]
fn every_waiter_has_their_turn_as_the_seed() {
    let mut engine = small(1, 100, 1, 0);
    for (id, skill) in [(1, 80), (2, 10), (3, 40), (4, 60)] {
        engine.enqueue(id, skill);
    }
    let mut seeds = Vec::new();
    for _ in 0..5 {
        seeds.push(engine.peek_seed().unwrap().id);
        assert!(!engine.try_match(|_| 0));
    }
    assert_eq!(seeds, vec![2, 3, 4, 1, 2]);
    // who comes meanwhile has their turn where they stand
    engine.enqueue(5, 50);
    assert_eq!(engine.peek_seed().unwrap().id, 3);
    assert!(!engine.try_match(|_| 0));
    assert_eq!(engine.peek_seed().unwrap().id, 5);
}

#[test]
fn a_match_does_not_move_the_place_in_line() {
    let mut engine = small(1, 100, 1, 0);
    for (id, skill) in [(1, 10), (2, 50), (3, 50), (4, 90)] {
        engine.enqueue(id, skill);
    }
    assert!(!engine.try_match(|_| 0));
    assert!(engine.try_match(|_| 0));
    // the seed at 50 plays, and the line goes on behind 10
    assert_eq!(engine.peek_seed().unwrap().id, 4);
    engine.enqueue(5, 20);
    assert_eq!(engine.peek_seed().unwrap().id, 5);
}

#[test]
fn players_are_listed_by_skill_and_id() {
    let mut engine = small(1, 10, 1, 1);
    engine.enqueue(1, 5);
    engine.enqueue(2, 5);
    assert!(engine.try_match(|_| 0));
    let m = engine.recent_matches().pop().unwrap();
    assert_eq!((m.team_a[0].id, m.team_b[0].id), (2, 1));
}

#[test]
fn clock_never_runs_backwards() {
    let mut engine = small(1, 10, 1, 1);
    let start = Instant::now();
    engine.enqueue_at(1, 0, start);
    engine.enqueue_at(2, 10, start);
    let grown = |wait_ns: u64| if wait_ns >= 10_000_000 { 10 } else { 0 };
    assert!(!engine.try_match_at(start, grown));
    assert!(!engine.try_match_at(start + Duration::from_millis(10), |_| 0));
    // a later attempt sees no shorter waits, even where the reading is an earlier one
    assert!(engine.try_match_at(start, grown));
    assert_eq!(engine.metrics().total_wait_us, 20_000);
}

#[test]
fn waits_are_whole_microseconds() {
    let mut engine = small(1, 10, 1, 1);
    let start = Instant::now();
    engine.enqueue_at(1, 0, start + Duration::from_nanos(600));
    engine.enqueue_at(2, 0, start + Duration::from_nanos(700));
    assert!(engine.try_match_at(start + Duration::from_nanos(1600), |_| 0));
    // 1000 ns are one microsecond, 900 ns are none
    assert_eq!(engine.metrics().total_wait_us, 1);
}

#[test]
fn oldest_players_are_matched_first() {
    let mut cfg = Config::default();
    cfg.num_shards = 1;
    cfg.team_size = 1;
    cfg.keep_recent = 8;
    let mut engine = Engine::new(cfg);
    engine.enqueue(1, 100);
    engine.enqueue(2, 100);
    engine.enqueue(3, 100);
    assert!(engine.try_match(fresh));
    assert_eq!(last_ids(&engine), vec![1, 2]);
    assert_eq!(engine.peek_seed().unwrap().id, 3);
    // the id does not matter, only who came first
    let mut engine = Engine::new(cfg);
    for id in [9, 5, 7] {
        engine.enqueue(id, 100);
    }
    assert!(engine.try_match(fresh));
    assert_eq!(last_ids(&engine), vec![5, 9]);
}

#[test]
fn a_player_who_is_enqueued_twice_waits_and_counts_once() {
    let mut engine = Engine::new(Config::default());
    engine.enqueue(7, 100);
    engine.enqueue(7, 100);
    assert_eq!(engine.queued(), 1);
    assert_eq!(engine.metrics().enqueued, 1);
    assert_eq!(engine.metrics().max_queue_depth, 1);
    // at another skill it is another entry
    engine.enqueue(7, 101);
    assert_eq!(engine.queued(), 2);
}

#[test]
fn enqueueing_again_gives_a_new_ticket() {
    let mut engine = small(1, 10, 1, 1);
    for id in [1, 2, 1, 3] {
        engine.enqueue(id, 5);
    }
    assert_eq!(engine.peek_seed().unwrap().id, 2, "player 1 lost their place");
    assert!(engine.try_match(|_| 0));
    assert_eq!(last_ids(&engine), vec![1, 2]);
    assert_eq!(engine.peek_seed().unwrap().id, 3);
}

#[test]
fn skills_are_clamped() {
    let mut engine = small(1, 100, 1, 1);
    engine.enqueue(1, 4_000_000_000);
    engine.enqueue(2, 99);
    assert_eq!(engine.peek_seed().unwrap().id, 2);
    assert!(engine.try_match(|_| 1));
    let m = engine.recent_matches().pop().unwrap();
    assert_eq!(m.team_a[0].skill, 99);
    assert_eq!(m.team_b[0].skill, 100);
    assert_eq!((m.imbalance, m.skill_spread, m.total_skill), (1, 1, 199));
}

#[test]
fn a_narrow_band_waits_and_a_wider_one_matches() {
    let mut engine = small(1, 1000, 1, 0);
    engine.enqueue(1, 100);
    engine.enqueue(2, 150);
    assert!(!engine.try_match(|_| 49));
    assert_eq!(engine.queued(), 2);
    assert!(engine.try_match(|_| 50));
    assert_eq!(engine.queued(), 0);
    assert!(engine.recent_matches().is_empty(), "nothing is retained");
    assert!(!engine.try_match(|_| 50));
    assert_eq!(engine.metrics().attempts, 3);
    assert_eq!(engine.metrics().empty_attempts, 1);
    assert_eq!(engine.metrics().max_queue_depth, 2);
}

#[test]
fn teams_of_any_size_may_wait() {
    let mut engine = small(1, 10, 1000, 0);
    for id in 0..100u64 {
        engine.enqueue(id, 5);
    }
    assert!(!engine.try_match(|_| 10));
    assert_eq!(engine.queued(), 100);
    assert_eq!((engine.metrics().attempts, engine.metrics().empty_attempts), (1, 0));
}

#[test]
fn band_reaches_down_into_neighbouring_shards() {
    // a lone strong player is the seed of their own shard
    let mut engine = small(10, 1000, 1, 4);
    engine.enqueue(1, 950);
    engine.enqueue(2, 700);
    while engine.peek_seed().map(|p| p.id) != Some(1) {
        assert!(!engine.try_match(|_| 0));
    }
    assert!(engine.try_match(|_| 250));
    let m = &engine.recent_matches()[0];
    assert_eq!(m.skill_spread, 250);
}

#[test]
fn every_shard_is_tried_in_turn() {
    let mut engine = small(3, 299, 1, 0);
    engine.enqueue(10, 0);
    engine.enqueue(20, 150);
    engine.enqueue(30, 299);
    let mut seeds = Vec::new();
    for _ in 0..6 {
        seeds.push(engine.peek_seed().unwrap().id);
        engine.try_match(|_| 0);
    }
    assert_eq!(seeds, vec![10, 20, 30, 10, 20, 30]);
}

#[test]
fn recent_matches_forget_the_oldest() {
    let mut engine = small(1, 10, 1, 2);
    for id in 0..8u64 {
        engine.enqueue(id, 5);
    }
    assert_eq!(drain(&mut engine, 0), 4);
    let ids: Vec<u64> = engine.recent_matches().iter().map(|m| m.id).collect();
    assert_eq!(ids, vec![2, 3]);
    let again: Vec<u64> = engine.recent_matches().iter().map(|m| m.id).collect();
    assert_eq!(again, ids);
}

#[test]
fn group_can_be_taken_and_recorded_apart() {
    let mut engine = small(1, 10, 1, 1);
    let at = Instant::now();
    engine.enqueue_at(1, 4, at);
    engine.enqueue_at(2, 7, at);
    let came_ns = engine.peek_seed().unwrap().ticket.at_ns;
    let group = engine.take_group(came_ns, &|_: u64| 3).unwrap();
    assert_eq!(group.iter().map(|w| w.id).collect::<Vec<_>>(), vec![1, 2]);
    assert!(group.iter().all(|w| w.player().enqueued_at == at));
    assert_eq!(group.iter().map(|w| w.ticket.arrival).collect::<Vec<_>>(), vec![0, 1]);
    assert_eq!(engine.queued(), 0);
    engine.record_group(&group, came_ns + 617_999);
    assert_eq!(engine.metrics().total_wait_us, 1234);
    assert_eq!(engine.metrics().total_imbalance, 3);
    assert_eq!(engine.metrics().total_spread, 3);
    assert_eq!(engine.recent_matches()[0].total_wait_us, 1234);
}

#[test]
fn waits_are_read_from_the_clock() {
    let mut engine = small(1, 10, 1, 1);
    let start = Instant::now();
    engine.enqueue(1, 4);
    engine.enqueue(2, 4);
    while start.elapsed().as_micros() < 2000 {}
    assert!(engine.try_match(|_| 0));
    let wait = engine.metrics().total_wait_us;
    let ceiling = 2 * start.elapsed().as_micros() as u64;
    assert!(wait > 2000 && wait <= ceiling, "{} of at most {}", wait, ceiling);
}

#[test]
fn band_is_asked_for_the_wait() {
    let mut engine = small(1, 10, 1, 1);
    let start = Instant::now();
    engine.enqueue(1, 0);
    engine.enqueue(2, 10);
    while start.elapsed().as_micros() < 2000 {}
    let grown = |wait_ns: u64| if wait_ns >= 1_500_000 { 10 } else { 0 };
    assert!(engine.try_match(grown));
}

#[test]
fn assembled_match_is_measured() {
    let group: Vec<Player> =
        [10u32, 30, 20, 40].iter().enumerate().map(|(i, &s)| Player::new(i as u64, s)).collect();
    let m = assemble(9, &group, 77);
    assert_eq!((m.id, m.imbalance, m.total_skill), (9, 0, 100));
    assert_eq!((m.total_wait_us, m.skill_spread), (77, 30));
    let copy = m.clone();
    assert_eq!(copy.id, 9);
    assert_eq!(copy.team_a.iter().map(|p| p.id).collect::<Vec<_>>(), vec![0, 3]);
    assert_eq!(copy.team_b.iter().map(|p| p.id).collect::<Vec<_>>(), vec![1, 2]);
}

#[test]
fn waits_add_up_and_wrap() {
    assert_eq!(sum_waits(&vec![]), 0);
    assert_eq!(sum_waits(&vec![1, 2, 3]), 6);
    assert_eq!(sum_waits(&vec![u64::MAX, 2]), 1);
    assert!(read_waits(&vec![], 5).is_empty());
    assert!(roster_of(&vec![]).is_empty());
}

#[test]
fn widest_band_reaches_everyone() {
    let mut engine = small(32, 5000, 1, 1);
    engine.enqueue(1, 0);
    engine.enqueue(2, 5000);
    assert!(!engine.try_match(|_| 4999));
    while engine.peek_seed().is_none() {
        assert!(!engine.try_match(|_| 5000));
    }
    assert!(engine.try_match(|_| 5000));
    assert_eq!(engine.recent_matches()[0].imbalance, 5000);
}
