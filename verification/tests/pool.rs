use matchmaker::acceptance::{accepts, band_after, fits, oldest_of};
use matchmaker::arrivals::{Arrivals, Ticket, Waiter};
use matchmaker::axis::Axis;
use matchmaker::clock::nanos_since;
use matchmaker::nearest::line_up;
use matchmaker::pool::Pool;
use matchmaker::shard::Shard;
use std::time::{Duration, Instant};

fn keys(group: &[Waiter]) -> Vec<(u32, u64)> {
    group.iter().map(|w| (w.skill, w.id)).collect()
}

/// A ticket with this number, for a player who came at that time.
fn ticket(arrival: u64, at_ns: u64) -> Ticket {
    Ticket { arrival, at_ns, at: Instant::now() }
}

/// A seed of this skill who came with that number.
fn seed(skill: u32, arrival: u64) -> Waiter {
    Waiter { id: 0, skill, ticket: ticket(arrival, arrival) }
}

/// A pool of waiters who came in the given order.
fn pool(num_shards: usize, skill_max: u32, waiters: &[(u32, u64)]) -> Pool {
    let mut pool = Pool::new(Axis::new(num_shards, skill_max));
    for (n, &(skill, id)) in waiters.iter().enumerate() {
        assert!(pool.insert(skill, id, ticket(n as u64, n as u64)));
    }
    pool
}

/// A window that accepts everyone.
fn wide(_wait_ns: u64) -> u32 {
    u32::MAX
}

#[test]
fn axis_is_cut_as_documented() {
    let axis = Axis::new(32, 5000);
    assert_eq!(axis.num_shards(), 32);
    // 5000 / 32 + 1 = 157 skills per shard
    assert_eq!(axis.shard_of(0), 0);
    assert_eq!(axis.shard_of(156), 0);
    assert_eq!(axis.shard_of(157), 1);
    assert_eq!(axis.shard_of(5000), 31);
    assert_eq!(axis.shard_of(u32::MAX), 31);
    assert_eq!(axis.clamp(6000), 5000);
    assert_eq!(axis.clamp(4999), 4999);
    // more shards than skills: two skills share a shard
    let fine = Axis::new(100, 10);
    assert_eq!(fine.shard_of(3), 1);
    assert_eq!(fine.shard_of(10), 5);
}

#[test]
fn reach_is_symmetric_and_clipped() {
    let axis = Axis::new(32, 5000);
    let reach = axis.reach(2000, 80);
    assert_eq!((reach.low_skill, reach.high_skill), (1920, 2080));
    assert_eq!((reach.low, reach.seed, reach.high), (12, 12, 13));
    let bottom = axis.reach(30, 80);
    assert_eq!((bottom.low_skill, bottom.high_skill), (0, 110));
    let top = axis.reach(4990, u32::MAX);
    assert_eq!((top.low_skill, top.high_skill), (0, 5000));
    assert_eq!((top.low, top.seed, top.high), (0, 31, 31));
}

#[test]
fn nearest_waiters_come_first() {
    let waiters = [(90, 1), (100, 5), (100, 2), (104, 3), (97, 4), (110, 6), (300, 7)];
    let pool = pool(8, 400, &waiters);
    // by distance; at the same distance first those at or below the seed, ids downward
    let group = pool.choose_group(100, 10, 0, 6).unwrap();
    assert_eq!(keys(&group), vec![(100, 5), (100, 2), (97, 4), (104, 3), (90, 1), (110, 6)]);
    let group = pool.choose_group(100, 10, 0, 3).unwrap();
    assert_eq!(keys(&group), vec![(100, 5), (100, 2), (97, 4)]);
}

#[test]
fn ties_go_to_who_came_first() {
    let pool = pool(4, 1000, &[(105, 1), (95, 2), (95, 1), (105, 2), (100, 9)]);
    // who is taken is decided by arrival, in which order they are listed is not
    let group = pool.choose_group(100, 5, 0, 5).unwrap();
    assert_eq!(keys(&group), vec![(100, 9), (95, 2), (95, 1), (105, 1), (105, 2)]);
    let group = pool.choose_group(100, 5, 0, 3).unwrap();
    assert_eq!(keys(&group), vec![(100, 9), (95, 2), (105, 1)]);
    let group = pool.choose_group(100, 5, 0, 2).unwrap();
    assert_eq!(keys(&group), vec![(100, 9), (105, 1)]);
}

#[test]
fn groups_may_leave_out_who_came_early() {
    let pool = pool(4, 1000, &[(100, 1), (101, 2), (99, 3), (110, 4)]);
    let group = pool.choose_group(100, 10, 1, 3).unwrap();
    assert_eq!(keys(&group), vec![(99, 3), (101, 2), (110, 4)]);
    assert!(pool.choose_group(100, 10, 2, 3).is_none());
    assert!(pool.choose_group(100, 10, 4, 1).is_none());
}

#[test]
fn band_without_enough_waiters_takes_nobody() {
    let mut pool = pool(4, 1000, &[(100, 1), (109, 2), (111, 3)]);
    assert!(pool.take_group(&seed(100, 0), 10, 3, 0, &wide).is_none());
    // the pool is as it was, and a wider band finds all three
    let group = pool.take_group(&seed(100, 0), 11, 3, 0, &wide).unwrap();
    assert_eq!(keys(&group), vec![(100, 1), (109, 2), (111, 3)]);
    assert!(pool.choose_group(100, 1000, 0, 1).is_none());
}

#[test]
fn relaxing_the_band_keeps_the_group() {
    let pool = pool(16, 5000, &[(2000, 1), (2010, 2), (1990, 3), (2300, 4), (10, 5)]);
    let narrow = pool.choose_group(2000, 10, 0, 3).unwrap();
    let wide = pool.choose_group(2000, 5000, 0, 3).unwrap();
    assert_eq!(keys(&narrow), keys(&wide));
    assert_eq!(pool.choose_group(2000, 5000, 0, 5).unwrap().len(), 5);
}

#[test]
fn seeds_are_taken_in_line() {
    let mut pool = pool(4, 1000, &[(100, 7), (120, 1), (100, 3), (900, 2)]);
    let none = |_: u64| 0;
    let mut seeds = Vec::new();
    for _ in 0..4 {
        let next = pool.seed_in(0).unwrap();
        seeds.push((next.skill, next.id));
        assert!(pool.attempt(&next, 0, 3, 0, &none).is_none());
    }
    assert_eq!(seeds, vec![(100, 7), (100, 3), (120, 1), (100, 7)]);
    assert!(pool.seed_in(1).is_none());
    assert_eq!(pool.seed_in(3).unwrap().id, 2);
    // once the seed plays, the place in line stays as it was
    let next = pool.seed_in(0).unwrap();
    assert_eq!((next.skill, next.id), (100, 3));
    let group = pool.attempt(&next, 20, 3, 0, &wide).unwrap();
    assert_eq!(keys(&group), vec![(100, 7), (100, 3), (120, 1)]);
    assert!(pool.seed_in(0).is_none());
}

#[test]
fn seed_who_is_gone_does_not_move_the_place() {
    let mut pool = pool(1, 100, &[(10, 1), (50, 2)]);
    assert!(pool.attempt(&seed(30, 9), 5, 2, 0, &wide).is_none());
    assert_eq!(pool.seed_in(0).unwrap().id, 1);
}

#[test]
fn oldest_of_two_accepts_after_a_wait() {
    let mut pool = pool(2, 100, &[(0, 1), (90, 4)]);
    let later = |wait_ns: u64| if wait_ns >= 10 { 90 } else { 5 };
    let young = pool.seed_in(1).unwrap();
    assert!(pool.attempt(&young, 90, 2, 9, &later).is_none());
    let group = pool.attempt(&young, 90, 2, 10, &later).unwrap();
    assert_eq!(keys(&group), vec![(90, 4), (0, 1)]);
}

#[test]
fn those_who_came_with_the_seed_are_tried_next() {
    let mut pool = pool(2, 19, &[(3, 0), (10, 1), (5, 2), (18, 3), (19, 4)]);
    let ten = |_: u64| 10;
    let next = pool.seed_in(1).unwrap();
    assert_eq!((next.skill, next.id), (10, 1));
    // the four nearest include the one at 3, who is the oldest and does not accept 18
    assert_eq!(
        keys(&pool.choose_group(10, 10, 0, 4).unwrap()),
        vec![(10, 1), (5, 2), (3, 0), (18, 3)]
    );
    let group = pool.take_group(&next, 10, 4, 0, &ten).unwrap();
    assert_eq!(keys(&group), vec![(10, 1), (5, 2), (18, 3), (19, 4)]);
    assert_eq!(pool.seed_in(0).unwrap().id, 0);
}

#[test]
fn group_is_taken_only_if_accepted() {
    let mut pool = pool(1, 100, &[(41, 0), (42, 1), (51, 2), (61, 3)]);
    let ten = |_: u64| 10;
    assert!(pool.take_group(&seed(51, 2), 10, 4, 0, &ten).is_none());
    // nobody was taken, and three of them fit the band of the oldest
    let group = pool.take_group(&seed(51, 2), 10, 3, 0, &ten).unwrap();
    assert_eq!(keys(&group), vec![(51, 2), (42, 1), (41, 0)]);
}

#[test]
fn oldest_member_decides() {
    let waiter = |id: u64, skill: u32, arrival: u64, at_ns: u64| Waiter {
        id,
        skill,
        ticket: ticket(arrival, at_ns),
    };
    let group = vec![waiter(1, 50, 3, 30), waiter(2, 40, 1, 10), waiter(3, 60, 0, 10)];
    assert_eq!(oldest_of(&group), 2);
    assert!(fits(&group, 2, 20));
    assert!(!fits(&group, 2, 19));
    assert!(fits(&group, 0, 10));
    assert_eq!(group[2].wait_ns(25), 15);
    assert_eq!(group[0].wait_ns(25), 0);
    // a band that grows by one a nanosecond
    let grows = |wait_ns: u64| wait_ns as u32;
    assert_eq!(band_after(&grows, 7), 7);
    assert!(!accepts(&group, 29, &grows));
    assert!(accepts(&group, 30, &grows));
    // once accepted, it stays so
    assert!(accepts(&group, 1000, &grows));
}

#[test]
fn tickets_never_run_backwards() {
    let epoch = Instant::now();
    let mut arrivals = Arrivals::new(epoch);
    let later = epoch + Duration::from_micros(500);
    let first = arrivals.hand_out(later);
    assert_eq!((first.arrival, first.at_ns), (0, 500_000));
    assert!(first.at == later);
    let second = arrivals.hand_out(epoch + Duration::from_micros(20));
    assert_eq!((second.arrival, second.at_ns), (1, 500_000));
    let third = arrivals.hand_out(epoch + Duration::from_millis(2));
    assert_eq!((third.arrival, third.at_ns), (2, 2_000_000));
    assert_eq!(arrivals.time_at(epoch + Duration::from_millis(7)), 7_000_000);
    assert_eq!(arrivals.time_at(epoch), 2_000_000);
    assert_eq!(arrivals.read(epoch + Duration::from_millis(7)), 7_000_000);
    assert_eq!(arrivals.read(epoch), 7_000_000);
    arrivals.advance(8_000_000);
    assert_eq!(arrivals.time_at(epoch), 8_000_000);
}

#[test]
fn numbers_stop_at_the_highest() {
    let epoch = Instant::now();
    let mut arrivals = Arrivals { epoch, latest_ns: 0, count: u64::MAX - 1 };
    assert_eq!(arrivals.hand_out(epoch).arrival, u64::MAX - 1);
    assert_eq!(arrivals.hand_out(epoch).arrival, u64::MAX);
    assert_eq!(arrivals.hand_out(epoch).arrival, u64::MAX);
}

#[test]
fn spans_of_time_are_nanoseconds() {
    let start = Instant::now();
    let later = start + Duration::from_nanos(1_000_000_007);
    assert_eq!(nanos_since(start, later), 1_000_000_007);
    assert_eq!(nanos_since(later, start), 0);
}

#[test]
fn locked_range_gives_the_same_group_as_the_whole_pool() {
    let axis = Axis::new(8, 800);
    let waiters = [(395u32, 1u64), (400, 2), (410, 3), (505, 4), (298, 5), (0, 6), (799, 7)];
    let mut all = Pool::new(axis);
    let mut shards: Vec<Shard> = (0..8).map(|_| Shard::new()).collect();
    for &(skill, id) in &waiters {
        let t = ticket(id, id);
        all.insert(skill, id, t);
        shards[axis.shard_of(skill)].insert(skill, id, t);
    }
    let reach = axis.reach(400, 105);
    let locked: Vec<Shard> = shards.drain(reach.low..=reach.high).collect();
    let count = locked.len();
    let mut part = Pool::from_shards(axis, reach.low, locked);
    let from_part = part.take_group(&seed(400, 2), 105, 5, 0, &wide).unwrap();
    let from_all = all.take_group(&seed(400, 2), 105, 5, 0, &wide).unwrap();
    assert_eq!(keys(&from_part), keys(&from_all));
    assert_eq!(keys(&from_part), vec![(400, 2), (395, 1), (410, 3), (298, 5), (505, 4)]);
    let back = part.into_shards();
    assert_eq!(back.len(), count);
    assert!(back.iter().all(|s| s.lowest().is_none()));
}

#[test]
fn shard_keeps_waiters_in_line() {
    let mut shard = Shard::new();
    assert!(shard.lowest().is_none());
    for (n, (skill, id)) in [(5, 1), (3, 9), (3, 2), (8, 4)].into_iter().enumerate() {
        assert!(shard.insert(skill, id, ticket(n as u64, 0)));
    }
    let mut up = Vec::new();
    shard.collect_up(3, 7, 0, 10, &mut up);
    assert_eq!(keys(&up), vec![(3, 9), (3, 2), (5, 1)]);
    let mut down = Vec::new();
    shard.collect_down(0, 8, 0, 2, &mut down);
    assert_eq!(keys(&down), vec![(8, 4), (5, 1)]);
    let mut all = Vec::new();
    shard.collect_down(0, 8, 0, 10, &mut all);
    assert_eq!(keys(&all), vec![(8, 4), (5, 1), (3, 9), (3, 2)]);
    // those with a number of two or more
    let mut late = Vec::new();
    shard.collect_up(0, 8, 2, 10, &mut late);
    shard.collect_down(0, 8, 2, 10, &mut late);
    assert_eq!(keys(&late), vec![(3, 2), (8, 4), (8, 4), (3, 2)]);
    shard.remove(3, 9);
    assert_eq!(shard.lowest().map(|w| (w.skill, w.id)), Some((3, 2)));
    assert_eq!(shard.next_after((3, 2, 2)).map(|w| w.id), Some(1));
    assert_eq!(shard.next_after((5, 0, 0)).map(|w| w.id), Some(1));
    assert!(shard.next_after((8, 3, 4)).is_none());
    // a second insert of the same player keeps one entry, with the new ticket
    assert!(!shard.insert(3, 2, ticket(7, 70)));
    assert_eq!(shard.lowest().map(|w| (w.ticket.arrival, w.ticket.at_ns)), Some((7, 70)));
    shard.remove(3, 2);
    assert_eq!(shard.lowest().map(|w| w.id), Some(1));
    shard.remove(3, 2);
    assert_eq!(shard.lowest().map(|w| w.id), Some(1));
}

#[test]
fn shard_remembers_its_place_in_line() {
    let mut shard = Shard::new();
    assert!(shard.seed().is_none());
    for (n, (skill, id)) in [(5, 1), (3, 9), (8, 4)].into_iter().enumerate() {
        shard.insert(skill, id, ticket(n as u64, 0));
    }
    assert_eq!(shard.seed().unwrap().id, 9);
    shard.settle((3, 1, 9));
    assert_eq!(shard.seed().unwrap().id, 1);
    // nobody stands there
    shard.settle((8, 0, 4));
    assert_eq!(shard.seed().unwrap().id, 1);
    shard.settle((8, 2, 4));
    assert_eq!(shard.seed().unwrap().id, 9);
    shard.remove(3, 9);
    shard.remove(8, 4);
    assert_eq!(shard.seed().unwrap().id, 1);
}

#[test]
fn players_are_lined_up() {
    let run = vec![seed(12, 0), seed(8, 1), seed(10, 2)];
    assert_eq!(keys(&line_up(10, &run)), vec![(10, 0), (8, 0), (12, 0)]);
    assert!(line_up(10, &vec![]).is_empty());
}

#[test]
fn seed_plays_unless_earlier_ones_fill_the_match() {
    let crowded = pool(1, 1000, &[(100, 3), (100, 1), (100, 2), (101, 4)]);
    assert_eq!(crowded.seed_in(0).unwrap().id, 3);
    assert_eq!(keys(&crowded.choose_group(100, 5, 0, 2).unwrap()), vec![(100, 3), (100, 1)]);
    assert_eq!(
        keys(&crowded.choose_group(100, 5, 0, 4).unwrap()),
        vec![(100, 3), (100, 2), (100, 1), (101, 4)]
    );
}

#[test]
fn ranges_apart_do_not_interfere() {
    let waiters = [(100, 1), (110, 2), (500, 3), (505, 4)];
    let untouched = pool(4, 1000, &waiters);
    let mut other = pool(4, 1000, &waiters);
    assert!(other.take_group(&seed(100, 0), 10, 2, 0, &wide).is_some());
    assert_eq!(
        keys(&other.choose_group(500, 10, 0, 2).unwrap()),
        keys(&untouched.choose_group(500, 10, 0, 2).unwrap())
    );
}

#[test]
fn evicted_players_are_gone_and_the_others_stay() {
    let mut pool = pool(4, 1000, &[(100, 1), (110, 2), (120, 3), (900, 4)]);
    let group = pool.take_group(&seed(100, 0), 1000, 2, 0, &wide).unwrap();
    assert_eq!(keys(&group), vec![(100, 1), (110, 2)]);
    let rest = pool.take_group(&seed(100, 0), 1000, 2, 0, &wide).unwrap();
    assert_eq!(keys(&rest), vec![(120, 3), (900, 4)]);
    assert!(pool.take_group(&seed(100, 0), 1000, 1, 0, &wide).is_none());
}
