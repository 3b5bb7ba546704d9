use matchmaker::rng::Rng;
use matchmaker::sim::{
    players_for_producer, producer_seed, sample_skill, scale_skill, DrainWatch, DRAIN_LIMIT_NS,
    STALL_NS,
};

/// SplitMix64 and the sampling formula in double precision.
struct Reference(u64);

impl Reference {
    fn next_u64(&mut self) -> u64 {
        self.0 = self.0.wrapping_add(0x9E37_79B9_7F4A_7C15);
        let mut z = self.0;
        z = (z ^ (z >> 30)).wrapping_mul(0xBF58_476D_1CE4_E5B9);
        z = (z ^ (z >> 27)).wrapping_mul(0x94D0_49BB_1331_11EB);
        z ^ (z >> 31)
    }

    fn next_f64(&mut self) -> f64 {
        (self.next_u64() >> 11) as f64 / (1u64 << 53) as f64
    }

    fn sample(&mut self, max: u32) -> u32 {
        let s: f64 = (0..4).map(|_| self.next_f64()).sum::<f64>() / 4.0;
        (s * max as f64) as u32
    }
}

fn scaled_in_double_precision(k: [u64; 4], max: u32) -> u32 {
    let unit = (1u64 << 53) as f64;
    let s: f64 = k.iter().map(|&x| x as f64 / unit).sum::<f64>() / 4.0;
    (s * max as f64) as u32
}

#[test]
fn first_outputs_of_splitmix64() {
    // with the state at zero, the published outputs of SplitMix64
    let mut rng = Rng::new(0x9E37_79B9_7F4A_7C15);
    assert_eq!(rng.next_u64(), 0xE220_A839_7B1D_CDAF);
    assert_eq!(rng.next_u64(), 0x6E78_9E6A_A1B9_65F4);
    assert_eq!(rng.next_u64(), 0x06C4_5D18_8009_454F);
}

#[test]
fn fraction_is_the_top_of_the_output() {
    let mut a = Rng::new(7);
    let mut b = Rng::new(7);
    for _ in 0..100 {
        let fraction = a.next_fraction();
        assert_eq!(fraction, b.next_u64() >> 11);
        assert!(fraction < 1 << 53);
    }
}

#[test]
fn skills_are_sampled_as_in_double_precision() {
    for seed in 0..50u64 {
        for max in [0, 1, 7, 5000, 123_456_789, u32::MAX] {
            let mut rng = Rng::new(seed);
            let mut reference = Reference(seed ^ 0x9E37_79B9_7F4A_7C15);
            for _ in 0..100 {
                let skill = sample_skill(&mut rng, max);
                assert_eq!(skill, reference.sample(max));
                assert!(skill < max || max == 0);
            }
        }
    }
}

#[test]
fn rounding_follows_double_precision_at_the_edges() {
    let top = (1u64 << 53) - 1;
    for k in [
        [top, top, top, top],
        [top, 1, 0, 0],
        [top, 2, 1, 0],
        [top, top, 1, 1],
        [top, top, 2, 3],
        [top, 4, top, 6],
        [1, 2, 3, 4],
        [top / 3, top / 5, top / 7, top / 11],
        [0, 0, 0, 0],
    ] {
        for max in [1, 2, 3, 1000, 5000, 4_000_000_001, u32::MAX] {
            let scaled = scale_skill(k[0], k[1], k[2], k[3], max);
            assert_eq!(scaled, scaled_in_double_precision(k, max));
        }
    }
    assert_eq!(scale_skill(top, top, top, top, 5000), 4999);
    for max in [1, 2, 3, 1 << 31, u32::MAX] {
        assert_eq!(scale_skill(top, top, top, top, max), max - 1);
    }
    assert_eq!(scale_skill(1 << 52, 1 << 52, 1 << 52, 1 << 52, 5000), 2500);
}

#[test]
fn players_are_shared_out_to_the_last() {
    let shares = |players: u64, producers: usize| -> Vec<u64> {
        (0..producers).map(|p| players_for_producer(players, producers, p)).collect()
    };
    assert_eq!(shares(50_000, 8), vec![6250; 8]);
    assert_eq!(shares(10, 3), vec![4, 3, 3]);
    assert_eq!(shares(2, 3), vec![1, 1, 0]);
    assert_eq!(shares(0, 2), vec![0, 0]);
    assert_eq!(shares(u64::MAX, 1), vec![u64::MAX]);
    for producers in 1..20 {
        assert_eq!(shares(1234, producers).iter().sum::<u64>(), 1234);
    }
}

#[test]
fn producers_have_seeds_of_their_own() {
    assert_eq!(producer_seed(0), 0xD1CE_5EED);
    assert_eq!(producer_seed(1), 0xD1CE_5EED ^ 0x9E37_79B9);
    assert_eq!(producer_seed(3), 0xD1CE_5EED ^ 0x1_DAA6_6D2B);
}

#[test]
fn draining_ends_when_too_few_are_left() {
    let mut watch = DrainWatch::new(10, 1000, 5);
    assert!(!watch.look(2000, 5, 10));
    assert_eq!(watch.active_ns(), 1000);
    assert!(watch.look(3000, 5, 9));
    assert_eq!(watch.active_ns(), 3000);
}

#[test]
fn draining_ends_when_matching_stalls() {
    let mut watch = DrainWatch::new(10, 0, 5);
    assert!(!watch.look(STALL_NS, 5, 20));
    assert!(!watch.look(STALL_NS + 1, 6, 20));
    assert_eq!(watch.active_ns(), STALL_NS + 1);
    assert!(!watch.look(2 * STALL_NS + 1, 6, 20));
    assert!(watch.look(2 * STALL_NS + 2, 6, 20));
    assert_eq!(watch.active_ns(), STALL_NS + 1);
}

#[test]
fn draining_ends_at_the_deadline() {
    let mut watch = DrainWatch::new(10, 100, 0);
    let mut matches = 0;
    let mut now = 100;
    while now + STALL_NS < DRAIN_LIMIT_NS + 100 {
        now += STALL_NS;
        matches += 1;
        assert!(!watch.look(now, matches, 50));
    }
    assert!(watch.look(DRAIN_LIMIT_NS + 100, matches + 1, 50));
}

#[test]
fn draws_do_not_repeat() {
    let mut rng = Rng::new(42);
    let mut draws: Vec<u64> = (0..10_000).map(|_| rng.next_u64()).collect();
    draws.sort();
    draws.dedup();
    assert_eq!(draws.len(), 10_000);
}
