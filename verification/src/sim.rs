//! The decisions of the load generator: what it injects, and when it stops draining.
use crate::rng;
use crate::rng::Rng;
use vstd::prelude::*;

verus! {

/// The distance between neighbouring double-precision numbers at `x`, counted in the unit
/// of `x`: significands have 53 bits.
pub open spec fn ulp(x: nat) -> nat
    decreases x,
{
    if x < 0x20_0000_0000_0000 {
        1
    } else {
        2 * ulp(x / 2)
    }
}

/// `x` rounded to 53 significant bits, to the nearest and ties to even: what double
/// precision makes of it.
pub open spec fn rounded(x: nat) -> nat {
    let u = ulp(x);
    let q = x / u;
    let r = x % u;
    if 2 * r < u || 2 * r == u && q % 2 == 0 {
        q * u
    } else {
        (q + 1) * u
    }
}

/// The sum of four fractions over `2^53`, each partial sum rounded to double precision.
pub open spec fn sum_of_four(k: Seq<u64>) -> nat {
    rounded(rounded(rounded((k[0] + k[1]) as nat) + k[2] as nat) + k[3] as nat)
}

/// The skill that four fractions over `2^53` stand for: their average, scaled by `max` in
/// double precision and truncated.
pub open spec fn skill_from(k: Seq<u64>, max: u32) -> int {
    rounded(sum_of_four(k) * max as nat) as int / 0x80_0000_0000_0000
}

proof fn lemma_ulp_is_power(x: nat) -> (e: nat)
    ensures
        ulp(x) == vstd::arithmetic::power2::pow2(e),
        ulp(x) >= 1,
        x < 0x20_0000_0000_0000 * ulp(x),
        x >= 0x20_0000_0000_0000 ==> x >= 0x10_0000_0000_0000 * ulp(x),
    decreases x,
{
    vstd::arithmetic::power2::lemma2_to64();
    if x < 0x20_0000_0000_0000 {
        0
    } else {
        let e = lemma_ulp_is_power(x / 2);
        vstd::arithmetic::power2::lemma_pow2_unfold(e + 1);
        e + 1
    }
}

/// Rounding does not pass a multiple of `2^53`.
proof fn lemma_rounded_below(x: nat, j: nat)
    requires
        x <= j * 0x20_0000_0000_0000,
        j < 0x4_0000_0000,
    ensures
        rounded(x) <= j * 0x20_0000_0000_0000,
{
    let e = lemma_ulp_is_power(x);
    let u = ulp(x);
    let top: nat = j * 0x20_0000_0000_0000;
    vstd::arithmetic::power2::lemma2_to64();
    vstd::arithmetic::power2::lemma_pow2_adds(32, 21);
    assert(vstd::arithmetic::power2::pow2(53) == 0x20_0000_0000_0000);
    assert(u <= 0x20_0000_0000_0000);
    if e > 53 {
        vstd::arithmetic::power2::lemma_pow2_strictly_increases(53, e);
    }
    let d: nat = (53 - e) as nat;
    let c = vstd::arithmetic::power2::pow2(d);
    vstd::arithmetic::power2::lemma_pow2_adds(e, d);
    assert(u * c == 0x20_0000_0000_0000);
    let q = x / u;
    let r = x % u;
    assert(x == q * u + r && r < u) by (nonlinear_arith)
        requires
            q == x / u,
            r == x % u,
            u >= 1,
    ;
    assert(top == (j * c) * u) by (nonlinear_arith)
        requires
            top == j * 0x20_0000_0000_0000,
            u * c == 0x20_0000_0000_0000,
    ;
    assert(q * u <= x) by (nonlinear_arith)
        requires
            x == q * u + r,
            r >= 0,
    ;
    if r > 0 {
        let t = j * c;
        assert(q * u < t * u);
        vstd::arithmetic::mul::lemma_mul_strict_inequality_converse(q as int, t as int, u as int);
        vstd::arithmetic::mul::lemma_mul_inequality((q + 1) as int, t as int, u as int);
    }
}

/// What rounding makes of a number: a multiple of its `ulp` that is at most half of it away.
proof fn lemma_rounded_near(x: nat) -> (k: nat)
    ensures
        rounded(x) == k * ulp(x),
        2 * rounded(x) <= 2 * x + ulp(x),
        2 * x <= 2 * rounded(x) + ulp(x),
        k >= x / ulp(x),
        k <= 0x20_0000_0000_0000,
        ulp(x) >= 1,
{
    let e = lemma_ulp_is_power(x);
    let u = ulp(x);
    let q = x / u;
    let r = x % u;
    assert(x == q * u + r && r < u) by (nonlinear_arith)
        requires
            q == x / u,
            r == x % u,
            u >= 1,
    ;
    assert((q + 1) * u == q * u + u) by (nonlinear_arith);
    assert(q < 0x20_0000_0000_0000) by (nonlinear_arith)
        requires
            x == q * u + r,
            r >= 0,
            u >= 1,
            x < 0x20_0000_0000_0000 * u,
    ;
    if 2 * r < u || 2 * r == u && q % 2 == 0 {
        q
    } else {
        q + 1
    }
}

/// The larger of two numbers has no smaller `ulp`, and if it is larger, at least twice as large.
proof fn lemma_ulp_grows(x: nat, y: nat)
    requires
        x <= y,
    ensures
        ulp(x) == ulp(y) || 2 * ulp(x) <= ulp(y),
    decreases y,
{
    if x >= 0x20_0000_0000_0000 {
        lemma_ulp_grows(x / 2, y / 2);
    } else if y >= 0x20_0000_0000_0000 {
        let e = lemma_ulp_is_power(y / 2);
    }
}

/// Rounding keeps order.
pub proof fn law_rounding_keeps_order(x: nat, y: nat)
    requires
        x <= y,
    ensures
        rounded(x) <= rounded(y),
{
    let kx = lemma_rounded_near(x);
    let ky = lemma_rounded_near(y);
    let ex = lemma_ulp_is_power(x);
    let ey = lemma_ulp_is_power(y);
    lemma_ulp_grows(x, y);
    let u = ulp(x);
    let v = ulp(y);
    if u == v {
        let p = x / u;
        let q = y / u;
        let r = x % u;
        let t = y % u;
        assert(x == p * u + r && r < u && y == q * u + t && t < u) by (nonlinear_arith)
            requires
                p == x / u,
                r == x % u,
                q == y / u,
                t == y % u,
                u >= 1,
        ;
        if p > q {
            assert((p - 1) * u >= q * u) by (nonlinear_arith)
                requires
                    p > q,
                    u >= 1,
            ;
            assert((p - 1) * u == p * u - u) by (nonlinear_arith);
            assert(false);
        }
        assert((p + 1) * u == p * u + u) by (nonlinear_arith);
        assert((q + 1) * u == q * u + u) by (nonlinear_arith);
        if p < q {
            assert((p + 1) * u <= q * u) by (nonlinear_arith)
                requires
                    p < q,
                    u >= 1,
            ;
        }
    } else {
        // all of the lower binade lies below the higher one
        assert(kx * u <= 0x20_0000_0000_0000 * u) by (nonlinear_arith)
            requires
                kx <= 0x20_0000_0000_0000,
                u >= 1,
        ;
        assert(y >= 0x20_0000_0000_0000) by {
            if y < 0x20_0000_0000_0000 {
                assert(v == 1);
            }
        }
        let q = y / v;
        assert(q >= 0x10_0000_0000_0000) by (nonlinear_arith)
            requires
                q == y / v,
                y >= 0x10_0000_0000_0000 * v,
                v >= 1,
        ;
        assert(ky * v >= 0x10_0000_0000_0000 * v) by (nonlinear_arith)
            requires
                ky >= q,
                q >= 0x10_0000_0000_0000,
                v >= 1,
        ;
    }
}

/// The `ulp` of a sum of up to four fractions.
proof fn lemma_small_ulp(x: nat)
    requires
        x < 0x80_0000_0000_0000,
    ensures
        x < 0x20_0000_0000_0000 ==> ulp(x) == 1,
        0x20_0000_0000_0000 <= x < 0x40_0000_0000_0000 ==> ulp(x) == 2,
        0x40_0000_0000_0000 <= x ==> ulp(x) == 4,
{
    assert(x >= 0x20_0000_0000_0000 ==> ulp(x) == 2 * ulp(x / 2));
    assert(x >= 0x40_0000_0000_0000 ==> ulp(x / 2) == 2 * ulp(x / 2 / 2));
    assert(x / 2 / 2 < 0x20_0000_0000_0000);
    assert(ulp(x / 2 / 2) == 1);
}

/// The rounded sum of four fractions stays below one each.
proof fn lemma_sum_below(k0: u64, k1: u64, k2: u64, k3: u64)
    requires
        k0 < 0x20_0000_0000_0000,
        k1 < 0x20_0000_0000_0000,
        k2 < 0x20_0000_0000_0000,
        k3 < 0x20_0000_0000_0000,
    ensures
        sum_of_four(seq![k0, k1, k2, k3]) <= 0x80_0000_0000_0000 - 4,
{
    let x: nat = (k0 + k1) as nat;
    let a = rounded(x);
    let y: nat = a + k2 as nat;
    let b = rounded(y);
    let z: nat = b + k3 as nat;
    let c = rounded(z);
    let kx = lemma_rounded_near(x);
    lemma_small_ulp(x);
    assert(a <= 0x40_0000_0000_0000 - 2);
    let ky = lemma_rounded_near(y);
    lemma_small_ulp(y);
    assert(b <= 0x60_0000_0000_0000 - 4) by {
        if y >= 0x40_0000_0000_0000 {
            assert(b == ky * 4);
        }
    }
    let kz = lemma_rounded_near(z);
    lemma_small_ulp(z);
    assert(c <= 0x80_0000_0000_0000 - 4) by {
        if z >= 0x40_0000_0000_0000 {
            assert(c == kz * 4);
        }
    }
}

/// A sampled skill stays below the maximum, unless the maximum is zero, and a higher maximum
/// never gives a lower skill.
pub proof fn law_skills_stay_below_and_grow(k: Seq<u64>, max: u32, higher: u32)
    requires
        k.len() == 4,
        forall|i: int| 0 <= i < 4 ==> (#[trigger] k[i]) < 0x20_0000_0000_0000,
        max <= higher,
    ensures
        max > 0 ==> skill_from(k, max) < max,
        skill_from(k, max) <= skill_from(k, higher),
{
    assert(k =~= seq![k[0], k[1], k[2], k[3]]);
    lemma_sum_below(k[0], k[1], k[2], k[3]);
    let c = sum_of_four(k);
    let x: nat = c * max as nat;
    let y: nat = c * higher as nat;
    assert(x <= y) by (nonlinear_arith)
        requires
            x == c * max,
            y == c * higher,
            max <= higher,
            c >= 0,
    ;
    law_rounding_keeps_order(x, y);
    if max > 0 {
        let q = lemma_rounded_near(x);
        let e = lemma_ulp_is_power(x);
        let u = ulp(x);
        assert(x <= 0x80_0000_0000_0000 * max - 4 * max) by (nonlinear_arith)
            requires
                x == c * max,
                c <= 0x80_0000_0000_0000 - 4,
                max > 0,
        ;
        assert(u < 8 * max) by {
            if x < 0x20_0000_0000_0000 {
                assert(u == 1);
            }
        }
        assert(rounded(x) < 0x80_0000_0000_0000 * max);
    }
}

/// Rounds to 53 significant bits, to the nearest and ties to even.
fn round_53(x: u128) -> (y: u128)
    requires
        x < 0x1_0000_0000_0000_0000_0000_0000,
    ensures
        y == rounded(x as nat),
{
    let mut u: u128 = 1;
    let mut y: u128 = x;
    while y >= 0x20_0000_0000_0000
        invariant
            x < 0x1_0000_0000_0000_0000_0000_0000,
            ulp(x as nat) == u * ulp(y as nat),
            1 <= u,
            u * y <= x,
        decreases y,
    {
        proof {
            assert(u * (2 * ulp((y / 2) as nat)) == (u * 2) * ulp((y / 2) as nat))
                by (nonlinear_arith);
            assert((u * 2) * (y / 2) <= u * y) by (nonlinear_arith);
            assert(u <= u * y) by (nonlinear_arith)
                requires
                    y >= 1,
                    u >= 1,
            ;
        }
        y = y / 2;
        u = u * 2;
    }
    proof {
        assert(u * 1 == u);
        let e = lemma_ulp_is_power(x as nat);
    }
    let q: u128 = x / u;
    let r: u128 = x % u;
    proof {
        assert(q * u <= x) by (nonlinear_arith)
            requires
                q == x / u,
                u >= 1,
        ;
        assert((q + 1) * u == q * u + u) by (nonlinear_arith);
        assert(u <= 0x1_0000_0000_0000_0000_0000_0000);
        assert(r < u) by (nonlinear_arith)
            requires
                r == x % u,
                u >= 1,
        ;
        assert(q <= q * u) by (nonlinear_arith)
            requires
                u >= 1,
                q >= 0,
        ;
    }
    if 2 * r < u || 2 * r == u && q % 2 == 0 {
        q * u
    } else {
        (q + 1) * u
    }
}

/// The skill that four fractions over `2^53` stand for.
pub fn scale_skill(k0: u64, k1: u64, k2: u64, k3: u64, max: u32) -> (skill: u32)
    requires
        k0 < 0x20_0000_0000_0000,
        k1 < 0x20_0000_0000_0000,
        k2 < 0x20_0000_0000_0000,
        k3 < 0x20_0000_0000_0000,
    ensures
        skill == skill_from(seq![k0, k1, k2, k3], max),
        skill <= max,
        max > 0 ==> skill < max,
{
    proof {
        law_skills_stay_below_and_grow(seq![k0, k1, k2, k3], max, max);
    }
    let a: u128 = round_53(k0 as u128 + k1 as u128);
    proof {
        lemma_rounded_below((k0 + k1) as nat, 2);
    }
    let b: u128 = round_53(a + k2 as u128);
    proof {
        lemma_rounded_below((a + k2) as nat, 3);
    }
    let c: u128 = round_53(b + k3 as u128);
    proof {
        lemma_rounded_below((b + k3) as nat, 4);
        assert(c * max <= 0x80_0000_0000_0000 * max) by (nonlinear_arith)
            requires
                c <= 0x80_0000_0000_0000,
        ;
        lemma_rounded_below((c * max) as nat, (4 * max) as nat);
    }
    let scaled: u128 = round_53(c * max as u128);
    (scaled / 0x80_0000_0000_0000) as u32
}

/// Sample a skill rating with a roughly bell-shaped distribution centered on `max/2`
/// (average of 4 uniforms, a cheap Irwin-Hall approximation of normal).
pub fn sample_skill(rng: &mut Rng, max: u32) -> (skill: u32)
    ensures
        final(rng)@ == rng::state_after(old(rng)@, 4),
        skill == skill_from(
            seq![
                rng::mix(rng::state_after(old(rng)@, 1)) >> 11,
                rng::mix(rng::state_after(old(rng)@, 2)) >> 11,
                rng::mix(rng::state_after(old(rng)@, 3)) >> 11,
                rng::mix(rng::state_after(old(rng)@, 4)) >> 11,
            ],
            max,
        ),
        skill <= max,
        max > 0 ==> skill < max,
{
    proof {
        reveal_with_fuel(rng::state_after, 5);
    }
    let k0: u64 = rng.next_fraction();
    let k1: u64 = rng.next_fraction();
    let k2: u64 = rng.next_fraction();
    let k3: u64 = rng.next_fraction();
    scale_skill(k0, k1, k2, k3, max)
}

/// How many players producer number `producer` of `producers` injects: an equal share, and
/// one more for each of the first producers while there is a remainder.
pub open spec fn share(players: u64, producers: usize, producer: int) -> int {
    players as int / producers as int + if producer < players as int % producers as int {
        1int
    } else {
        0int
    }
}

/// How many players producer number `producer` of `producers` injects.
pub fn players_for_producer(players: u64, producers: usize, producer: usize) -> (count: u64)
    requires
        producer < producers,
    ensures
        count == share(players, producers, producer as int),
{
    let each: u64 = players / producers as u64;
    let rest: u64 = players % producers as u64;
    proof {
        vstd::arithmetic::div_mod::lemma_fundamental_div_mod(players as int, producers as int);
        assert(each <= producers * each) by (nonlinear_arith)
            requires
                producers >= 1,
                each >= 0,
        ;
    }
    if (producer as u64) < rest {
        each + 1
    } else {
        each
    }
}

/// How many players the first `n` producers inject.
pub open spec fn injected_by(players: u64, producers: usize, n: nat) -> int
    decreases n,
{
    if n == 0 {
        0
    } else {
        injected_by(players, producers, (n - 1) as nat) + share(players, producers, n - 1)
    }
}

proof fn lemma_injected_by(players: u64, producers: usize, n: nat)
    requires
        producers > 0,
    ensures
        injected_by(players, producers, n) == n * (players as int / producers as int) + if n
            < players as int % producers as int {
            n as int
        } else {
            players as int % producers as int
        },
    decreases n,
{
    let q: int = players as int / producers as int;
    if n > 0 {
        lemma_injected_by(players, producers, (n - 1) as nat);
        assert(n * q == (n - 1) * q + q) by (nonlinear_arith);
    } else {
        assert(0 * q == 0);
    }
}

/// The producers together inject exactly the players that were asked for.
pub proof fn law_shares_add_up(players: u64, producers: usize)
    requires
        producers > 0,
    ensures
        injected_by(players, producers, producers as nat) == players,
{
    lemma_injected_by(players, producers, producers as nat);
    vstd::arithmetic::div_mod::lemma_fundamental_div_mod(players as int, producers as int);
}

/// The seed of the random numbers of producer number `producer`.
pub open spec fn seed_of(producer: u64) -> u64 {
    0xD1CE_5EEDu64 ^ producer.wrapping_mul(0x9E37_79B9)
}

/// No two producers draw the same random numbers: their seeds differ, and from its seed the
/// producer's number comes back.
pub proof fn law_producers_draw_apart(a: u64, b: u64)
    ensures
        (seed_of(a) ^ 0xD1CE_5EEDu64).wrapping_mul(0xE85E_E980_144C_BC89) == a,
        a != b ==> seed_of(a) != seed_of(b),
{
    lemma_number_comes_back(a);
    lemma_number_comes_back(b);
}

proof fn lemma_number_comes_back(producer: u64)
    ensures
        (seed_of(producer) ^ 0xD1CE_5EEDu64).wrapping_mul(0xE85E_E980_144C_BC89) == producer,
{
    let product = producer.wrapping_mul(0x9E37_79B9);
    assert((0xD1CE_5EEDu64 ^ product) ^ 0xD1CE_5EEDu64 == product) by (bit_vector);
    rng::lemma_multiplier_is_invertible(producer, 0x9E37_79B9, 0xE85E_E980_144C_BC89);
}

/// The seed of a producer's random numbers.
pub fn producer_seed(producer: usize) -> (seed: u64)
    ensures
        seed == 0xD1CE_5EEDu64 ^ (producer as u64).wrapping_mul(0x9E37_79B9),
        seed == seed_of(producer as u64),
{
    0xD1CE_5EEDu64 ^ (producer as u64).wrapping_mul(0x9E37_79B9)
}

/// Matching has stalled when no match was formed for longer than this, in nanoseconds.
pub const STALL_NS: u64 = 250_000_000;

/// Draining ends after this at the latest, in nanoseconds.
pub const DRAIN_LIMIT_NS: u64 = 30_000_000_000;

/// Watches the queue while it is drained. A fixed injection batch always leaves a small,
/// skill-sparse tail that cannot gather a full match, so draining ends when too few players
/// for a match are left or matching has stalled. Times are nanoseconds since injection began.
pub struct DrainWatch {
    min_remaining: usize,
    deadline_ns: u64,
    last_matches: u64,
    last_progress_ns: u64,
}

/// What a drain watch goes by.
pub struct DrainState {
    /// Players of a match: fewer cannot be matched any more.
    pub min_remaining: usize,
    pub deadline_ns: u64,
    /// Matches formed when last looked at.
    pub last_matches: u64,
    /// When matching last made progress.
    pub last_progress_ns: u64,
}

impl View for DrainWatch {
    type V = DrainState;

    closed spec fn view(&self) -> DrainState {
        DrainState {
            min_remaining: self.min_remaining,
            deadline_ns: self.deadline_ns,
            last_matches: self.last_matches,
            last_progress_ns: self.last_progress_ns,
        }
    }
}

impl DrainState {
    /// The state after a look at the engine at `now_ns`.
    pub open spec fn after_look(self, now_ns: u64, matches: u64, queued: usize) -> DrainState {
        DrainState {
            last_matches: if matches > self.last_matches {
                matches
            } else {
                self.last_matches
            },
            last_progress_ns: if matches > self.last_matches || queued < self.min_remaining {
                now_ns
            } else {
                self.last_progress_ns
            },
            ..self
        }
    }

    /// Draining ends with this look: too few players are left for a match, or matching has
    /// stalled, or the deadline has come.
    pub open spec fn is_over(self, now_ns: u64, matches: u64, queued: usize) -> bool {
        ||| queued < self.min_remaining
        ||| now_ns - self.after_look(now_ns, matches, queued).last_progress_ns > STALL_NS
        ||| now_ns >= self.deadline_ns
    }
}

impl DrainWatch {
    /// Starts to watch at `now_ns`, when `matches` matches have been formed of
    /// `min_remaining` players each.
    pub fn new(min_remaining: usize, now_ns: u64, matches: u64) -> (watch: Self)
        requires
            now_ns + DRAIN_LIMIT_NS <= u64::MAX,
        ensures
            watch@ == (DrainState {
                min_remaining,
                deadline_ns: (now_ns + DRAIN_LIMIT_NS) as u64,
                last_matches: matches,
                last_progress_ns: now_ns,
            }),
            watch@.deadline_ns == now_ns + 30_000_000_000,
    {
        DrainWatch {
            min_remaining,
            deadline_ns: now_ns + DRAIN_LIMIT_NS,
            last_matches: matches,
            last_progress_ns: now_ns,
        }
    }

    /// Looks at the engine once, and says whether draining is over.
    pub fn look(&mut self, now_ns: u64, matches: u64, queued: usize) -> (over: bool)
        ensures
            final(self)@ == old(self)@.after_look(now_ns, matches, queued),
            over == old(self)@.is_over(now_ns, matches, queued),
    {
        if matches > self.last_matches {
            self.last_matches = matches;
            self.last_progress_ns = now_ns;
        }
        if queued < self.min_remaining {
            self.last_progress_ns = now_ns;
            return true;
        }
        now_ns.saturating_sub(self.last_progress_ns) > STALL_NS || now_ns >= self.deadline_ns
    }

    /// The end of the active window: when matching last made progress.
    pub fn active_ns(&self) -> (end: u64)
        ensures
            end == self@.last_progress_ns,
    {
        self.last_progress_ns
    }
}

/// Draining always ends: at the deadline at the latest, and, where no match is formed any
/// more, once the stall time has passed since the last progress. It does not end while enough
/// players wait, progress is recent and the deadline has not come.
pub proof fn law_draining_ends(state: DrainState, now_ns: u64, matches: u64, queued: usize)
    ensures
        now_ns >= state.deadline_ns ==> state.is_over(now_ns, matches, queued),
        matches <= state.last_matches && now_ns - state.last_progress_ns > STALL_NS
            ==> state.is_over(now_ns, matches, queued),
        queued < state.min_remaining ==> state.is_over(now_ns, matches, queued),
        queued >= state.min_remaining && now_ns < state.deadline_ns && (matches
            > state.last_matches || now_ns - state.last_progress_ns <= STALL_NS)
            ==> !state.is_over(now_ns, matches, queued),
        state.after_look(now_ns, matches, queued).deadline_ns == state.deadline_ns,
{
}

/// Rounding is to the nearest: what comes out is a whole number of steps of a power of two,
/// which is 1 for numbers below `2^53` and otherwise makes the number 53 bits long; it is at
/// most half a step away; and halfway between two it is the even one.
pub proof fn law_rounding_is_to_the_nearest(x: nat) -> (e: nat)
    ensures
        ulp(x) == vstd::arithmetic::power2::pow2(e),
        x < 0x20_0000_0000_0000 ==> ulp(x) == 1 && rounded(x) == x,
        x >= 0x20_0000_0000_0000 ==> 0x10_0000_0000_0000 * ulp(x) <= x < 0x20_0000_0000_0000
            * ulp(x),
        rounded(x) % ulp(x) == 0,
        2 * rounded(x) <= 2 * x + ulp(x),
        2 * x <= 2 * rounded(x) + ulp(x),
        2 * rounded(x) == 2 * x + ulp(x) ==> (rounded(x) / ulp(x)) % 2 == 0,
        2 * x == 2 * rounded(x) + ulp(x) ==> (rounded(x) / ulp(x)) % 2 == 0,
{
    let e = lemma_ulp_is_power(x);
    let u = ulp(x);
    let q = x / u;
    let r = x % u;
    assert(x == q * u + r && r < u) by (nonlinear_arith)
        requires
            q == x / u,
            r == x % u,
            u >= 1,
    ;
    assert((q + 1) * u == q * u + u) by (nonlinear_arith);
    let k = lemma_rounded_near(x);
    vstd::arithmetic::div_mod::lemma_mod_multiples_basic(k as int, u as int);
    vstd::arithmetic::div_mod::lemma_div_multiples_vanish(k as int, u as int);
    assert(k * u == u * k) by (nonlinear_arith);
    vstd::arithmetic::div_mod::lemma_div_multiples_vanish(q as int, u as int);
    vstd::arithmetic::div_mod::lemma_div_multiples_vanish((q + 1) as int, u as int);
    assert(q * u == u * q) by (nonlinear_arith);
    assert((q + 1) * u == u * (q + 1)) by (nonlinear_arith);
    if x < 0x20_0000_0000_0000 {
        assert(u == 1);
        assert(q * 1 == q);
    }
    e
}

/// A sampled skill is the average of its four fractions, scaled by the maximum: the two differ
/// by less than one skill and what rounding to double precision can make of them, which is nine
/// parts in `2^55` of the maximum.
pub proof fn law_skill_is_the_scaled_average(k: Seq<u64>, max: u32)
    requires
        k.len() == 4,
        forall|i: int| 0 <= i < 4 ==> (#[trigger] k[i]) < 0x20_0000_0000_0000,
    ensures
        skill_from(k, max) * 0x80_0000_0000_0000 <= (k[0] + k[1] + k[2] + k[3]) * max + 9 * max,
        (skill_from(k, max) + 1) * 0x80_0000_0000_0000 > (k[0] + k[1] + k[2] + k[3]) * max - 9
            * max,
{
    let x: nat = (k[0] + k[1]) as nat;
    let a = rounded(x);
    let y: nat = a + k[2] as nat;
    let b = rounded(y);
    let z: nat = b + k[3] as nat;
    let c = rounded(z);
    let sum: int = k[0] + k[1] + k[2] + k[3];
    assert(k =~= seq![k[0], k[1], k[2], k[3]]);
    lemma_sum_below(k[0], k[1], k[2], k[3]);
    let kx = lemma_rounded_near(x);
    lemma_small_ulp(x);
    let ky = lemma_rounded_near(y);
    lemma_small_ulp(y);
    let kz = lemma_rounded_near(z);
    assert(z < 0x80_0000_0000_0000) by {
        assert(b <= 0x60_0000_0000_0000) by {
            lemma_rounded_below(y, 3);
        }
    }
    lemma_small_ulp(z);
    assert(sum - 5 <= c <= sum + 5);
    let p: nat = c * max as nat;
    let kp = lemma_rounded_near(p);
    let e = lemma_ulp_is_power(p);
    let u = ulp(p);
    let m: int = max as int;
    assert(p == c * m);
    assert((sum - 5) * m <= p <= (sum + 5) * m) by (nonlinear_arith)
        requires
            sum - 5 <= c <= sum + 5,
            p == c * m,
            m >= 0,
    ;
    assert((sum - 5) * m == sum * m - 5 * m) by (nonlinear_arith);
    assert((sum + 5) * m == sum * m + 5 * m) by (nonlinear_arith);
    if max > 0 {
        assert(p <= 0x80_0000_0000_0000 * m - 4 * m) by (nonlinear_arith)
            requires
                p == c * m,
                c <= 0x80_0000_0000_0000 - 4,
                m > 0,
        ;
        assert(u < 8 * m) by {
            if p < 0x20_0000_0000_0000 {
                assert(u == 1);
            }
        }
    } else {
        assert(p == 0) by (nonlinear_arith)
            requires
                p == c * m,
                m == 0,
        ;
        assert(sum * m == 0) by (nonlinear_arith)
            requires
                m == 0,
        ;
    }
    assert(sum_of_four(k) == c);
    assert(skill_from(k, max) == rounded(p) as int / 0x80_0000_0000_0000);
}

/// The shares are even: no producer injects more than one player more than another, and the
/// earlier one is the one that does.
pub proof fn law_shares_are_even(players: u64, producers: usize, a: int, b: int)
    requires
        0 <= a <= b < producers,
    ensures
        0 <= share(players, producers, b) <= share(players, producers, a) <= share(
            players,
            producers,
            b,
        ) + 1,
{
    vstd::arithmetic::div_mod::lemma_div_pos_is_pos(players as int, producers as int);
}

/// The shares of all the producers are, together, the players that were asked for.
pub proof fn law_shares_are_all_the_players(players: u64, producers: usize)
    requires
        producers > 0,
    ensures
        Seq::new(producers as nat, |i: int| share(players, producers, i)).fold_left(
            0int,
            |sum: int, count: int| sum + count,
        ) == players,
{
    lemma_shares_fold(players, producers, producers as nat);
    law_shares_add_up(players, producers);
}

proof fn lemma_shares_fold(players: u64, producers: usize, n: nat)
    ensures
        Seq::new(n, |i: int| share(players, producers, i)).fold_left(
            0int,
            |sum: int, count: int| sum + count,
        ) == injected_by(players, producers, n),
    decreases n,
{
    let shares = Seq::new(n, |i: int| share(players, producers, i));
    reveal_with_fuel(Seq::fold_left, 2);
    if n > 0 {
        lemma_shares_fold(players, producers, (n - 1) as nat);
        assert(shares.drop_last() =~= Seq::new(
            (n - 1) as nat,
            |i: int| share(players, producers, i),
        ));
    }
}

/// Progress is counted once: a look that shows no more matches than the look before, while
/// enough players for a match wait, is no progress, and one that shows more than was ever seen
/// is progress at that time. A look with too few players for a match left ends the active
/// window.
pub proof fn law_progress_is_counted_once(
    state: DrainState,
    now_ns: u64,
    matches: u64,
    queued: usize,
    later_ns: u64,
    more: u64,
    left: usize,
)
    ensures
        more <= matches && left >= state.min_remaining ==> state.after_look(
            now_ns,
            matches,
            queued,
        ).after_look(later_ns, more, left).last_progress_ns == state.after_look(
            now_ns,
            matches,
            queued,
        ).last_progress_ns,
        more > matches && more > state.last_matches ==> state.after_look(
            now_ns,
            matches,
            queued,
        ).after_look(later_ns, more, left).last_progress_ns == later_ns,
        left < state.min_remaining ==> state.after_look(now_ns, matches, queued).after_look(
            later_ns,
            more,
            left,
        ).last_progress_ns == later_ns,
{
}

/// `looks`, each with its time, the matches formed and the players queued, take a drain watch
/// through `states`.
pub open spec fn is_drain(states: Seq<DrainState>, looks: Seq<(u64, u64, usize)>) -> bool {
    &&& states.len() == looks.len() + 1
    &&& forall|i: int|
        0 <= i < looks.len() ==> states[i + 1] == states[i].after_look(
            (#[trigger] looks[i]).0,
            looks[i].1,
            looks[i].2,
        )
}

/// A watch keeps what it was made with.
proof fn lemma_watch_keeps_its_limits(
    states: Seq<DrainState>,
    looks: Seq<(u64, u64, usize)>,
    n: int,
)
    requires
        is_drain(states, looks),
        0 <= n <= looks.len(),
    ensures
        states[n].min_remaining == states[0].min_remaining,
        states[n].deadline_ns == states[0].deadline_ns,
    decreases n,
{
    if n > 0 {
        lemma_watch_keeps_its_limits(states, looks, n - 1);
        assert(states[n - 1 + 1] == states[n - 1].after_look(
            looks[n - 1].0,
            looks[n - 1].1,
            looks[n - 1].2,
        ));
    }
}

/// While no look shows more than `top` matches, no more than `top` are remembered.
proof fn lemma_no_more_than(
    states: Seq<DrainState>,
    looks: Seq<(u64, u64, usize)>,
    n: int,
    top: u64,
)
    requires
        is_drain(states, looks),
        0 <= n <= looks.len(),
        states[0].last_matches <= top,
        forall|i: int| 0 <= i < n ==> (#[trigger] looks[i]).1 <= top,
    ensures
        states[n].last_matches <= top,
    decreases n,
{
    if n > 0 {
        lemma_no_more_than(states, looks, n - 1, top);
        assert(looks[n - 1].1 <= top);
        assert(states[n - 1 + 1] == states[n - 1].after_look(
            looks[n - 1].0,
            looks[n - 1].1,
            looks[n - 1].2,
        ));
    }
}

/// The active window ends with the last look that showed more matches than every look before
/// it: however many looks follow that show no more, as long as enough players for a match
/// wait. Once the next such look is more than 250 milliseconds later, draining is over, and it
/// is not over before that, nor before too few players are left or the deadline has come.
pub proof fn law_active_window_ends_with_the_last_progress(
    states: Seq<DrainState>,
    looks: Seq<(u64, u64, usize)>,
    k: int,
    n: int,
    now_ns: u64,
    matches: u64,
    queued: usize,
)
    requires
        is_drain(states, looks),
        0 <= k < n <= looks.len(),
        states[0].last_matches < looks[k].1,
        forall|i: int| 0 <= i < k ==> (#[trigger] looks[i]).1 < looks[k].1,
        forall|i: int|
            k < i < n ==> (#[trigger] looks[i]).1 <= looks[k].1 && looks[i].2
                >= states[0].min_remaining,
        matches <= looks[k].1,
        queued >= states[0].min_remaining,
        looks[k].0 <= now_ns,
    ensures
        states[n].last_progress_ns == looks[k].0,
        states[n].is_over(now_ns, matches, queued) <==> now_ns - looks[k].0 > 250_000_000
            || now_ns >= states[0].deadline_ns,
    decreases n,
{
    lemma_watch_keeps_its_limits(states, looks, n);
    lemma_watch_keeps_its_limits(states, looks, n - 1);
    assert(states[n - 1 + 1] == states[n - 1].after_look(
        looks[n - 1].0,
        looks[n - 1].1,
        looks[n - 1].2,
    ));
    if n == k + 1 {
        lemma_no_more_than(states, looks, k, (looks[k].1 - 1) as u64);
        assert(states[n].last_matches == looks[k].1);
    } else {
        law_active_window_ends_with_the_last_progress(
            states,
            looks,
            k,
            n - 1,
            now_ns,
            matches,
            queued,
        );
        lemma_remembers_the_most(states, looks, k, n - 1);
        lemma_remembers_the_most(states, looks, k, n);
    }
}

/// Once seen, the most matches are remembered.
proof fn lemma_remembers_the_most(
    states: Seq<DrainState>,
    looks: Seq<(u64, u64, usize)>,
    k: int,
    n: int,
)
    requires
        is_drain(states, looks),
        0 <= k < n <= looks.len(),
    ensures
        states[n].last_matches >= looks[k].1,
    decreases n,
{
    assert(states[n - 1 + 1] == states[n - 1].after_look(
        looks[n - 1].0,
        looks[n - 1].1,
        looks[n - 1].2,
    ));
    if n > k + 1 {
        lemma_remembers_the_most(states, looks, k, n - 1);
    }
}

/// Where no look shows more matches than there were at the start, and enough players for a
/// match wait, the active window ends when it was begun to watch.
pub proof fn law_no_progress_keeps_the_window_closed(
    states: Seq<DrainState>,
    looks: Seq<(u64, u64, usize)>,
    n: int,
    now_ns: u64,
    matches: u64,
    queued: usize,
)
    requires
        is_drain(states, looks),
        0 <= n <= looks.len(),
        forall|i: int|
            0 <= i < n ==> (#[trigger] looks[i]).1 <= states[0].last_matches && looks[i].2
                >= states[0].min_remaining,
        matches <= states[0].last_matches,
        queued >= states[0].min_remaining,
        states[0].last_progress_ns <= now_ns,
    ensures
        states[n].last_progress_ns == states[0].last_progress_ns,
        states[n].last_matches == states[0].last_matches,
        states[n].is_over(now_ns, matches, queued) <==> now_ns - states[0].last_progress_ns
            > 250_000_000 || now_ns >= states[0].deadline_ns,
    decreases n,
{
    if n > 0 {
        law_no_progress_keeps_the_window_closed(
            states,
            looks,
            n - 1,
            now_ns,
            matches,
            queued,
        );
        lemma_watch_keeps_its_limits(states, looks, n - 1);
        assert(looks[n - 1].1 <= states[0].last_matches);
        assert(states[n - 1 + 1] == states[n - 1].after_look(
            looks[n - 1].0,
            looks[n - 1].1,
            looks[n - 1].2,
        ));
    }
}

/// With too few players for a match left, draining is over at once, and from the deadline on it
/// is over whatever is seen.
pub proof fn law_draining_is_over_at_the_end(
    states: Seq<DrainState>,
    looks: Seq<(u64, u64, usize)>,
    n: int,
    now_ns: u64,
    matches: u64,
    queued: usize,
)
    requires
        is_drain(states, looks),
        0 <= n <= looks.len(),
        queued < states[0].min_remaining || now_ns >= states[0].deadline_ns,
    ensures
        states[n].is_over(now_ns, matches, queued),
{
    lemma_watch_keeps_its_limits(states, looks, n);
}

} // verus!
