//! A tiny, fast, dependency-free PRNG (SplitMix64).
//!
//! SplitMix64 is more than good enough for generating a synthetic player population in the
//! load generator.
use vstd::prelude::*;

verus! {

/// What is added to the state with each draw.
pub const STEP: u64 = 0x9E37_79B9_7F4A_7C15;

/// The first multiplier of the output function.
pub const MIX_1: u64 = 0xBF58_476D_1CE4_E5B9;

/// The second multiplier of the output function.
pub const MIX_2: u64 = 0x94D0_49BB_1331_11EB;

/// The output that belongs to a state.
pub open spec fn mix(state: u64) -> u64 {
    let y = (state ^ (state >> 30)).wrapping_mul(MIX_1);
    let z = (y ^ (y >> 27)).wrapping_mul(MIX_2);
    z ^ (z >> 31)
}

/// The state that a generator starts from.
pub open spec fn start_of(seed: u64) -> u64 {
    seed ^ STEP
}

/// The numerator over `2^53` of the fraction that 64 random bits stand for.
pub open spec fn fraction_of(bits: u64) -> u64 {
    bits >> 11
}

/// The generator's state.
pub struct Rng(u64);

impl View for Rng {
    type V = u64;

    closed spec fn view(&self) -> u64 {
        self.0
    }
}

impl Rng {
    /// A generator for `seed`. The seed is mixed with a constant so that a small seed does
    /// not start from a degenerate state.
    pub fn new(seed: u64) -> (rng: Self)
        ensures
            rng@ == seed ^ STEP,
            rng@ == start_of(seed),
    {
        Rng(seed ^ STEP)
    }

    /// The next 64 random bits.
    pub fn next_u64(&mut self) -> (bits: u64)
        ensures
            final(self)@ == old(self)@.wrapping_add(STEP),
            bits == mix(final(self)@),
    {
        self.0 = self.0.wrapping_add(STEP);
        let mut z: u64 = self.0;
        z = (z ^ (z >> 30)).wrapping_mul(MIX_1);
        z = (z ^ (z >> 27)).wrapping_mul(MIX_2);
        z ^ (z >> 31)
    }

    /// A uniform draw from `[0, 1)`, as the numerator over `2^53`: the top 53 bits of the
    /// next output.
    pub fn next_fraction(&mut self) -> (numerator: u64)
        ensures
            final(self)@ == old(self)@.wrapping_add(STEP),
            numerator == mix(final(self)@) >> 11,
            numerator == fraction_of(mix(final(self)@)),
            numerator < 0x20_0000_0000_0000,
    {
        let bits: u64 = self.next_u64();
        assert(bits >> 11 < 0x20_0000_0000_0000) by (bit_vector);
        bits >> 11
    }
}

/// The state after `n` draws.
pub open spec fn state_after(start: u64, n: nat) -> u64
    decreases n,
{
    if n == 0 {
        start
    } else {
        state_after(start, (n - 1) as nat).wrapping_add(STEP)
    }
}

/// `2^64`.
pub open spec fn modulus() -> int {
    0x1_0000_0000_0000_0000
}

proof fn lemma_state_after(start: u64, n: nat)
    ensures
        state_after(start, n) as int == (start + n * STEP) % modulus(),
    decreases n,
{
    if n > 0 {
        lemma_state_after(start, (n - 1) as nat);
        let m = modulus();
        let before = start + (n - 1) * STEP;
        assert(start + n * STEP == before + STEP) by (nonlinear_arith)
            requires
                before == start + (n - 1) * STEP,
        ;
        vstd::arithmetic::div_mod::lemma_add_mod_noop(before, STEP as int, m);
        vstd::arithmetic::div_mod::lemma_small_mod(STEP as nat, m as nat);
        let s = state_after(start, (n - 1) as nat);
        if s + STEP < m {
            vstd::arithmetic::div_mod::lemma_small_mod((s + STEP) as nat, m as nat);
        } else {
            vstd::arithmetic::div_mod::lemma_mod_sub_multiples_vanish(s + STEP, m);
            vstd::arithmetic::div_mod::lemma_small_mod((s + STEP - m) as nat, m as nat);
        }
    } else {
        vstd::arithmetic::div_mod::lemma_small_mod(start as nat, modulus() as nat);
    }
}

/// Multiplying by `c` and then by its inverse modulo `2^64` gives the number back.
pub proof fn lemma_multiplier_is_invertible(x: u64, c: u64, inverse: u64)
    requires
        (c * inverse) % modulus() == 1,
    ensures
        x.wrapping_mul(c).wrapping_mul(inverse) == x,
{
    let m = modulus();
    let p = x as int * c as int;
    vstd::arithmetic::div_mod::lemma_mul_mod_noop(p, inverse as int, m);
    assert(p * inverse == x * (c * inverse)) by (nonlinear_arith)
        requires
            p == x as int * c as int,
    ;
    vstd::arithmetic::div_mod::lemma_mul_mod_noop_right(x as int, c * inverse, m);
    vstd::arithmetic::div_mod::lemma_small_mod(x as nat, m as nat);
    vstd::arithmetic::div_mod::lemma_small_mod(inverse as nat, m as nat);
    assert(x.wrapping_mul(c) as int == p % m);
    assert(((p % m) * inverse) % m == x) by {
        vstd::arithmetic::div_mod::lemma_mul_mod_noop_left(p, inverse as int, m);
    }
}

/// Different states give different outputs.
pub proof fn law_mix_is_injective(a: u64, b: u64)
    requires
        mix(a) == mix(b),
    ensures
        a == b,
{
    let a1 = a ^ (a >> 30);
    let b1 = b ^ (b >> 30);
    let a2 = a1.wrapping_mul(MIX_1);
    let b2 = b1.wrapping_mul(MIX_1);
    let a3 = a2 ^ (a2 >> 27);
    let b3 = b2 ^ (b2 >> 27);
    let a4 = a3.wrapping_mul(MIX_2);
    let b4 = b3.wrapping_mul(MIX_2);
    assert(a4 == b4) by (bit_vector)
        requires
            a4 ^ (a4 >> 31) == b4 ^ (b4 >> 31),
    ;
    lemma_multiplier_is_invertible(a3, MIX_2, 0x319642B2D24D8EC3);
    lemma_multiplier_is_invertible(b3, MIX_2, 0x319642B2D24D8EC3);
    assert(a2 == b2) by (bit_vector)
        requires
            a2 ^ (a2 >> 27) == b2 ^ (b2 >> 27),
    ;
    lemma_multiplier_is_invertible(a1, MIX_1, 0x96DE1B173F119089);
    lemma_multiplier_is_invertible(b1, MIX_1, 0x96DE1B173F119089);
    assert(a == b) by (bit_vector)
        requires
            a ^ (a >> 30) == b ^ (b >> 30),
    ;
}

/// A generator gives `2^64` outputs before any of them comes again.
pub proof fn law_draws_do_not_repeat(start: u64, i: nat, j: nat)
    requires
        i < j,
        j - i < modulus(),
    ensures
        mix(state_after(start, i)) != mix(state_after(start, j)),
{
    if mix(state_after(start, i)) == mix(state_after(start, j)) {
        law_mix_is_injective(state_after(start, i), state_after(start, j));
        lemma_state_after(start, i);
        lemma_state_after(start, j);
        let m = modulus();
        let inverse: int = 0xF1DE_83E1_9937_733D;
        let gap = j - i;
        vstd::arithmetic::div_mod::lemma_mod_equivalence(start + j * STEP, start + i * STEP, m);
        assert((start + j * STEP) - (start + i * STEP) == gap * STEP) by (nonlinear_arith)
            requires
                gap == j - i,
        ;
        assert((gap * STEP) % m == 0);
        vstd::arithmetic::div_mod::lemma_mul_mod_noop_left(gap * STEP, inverse, m);
        assert((gap * STEP) * inverse == gap * (STEP * inverse)) by (nonlinear_arith);
        vstd::arithmetic::div_mod::lemma_mul_mod_noop_right(gap, STEP * inverse, m);
        assert((STEP * inverse) % m == 1);
        vstd::arithmetic::div_mod::lemma_small_mod(gap as nat, m as nat);
        vstd::arithmetic::div_mod::lemma_small_mod(0, m as nat);
    }
}

/// The mixing can be undone: from an output its state comes back by taking the three foldings
/// and the two multiplications back in reverse order. So the output is determined by the state
/// and the state by the output.
pub proof fn law_mix_can_be_undone(state: u64)
    ensures
        ({
            let out = mix(state);
            let z = out ^ (out >> 31) ^ (out >> 62);
            let y = z.wrapping_mul(0x3196_42B2_D24D_8EC3);
            let x = y ^ (y >> 27) ^ (y >> 54);
            let w = x.wrapping_mul(0x96DE_1B17_3F11_9089);
            w ^ (w >> 30) ^ (w >> 60) == state
        }),
{
    let a = state ^ (state >> 30);
    let b = a.wrapping_mul(MIX_1);
    let c = b ^ (b >> 27);
    let d = c.wrapping_mul(MIX_2);
    let out = d ^ (d >> 31);
    assert(out ^ (out >> 31) ^ (out >> 62) == d) by (bit_vector)
        requires
            out == d ^ (d >> 31),
    ;
    lemma_multiplier_is_invertible(c, MIX_2, 0x3196_42B2_D24D_8EC3);
    assert(c ^ (c >> 27) ^ (c >> 54) == b) by (bit_vector)
        requires
            c == b ^ (b >> 27),
    ;
    lemma_multiplier_is_invertible(a, MIX_1, 0x96DE_1B17_3F11_9089);
    assert(a ^ (a >> 30) ^ (a >> 60) == state) by (bit_vector)
        requires
            a == state ^ (state >> 30),
    ;
}

/// The states of a generator are equally spaced: drawing `n` times and then once more is
/// drawing once and then `n` times, and each draw moves the state by the same odd constant.
pub proof fn law_draws_step_evenly(start: u64, n: nat)
    ensures
        state_after(start, 0) == start,
        state_after(start, 1) == start.wrapping_add(0x9E37_79B9_7F4A_7C15),
        state_after(start, n + 1) == state_after(state_after(start, 1), n),
        state_after(start, n + 1) == state_after(state_after(start, n), 1),
    decreases n,
{
    reveal_with_fuel(state_after, 2);
    if n > 0 {
        law_draws_step_evenly(start, (n - 1) as nat);
    }
}

/// From the state that a generator starts from its seed comes back, so that generators for
/// different seeds start apart; and the seed zero does not start from zero.
pub proof fn law_seed_comes_back(seed: u64)
    ensures
        start_of(seed) ^ 0x9E37_79B9_7F4A_7C15u64 == seed,
        start_of(0) == 0x9E37_79B9_7F4A_7C15u64,
{
    assert((seed ^ 0x9E37_79B9_7F4A_7C15u64) ^ 0x9E37_79B9_7F4A_7C15u64 == seed) by (bit_vector);
    assert(0u64 ^ 0x9E37_79B9_7F4A_7C15u64 == 0x9E37_79B9_7F4A_7C15u64) by (bit_vector);
}

/// A fraction is as far into `[0, 1)` as its 64 bits are into their range: cut to 53 bits, and
/// always below one.
pub proof fn law_fraction_is_the_top_of_the_bits(bits: u64)
    ensures
        fraction_of(bits) * 2048 <= bits,
        bits < (fraction_of(bits) + 1) * 2048,
        fraction_of(bits) < 0x20_0000_0000_0000,
{
    assert(bits >> 11 == bits / 2048) by (bit_vector);
}

} // verus!
