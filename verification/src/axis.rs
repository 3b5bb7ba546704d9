//! How the skill axis is cut into shards.
use vstd::prelude::*;

verus! {

/// The larger of two integers.
pub open spec fn max_of(a: int, b: int) -> int {
    if a >= b {
        a
    } else {
        b
    }
}

/// The smaller of two integers.
pub open spec fn min_of(a: int, b: int) -> int {
    if a <= b {
        a
    } else {
        b
    }
}

/// How many consecutive skills share a shard when skills up to `skill_max` are
/// spread over `num_shards` shards.
pub open spec fn width_for(num_shards: usize, skill_max: u32) -> int {
    max_of((skill_max / (num_shards as u32)) as int, 1) + 1
}

/// The skills `0..=skill_max`, cut into contiguous shards of equal width. The
/// last shard also holds what lies beyond it.
#[derive(Clone, Copy, Debug)]
pub struct Axis {
    num_shards: usize,
    skill_max: u32,
    shard_width: u32,
}

/// The skills that a seed's band reaches, and the shards that hold them.
#[derive(Clone, Copy, Debug)]
pub struct Reach {
    /// Lowest skill in reach.
    pub low_skill: u32,
    /// Highest skill in reach.
    pub high_skill: u32,
    /// Index of the first shard in reach.
    pub low: usize,
    /// Index of the shard that holds the seed's skill.
    pub seed: usize,
    /// Index of the last shard in reach.
    pub high: usize,
}

impl Axis {
    /// Cuts the skills up to `skill_max` into `num_shards` shards.
    pub fn new(num_shards: usize, skill_max: u32) -> (axis: Self)
        requires
            num_shards >= 1,
            num_shards as u32 != 0,
            width_for(num_shards, skill_max) <= u32::MAX,
        ensures
            axis.wf(),
            axis.shards() == num_shards,
            axis.top_skill() == skill_max,
            axis.width() == width_for(num_shards, skill_max),
    {
        let per_shard: u32 = skill_max / (num_shards as u32);
        let shard_width: u32 = if per_shard >= 1 {
            per_shard + 1
        } else {
            2
        };
        Axis { num_shards, skill_max, shard_width }
    }

    pub closed spec fn wf(self) -> bool {
        self.num_shards >= 1 && self.shard_width >= 1
    }

    /// The number of shards.
    pub closed spec fn shards(self) -> usize {
        self.num_shards
    }

    /// The highest skill of the axis.
    pub closed spec fn top_skill(self) -> u32 {
        self.skill_max
    }

    /// The number of consecutive skills that share a shard.
    pub closed spec fn width(self) -> u32 {
        self.shard_width
    }

    /// The index of the shard that holds `skill`.
    pub open spec fn shard(self, skill: u32) -> int {
        min_of(skill as int / self.width() as int, self.shards() - 1)
    }

    /// The number of shards.
    pub fn num_shards(&self) -> (count: usize)
        ensures
            count == self.shards(),
    {
        self.num_shards
    }

    /// Brings a skill into the axis.
    pub fn clamp(&self, skill: u32) -> (clamped: u32)
        ensures
            clamped == min_of(skill as int, self.top_skill() as int),
    {
        if skill <= self.skill_max {
            skill
        } else {
            self.skill_max
        }
    }

    /// The index of the shard that holds `skill`.
    pub fn shard_of(&self, skill: u32) -> (index: usize)
        requires
            self.wf(),
        ensures
            index == self.shard(skill),
            index < self.shards(),
    {
        let quotient: usize = (skill / self.shard_width) as usize;
        let last: usize = self.num_shards - 1;
        proof {
            vstd::arithmetic::div_mod::lemma_div_pos_is_pos(skill as int, self.shard_width as int);
        }
        if quotient <= last {
            quotient
        } else {
            last
        }
    }

    /// The band of width `band` around a seed's skill reaches symmetrically in both
    /// directions, as far as there are skills, and into the shards that hold them.
    pub fn reach(&self, seed_skill: u32, band: u32) -> (reach: Reach)
        requires
            self.wf(),
            seed_skill <= self.top_skill(),
        ensures
            self.is_reach(seed_skill, band, reach),
    {
        let low_skill: u32 = seed_skill.saturating_sub(band);
        let room: u32 = self.skill_max - seed_skill;
        let high_skill: u32 = if band <= room {
            seed_skill + band
        } else {
            self.skill_max
        };
        proof {
            law_shards_follow_skill(*self, low_skill, seed_skill);
            law_shards_follow_skill(*self, seed_skill, high_skill);
        }
        Reach {
            low_skill,
            high_skill,
            low: self.shard_of(low_skill),
            seed: self.shard_of(seed_skill),
            high: self.shard_of(high_skill),
        }
    }

    /// `reach` is what a band of width `band` around `seed_skill` reaches.
    pub open spec fn is_reach(self, seed_skill: u32, band: u32, reach: Reach) -> bool {
        &&& reach.low_skill == low_end(seed_skill, band)
        &&& reach.high_skill == high_end(seed_skill, band, self.top_skill())
        &&& reach.low == self.shard(reach.low_skill)
        &&& reach.seed == self.shard(seed_skill)
        &&& reach.high == self.shard(reach.high_skill)
        &&& reach.low <= reach.seed <= reach.high < self.shards()
    }
}

/// The lowest skill that is at most `band` below `seed_skill`.
pub open spec fn low_end(seed_skill: u32, band: u32) -> u32 {
    max_of(seed_skill - band, 0) as u32
}

/// The highest skill that is at most `band` above `seed_skill` and not above `skill_max`.
pub open spec fn high_end(seed_skill: u32, band: u32, skill_max: u32) -> u32 {
    min_of(seed_skill + band, skill_max as int) as u32
}

/// Shards follow skill: a higher skill is never in a lower shard.
pub proof fn law_shards_follow_skill(axis: Axis, a: u32, b: u32)
    requires
        axis.wf(),
        a <= b,
    ensures
        0 <= axis.shard(a) <= axis.shard(b) < axis.shards(),
{
    vstd::arithmetic::div_mod::lemma_div_is_ordered(a as int, b as int, axis.shard_width as int);
    vstd::arithmetic::div_mod::lemma_div_pos_is_pos(a as int, axis.shard_width as int);
}

/// Locking the shards of a reach is enough: every skill in reach is held by one
/// of them.
pub proof fn law_reach_covers_its_skills(
    axis: Axis,
    seed_skill: u32,
    band: u32,
    reach: Reach,
    skill: u32,
)
    requires
        axis.wf(),
        axis.is_reach(seed_skill, band, reach),
        reach.low_skill <= skill <= reach.high_skill,
    ensures
        reach.low <= axis.shard(skill) <= reach.high,
{
    law_shards_follow_skill(axis, reach.low_skill, skill);
    law_shards_follow_skill(axis, skill, reach.high_skill);
}

/// A wider band reaches every skill and every shard that a narrower one does.
pub proof fn law_wider_band_reaches_further(
    axis: Axis,
    seed_skill: u32,
    band: u32,
    wider: u32,
    reach: Reach,
    further: Reach,
)
    requires
        axis.wf(),
        band <= wider,
        axis.is_reach(seed_skill, band, reach),
        axis.is_reach(seed_skill, wider, further),
    ensures
        further.low_skill <= reach.low_skill,
        reach.high_skill <= further.high_skill,
        further.low <= reach.low,
        reach.high <= further.high,
{
    law_shards_follow_skill(axis, further.low_skill, reach.low_skill);
    law_shards_follow_skill(axis, reach.high_skill, further.high_skill);
}

/// The cut uses no more shards than there are: where the number of shards fits
/// 32 bits, every skill of the axis falls into the shard that its quotient names.
pub proof fn law_axis_fits_its_shards(axis: Axis, skill: u32)
    requires
        axis.wf(),
        axis.shards() <= u32::MAX,
        axis.width() == width_for(axis.shards(), axis.top_skill()),
        skill <= axis.top_skill(),
    ensures
        axis.shard(skill) == skill as int / axis.width() as int,
{
    let n: int = axis.shards() as int;
    let top: int = axis.top_skill() as int;
    let w: int = axis.width() as int;
    assert(top / n < w);
    assert(skill as int / w < n) by (nonlinear_arith)
        requires
            top / n < w,
            skill <= top,
            n >= 1,
            w >= 1,
            skill >= 0,
    ;
}

/// The smaller of two numbers is one of them and above neither; the larger is one of them and
/// below neither.
pub proof fn law_smaller_and_larger(a: int, b: int)
    ensures
        min_of(a, b) <= a,
        min_of(a, b) <= b,
        min_of(a, b) == a || min_of(a, b) == b,
        max_of(a, b) >= a,
        max_of(a, b) >= b,
        max_of(a, b) == a || max_of(a, b) == b,
{
}

/// The axis is cut evenly: the shards together are wide enough for every skill, and, unless
/// they are two skills wide, shards one skill narrower would not be.
pub proof fn law_shards_are_cut_evenly(num_shards: usize, skill_max: u32)
    requires
        1 <= num_shards <= u32::MAX,
    ensures
        num_shards * width_for(num_shards, skill_max) > skill_max,
        width_for(num_shards, skill_max) >= 2,
        width_for(num_shards, skill_max) > 2 ==> num_shards * (width_for(num_shards, skill_max)
            - 1) <= skill_max,
{
    let n: int = num_shards as int;
    let top: int = skill_max as int;
    let q: int = top / n;
    let w: int = width_for(num_shards, skill_max);
    vstd::arithmetic::div_mod::lemma_fundamental_div_mod(top, n);
    vstd::arithmetic::div_mod::lemma_mod_bound(top, n);
    assert(w == q + 1 || q < 1 && w == 2);
    assert(n * (q + 1) == n * q + n) by (nonlinear_arith);
    if q < 1 {
        assert(n * q <= 0) by (nonlinear_arith)
            requires
                q < 1,
                n >= 1,
        ;
        assert(n * 2 == n + n) by (nonlinear_arith);
    }
}

/// A shard holds a run of consecutive skills, all shards but the last equally many: shard
/// number `s` starts at `s` widths and ends where the next one starts.
pub proof fn law_shard_holds_a_run_of_skills(axis: Axis, skill: u32)
    requires
        axis.wf(),
    ensures
        0 <= axis.shard(skill) < axis.shards(),
        axis.shard(skill) * axis.width() <= skill,
        axis.shard(skill) < axis.shards() - 1 ==> skill < (axis.shard(skill) + 1) * axis.width(),
{
    let w: int = axis.width() as int;
    let q: int = skill as int / w;
    let s: int = axis.shard(skill);
    vstd::arithmetic::div_mod::lemma_fundamental_div_mod(skill as int, w);
    vstd::arithmetic::div_mod::lemma_mod_bound(skill as int, w);
    law_shards_follow_skill(axis, skill, skill);
    assert(s * w <= q * w) by (nonlinear_arith)
        requires
            0 <= s <= q,
            w >= 1,
    ;
    assert(q * w == w * q) by (nonlinear_arith);
    assert((q + 1) * w == w * q + w) by (nonlinear_arith);
}

/// A band reaches equally far in both directions: a skill of the axis is between its ends
/// exactly if it is at most `band` above and at most `band` below the seed's skill.
pub proof fn law_band_reaches_both_ways(
    seed_skill: u32,
    band: u32,
    skill_max: u32,
    skill: u32,
)
    requires
        seed_skill <= skill_max,
        skill <= skill_max,
    ensures
        low_end(seed_skill, band) <= skill <= high_end(seed_skill, band, skill_max) <==> skill
            - seed_skill <= band && seed_skill - skill <= band,
        low_end(seed_skill, band) <= seed_skill <= high_end(seed_skill, band, skill_max)
            <= skill_max,
{
}

/// A reach is no wider than its band: it begins with the shard that holds its lowest skill and
/// ends with the shard that holds its highest, and the seed's shard holds the seed's skill.
pub proof fn law_reach_ends_with_its_band(
    axis: Axis,
    seed_skill: u32,
    band: u32,
    reach: Reach,
)
    requires
        axis.wf(),
        axis.is_reach(seed_skill, band, reach),
    ensures
        reach.low * axis.width() <= reach.low_skill,
        reach.low < axis.shards() - 1 ==> reach.low_skill < (reach.low + 1) * axis.width(),
        reach.seed * axis.width() <= seed_skill,
        reach.seed < axis.shards() - 1 ==> seed_skill < (reach.seed + 1) * axis.width(),
        reach.high * axis.width() <= reach.high_skill,
        reach.high < axis.shards() - 1 ==> reach.high_skill < (reach.high + 1) * axis.width(),
{
    law_shard_holds_a_run_of_skills(axis, reach.low_skill);
    law_shard_holds_a_run_of_skills(axis, seed_skill);
    law_shard_holds_a_run_of_skills(axis, reach.high_skill);
}

} // verus!
