//! Fractal sums (fBm) of lattice noise: octaves at growing frequency and
//! shrinking amplitude, each shifted by a fixed offset to decorrelate it
//! from the others, then normalized and clamped to `0..=2 * ONE`.
use crate::fixed::{floor_div, sqrt_floor, Point3, ONE};
use crate::noise::{dnoised, value_noise_at, worley_noise, worley_sq_at, Period};
use vstd::arithmetic::div_mod::{lemma_div_is_ordered, lemma_div_is_ordered_by_denominator, lemma_div_pos_is_pos};
use vstd::prelude::*;

verus! {

/// The noise summed by a fractal sum.
#[derive(Clone, Copy, PartialEq, Eq, Structural, Debug)]
pub enum NoiseKind {
    /// Value noise, in `0..ONE`.
    Value,
    /// Distance to the nearest cellular feature point, in `0..2 * ONE`.
    Worley,
}

/// The settings of a fractal sum. Octave `k` samples the noise at
/// `(p + start + (k + 1) * step) * lacunarity^k` with the period scaled by
/// the same factor, and weighs it by `ONE / lacunarity^k`. The sum `t`
/// becomes `clamp(t * scale / ONE + bias, 0, 2 * ONE)`.
#[derive(Clone, Copy, PartialEq, Eq, Structural, Debug)]
pub struct FbmParams {
    pub kind: NoiseKind,
    pub octaves: u32,
    pub lacunarity: i64,
    pub start: Point3,
    pub step: Point3,
    pub scale: i64,
    pub bias: i64,
}

pub const MAX_OCTAVES: u32 = 12;

/// Bound on input coordinates, offsets and periods.
pub const COORD_LIMIT: i64 = 0x100_0000_0000;

/// Bound on the per-octave step.
pub const STEP_LIMIT: i64 = 0x10_0000_0000;

/// Bound on the normalization factor.
pub const SCALE_LIMIT: i64 = 0x10_0000_0000;

pub open spec fn coord_ok(p: Point3, limit: int) -> bool {
    -limit <= p.x <= limit && -limit <= p.y <= limit && -limit <= p.z <= limit
}

impl FbmParams {
    pub open spec fn wf(&self) -> bool {
        &&& self.octaves <= MAX_OCTAVES
        &&& 2 <= self.lacunarity <= 3
        &&& coord_ok(self.start, COORD_LIMIT as int)
        &&& coord_ok(self.step, STEP_LIMIT as int)
        &&& -SCALE_LIMIT <= self.scale <= SCALE_LIMIT
        &&& -COORD_LIMIT <= self.bias <= COORD_LIMIT
    }
}

pub open spec fn period_ok(period: Period) -> bool {
    0 <= period.x <= COORD_LIMIT && 0 <= period.y <= COORD_LIMIT && 0 <= period.z <= COORD_LIMIT
}

pub open spec fn ipow(b: int, e: nat) -> int
    decreases e,
{
    if e == 0 {
        1
    } else {
        b * ipow(b, (e - 1) as nat)
    }
}

/// The noise of the given kind at `(x, y, z)`.
#[verifier::opaque]
pub open spec fn base_noise(kind: NoiseKind, x: int, y: int, z: int, period: Period) -> int {
    match kind {
        NoiseKind::Value => value_noise_at(x, y, z, period),
        NoiseKind::Worley => sqrt_floor(worley_sq_at(x, y, z, period)),
    }
}

pub open spec fn scaled_period(period: Period, f: int) -> Period {
    Period { x: (period.x * f) as i64, y: (period.y * f) as i64, z: (period.z * f) as i64 }
}

/// The weighted noise of octave `k`.
pub open spec fn octave_term(p: Point3, period: Period, params: FbmParams, k: nat) -> int {
    let f = ipow(params.lacunarity as int, k);
    let x = (p.x + params.start.x + (k + 1) * params.step.x) * f;
    let y = (p.y + params.start.y + (k + 1) * params.step.y) * f;
    let z = (p.z + params.start.z + (k + 1) * params.step.z) * f;
    base_noise(params.kind, x, y, z, scaled_period(period, f)) * ((ONE as int) / f) / (ONE as int)
}

/// The sum of the first `n` octaves.
pub open spec fn octave_sum(p: Point3, period: Period, params: FbmParams, n: nat) -> int
    decreases n,
{
    if n == 0 {
        0
    } else {
        octave_sum(p, period, params, (n - 1) as nat) + octave_term(p, period, params, (n - 1) as nat)
    }
}

pub open spec fn clamp_spec(v: int, lo: int, hi: int) -> int {
    if v < lo {
        lo
    } else if v > hi {
        hi
    } else {
        v
    }
}

/// The fractal sum at `p`.
pub open spec fn fbm_at(p: Point3, period: Period, params: FbmParams) -> int {
    clamp_spec(octave_sum(p, period, params, params.octaves as nat) * params.scale / (ONE as int) + params.bias, 0, 2 * ONE)
}

proof fn lemma_ipow_bounds(b: int, e: nat)
    requires
        2 <= b <= 3,
        e <= 11,
    ensures
        1 <= ipow(b, e) <= 177147,
{
    lemma_ipow_mono(b, e);
    reveal_with_fuel(ipow, 12);
    assert(ipow(3, 11) == 177147);
    lemma_ipow_exp_mono(3, e, 11);
}

proof fn lemma_ipow_mono(b: int, e: nat)
    requires
        2 <= b <= 3,
    ensures
        1 <= ipow(b, e) <= ipow(3, e),
    decreases e,
{
    if e > 0 {
        lemma_ipow_mono(b, (e - 1) as nat);
        let a = ipow(b, (e - 1) as nat);
        let c = ipow(3, (e - 1) as nat);
        assert(1 <= b * a <= 3 * c) by (nonlinear_arith)
            requires
                2 <= b <= 3,
                1 <= a <= c,
        ;
    }
}

proof fn lemma_ipow_exp_mono(b: int, e1: nat, e2: nat)
    requires
        2 <= b,
        e1 <= e2,
    ensures
        1 <= ipow(b, e1) <= ipow(b, e2),
    decreases e2,
{
    if e1 < e2 {
        lemma_ipow_exp_mono(b, e1, (e2 - 1) as nat);
        let a = ipow(b, (e2 - 1) as nat);
        assert(a <= b * a) by (nonlinear_arith)
            requires
                2 <= b,
                1 <= a,
        ;
    } else {
        lemma_ipow_pos(b, e1);
    }
}

proof fn lemma_ipow_pos(b: int, e: nat)
    requires
        1 <= b,
    ensures
        1 <= ipow(b, e),
    decreases e,
{
    if e > 0 {
        lemma_ipow_pos(b, (e - 1) as nat);
        let a = ipow(b, (e - 1) as nat);
        assert(1 <= b * a) by (nonlinear_arith)
            requires
                1 <= b,
                1 <= a,
        ;
    }
}

/// The noise of one octave, at an already scaled position and period.
fn sample(kind: NoiseKind, q: Point3, period: Period) -> (r: i64)
    ensures
        r == base_noise(kind, q.x as int, q.y as int, q.z as int, period),
        0 <= r < 2 * ONE,
{
    proof {
        reveal(base_noise);
    }
    match kind {
        NoiseKind::Value => dnoised(q, period),
        NoiseKind::Worley => {
            let d = worley_noise(q, period);
            proof {
                assert(d < 2 * ONE) by (nonlinear_arith)
                    requires
                        d * d < 3 * ONE * ONE,
                        0 <= d,
                ;
            }
            d
        },
    }
}

fn scale_coord(v: i64, f: i64, limit: Ghost<int>) -> (r: i64)
    requires
        0 <= limit@ <= 0x1000_0000_0000,
        -limit@ <= v <= limit@,
        1 <= f <= 177147,
    ensures
        r == v * f,
{
    proof {
        assert(-limit@ * 177147 <= v * f <= limit@ * 177147) by (nonlinear_arith)
            requires
                -limit@ <= v <= limit@,
                1 <= f <= 177147,
                0 <= limit@,
        ;
    }
    v * f
}

/// The fractal sum of noise at `p`, tiled by `period`.
pub fn fbm(p: Point3, period: Period, params: FbmParams) -> (r: i64)
    requires
        coord_ok(p, COORD_LIMIT as int),
        period_ok(period),
        params.wf(),
    ensures
        r == fbm_at(p, period, params),
        0 <= r <= 2 * ONE,
{
    let mut t: i64 = 0;
    let mut k: u32 = 0;
    let mut f: i64 = 1;
    while k < params.octaves
        invariant
            coord_ok(p, COORD_LIMIT as int),
            period_ok(period),
            params.wf(),
            k <= params.octaves,
            k < params.octaves ==> f == ipow(params.lacunarity as int, k as nat),
            t == octave_sum(p, period, params, k as nat),
            0 <= t <= 0x2_0000 * k,
        decreases params.octaves - k,
    {
        proof {
            lemma_ipow_bounds(params.lacunarity as int, k as nat);
        }
        let lim = Ghost(0x1000_0000_0000int);
        let kk = (k as i64) + 1;
        proof {
            let st = params.step;
            assert(-12 * STEP_LIMIT <= kk * st.x <= 12 * STEP_LIMIT && -12 * STEP_LIMIT <= kk * st.y <= 12
                * STEP_LIMIT && -12 * STEP_LIMIT <= kk * st.z <= 12 * STEP_LIMIT) by (nonlinear_arith)
                requires
                    1 <= kk <= 12,
                    coord_ok(st, STEP_LIMIT as int),
            ;
        }
        let q = Point3 {
            x: scale_coord(p.x + params.start.x + kk * params.step.x, f, lim),
            y: scale_coord(p.y + params.start.y + kk * params.step.y, f, lim),
            z: scale_coord(p.z + params.start.z + kk * params.step.z, f, lim),
        };
        let per = Period {
            x: scale_coord(period.x, f, lim),
            y: scale_coord(period.y, f, lim),
            z: scale_coord(period.z, f, lim),
        };
        let n = sample(params.kind, q, per);
        let amp = floor_div(ONE, f);
        proof {
            lemma_div_is_ordered_by_denominator(ONE as int, 1, f as int);
            lemma_div_pos_is_pos(ONE as int, f as int);
            assert(0 <= n * amp <= 2 * ONE * ONE) by (nonlinear_arith)
                requires
                    0 <= n < 2 * ONE,
                    0 <= amp <= ONE,
            ;
            lemma_div_is_ordered(0, n * amp, ONE as int);
            lemma_div_is_ordered(n * amp, 2 * ONE * ONE, ONE as int);
            vstd::arithmetic::div_mod::lemma_div_multiples_vanish(2 * ONE as int, ONE as int);
            assert(2 * ONE * ONE == ONE * (2 * ONE)) by (nonlinear_arith);
            assert(per == scaled_period(period, f as int));
        }
        let term = floor_div(n * amp, ONE);
        t = t + term;
        if k + 1 < params.octaves {
            proof {
                lemma_ipow_bounds(params.lacunarity as int, (k + 1) as nat);
                assert(ipow(params.lacunarity as int, (k + 1) as nat) == params.lacunarity * f);
                assert(params.lacunarity * f == f * params.lacunarity) by (nonlinear_arith);
            }
            f = f * params.lacunarity;
        }
        k = k + 1;
    }
    proof {
        assert(0 <= t <= 0x2_0000 * 12);
        assert(-24 * ONE * SCALE_LIMIT <= t * params.scale <= 24 * ONE * SCALE_LIMIT) by (nonlinear_arith)
            requires
                0 <= t <= 24 * ONE,
                -SCALE_LIMIT <= params.scale <= SCALE_LIMIT,
        ;
        lemma_div_is_ordered(-24 * ONE * SCALE_LIMIT, t * params.scale, ONE as int);
        lemma_div_is_ordered(t * params.scale, 24 * ONE * SCALE_LIMIT, ONE as int);
    }
    let v = floor_div(t * params.scale, ONE) + params.bias;
    if v < 0 {
        0
    } else if v > 2 * ONE {
        2 * ONE
    } else {
        v
    }
}

/// The settings of `value_fbm`: eight octaves of value noise, doubling in
/// frequency, each shifted by `(24, 16, 34)`, scaled by `1.75 / e`.
pub open spec fn value_fbm_params() -> FbmParams {
    FbmParams {
        kind: NoiseKind::Value,
        octaves: 8,
        lacunarity: 2,
        start: Point3 { x: 0, y: 0, z: 0 },
        step: Point3 { x: 1572864, y: 1048576, z: 2228224 },
        scale: 42191,
        bias: 0,
    }
}

/// The settings of `wfbm`: three octaves of cellular noise, tripling in
/// frequency, inverted as `e - 1.25 - t`.
pub open spec fn worley_fbm_params() -> FbmParams {
    FbmParams {
        kind: NoiseKind::Worley,
        octaves: 3,
        lacunarity: 3,
        start: Point3 { x: 6561661, y: -802321i64, z: 879100 },
        step: Point3 { x: 860029, y: -4718592i64, z: 15350497 },
        scale: -65536i64,
        bias: 96225,
    }
}

/// Value-noise fractal sum at `p`, tiled by `period`.
pub fn value_fbm(p: Point3, period: Period) -> (r: i64)
    requires
        coord_ok(p, COORD_LIMIT as int),
        period_ok(period),
    ensures
        r == fbm_at(p, period, value_fbm_params()),
        0 <= r <= 2 * ONE,
{
    let params = FbmParams {
        kind: NoiseKind::Value,
        octaves: 8,
        lacunarity: 2,
        start: Point3 { x: 0, y: 0, z: 0 },
        step: Point3 { x: 1572864, y: 1048576, z: 2228224 },
        scale: 42191,
        bias: 0,
    };
    fbm(p, period, params)
}

/// Billowy cellular fractal sum at `p`, tiled by `period`: high in cell
/// cores, low near cell borders.
pub fn wfbm(p: Point3, period: Period) -> (r: i64)
    requires
        coord_ok(p, COORD_LIMIT as int),
        period_ok(period),
    ensures
        r == fbm_at(p, period, worley_fbm_params()),
        0 <= r <= 2 * ONE,
{
    let params = FbmParams {
        kind: NoiseKind::Worley,
        octaves: 3,
        lacunarity: 3,
        start: Point3 { x: 6561661, y: -802321, z: 879100 },
        step: Point3 { x: 860029, y: -4718592, z: 15350497 },
        scale: -65536,
        bias: 96225,
    };
    fbm(p, period, params)
}

} // verus!
