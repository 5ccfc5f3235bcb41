//! Fixed-point scalars: a real number `v` is held as the integer `v * ONE`.
//!
//! Every quantity of the cloud pipeline (coordinates, noise values,
//! distances, transmittance) is a fixed-point `i64` with sixteen fraction
//! bits. Rounding is always towards negative infinity, so each operation is
//! a total function of its integer arguments.
use vstd::arithmetic::div_mod::{
    lemma_div_is_ordered, lemma_div_multiples_vanish, lemma_fundamental_div_mod, lemma_hoist_over_denominator,
    lemma_mod_bound,
};
use vstd::prelude::*;

verus! {

/// A point or vector of fixed-point coordinates.
#[derive(Clone, Copy, PartialEq, Eq, Structural, Debug)]
pub struct Point3 {
    pub x: i64,
    pub y: i64,
    pub z: i64,
}

/// The fixed-point representation of 1.0.
pub const ONE: i64 = 65536;

/// The fixed-point representation of 0.5.
pub const HALF: i64 = 32768;

/// Floor division by a positive divisor.
pub fn floor_div(a: i64, d: i64) -> (r: i64)
    requires
        d > 0,
    ensures
        r == a / d,
{
    proof {
        assert(i64::MIN <= a / d <= i64::MAX) by (nonlinear_arith)
            requires
                d > 0,
                i64::MIN <= a <= i64::MAX,
        ;
    }
    a.checked_div_euclid(d).unwrap()
}

/// Euclidean remainder by a positive divisor (always in `0..d`).
pub fn floor_mod(a: i64, d: i64) -> (r: i64)
    requires
        d > 0,
    ensures
        r == a % d,
        0 <= r < d,
{
    a.checked_rem_euclid(d).unwrap()
}

/// The lattice cell that holds coordinate `v` (the floor of `v`).
pub open spec fn cell_of(v: int) -> int {
    v / (ONE as int)
}

/// The position of `v` inside its cell, in `0..ONE`.
pub open spec fn fract_of(v: int) -> int {
    v % (ONE as int)
}

/// Floor of a fixed-point coordinate, as a cell index.
pub fn cell(v: i64) -> (r: i64)
    ensures
        r == cell_of(v as int),
        v == r * ONE + fract_of(v as int),
{
    proof {
        lemma_fundamental_div_mod(v as int, ONE as int);
    }
    floor_div(v, ONE)
}

/// Fractional part of a fixed-point coordinate.
pub fn fract(v: i64) -> (r: i64)
    ensures
        r == fract_of(v as int),
        0 <= r < ONE,
{
    floor_mod(v, ONE)
}

/// Reduces a lattice index into `0..period`; a period of zero or less leaves
/// the index unchanged (no tiling on that axis).
pub open spec fn wrap_spec(c: int, period: int) -> int {
    if period > 0 {
        c % period
    } else {
        c
    }
}

pub fn wrap(c: i64, period: i64) -> (r: i64)
    ensures
        r == wrap_spec(c as int, period as int),
{
    if period > 0 {
        floor_mod(c, period)
    } else {
        c
    }
}

/// Linear interpolation from `a` (at `t == 0`) to `b` (at `t == ONE`).
pub open spec fn lerp_spec(a: int, b: int, t: int) -> int {
    a + (b - a) * t / (ONE as int)
}

/// Bound on the magnitude of values handed to `lerp`.
pub const LERP_LIMIT: i64 = 0x100_0000_0000;

pub fn lerp(a: i64, b: i64, t: i64) -> (r: i64)
    requires
        -LERP_LIMIT <= a <= LERP_LIMIT,
        -LERP_LIMIT <= b <= LERP_LIMIT,
        0 <= t <= ONE,
    ensures
        r == lerp_spec(a as int, b as int, t as int),
        a <= b ==> a <= r <= b,
        b <= a ==> b <= r <= a,
{
    proof {
        lemma_lerp_bounds(a as int, b as int, t as int, if a <= b { a as int } else { b as int }, if a <= b { b as int } else { a as int });
        assert(-(0x200_0000_0000 * ONE) <= (b - a) * t <= 0x200_0000_0000 * ONE) by (nonlinear_arith)
            requires
                -0x200_0000_0000 <= b - a <= 0x200_0000_0000,
                0 <= t <= ONE,
        ;
    }
    a + floor_div((b - a) * t, ONE)
}

/// `n2 <= n1 + ONE * m` carries over to the floors.
proof fn lemma_floor_le(n1: int, n2: int, m: int)
    requires
        n2 <= n1 + ONE * m,
    ensures
        n2 / (ONE as int) <= n1 / (ONE as int) + m,
{
    lemma_div_is_ordered(n2, n1 + m * ONE, ONE as int);
    lemma_hoist_over_denominator(n1, m, ONE as nat);
}

/// The interpolation as one floor of a convex combination.
proof fn lemma_lerp_combination(a: int, b: int, t: int)
    ensures
        lerp_spec(a, b, t) == (a * (ONE - t) + b * t) / (ONE as int),
{
    lemma_hoist_over_denominator((b - a) * t, a, ONE as nat);
    assert((b - a) * t + a * ONE == a * (ONE - t) + b * t) by (nonlinear_arith);
}

pub proof fn lemma_lerp_ends(a: int, b: int)
    ensures
        lerp_spec(a, b, 0) == a,
        lerp_spec(a, b, ONE as int) == b,
{
    lemma_div_multiples_vanish(b - a, ONE as int);
    assert((b - a) * ONE == ONE * (b - a)) by (nonlinear_arith);
}

/// An interpolation stays between any bounds of its two ends.
pub proof fn lemma_lerp_bounds(a: int, b: int, t: int, lo: int, hi: int)
    requires
        lo <= a <= hi,
        lo <= b <= hi,
        0 <= t <= ONE,
    ensures
        lo <= lerp_spec(a, b, t) <= hi,
{
    lemma_lerp_combination(a, b, t);
    let n = a * (ONE - t) + b * t;
    assert(lo * ONE <= n <= hi * ONE) by (nonlinear_arith)
        requires
            lo <= a <= hi,
            lo <= b <= hi,
            0 <= t <= ONE,
            n == a * (ONE - t) + b * t,
    ;
    lemma_floor_le(n, lo * ONE, 0);
    lemma_floor_le(hi * ONE, n, 0);
    lemma_div_multiples_vanish(lo, ONE as int);
    lemma_div_multiples_vanish(hi, ONE as int);
    assert(lo * ONE == ONE * lo && hi * ONE == ONE * hi) by (nonlinear_arith);
}

/// Moving the parameter by `d` moves an interpolation between values at
/// most `ONE` apart by at most `d`.
pub proof fn lemma_lerp_param_step(a: int, b: int, t1: int, t2: int)
    requires
        -ONE <= b - a <= ONE,
        0 <= t1 <= t2 <= ONE,
    ensures
        lerp_spec(a, b, t2) - lerp_spec(a, b, t1) <= t2 - t1,
        lerp_spec(a, b, t1) - lerp_spec(a, b, t2) <= t2 - t1,
{
    let x1 = (b - a) * t1;
    let x2 = (b - a) * t2;
    assert(x2 - x1 <= ONE * (t2 - t1) && x1 - x2 <= ONE * (t2 - t1)) by (nonlinear_arith)
        requires
            -ONE <= b - a <= ONE,
            t1 <= t2,
            x1 == (b - a) * t1,
            x2 == (b - a) * t2,
    ;
    lemma_floor_le(x1, x2, t2 - t1);
    lemma_floor_le(x2, x1, t2 - t1);
}

/// Moving both ends by at most `m` moves the interpolation by at most `m`.
pub proof fn lemma_lerp_ends_step(a1: int, b1: int, a2: int, b2: int, t: int, m: int)
    requires
        -m <= a2 - a1 <= m,
        -m <= b2 - b1 <= m,
        0 <= t <= ONE,
    ensures
        -m <= lerp_spec(a2, b2, t) - lerp_spec(a1, b1, t) <= m,
{
    lemma_lerp_combination(a1, b1, t);
    lemma_lerp_combination(a2, b2, t);
    let n1 = a1 * (ONE - t) + b1 * t;
    let n2 = a2 * (ONE - t) + b2 * t;
    assert(n2 - n1 <= ONE * m && n1 - n2 <= ONE * m) by (nonlinear_arith)
        requires
            -m <= a2 - a1 <= m,
            -m <= b2 - b1 <= m,
            0 <= t <= ONE,
            n1 == a1 * (ONE - t) + b1 * t,
            n2 == a2 * (ONE - t) + b2 * t,
    ;
    lemma_floor_le(n1, n2, m);
    lemma_floor_le(n2, n1, m);
}

/// The cubic smoothstep `3w^2 - 2w^3` on `0..=ONE`.
pub open spec fn smooth_spec(w: int) -> int {
    w * w * (3 * ONE - 2 * w) / (ONE * ONE)
}

pub fn smoothstep(w: i64) -> (r: i64)
    requires
        0 <= w <= ONE,
    ensures
        r == smooth_spec(w as int),
        0 <= r <= ONE,
{
    proof {
        lemma_smooth_range(w as int);
        assert(0 <= w * w <= ONE * ONE) by (nonlinear_arith)
            requires
                0 <= w <= ONE,
        ;
        assert(0 <= (w * w) * (3 * ONE - 2 * w) <= ONE * ONE * (3 * ONE)) by (nonlinear_arith)
            requires
                0 <= w <= ONE,
        ;
    }
    floor_div(w * w * (3 * ONE - 2 * w), ONE * ONE)
}

pub proof fn lemma_smooth_range(w: int)
    requires
        0 <= w <= ONE,
    ensures
        0 <= smooth_spec(w) <= ONE,
        w == 0 ==> smooth_spec(w) == 0,
        w == ONE ==> smooth_spec(w) == ONE,
{
    let n = w * w * (3 * ONE - 2 * w);
    let nn = (ONE * ONE) as int;
    assert(0 <= n <= ONE * nn) by (nonlinear_arith)
        requires
            0 <= w <= ONE,
            n == w * w * (3 * ONE - 2 * w),
            nn == ONE * ONE,
    ;
    lemma_div_is_ordered(0, n, nn);
    lemma_div_is_ordered(n, ONE * nn, nn);
    lemma_div_multiples_vanish(ONE as int, nn);
    assert(ONE * nn == nn * ONE) by (nonlinear_arith);
    if w == ONE {
        assert(n == ONE * nn) by (nonlinear_arith)
            requires
                w == ONE,
                n == w * w * (3 * ONE - 2 * w),
                nn == ONE * ONE,
        ;
    }
}

/// One unit step of the argument raises the smoothstep by at most two units.
pub proof fn lemma_smooth_step(w: int)
    requires
        0 <= w < ONE,
    ensures
        0 <= smooth_spec(w + 1) - smooth_spec(w) <= 2,
{
    let n1 = w * w * (3 * ONE - 2 * w);
    let n2 = (w + 1) * (w + 1) * (3 * ONE - 2 * (w + 1));
    let nn = (ONE * ONE) as int;
    let q = w * (ONE - w - 1);
    assert(n2 - n1 == 6 * q + 3 * ONE - 2) by (nonlinear_arith)
        requires
            n1 == w * w * (3 * ONE - 2 * w),
            n2 == (w + 1) * (w + 1) * (3 * ONE - 2 * (w + 1)),
            q == w * (ONE - w - 1),
    ;
    assert(0 <= q) by (nonlinear_arith)
        requires
            0 <= w < ONE,
            q == w * (ONE - w - 1),
    ;
    assert(4 * q <= (ONE - 1) * (ONE - 1)) by (nonlinear_arith)
        requires
            0 <= w < ONE,
            q == w * (ONE - w - 1),
    ;
    assert((ONE - 1) * (ONE - 1) == 4294836225 && nn == 4294967296) by (nonlinear_arith)
        requires
            nn == ONE * ONE,
    ;
    assert(n2 <= n1 + nn * 2);
    lemma_div_is_ordered(n1, n2, nn);
    lemma_div_is_ordered(n2, n1 + 2 * nn, nn);
    lemma_hoist_over_denominator(n1, 2, nn as nat);
}

/// The integer square root of `n`: the largest `r` with `r * r <= n`.
pub open spec fn sqrt_floor(n: int) -> int {
    choose|r: int| is_sqrt_floor(n, r)
}

pub open spec fn is_sqrt_floor(n: int, r: int) -> bool {
    0 <= r && r * r <= n < (r + 1) * (r + 1)
}

/// The integer square root is the only root that fits.
pub proof fn lemma_sqrt_floor(n: int, r: int)
    requires
        0 <= r,
        r * r <= n < (r + 1) * (r + 1),
    ensures
        sqrt_floor(n) == r,
{
    assert(is_sqrt_floor(n, r));
    let s = sqrt_floor(n);
    assert(0 <= s && s * s <= n < (s + 1) * (s + 1));
    if s < r {
        assert((s + 1) * (s + 1) <= r * r) by (nonlinear_arith)
            requires
                0 <= s < r,
        ;
    } else if r < s {
        assert((r + 1) * (r + 1) <= s * s) by (nonlinear_arith)
            requires
                0 <= r < s,
        ;
    }
}

/// Integer square root: the largest `r` with `r * r <= n`.
pub fn isqrt(n: u64) -> (r: u64)
    ensures
        r * r <= n < (r + 1) * (r + 1),
        r == sqrt_floor(n as int),
        r < 0x1_0000_0000,
{
    let mut lo: u64 = 0;
    let mut hi: u64 = 0x1_0000_0000;
    proof {
        assert(n < hi * hi) by (nonlinear_arith)
            requires
                hi == 0x1_0000_0000,
                n <= u64::MAX,
        ;
    }
    while hi - lo > 1
        invariant
            lo < hi <= 0x1_0000_0000,
            lo * lo <= n,
            n < hi * hi,
        decreases hi - lo,
    {
        let mid = lo + (hi - lo) / 2;
        proof {
            assert(mid * mid < 0x1_0000_0000_0000_0000) by (nonlinear_arith)
                requires
                    mid < 0x1_0000_0000,
            ;
        }
        if mid * mid <= n {
            lo = mid;
        } else {
            hi = mid;
        }
    }
    proof {
        lemma_sqrt_floor(n as int, lo as int);
    }
    lo
}

/// The quintic fade `6t^5 - 15t^4 + 10t^3` on `0..=ONE`.
pub open spec fn fade_spec(t: int) -> int {
    t * t * t * (6 * t * t - 15 * ONE * t + 10 * ONE * ONE) / (ONE * ONE * ONE * ONE)
}

pub proof fn lemma_fade_range(t: int)
    requires
        0 <= t <= ONE,
    ensures
        0 <= fade_spec(t) <= ONE,
        0 <= t * t * t * (6 * t * t - 15 * ONE * t + 10 * ONE * ONE),
{
    let o = ONE as int;
    let inner = 6 * t * t - 15 * o * t + 10 * o * o;
    let n = t * t * t * inner;
    let d = o * o * o * o;
    assert(24 * inner == (12 * t - 15 * o) * (12 * t - 15 * o) + 15 * o * o) by (nonlinear_arith)
        requires
            inner == 6 * t * t - 15 * o * t + 10 * o * o,
    ;
    assert(0 <= (12 * t - 15 * o) * (12 * t - 15 * o)) by (nonlinear_arith);
    assert(0 <= t * t * t) by (nonlinear_arith)
        requires
            0 <= t,
    ;
    assert(0 <= n) by (nonlinear_arith)
        requires
            0 <= t * t * t,
            0 <= inner,
            n == t * t * t * inner,
    ;
    assert(o * d - n == (o - t) * (o - t) * (o - t) * (6 * t * t + 3 * o * t + o * o)) by (nonlinear_arith)
        requires
            inner == 6 * t * t - 15 * o * t + 10 * o * o,
            n == t * t * t * inner,
            d == o * o * o * o,
    ;
    assert(0 <= (o - t) * (o - t) * (o - t) * (6 * t * t + 3 * o * t + o * o)) by (nonlinear_arith)
        requires
            0 <= t <= o,
    ;
    assert(d > 0) by (nonlinear_arith)
        requires
            d == o * o * o * o,
            o == ONE,
    ;
    lemma_div_is_ordered(0, n, d);
    lemma_div_is_ordered(n, o * d, d);
    lemma_div_multiples_vanish(o, d);
    assert(o * d == d * o) by (nonlinear_arith);
}

pub fn fade(t: i64) -> (r: i64)
    requires
        0 <= t <= ONE,
    ensures
        r == fade_spec(t as int),
        0 <= r <= ONE,
{
    proof {
        lemma_fade_range(t as int);
    }
    let w = t as i128;
    let o = ONE as i128;
    proof {
        assert(0 <= w * w <= o * o && 0 <= w * w * w <= o * o * o) by (nonlinear_arith)
            requires
                0 <= w <= o,
        ;
        assert(0 <= 6 * w * w <= 6 * o * o && 0 <= 15 * o * w <= 15 * o * o) by (nonlinear_arith)
            requires
                0 <= w <= o,
        ;
        let inner = 6 * w * w - 15 * o * w + 10 * o * o;
        assert(0 <= w * w * w * inner <= o * o * o * (16 * o * o)) by (nonlinear_arith)
            requires
                0 <= w * w * w <= o * o * o,
                -15 * o * o <= inner <= 16 * o * o,
                0 <= w * w * w * inner,
        ;
    }
    let n = w * w * w * (6 * w * w - 15 * o * w + 10 * o * o);
    let q = n.checked_div_euclid(o * o * o * o).unwrap();
    q as i64
}

/// `v` within `m` gives `v / ONE` within `m / ONE + 1`.
pub proof fn lemma_div_band_general(v: int, m: int)
    requires
        0 <= m,
        -m <= v <= m,
    ensures
        -(m / (ONE as int) + 1) <= v / (ONE as int) <= m / (ONE as int) + 1,
{
    lemma_div_is_ordered(v, m, ONE as int);
    lemma_div_is_ordered(-m, v, ONE as int);
    lemma_fundamental_div_mod(m, ONE as int);
    lemma_fundamental_div_mod(-m, ONE as int);
    lemma_mod_bound(m, ONE as int);
    lemma_mod_bound(-m, ONE as int);
}

} // verus!
