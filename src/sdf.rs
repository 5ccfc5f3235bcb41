//! The cloud's signed distance field (negative inside): a base sphere
//! carved by octaves of randomly sized metaballs, one per lattice corner,
//! blended in with smooth minimum and maximum.
use crate::fixed::{
    cell, cell_of, floor_div, fract, fract_of, is_sqrt_floor, isqrt, lemma_lerp_bounds, lemma_sqrt_floor, lerp, lerp_spec,
    sqrt_floor, Point3, HALF, ONE,
};
use crate::hash::{hash, hash_spec};
use vstd::arithmetic::div_mod::{lemma_div_is_ordered, lemma_fundamental_div_mod};
use vstd::prelude::*;

verus! {

/// Bound on the magnitude of distances handed to the smooth blends.
pub const SDF_LIMIT: i64 = 0x100_0000_0000;

pub open spec fn abs_spec(a: int) -> int {
    if a < 0 {
        -a
    } else {
        a
    }
}

pub open spec fn min_spec(a: int, b: int) -> int {
    if a <= b {
        a
    } else {
        b
    }
}

pub open spec fn max_spec(a: int, b: int) -> int {
    if a >= b {
        a
    } else {
        b
    }
}

/// Polynomial smooth minimum with blend radius `k`:
/// `h = clamp(1/2 + (b - a) / 2k, 0, 1)`, `mix(b, a, h) - k h (1 - h)`;
/// with `k == 0` it is the plain minimum.
pub open spec fn smooth_min_spec(a: int, b: int, k: int) -> int {
    if k <= 0 {
        min_spec(a, b)
    } else {
        let h0 = HALF + (b - a) * HALF / k;
        let h = if h0 < 0 {
            0
        } else if h0 > ONE {
            ONE as int
        } else {
            h0
        };
        lerp_spec(b, a, h) - k * (h * (ONE - h) / (ONE as int)) / (ONE as int)
    }
}

/// Polynomial smooth maximum with blend radius `k`:
/// `h = max(0, k - |a - b|)`, `max(a, b) + h^2 / 4k`; with `k == 0` it is
/// the plain maximum.
pub open spec fn smooth_max_spec(a: int, b: int, k: int) -> int {
    if k <= 0 {
        max_spec(a, b)
    } else {
        let diff = if a >= b {
            a - b
        } else {
            b - a
        };
        let h = if k - diff > 0 {
            k - diff
        } else {
            0
        };
        max_spec(a, b) + h * h / (4 * k)
    }
}

pub fn smooth_min(a: i64, b: i64, k: i64) -> (r: i64)
    requires
        -SDF_LIMIT <= a <= SDF_LIMIT,
        -SDF_LIMIT <= b <= SDF_LIMIT,
        0 <= k <= SDF_LIMIT,
    ensures
        r == smooth_min_spec(a as int, b as int, k as int),
        k == 0 ==> r == min_spec(a as int, b as int),
        min_spec(a as int, b as int) - k <= r <= max_spec(a as int, b as int),
{
    if k == 0 {
        return if a <= b {
            a
        } else {
            b
        };
    }
    proof {
        assert(-0x200_0000_0000 * HALF <= (b - a) * HALF <= 0x200_0000_0000 * HALF) by (nonlinear_arith)
            requires
                -0x200_0000_0000 <= b - a <= 0x200_0000_0000,
        ;
        lemma_div_is_ordered((b - a) * HALF, 0x200_0000_0000 * HALF, k as int);
        lemma_div_is_ordered(-0x200_0000_0000 * HALF, (b - a) * HALF, k as int);
        lemma_div_is_ordered(0x200_0000_0000 * HALF, 0x200_0000_0000 * HALF * k, k as int);
        vstd::arithmetic::div_mod::lemma_div_multiples_vanish(0x200_0000_0000 * HALF, k as int);
        assert(0x200_0000_0000 * HALF <= 0x200_0000_0000 * HALF * k) by (nonlinear_arith)
            requires
                1 <= k,
        ;
        assert(0x200_0000_0000 * HALF * k == k * (0x200_0000_0000 * HALF)) by (nonlinear_arith);
        assert((-0x200_0000_0000 * HALF) / (k as int) >= -0x200_0000_0000 * HALF) by (nonlinear_arith)
            requires
                1 <= k,
        {
            lemma_fundamental_div_mod(-0x200_0000_0000 * HALF, k as int);
        }
    }
    let h0 = HALF + floor_div((b - a) * HALF, k);
    let h = if h0 < 0 {
        0
    } else if h0 > ONE {
        ONE
    } else {
        h0
    };
    let m = lerp(b, a, h);
    proof {
        assert(0 <= h * (ONE - h) <= ONE * ONE) by (nonlinear_arith)
            requires
                0 <= h <= ONE,
        ;
        assert(4 * (h * (ONE - h)) <= ONE * ONE) by (nonlinear_arith)
            requires
                0 <= h <= ONE,
        ;
    }
    let c = floor_div(h * (ONE - h), ONE);
    proof {
        lemma_div_is_ordered(0, h * (ONE - h), ONE as int);
        lemma_fundamental_div_mod(h * (ONE - h), ONE as int);
        assert(0 <= k * c <= k * ONE) by (nonlinear_arith)
            requires
                0 <= c <= ONE,
                0 <= k,
        ;
        lemma_div_is_ordered(0, k * c, ONE as int);
        lemma_div_is_ordered(k * c, k * ONE, ONE as int);
        vstd::arithmetic::div_mod::lemma_div_multiples_vanish(k as int, ONE as int);
        assert(k * ONE == ONE * k) by (nonlinear_arith);
    }
    m - floor_div(k * c, ONE)
}

pub fn smooth_max(a: i64, b: i64, k: i64) -> (r: i64)
    requires
        -SDF_LIMIT <= a <= SDF_LIMIT,
        -SDF_LIMIT <= b <= SDF_LIMIT,
        0 <= k <= SDF_LIMIT,
    ensures
        r == smooth_max_spec(a as int, b as int, k as int),
        k == 0 ==> r == max_spec(a as int, b as int),
        max_spec(a as int, b as int) <= r,
        4 * (r - max_spec(a as int, b as int)) <= k,
{
    let m = if a >= b {
        a
    } else {
        b
    };
    if k == 0 {
        return m;
    }
    let diff = if a >= b {
        a - b
    } else {
        b - a
    };
    let h: i64 = if k - diff > 0 {
        k - diff
    } else {
        0
    };
    proof {
        assert(0 <= h * h <= k * k <= SDF_LIMIT * SDF_LIMIT) by (nonlinear_arith)
            requires
                0 <= h <= k,
                k <= SDF_LIMIT,
        ;
    }
    let hh = (h as i128) * (h as i128);
    let q = hh.checked_div_euclid(4 * (k as i128)).unwrap();
    proof {
        let kk = 4 * k;
        lemma_fundamental_div_mod(hh as int, kk);
        vstd::arithmetic::div_mod::lemma_mod_bound(hh as int, kk);
        lemma_div_is_ordered(0, hh as int, kk);
        assert(q == (hh as int) / kk);
        assert(q * kk <= hh) by (nonlinear_arith)
            requires
                hh == kk * ((hh as int) / kk) + (hh as int) % kk,
                0 <= (hh as int) % kk,
                q == (hh as int) / kk,
        ;
        assert(4 * q <= k) by (nonlinear_arith)
            requires
                q * (4 * k) <= hh,
                hh <= k * k,
                0 < k,
                0 <= q,
        ;
    }
    m + q as i64
}

/// Distance from `p` to the sphere of radius `radius` around `c`.
pub fn sd_sphere(p: Point3, c: Point3, radius: i64) -> (r: i64)
    requires
        -0x2000_0000 <= p.x <= 0x2000_0000,
        -0x2000_0000 <= p.y <= 0x2000_0000,
        -0x2000_0000 <= p.z <= 0x2000_0000,
        -0x2000_0000 <= c.x <= 0x2000_0000,
        -0x2000_0000 <= c.y <= 0x2000_0000,
        -0x2000_0000 <= c.z <= 0x2000_0000,
        0 <= radius <= 0x2000_0000,
    ensures
        r == sqrt_floor((p.x - c.x) * (p.x - c.x) + (p.y - c.y) * (p.y - c.y) + (p.z - c.z) * (p.z - c.z)) - radius,
        -radius <= r < 0x1_0000_0000,
{
    let (dx, dy, dz) = (p.x - c.x, p.y - c.y, p.z - c.z);
    proof {
        assert(0 <= dx * dx <= 0x10_0000_0000_0000_00 && 0 <= dy * dy <= 0x10_0000_0000_0000_00 && 0 <= dz * dz
            <= 0x10_0000_0000_0000_00) by (nonlinear_arith)
            requires
                -0x4000_0000 <= dx <= 0x4000_0000,
                -0x4000_0000 <= dy <= 0x4000_0000,
                -0x4000_0000 <= dz <= 0x4000_0000,
        ;
    }
    let n = (dx * dx + dy * dy + dz * dz) as u64;
    isqrt(n) as i64 - radius
}

/// Half of a hashed value: the jitter and radius of a corner metaball, in
/// `0..HALF`.
pub open spec fn ball_jitter(gx: int, gy: int, gz: int, channel: int) -> int {
    hash_spec(gx, gy, gz, channel) / 2
}

/// Distance from fraction `(fx, fy, fz)` of cell `(cx, cy, cz)` to the
/// metaball at the corner `(i, j, k)`: a sphere of random radius in
/// `0.2..0.7`, displaced by a random offset in `0..0.5` per axis.
pub open spec fn corner_ball(cx: int, cy: int, cz: int, fx: int, fy: int, fz: int, i: int, j: int, k: int) -> int {
    let (gx, gy, gz) = (cx + i, cy + j, cz + k);
    let vx = fx - i * ONE + ball_jitter(gx, gy, gz, 5);
    let vy = fy - j * ONE + ball_jitter(gx, gy, gz, 6);
    let vz = fz - k * ONE + ball_jitter(gx, gy, gz, 7);
    sqrt_floor(vx * vx + vy * vy + vz * vz) - ball_jitter(gx, gy, gz, 8) - BALL_MARGIN
}

/// The smallest metaball radius, 0.2.
pub const BALL_MARGIN: i64 = 13107;

/// The metaball field: the least distance to the eight corner balls of the
/// cell holding `(x, y, z)`.
#[verifier::opaque]
pub open spec fn sd_base_at(x: int, y: int, z: int) -> int {
    let (cx, cy, cz) = (cell_of(x), cell_of(y), cell_of(z));
    let (fx, fy, fz) = (fract_of(x), fract_of(y), fract_of(z));
    min_spec(
        min_spec(
            min_spec(corner_ball(cx, cy, cz, fx, fy, fz, 0, 0, 0), corner_ball(cx, cy, cz, fx, fy, fz, 0, 0, 1)),
            min_spec(corner_ball(cx, cy, cz, fx, fy, fz, 0, 1, 0), corner_ball(cx, cy, cz, fx, fy, fz, 0, 1, 1)),
        ),
        min_spec(
            min_spec(corner_ball(cx, cy, cz, fx, fy, fz, 1, 0, 0), corner_ball(cx, cy, cz, fx, fy, fz, 1, 0, 1)),
            min_spec(corner_ball(cx, cy, cz, fx, fy, fz, 1, 1, 0), corner_ball(cx, cy, cz, fx, fy, fz, 1, 1, 1)),
        ),
    )
}

fn ball_distance(cx: i64, cy: i64, cz: i64, fx: i64, fy: i64, fz: i64, i: i64, j: i64, k: i64) -> (r: i64)
    requires
        -0x1_0000_0000_0000 <= cx <= 0x1_0000_0000_0000,
        -0x1_0000_0000_0000 <= cy <= 0x1_0000_0000_0000,
        -0x1_0000_0000_0000 <= cz <= 0x1_0000_0000_0000,
        0 <= fx < ONE,
        0 <= fy < ONE,
        0 <= fz < ONE,
        0 <= i <= 1,
        0 <= j <= 1,
        0 <= k <= 1,
    ensures
        r == corner_ball(cx as int, cy as int, cz as int, fx as int, fy as int, fz as int, i as int, j as int, k as int),
        -ONE <= r <= 3 * ONE,
{
    let (gx, gy, gz) = (cx + i, cy + j, cz + k);
    let vx = fx - i * ONE + hash(gx, gy, gz, 5) / 2;
    let vy = fy - j * ONE + hash(gx, gy, gz, 6) / 2;
    let vz = fz - k * ONE + hash(gx, gy, gz, 7) / 2;
    proof {
        assert(0 <= vx * vx <= 4 * ONE * ONE && 0 <= vy * vy <= 4 * ONE * ONE && 0 <= vz * vz <= 4 * ONE * ONE) by (nonlinear_arith)
            requires
                -ONE <= vx <= 2 * ONE,
                -ONE <= vy <= 2 * ONE,
                -ONE <= vz <= 2 * ONE,
        ;
        assert(vx * vx + vy * vy + vz * vz < 7 * ONE * ONE) by (nonlinear_arith)
            requires
                -ONE <= vx < ONE + HALF,
                -ONE <= vy < ONE + HALF,
                -ONE <= vz < ONE + HALF,
        ;
    }
    let n = (vx * vx + vy * vy + vz * vz) as u64;
    let len = isqrt(n) as i64;
    proof {
        assert(len < 3 * ONE) by (nonlinear_arith)
            requires
                len * len <= n,
                n < 7 * ONE * ONE,
                0 <= len,
        ;
    }
    len - hash(gx, gy, gz, 8) / 2 - BALL_MARGIN
}

fn min_i64(a: i64, b: i64) -> (r: i64)
    ensures
        r == min_spec(a as int, b as int),
{
    if a <= b {
        a
    } else {
        b
    }
}

/// The metaball field at `p`, in `-ONE..=3 * ONE`.
pub fn sd_base(p: Point3) -> (r: i64)
    ensures
        r == sd_base_at(p.x as int, p.y as int, p.z as int),
        -ONE <= r <= 3 * ONE,
{
    let (cx, cy, cz) = (cell(p.x), cell(p.y), cell(p.z));
    let (fx, fy, fz) = (fract(p.x), fract(p.y), fract(p.z));
    proof {
        lemma_div_is_ordered(i64::MIN as int, p.x as int, ONE as int);
        lemma_div_is_ordered(p.x as int, i64::MAX as int, ONE as int);
        lemma_div_is_ordered(i64::MIN as int, p.y as int, ONE as int);
        lemma_div_is_ordered(p.y as int, i64::MAX as int, ONE as int);
        lemma_div_is_ordered(i64::MIN as int, p.z as int, ONE as int);
        lemma_div_is_ordered(p.z as int, i64::MAX as int, ONE as int);
    }
    let a = min_i64(ball_distance(cx, cy, cz, fx, fy, fz, 0, 0, 0), ball_distance(cx, cy, cz, fx, fy, fz, 0, 0, 1));
    let b = min_i64(ball_distance(cx, cy, cz, fx, fy, fz, 0, 1, 0), ball_distance(cx, cy, cz, fx, fy, fz, 0, 1, 1));
    let c = min_i64(ball_distance(cx, cy, cz, fx, fy, fz, 1, 0, 0), ball_distance(cx, cy, cz, fx, fy, fz, 1, 0, 1));
    let d = min_i64(ball_distance(cx, cy, cz, fx, fy, fz, 1, 1, 0), ball_distance(cx, cy, cz, fx, fy, fz, 1, 1, 1));
    proof {
        reveal(sd_base_at);
    }
    min_i64(min_i64(a, b), min_i64(c, d))
}

/// The decorrelating transform between octaves: a rotation scaled by two,
/// `[[0, 1.6, 1.2], [-1.6, 0.72, -0.96], [-1.2, -0.96, 1.28]]`, written as
/// an integer matrix over 25.
pub open spec fn rot_x(x: int, y: int, z: int) -> int {
    (40 * y + 30 * z) / 25
}

pub open spec fn rot_y(x: int, y: int, z: int) -> int {
    (-40 * x + 18 * y - 24 * z) / 25
}

pub open spec fn rot_z(x: int, y: int, z: int) -> int {
    (-30 * x - 24 * y + 32 * z) / 25
}

/// The amplitude of octave `k`: `ONE` halved `k` times.
pub open spec fn octave_scale(k: nat) -> int
    decreases k,
{
    if k == 0 {
        ONE as int
    } else {
        octave_scale((k - 1) as nat) / 2
    }
}

/// Octaves of metaball detail applied to distance `d` at `(x, y, z)`, with
/// amplitude `s`: each octave's scaled metaball field is clipped against
/// `d - 0.4 s` by a smooth maximum of radius `s`, then carved into `d` by a
/// smooth minimum of radius `0.02 s`; the next octave samples the rotated
/// position at half the amplitude.
pub open spec fn sd_octaves(x: int, y: int, z: int, d: int, s: int, n: nat) -> int
    decreases n,
{
    if n == 0 {
        d
    } else {
        let d2 = octave_step(sd_base_at(x, y, z), d, s);
        sd_octaves(rot_x(x, y, z), rot_y(x, y, z), rot_z(x, y, z), d2, s / 2, (n - 1) as nat)
    }
}

pub const FBM_OFFSET_X: i64 = 8004108;

pub const FBM_OFFSET_Y: i64 = -204669;

pub const FBM_OFFSET_Z: i64 = 591337882;

/// Metaball octaves over distance `d` at `(x, y, z)` (shifted by a fixed
/// offset), starting at amplitude `ONE`.
pub open spec fn sd_fbm_at(x: int, y: int, z: int, d: int, octaves: nat) -> int {
    sd_octaves(x + FBM_OFFSET_X, y + FBM_OFFSET_Y, z + FBM_OFFSET_Z, d, ONE as int, octaves)
}

proof fn lemma_octave_unfold(x: int, y: int, z: int, d: int, s: int, n: nat)
    ensures
        sd_octaves(x, y, z, d, s, n + 1) == sd_octaves(
            rot_x(x, y, z),
            rot_y(x, y, z),
            rot_z(x, y, z),
            octave_step(sd_base_at(x, y, z), d, s),
            s / 2,
            n,
        ),
{
}

/// Octaves of zero amplitude leave the distance unchanged.
pub proof fn lemma_octaves_vanish(x: int, y: int, z: int, d: int, n: nat)
    ensures
        sd_octaves(x, y, z, d, 0, n) == d,
    decreases n,
{
    if n > 0 {
        let b = sd_base_at(x, y, z);
        reveal(octave_step);
        assert(0 * b / (ONE as int) == 0);
        assert(octave_step(b, d, 0) == d);
        lemma_octaves_vanish(rot_x(x, y, z), rot_y(x, y, z), rot_z(x, y, z), d, (n - 1) as nat);
    }
}

proof fn lemma_octave_scale(k: nat)
    ensures
        k <= 16 ==> 1 <= octave_scale(k) <= ONE,
        octave_scale(17) == 0,
        octave_scale(k + 1) == octave_scale(k) / 2,
{
    reveal_with_fuel(octave_scale, 18);
    assert(octave_scale(16) == 1);
    lemma_octave_scale_nonincreasing(k, 16);
    lemma_octave_scale_nonincreasing(0, k);
}

proof fn lemma_octave_scale_nonincreasing(k1: nat, k2: nat)
    ensures
        k1 <= k2 ==> octave_scale(k2) <= octave_scale(k1),
        0 <= octave_scale(k2),
    decreases k2,
{
    if k2 > 0 {
        lemma_octave_scale_nonincreasing(k1, (k2 - 1) as nat);
    }
}

/// A bound on the coordinates after `k` rotations of a point within
/// `0x8000_0000`.
pub open spec fn rot_bound(k: nat) -> int
    decreases k,
{
    if k == 0 {
        0x8000_0000
    } else {
        rot_bound((k - 1) as nat) * 86 / 25 + 1
    }
}

proof fn lemma_rot_bound(k: nat)
    requires
        k <= 16,
    ensures
        0x8000_0000 <= rot_bound(k) <= 0x2000_0000_0000_0000,
{
    reveal_with_fuel(rot_bound, 17);
    assert(rot_bound(16) <= 0x2000_0000_0000_0000);
    lemma_rot_bound_increasing(k, 16);
}

proof fn lemma_rot_bound_increasing(k1: nat, k2: nat)
    requires
        k1 <= k2,
    ensures
        0x8000_0000 <= rot_bound(k1) <= rot_bound(k2),
    decreases k2,
{
    if k1 < k2 {
        lemma_rot_bound_increasing(k1, (k2 - 1) as nat);
        assert(rot_bound((k2 - 1) as nat) <= rot_bound((k2 - 1) as nat) * 86 / 25) by (nonlinear_arith)
            requires
                0 <= rot_bound((k2 - 1) as nat),
        ;
    } else if k1 > 0 {
        lemma_rot_bound_increasing(0, (k1 - 1) as nat);
        assert(rot_bound((k1 - 1) as nat) <= rot_bound((k1 - 1) as nat) * 86 / 25) by (nonlinear_arith)
            requires
                0 <= rot_bound((k1 - 1) as nat),
        ;
    }
}

/// The rotation between octaves, for coordinates within `bound`.
fn rotate(p: Point3, bound: Ghost<int>) -> (r: Point3)
    requires
        0 <= bound@ <= 0x2000_0000_0000_0000,
        -bound@ <= p.x <= bound@,
        -bound@ <= p.y <= bound@,
        -bound@ <= p.z <= bound@,
    ensures
        r.x == rot_x(p.x as int, p.y as int, p.z as int),
        r.y == rot_y(p.x as int, p.y as int, p.z as int),
        r.z == rot_z(p.x as int, p.y as int, p.z as int),
        -(bound@ * 86 / 25 + 1) <= r.x <= bound@ * 86 / 25 + 1,
        -(bound@ * 86 / 25 + 1) <= r.y <= bound@ * 86 / 25 + 1,
        -(bound@ * 86 / 25 + 1) <= r.z <= bound@ * 86 / 25 + 1,
{
    let x = p.x as i128;
    let y = p.y as i128;
    let z = p.z as i128;
    let vx = 40 * y + 30 * z;
    let vy = 18 * y - 40 * x - 24 * z;
    let vz = 32 * z - 30 * x - 24 * y;
    proof {
        let bb = bound@;
        lemma_div_band(vx as int, bb);
        lemma_div_band(vy as int, bb);
        lemma_div_band(vz as int, bb);
    }
    Point3 {
        x: vx.checked_div_euclid(25).unwrap() as i64,
        y: vy.checked_div_euclid(25).unwrap() as i64,
        z: vz.checked_div_euclid(25).unwrap() as i64,
    }
}

proof fn lemma_div_band(v: int, bb: int)
    requires
        0 <= bb,
        -86 * bb <= v <= 86 * bb,
    ensures
        -(bb * 86 / 25 + 1) <= v / 25 <= bb * 86 / 25,
{
    lemma_div_is_ordered(v, 86 * bb, 25);
    lemma_div_is_ordered(-86 * bb, v, 25);
    assert(86 * bb == bb * 86);
    lemma_fundamental_div_mod(86 * bb, 25);
    lemma_fundamental_div_mod(-86 * bb, 25);
    vstd::arithmetic::div_mod::lemma_mod_bound(86 * bb, 25);
    vstd::arithmetic::div_mod::lemma_mod_bound(-86 * bb, 25);
}

/// One octave of detail: the new distance from amplitude `s`, the metaball
/// field `base` at the octave's position and the distance `d` so far.
#[verifier::opaque]
pub open spec fn octave_step(base: int, d: int, s: int) -> int {
    let detail = s * base / (ONE as int);
    let clipped = smooth_max_spec(detail, d - 2 * s / 5, s);
    smooth_min_spec(clipped, d, s / 50)
}

fn octave(q: Point3, d: i64, s: i64) -> (r: i64)
    requires
        1 <= s <= ONE,
        -0x90_0000_0000 <= d <= 0x90_0000_0000,
    ensures
        r == octave_step(sd_base_at(q.x as int, q.y as int, q.z as int), d as int, s as int),
        d - 2 * ONE <= r <= (if d > 4 * ONE { d + ONE } else { 4 * ONE as int }),
{
    let base = sd_base(q);
    proof {
        assert(-ONE * ONE <= s * base <= 3 * ONE * ONE) by (nonlinear_arith)
            requires
                1 <= s <= ONE,
                -ONE <= base <= 3 * ONE,
        ;
        lemma_div_is_ordered(-ONE * ONE, s * base, ONE as int);
        lemma_div_is_ordered(s * base, 3 * ONE * ONE, ONE as int);
        assert(-ONE * ONE == ONE * (-ONE)) by (nonlinear_arith);
        assert(3 * ONE * ONE == ONE * (3 * ONE)) by (nonlinear_arith);
        vstd::arithmetic::div_mod::lemma_div_multiples_vanish(-ONE as int, ONE as int);
        vstd::arithmetic::div_mod::lemma_div_multiples_vanish(3 * ONE as int, ONE as int);
    }
    let detail = floor_div(s * base, ONE);
    let clipped = smooth_max(detail, d - floor_div(2 * s, 5), s);
    proof {
        reveal(octave_step);
    }
    smooth_min(clipped, d, floor_div(s, 50))
}

/// Adds octaves of metaball detail to the distance `d` at `p`. Octaves past
/// the sixteenth have zero amplitude in this fixed-point format and leave
/// the distance unchanged. Each octave rotation more than triples the
/// coordinates, so they are limited to `16384.0` for sixteen rotations to
/// stay within 64 bits.
pub fn sd_fbm(p: Point3, d: i64, octaves: u32) -> (r: i64)
    requires
        -0x4000_0000 <= p.x <= 0x4000_0000,
        -0x4000_0000 <= p.y <= 0x4000_0000,
        -0x4000_0000 <= p.z <= 0x4000_0000,
        -0x80_0000_0000 <= d <= 0x80_0000_0000,
    ensures
        r == sd_fbm_at(p.x as int, p.y as int, p.z as int, d as int, octaves as nat),
        -0x80_0022_0000 <= r <= 0x80_0011_0000,
{
    let mut q = Point3 { x: p.x + FBM_OFFSET_X, y: p.y + FBM_OFFSET_Y, z: p.z + FBM_OFFSET_Z };
    let mut d = d;
    let mut s: i64 = ONE;
    let mut k: u32 = 0;
    let ghost total = sd_fbm_at(p.x as int, p.y as int, p.z as int, d as int, octaves as nat);
    let ghost d0 = d as int;
    proof {
        lemma_rot_bound(0);
    }
    while k < octaves && k < 17
        invariant
            k <= octaves,
            k <= 17,
            s == octave_scale(k as nat),
            -rot_bound(k as nat) <= q.x <= rot_bound(k as nat),
            -rot_bound(k as nat) <= q.y <= rot_bound(k as nat),
            -rot_bound(k as nat) <= q.z <= rot_bound(k as nat),
            -0x80_0000_0000 - 0x2_0000 * k <= d <= 0x80_0000_0000 + 0x1_0000 * k,
            total == sd_octaves(q.x as int, q.y as int, q.z as int, d as int, s as int, (octaves - k) as nat),
        decreases 17 - k,
    {
        proof {
            lemma_octave_scale(k as nat);
            lemma_rot_bound(k as nat);
        }
        let d2 = octave(q, d, s);
        let ghost rest = (octaves - k - 1) as nat;
        proof {
            lemma_octave_unfold(q.x as int, q.y as int, q.z as int, d as int, s as int, rest);
        }
        if k < 16 {
            proof {
                lemma_rot_bound(k as nat + 1);
            }
            q = rotate(q, Ghost(rot_bound(k as nat)));
        } else {
            proof {
                lemma_octaves_vanish(q.x as int, q.y as int, q.z as int, d2 as int, rest);
                lemma_octaves_vanish(
                    rot_x(q.x as int, q.y as int, q.z as int),
                    rot_y(q.x as int, q.y as int, q.z as int),
                    rot_z(q.x as int, q.y as int, q.z as int),
                    d2 as int,
                    rest,
                );
            }
        }
        d = d2;
        s = s / 2;
        k = k + 1;
    }
    proof {
        if k == 17 {
            lemma_octave_scale(17);
            lemma_octaves_vanish(q.x as int, q.y as int, q.z as int, d as int, (octaves - k) as nat);
        }
    }
    d
}

/// Centre and radius of the base sphere of the cloud.
pub const BASE_CENTER_Y: i64 = 13107;

pub const BASE_RADIUS: i64 = 19661;

pub const SDF_OFFSET_X: i64 = -6561661;

pub const SDF_OFFSET_Y: i64 = 19865928;

pub const SDF_OFFSET_Z: i64 = 41564897;

/// The base shape: a sphere of radius 0.3 around `(0, 0.2, 0)`.
pub open spec fn base_shape_at(x: int, y: int, z: int) -> int {
    sqrt_floor(x * x + (y - BASE_CENTER_Y) * (y - BASE_CENTER_Y) + z * z) - BASE_RADIUS
}

/// The cloud's signed distance at `(x, y, z)`: the base sphere carved by
/// twenty metaball octaves sampled at an offset position.
pub open spec fn sdf_at(x: int, y: int, z: int) -> int {
    sd_fbm_at(x + SDF_OFFSET_X, y + SDF_OFFSET_Y, z + SDF_OFFSET_Z, base_shape_at(x, y, z), 20)
}

/// The cloud's signed distance at `p` (negative inside), for coordinates up
/// to `8192.0`.
pub fn sdf(p: Point3) -> (r: i64)
    requires
        -0x2000_0000 <= p.x <= 0x2000_0000,
        -0x2000_0000 <= p.y <= 0x2000_0000,
        -0x2000_0000 <= p.z <= 0x2000_0000,
    ensures
        r == sdf_at(p.x as int, p.y as int, p.z as int),
        -0x80_0022_0000 <= r <= 0x80_0011_0000,
{
    let d = sd_sphere(p, Point3 { x: 0, y: BASE_CENTER_Y, z: 0 }, BASE_RADIUS);
    sd_fbm(Point3 { x: p.x + SDF_OFFSET_X, y: p.y + SDF_OFFSET_Y, z: p.z + SDF_OFFSET_Z }, d, 20)
}

/// A smooth minimum of radius at most `ONE` never exceeds its second
/// argument by more than one unit, and never undercuts the plain minimum by
/// more than the radius.
pub proof fn lemma_smooth_min_bounds(a: int, b: int, k: int)
    requires
        0 <= k <= ONE,
    ensures
        smooth_min_spec(a, b, k) <= b + 1,
        min_spec(a, b) - k <= smooth_min_spec(a, b, k),
{
    if k > 0 {
        let n = ONE as int;
        let q = (b - a) * HALF / k;
        let h0 = HALF + q;
        let h = if h0 < 0 {
            0
        } else if h0 > ONE {
            n
        } else {
            h0
        };
        lemma_fundamental_div_mod((b - a) * HALF, k);
        vstd::arithmetic::div_mod::lemma_mod_bound((b - a) * HALF, k);
        let c = h * (n - h) / n;
        lemma_fundamental_div_mod(h * (n - h), n);
        vstd::arithmetic::div_mod::lemma_mod_bound(h * (n - h), n);
        let cc = k * c / n;
        lemma_fundamental_div_mod(k * c, n);
        vstd::arithmetic::div_mod::lemma_mod_bound(k * c, n);
        let l = (a - b) * h / n;
        lemma_fundamental_div_mod((a - b) * h, n);
        vstd::arithmetic::div_mod::lemma_mod_bound((a - b) * h, n);
        assert(lerp_spec(b, a, h) == b + l);
        assert(0 <= h * (n - h)) by (nonlinear_arith)
            requires
                0 <= h <= n,
        ;
        assert(0 <= c) by (nonlinear_arith)
            requires
                0 <= h * (n - h),
                c * n <= h * (n - h),
                h * (n - h) < c * n + n,
                n > 0,
        ;
        assert(0 <= k * c) by (nonlinear_arith)
            requires
                0 <= c,
                0 <= k,
        ;
        assert(0 <= cc) by (nonlinear_arith)
            requires
                0 <= k * c,
                cc * n <= k * c,
                k * c < cc * n + n,
                n > 0,
        ;
        assert(4 * (h * (n - h)) <= n * n) by (nonlinear_arith)
            requires
                0 <= h <= n,
        ;
        assert(c <= n / 4 + 1) by (nonlinear_arith)
            requires
                c * n <= h * (n - h),
                4 * (h * (n - h)) <= n * n,
                n == 65536,
        ;
        assert(cc <= k) by (nonlinear_arith)
            requires
                cc * n <= k * c,
                c <= n / 4 + 1,
                0 <= k,
                n == 65536,
        ;
        if h0 <= 0 {
            assert(l == 0);
        } else if h0 >= n {
            assert(q >= HALF);
            assert(b - a > 0) by (nonlinear_arith)
                requires
                    (b - a) * HALF >= k * q,
                    q >= HALF,
                    k > 0,
            ;
            assert((a - b) * n / n == a - b) by {
                vstd::arithmetic::div_mod::lemma_div_multiples_vanish(a - b, n);
                assert((a - b) * n == n * (a - b)) by (nonlinear_arith);
            }
            assert(h * (n - h) == 0);
        } else {
            // (a - b) * n <= (n - 2h) * k, from the floor in h.
            assert((a - b) * n <= (n - 2 * h) * k) by (nonlinear_arith)
                requires
                    k * q <= (b - a) * HALF,
                    h == HALF + q,
                    n == 2 * HALF,
            ;
            assert(l * n * n <= (n - 2 * h) * k * h) by (nonlinear_arith)
                requires
                    l * n <= (a - b) * h,
                    (a - b) * n <= (n - 2 * h) * k,
                    0 <= h,
                    n > 0,
            ;
            assert(cc * n * n > k * h * (n - h) - k * n - n * n) by (nonlinear_arith)
                requires
                    k * c < cc * n + n,
                    h * (n - h) < c * n + n,
                    k > 0,
                    n > 0,
            ;
            assert((l - cc) * n * n < 2 * n * n) by (nonlinear_arith)
                requires
                    l * n * n <= (n - 2 * h) * k * h,
                    cc * n * n > k * h * (n - h) - k * n - n * n,
                    0 < k <= n,
                    0 <= h,
            ;
            assert(l - cc < 2) by (nonlinear_arith)
                requires
                    (l - cc) * n * n < 2 * n * n,
                    n > 0,
            ;
        }
        lemma_lerp_bounds(b, a, h, min_spec(a, b), max_spec(a, b));
    }
}

/// One octave raises the distance by at most one unit and lowers it by at
/// most the octave's amplitude.
proof fn lemma_octave_step_bounds(base: int, d: int, s: int)
    requires
        0 <= s <= ONE,
    ensures
        d - s <= octave_step(base, d, s) <= d + 1,
{
    reveal(octave_step);
    let detail = s * base / (ONE as int);
    let clipped = smooth_max_spec(detail, d - 2 * s / 5, s);
    if s > 0 {
        let diff = if detail >= d - 2 * s / 5 {
            detail - (d - 2 * s / 5)
        } else {
            (d - 2 * s / 5) - detail
        };
        let h = if s - diff > 0 {
            s - diff
        } else {
            0
        };
        vstd::arithmetic::div_mod::lemma_div_pos_is_pos(h * h, 4 * s);
        assert(0 <= h * h) by (nonlinear_arith);
    }
    assert(clipped >= d - 2 * s / 5);
    lemma_smooth_min_bounds(clipped, d, s / 50);
    assert(2 * s / 5 + s / 50 <= s);
}

/// Octaves starting at amplitude `s` raise the distance by at most one unit
/// each and lower it by at most `2 s` in all.
proof fn lemma_octaves_bounds(x: int, y: int, z: int, d: int, s: int, n: nat)
    requires
        0 <= s <= ONE,
    ensures
        d - 2 * s <= sd_octaves(x, y, z, d, s, n) <= d + n,
    decreases n,
{
    if n > 0 {
        let d2 = octave_step(sd_base_at(x, y, z), d, s);
        lemma_octave_step_bounds(sd_base_at(x, y, z), d, s);
        lemma_octaves_bounds(rot_x(x, y, z), rot_y(x, y, z), rot_z(x, y, z), d2, s / 2, (n - 1) as nat);
    }
}

proof fn lemma_sqrt_exists(n: int)
    requires
        0 <= n,
    ensures
        is_sqrt_floor(n, sqrt_floor(n)),
    decreases n,
{
    if n == 0 {
        lemma_sqrt_floor(0, 0);
    } else {
        lemma_sqrt_exists(n - 1);
        let r = sqrt_floor(n - 1);
        if (r + 1) * (r + 1) <= n {
            assert(n < (r + 2) * (r + 2)) by (nonlinear_arith)
                requires
                    n - 1 < (r + 1) * (r + 1),
                    0 <= r,
            ;
            lemma_sqrt_floor(n, r + 1);
        } else {
            lemma_sqrt_floor(n, r);
        }
    }
}

/// The carved cloud stays close to its base sphere: at most twenty units
/// above the sphere's distance and at most two (`2 * ONE`) below it. So it
/// is inside at the centre of the sphere and far outside (at least 97 away)
/// at points 100 or more from the centre.
pub proof fn lemma_sdf_sign(x: int, y: int, z: int)
    ensures
        base_shape_at(x, y, z) - 2 * ONE <= sdf_at(x, y, z) <= base_shape_at(x, y, z) + 20,
        x == 0 && y == BASE_CENTER_Y && z == 0 ==> sdf_at(x, y, z) < 0,
        x * x + (y - BASE_CENTER_Y) * (y - BASE_CENTER_Y) + z * z >= (100 * ONE) * (100 * ONE) ==> sdf_at(x, y, z)
            >= 97 * ONE,
{
    lemma_octaves_bounds(
        x + SDF_OFFSET_X + FBM_OFFSET_X,
        y + SDF_OFFSET_Y + FBM_OFFSET_Y,
        z + SDF_OFFSET_Z + FBM_OFFSET_Z,
        base_shape_at(x, y, z),
        ONE as int,
        20,
    );
    let m = x * x + (y - BASE_CENTER_Y) * (y - BASE_CENTER_Y) + z * z;
    assert(0 <= m) by (nonlinear_arith)
        requires
            m == x * x + (y - BASE_CENTER_Y) * (y - BASE_CENTER_Y) + z * z,
    ;
    lemma_sqrt_exists(m);
    let r = sqrt_floor(m);
    if x == 0 && y == BASE_CENTER_Y && z == 0 {
        assert(m == 0) by (nonlinear_arith)
            requires
                m == x * x + (y - BASE_CENTER_Y) * (y - BASE_CENTER_Y) + z * z,
                x == 0,
                y == BASE_CENTER_Y,
                z == 0,
        ;
        assert(r == 0) by (nonlinear_arith)
            requires
                0 <= r,
                r * r <= m,
                m == 0,
        ;
    }
    if m >= (100 * ONE) * (100 * ONE) {
        assert(r >= 100 * ONE) by (nonlinear_arith)
            requires
                m < (r + 1) * (r + 1),
                m >= (100 * ONE) * (100 * ONE),
                0 <= r,
        ;
    }
}

} // verus!
