//! Lattice noise: value noise (with its analytic gradient), gradient noise
//! and cellular (Worley) noise, each optionally tiling with a period.
use crate::fixed::{
    cell, cell_of, fade, fade_spec, floor_div, floor_mod, fract, fract_of, lemma_lerp_bounds, lemma_lerp_ends, lemma_lerp_ends_step,
    lemma_lerp_param_step, lemma_smooth_range, lemma_smooth_step, lerp, lerp_spec, smooth_spec,
    isqrt, smoothstep, sqrt_floor, wrap, wrap_spec, Point3, HALF, ONE,
};
use crate::hash::{hash, hash_spec, lattice_bits};
use vstd::arithmetic::div_mod::*;
use vstd::prelude::*;

verus! {

/// Tiling periods in lattice cells; an axis with period zero does not tile.
#[derive(Clone, Copy, PartialEq, Eq, Structural, Debug)]
pub struct Period {
    pub x: i64,
    pub y: i64,
    pub z: i64,
}

/// The random value at a lattice point, after wrapping by the period.
pub open spec fn lattice_value(cx: int, cy: int, cz: int, period: Period) -> int {
    hash_spec(wrap_spec(cx, period.x as int), wrap_spec(cy, period.y as int), wrap_spec(cz, period.z as int), 0)
}

/// The eight corner values of the cell `(cx, cy, cz)`, indexed by `0..=1`
/// offsets.
pub open spec fn cell_corners(cx: int, cy: int, cz: int, period: Period) -> spec_fn(int, int, int) -> int {
    |i: int, j: int, k: int| lattice_value(cx + i, cy + j, cz + k, period)
}

/// Trilinear interpolation of eight corner values with weights `ux, uy, uz`.
pub open spec fn trilerp_spec(f: spec_fn(int, int, int) -> int, ux: int, uy: int, uz: int) -> int {
    lerp_spec(
        lerp_spec(lerp_spec(f(0, 0, 0), f(1, 0, 0), ux), lerp_spec(f(0, 1, 0), f(1, 1, 0), ux), uy),
        lerp_spec(lerp_spec(f(0, 0, 1), f(1, 0, 1), ux), lerp_spec(f(0, 1, 1), f(1, 1, 1), ux), uy),
        uz,
    )
}

/// Value noise at the fixed-point position `(x, y, z)`: the corner values of
/// the enclosing cell blended with smoothstep weights.
pub open spec fn value_noise_at(x: int, y: int, z: int, period: Period) -> int {
    trilerp_spec(
        cell_corners(cell_of(x), cell_of(y), cell_of(z), period),
        smooth_spec(fract_of(x)),
        smooth_spec(fract_of(y)),
        smooth_spec(fract_of(z)),
    )
}

pub open spec fn unit_corners(f: spec_fn(int, int, int) -> int) -> bool {
    &&& 0 <= f(0, 0, 0) <= ONE
    &&& 0 <= f(1, 0, 0) <= ONE
    &&& 0 <= f(0, 1, 0) <= ONE
    &&& 0 <= f(1, 1, 0) <= ONE
    &&& 0 <= f(0, 0, 1) <= ONE
    &&& 0 <= f(1, 0, 1) <= ONE
    &&& 0 <= f(0, 1, 1) <= ONE
    &&& 0 <= f(1, 1, 1) <= ONE
}

proof fn lemma_corners_unit(cx: int, cy: int, cz: int, period: Period)
    ensures
        unit_corners(cell_corners(cx, cy, cz, period)),
{
    let f = cell_corners(cx, cy, cz, period);
    assert forall|i: int, j: int, k: int| 0 <= #[trigger] f(i, j, k) < ONE by {
        let b = lattice_bits(
            wrap_spec(cx + i, period.x as int) as i64,
            wrap_spec(cy + j, period.y as int) as i64,
            wrap_spec(cz + k, period.z as int) as i64,
            0,
        );
        assert(b >> 48u64 < 65536) by (bit_vector);
    }
}

/// Raising the x weight by `d` moves the interpolation by at most `d`.
proof fn lemma_trilerp_x_step(f: spec_fn(int, int, int) -> int, u1: int, u2: int, uy: int, uz: int)
    requires
        unit_corners(f),
        0 <= u1 <= u2 <= ONE,
        0 <= uy <= ONE,
        0 <= uz <= ONE,
    ensures
        -(u2 - u1) <= trilerp_spec(f, u2, uy, uz) - trilerp_spec(f, u1, uy, uz) <= u2 - u1,
{
    let d = u2 - u1;
    lemma_lerp_param_step(f(0, 0, 0), f(1, 0, 0), u1, u2);
    lemma_lerp_param_step(f(0, 1, 0), f(1, 1, 0), u1, u2);
    lemma_lerp_param_step(f(0, 0, 1), f(1, 0, 1), u1, u2);
    lemma_lerp_param_step(f(0, 1, 1), f(1, 1, 1), u1, u2);
    let a1 = lerp_spec(lerp_spec(f(0, 0, 0), f(1, 0, 0), u1), lerp_spec(f(0, 1, 0), f(1, 1, 0), u1), uy);
    let b1 = lerp_spec(lerp_spec(f(0, 0, 1), f(1, 0, 1), u1), lerp_spec(f(0, 1, 1), f(1, 1, 1), u1), uy);
    let a2 = lerp_spec(lerp_spec(f(0, 0, 0), f(1, 0, 0), u2), lerp_spec(f(0, 1, 0), f(1, 1, 0), u2), uy);
    let b2 = lerp_spec(lerp_spec(f(0, 0, 1), f(1, 0, 1), u2), lerp_spec(f(0, 1, 1), f(1, 1, 1), u2), uy);
    lemma_lerp_ends_step(
        lerp_spec(f(0, 0, 0), f(1, 0, 0), u1),
        lerp_spec(f(0, 1, 0), f(1, 1, 0), u1),
        lerp_spec(f(0, 0, 0), f(1, 0, 0), u2),
        lerp_spec(f(0, 1, 0), f(1, 1, 0), u2),
        uy,
        d,
    );
    lemma_lerp_ends_step(
        lerp_spec(f(0, 0, 1), f(1, 0, 1), u1),
        lerp_spec(f(0, 1, 1), f(1, 1, 1), u1),
        lerp_spec(f(0, 0, 1), f(1, 0, 1), u2),
        lerp_spec(f(0, 1, 1), f(1, 1, 1), u2),
        uy,
        d,
    );
    lemma_lerp_ends_step(a1, b1, a2, b2, uz, d);
}

/// Raising the y weight by `d` moves the interpolation by at most `d`.
proof fn lemma_trilerp_y_step(f: spec_fn(int, int, int) -> int, ux: int, u1: int, u2: int, uz: int)
    requires
        unit_corners(f),
        0 <= ux <= ONE,
        0 <= u1 <= u2 <= ONE,
        0 <= uz <= ONE,
    ensures
        -(u2 - u1) <= trilerp_spec(f, ux, u2, uz) - trilerp_spec(f, ux, u1, uz) <= u2 - u1,
{
    let o = ONE as int;
    let d = u2 - u1;
    let x00 = lerp_spec(f(0, 0, 0), f(1, 0, 0), ux);
    let x10 = lerp_spec(f(0, 1, 0), f(1, 1, 0), ux);
    let x01 = lerp_spec(f(0, 0, 1), f(1, 0, 1), ux);
    let x11 = lerp_spec(f(0, 1, 1), f(1, 1, 1), ux);
    lemma_lerp_bounds(f(0, 0, 0), f(1, 0, 0), ux, 0, o);
    lemma_lerp_bounds(f(0, 1, 0), f(1, 1, 0), ux, 0, o);
    lemma_lerp_bounds(f(0, 0, 1), f(1, 0, 1), ux, 0, o);
    lemma_lerp_bounds(f(0, 1, 1), f(1, 1, 1), ux, 0, o);
    lemma_lerp_param_step(x00, x10, u1, u2);
    lemma_lerp_param_step(x01, x11, u1, u2);
    lemma_lerp_ends_step(lerp_spec(x00, x10, u1), lerp_spec(x01, x11, u1), lerp_spec(x00, x10, u2), lerp_spec(x01, x11, u2), uz, d);
}

/// Raising the z weight by `d` moves the interpolation by at most `d`.
proof fn lemma_trilerp_z_step(f: spec_fn(int, int, int) -> int, ux: int, uy: int, u1: int, u2: int)
    requires
        unit_corners(f),
        0 <= ux <= ONE,
        0 <= uy <= ONE,
        0 <= u1 <= u2 <= ONE,
    ensures
        -(u2 - u1) <= trilerp_spec(f, ux, uy, u2) - trilerp_spec(f, ux, uy, u1) <= u2 - u1,
{
    let o = ONE as int;
    let x00 = lerp_spec(f(0, 0, 0), f(1, 0, 0), ux);
    let x10 = lerp_spec(f(0, 1, 0), f(1, 1, 0), ux);
    let x01 = lerp_spec(f(0, 0, 1), f(1, 0, 1), ux);
    let x11 = lerp_spec(f(0, 1, 1), f(1, 1, 1), ux);
    lemma_lerp_bounds(f(0, 0, 0), f(1, 0, 0), ux, 0, o);
    lemma_lerp_bounds(f(0, 1, 0), f(1, 1, 0), ux, 0, o);
    lemma_lerp_bounds(f(0, 0, 1), f(1, 0, 1), ux, 0, o);
    lemma_lerp_bounds(f(0, 1, 1), f(1, 1, 1), ux, 0, o);
    lemma_lerp_bounds(x00, x10, uy, 0, o);
    lemma_lerp_bounds(x01, x11, uy, 0, o);
    lemma_lerp_param_step(lerp_spec(x00, x10, uy), lerp_spec(x01, x11, uy), u1, u2);
}

/// One unit step of a coordinate: either it stays in its cell and its
/// fraction grows by one, or it enters the next cell at fraction zero.
proof fn lemma_unit_step(v: int)
    ensures
        fract_of(v) < ONE - 1 ==> cell_of(v + 1) == cell_of(v) && fract_of(v + 1) == fract_of(v) + 1,
        fract_of(v) == ONE - 1 ==> cell_of(v + 1) == cell_of(v) + 1 && fract_of(v + 1) == 0,
{
    let o = ONE as int;
    lemma_fundamental_div_mod(v, o);
    lemma_mod_bound(v, o);
    if fract_of(v) < ONE - 1 {
        lemma_fundamental_div_mod_converse(v + 1, o, cell_of(v), fract_of(v) + 1);
    } else if fract_of(v) == ONE - 1 {
        lemma_fundamental_div_mod_converse(v + 1, o, cell_of(v) + 1, 0);
    }
}

/// The smoothstep weight of a fraction and of the next position, read in
/// the coordinates of the first cell.
proof fn lemma_weight_step(v: int)
    ensures
        0 <= smooth_spec(fract_of(v)) <= ONE,
        0 <= smooth_spec(fract_of(v + 1)) <= ONE,
        fract_of(v) < ONE - 1 ==> smooth_spec(fract_of(v)) <= smooth_spec(fract_of(v + 1))
            <= smooth_spec(fract_of(v)) + 2,
        fract_of(v) == ONE - 1 ==> smooth_spec(fract_of(v + 1)) == 0 && ONE - 2 <= smooth_spec(
            fract_of(v),
        ),
{
    lemma_unit_step(v);
    lemma_mod_bound(v, ONE as int);
    lemma_mod_bound(v + 1, ONE as int);
    lemma_smooth_range(fract_of(v));
    lemma_smooth_range(fract_of(v + 1));
    if fract_of(v) < ONE - 1 {
        lemma_smooth_step(fract_of(v));
    } else if fract_of(v) == ONE - 1 {
        lemma_smooth_step(ONE - 1);
        lemma_smooth_range(ONE as int);
    }
}

/// Value noise is continuous: one unit step (`1 / ONE`) along any axis
/// changes it by at most two units, also where the step crosses a cell
/// boundary.
pub proof fn lemma_value_noise_continuous(x: int, y: int, z: int, period: Period)
    ensures
        -2 <= value_noise_at(x + 1, y, z, period) - value_noise_at(x, y, z, period) <= 2,
        -2 <= value_noise_at(x, y + 1, z, period) - value_noise_at(x, y, z, period) <= 2,
        -2 <= value_noise_at(x, y, z + 1, period) - value_noise_at(x, y, z, period) <= 2,
{
    lemma_continuous_x(x, y, z, period);
    lemma_continuous_y(x, y, z, period);
    lemma_continuous_z(x, y, z, period);
}

proof fn lemma_continuous_x(x: int, y: int, z: int, period: Period)
    ensures
        -2 <= value_noise_at(x + 1, y, z, period) - value_noise_at(x, y, z, period) <= 2,
{
    let (cx, cy, cz) = (cell_of(x), cell_of(y), cell_of(z));
    let (ux, uy, uz) = (smooth_spec(fract_of(x)), smooth_spec(fract_of(y)), smooth_spec(fract_of(z)));
    let f = cell_corners(cx, cy, cz, period);
    lemma_corners_unit(cx, cy, cz, period);
    lemma_weight_step(x);
    lemma_weight_step(y);
    lemma_weight_step(z);
    lemma_unit_step(x);
    let o = ONE as int;
    if fract_of(x) < ONE - 1 {
        lemma_trilerp_x_step(f, ux, smooth_spec(fract_of(x + 1)), uy, uz);
    } else {
        let g = cell_corners(cx + 1, cy, cz, period);
        lemma_trilerp_x_step(f, ux, o, uy, uz);
        lemma_lerp_ends(f(0, 0, 0), f(1, 0, 0));
        lemma_lerp_ends(f(0, 1, 0), f(1, 1, 0));
        lemma_lerp_ends(f(0, 0, 1), f(1, 0, 1));
        lemma_lerp_ends(f(0, 1, 1), f(1, 1, 1));
        lemma_lerp_ends(g(0, 0, 0), g(1, 0, 0));
        lemma_lerp_ends(g(0, 1, 0), g(1, 1, 0));
        lemma_lerp_ends(g(0, 0, 1), g(1, 0, 1));
        lemma_lerp_ends(g(0, 1, 1), g(1, 1, 1));
        assert(trilerp_spec(g, 0, uy, uz) == trilerp_spec(f, o, uy, uz));
    }
}

proof fn lemma_continuous_y(x: int, y: int, z: int, period: Period)
    ensures
        -2 <= value_noise_at(x, y + 1, z, period) - value_noise_at(x, y, z, period) <= 2,
{
    let (cx, cy, cz) = (cell_of(x), cell_of(y), cell_of(z));
    let (ux, uy, uz) = (smooth_spec(fract_of(x)), smooth_spec(fract_of(y)), smooth_spec(fract_of(z)));
    let f = cell_corners(cx, cy, cz, period);
    lemma_corners_unit(cx, cy, cz, period);
    lemma_weight_step(x);
    lemma_weight_step(y);
    lemma_weight_step(z);
    lemma_unit_step(y);
    let o = ONE as int;
    if fract_of(y) < ONE - 1 {
        lemma_trilerp_y_step(f, ux, uy, smooth_spec(fract_of(y + 1)), uz);
    } else {
        let g = cell_corners(cx, cy + 1, cz, period);
        lemma_trilerp_y_step(f, ux, uy, o, uz);
        lemma_lerp_ends(lerp_spec(f(0, 0, 0), f(1, 0, 0), ux), lerp_spec(f(0, 1, 0), f(1, 1, 0), ux));
        lemma_lerp_ends(lerp_spec(f(0, 0, 1), f(1, 0, 1), ux), lerp_spec(f(0, 1, 1), f(1, 1, 1), ux));
        lemma_lerp_ends(lerp_spec(g(0, 0, 0), g(1, 0, 0), ux), lerp_spec(g(0, 1, 0), g(1, 1, 0), ux));
        lemma_lerp_ends(lerp_spec(g(0, 0, 1), g(1, 0, 1), ux), lerp_spec(g(0, 1, 1), g(1, 1, 1), ux));
        assert(trilerp_spec(g, ux, 0, uz) == trilerp_spec(f, ux, o, uz));
    }
}

proof fn lemma_continuous_z(x: int, y: int, z: int, period: Period)
    ensures
        -2 <= value_noise_at(x, y, z + 1, period) - value_noise_at(x, y, z, period) <= 2,
{
    let (cx, cy, cz) = (cell_of(x), cell_of(y), cell_of(z));
    let (ux, uy, uz) = (smooth_spec(fract_of(x)), smooth_spec(fract_of(y)), smooth_spec(fract_of(z)));
    let f = cell_corners(cx, cy, cz, period);
    lemma_corners_unit(cx, cy, cz, period);
    lemma_weight_step(x);
    lemma_weight_step(y);
    lemma_weight_step(z);
    lemma_unit_step(z);
    let o = ONE as int;
    if fract_of(z) < ONE - 1 {
        lemma_trilerp_z_step(f, ux, uy, uz, smooth_spec(fract_of(z + 1)));
    } else {
        let g = cell_corners(cx, cy, cz + 1, period);
        lemma_trilerp_z_step(f, ux, uy, uz, o);
        let a = lerp_spec(lerp_spec(f(0, 0, 0), f(1, 0, 0), ux), lerp_spec(f(0, 1, 0), f(1, 1, 0), ux), uy);
        let b = lerp_spec(lerp_spec(f(0, 0, 1), f(1, 0, 1), ux), lerp_spec(f(0, 1, 1), f(1, 1, 1), ux), uy);
        let ga = lerp_spec(lerp_spec(g(0, 0, 0), g(1, 0, 0), ux), lerp_spec(g(0, 1, 0), g(1, 1, 0), ux), uy);
        let gb = lerp_spec(lerp_spec(g(0, 0, 1), g(1, 0, 1), ux), lerp_spec(g(0, 1, 1), g(1, 1, 1), ux), uy);
        lemma_lerp_ends(a, b);
        lemma_lerp_ends(ga, gb);
        assert(trilerp_spec(g, ux, uy, 0) == trilerp_spec(f, ux, uy, o));
    }
}

/// Tiled value noise repeats with its period: shifting a coordinate by the
/// period of its axis (in cells) does not change the noise.
pub proof fn lemma_value_noise_tiles(x: int, y: int, z: int, period: Period)
    ensures
        period.x > 0 ==> value_noise_at(x + period.x * ONE, y, z, period) == value_noise_at(x, y, z, period),
        period.y > 0 ==> value_noise_at(x, y + period.y * ONE, z, period) == value_noise_at(x, y, z, period),
        period.z > 0 ==> value_noise_at(x, y, z + period.z * ONE, period) == value_noise_at(x, y, z, period),
{
    let (cx, cy, cz) = (cell_of(x), cell_of(y), cell_of(z));
    let f = cell_corners(cx, cy, cz, period);
    if period.x > 0 {
        let px = period.x as int;
        lemma_shift_by_period(x, px);
        let g = cell_corners(cx + px, cy, cz, period);
        assert forall|i: int, j: int, k: int| #[trigger] g(i, j, k) == f(i, j, k) by {
            lemma_mod_add_multiples_vanish(cx + i, px);
            assert(cx + px + i == px + (cx + i));
        }
        assert(g =~= f);
    }
    if period.y > 0 {
        let py = period.y as int;
        lemma_shift_by_period(y, py);
        let g = cell_corners(cx, cy + py, cz, period);
        assert forall|i: int, j: int, k: int| #[trigger] g(i, j, k) == f(i, j, k) by {
            lemma_mod_add_multiples_vanish(cy + j, py);
            assert(cy + py + j == py + (cy + j));
        }
        assert(g =~= f);
    }
    if period.z > 0 {
        let pz = period.z as int;
        lemma_shift_by_period(z, pz);
        let g = cell_corners(cx, cy, cz + pz, period);
        assert forall|i: int, j: int, k: int| #[trigger] g(i, j, k) == f(i, j, k) by {
            lemma_mod_add_multiples_vanish(cz + k, pz);
            assert(cz + pz + k == pz + (cz + k));
        }
        assert(g =~= f);
    }
}

/// Shifting a coordinate by `n` whole cells shifts its cell by `n` and keeps
/// its fraction.
pub proof fn lemma_shift_by_period(v: int, n: int)
    ensures
        cell_of(v + n * ONE) == cell_of(v) + n,
        fract_of(v + n * ONE) == fract_of(v),
{
    let o = ONE as int;
    lemma_fundamental_div_mod(v, o);
    lemma_mod_bound(v, o);
    assert(v + n * ONE == (cell_of(v) + n) * o + fract_of(v)) by (nonlinear_arith)
        requires
            v == o * cell_of(v) + fract_of(v),
            o == ONE,
    ;
    lemma_fundamental_div_mod_converse(v + n * ONE, o, cell_of(v) + n, fract_of(v));
}

/// Derivative of the smoothstep, `6w(1 - w)`, in `0..=3 * ONE / 2`.
pub open spec fn dsmooth_spec(w: int) -> int {
    6 * (w * (ONE - w)) / (ONE as int)
}

/// Bilinear interpolation of four values.
pub open spec fn bilerp_spec(a00: int, a10: int, a01: int, a11: int, u: int, v: int) -> int {
    lerp_spec(lerp_spec(a00, a10, u), lerp_spec(a01, a11, u), v)
}

/// The x component of the analytic gradient of value noise: the smoothstep
/// derivative times the interpolated corner differences along x.
pub open spec fn value_noise_dx(x: int, y: int, z: int, period: Period) -> int {
    let f = cell_corners(cell_of(x), cell_of(y), cell_of(z), period);
    dsmooth_spec(fract_of(x)) * bilerp_spec(
        f(1, 0, 0) - f(0, 0, 0),
        f(1, 1, 0) - f(0, 1, 0),
        f(1, 0, 1) - f(0, 0, 1),
        f(1, 1, 1) - f(0, 1, 1),
        smooth_spec(fract_of(y)),
        smooth_spec(fract_of(z)),
    ) / (ONE as int)
}

/// The y component of the analytic gradient of value noise.
pub open spec fn value_noise_dy(x: int, y: int, z: int, period: Period) -> int {
    let f = cell_corners(cell_of(x), cell_of(y), cell_of(z), period);
    dsmooth_spec(fract_of(y)) * bilerp_spec(
        f(0, 1, 0) - f(0, 0, 0),
        f(1, 1, 0) - f(1, 0, 0),
        f(0, 1, 1) - f(0, 0, 1),
        f(1, 1, 1) - f(1, 0, 1),
        smooth_spec(fract_of(x)),
        smooth_spec(fract_of(z)),
    ) / (ONE as int)
}

/// The z component of the analytic gradient of value noise.
pub open spec fn value_noise_dz(x: int, y: int, z: int, period: Period) -> int {
    let f = cell_corners(cell_of(x), cell_of(y), cell_of(z), period);
    dsmooth_spec(fract_of(z)) * bilerp_spec(
        f(0, 0, 1) - f(0, 0, 0),
        f(1, 0, 1) - f(1, 0, 0),
        f(0, 1, 1) - f(0, 1, 0),
        f(1, 1, 1) - f(1, 1, 0),
        smooth_spec(fract_of(x)),
        smooth_spec(fract_of(y)),
    ) / (ONE as int)
}

/// Value noise together with its analytic gradient.
#[derive(Clone, Copy, PartialEq, Eq, Structural, Debug)]
pub struct NoiseSample {
    pub value: i64,
    pub dx: i64,
    pub dy: i64,
    pub dz: i64,
}

/// Bound on lattice indices, far beyond the cells of any `i64` coordinate.
pub const CELL_LIMIT: i64 = 0x4000_0000_0000_0000;

/// The random value at lattice point `(cx + i, cy + j, cz + k)`.
fn corner_value(cx: i64, cy: i64, cz: i64, i: i64, j: i64, k: i64, period: Period) -> (r: i64)
    requires
        -CELL_LIMIT <= cx <= CELL_LIMIT,
        -CELL_LIMIT <= cy <= CELL_LIMIT,
        -CELL_LIMIT <= cz <= CELL_LIMIT,
        0 <= i <= 1,
        0 <= j <= 1,
        0 <= k <= 1,
    ensures
        r == lattice_value(cx + i, cy + j, cz + k, period),
        0 <= r < ONE,
{
    hash(wrap(cx + i, period.x), wrap(cy + j, period.y), wrap(cz + k, period.z), 0)
}

fn dsmooth(w: i64) -> (r: i64)
    requires
        0 <= w <= ONE,
    ensures
        r == dsmooth_spec(w as int),
        0 <= r <= 2 * ONE,
{
    proof {
        let n = 6 * (w * (ONE - w));
        assert(0 <= n <= 2 * ONE * ONE) by (nonlinear_arith)
            requires
                0 <= w <= ONE,
                n == 6 * (w * (ONE - w)),
        ;
        lemma_div_is_ordered(0, n, ONE as int);
        lemma_div_is_ordered(n, 2 * ONE * ONE, ONE as int);
        lemma_div_multiples_vanish(2 * ONE, ONE as int);
        assert(2 * ONE * ONE == ONE * (2 * ONE)) by (nonlinear_arith);
        assert(0 <= w * (ONE - w) <= ONE * ONE) by (nonlinear_arith)
            requires
                0 <= w <= ONE,
        ;
    }
    floor_div(6 * (w * (ONE - w)), ONE)
}

/// Tiled value noise at `p`, in `0..ONE`.
pub fn dnoised(p: Point3, period: Period) -> (r: i64)
    ensures
        r == value_noise_at(p.x as int, p.y as int, p.z as int, period),
        0 <= r < ONE,
{
    let s = noised(p, period);
    s.value
}

/// Untiled value noise at `p`, in `0..ONE`.
pub fn value_noise(p: Point3) -> (r: i64)
    ensures
        r == value_noise_at(p.x as int, p.y as int, p.z as int, Period { x: 0, y: 0, z: 0 }),
        0 <= r < ONE,
{
    dnoised(p, Period { x: 0, y: 0, z: 0 })
}

/// Tiled value noise at `p` with its analytic gradient (per unit of
/// position, in fixed point).
pub fn noised(p: Point3, period: Period) -> (r: NoiseSample)
    ensures
        r.value == value_noise_at(p.x as int, p.y as int, p.z as int, period),
        0 <= r.value < ONE,
        r.dx == value_noise_dx(p.x as int, p.y as int, p.z as int, period),
        r.dy == value_noise_dy(p.x as int, p.y as int, p.z as int, period),
        r.dz == value_noise_dz(p.x as int, p.y as int, p.z as int, period),
{
    let (cx, cy, cz) = (cell(p.x), cell(p.y), cell(p.z));
    let (wx, wy, wz) = (fract(p.x), fract(p.y), fract(p.z));
    proof {
        lemma_cell_bounds(p.x as int);
        lemma_cell_bounds(p.y as int);
        lemma_cell_bounds(p.z as int);
    }
    let (ux, uy, uz) = (smoothstep(wx), smoothstep(wy), smoothstep(wz));
    let a = corner_value(cx, cy, cz, 0, 0, 0, period);
    let b = corner_value(cx, cy, cz, 1, 0, 0, period);
    let c = corner_value(cx, cy, cz, 0, 1, 0, period);
    let d = corner_value(cx, cy, cz, 1, 1, 0, period);
    let e = corner_value(cx, cy, cz, 0, 0, 1, period);
    let f = corner_value(cx, cy, cz, 1, 0, 1, period);
    let g = corner_value(cx, cy, cz, 0, 1, 1, period);
    let h = corner_value(cx, cy, cz, 1, 1, 1, period);
    let value = lerp(lerp(lerp(a, b, ux), lerp(c, d, ux), uy), lerp(lerp(e, f, ux), lerp(g, h, ux), uy), uz);
    let gx = lerp(lerp(b - a, d - c, uy), lerp(f - e, h - g, uy), uz);
    let gy = lerp(lerp(c - a, d - b, ux), lerp(g - e, h - f, ux), uz);
    let gz = lerp(lerp(e - a, f - b, ux), lerp(g - c, h - d, ux), uy);
    let (sx, sy, sz) = (dsmooth(wx), dsmooth(wy), dsmooth(wz));
    proof {
        assert(-2 * ONE * ONE <= sx * gx <= 2 * ONE * ONE) by (nonlinear_arith)
            requires
                0 <= sx <= 2 * ONE,
                -ONE <= gx <= ONE,
        ;
        assert(-2 * ONE * ONE <= sy * gy <= 2 * ONE * ONE) by (nonlinear_arith)
            requires
                0 <= sy <= 2 * ONE,
                -ONE <= gy <= ONE,
        ;
        assert(-2 * ONE * ONE <= sz * gz <= 2 * ONE * ONE) by (nonlinear_arith)
            requires
                0 <= sz <= 2 * ONE,
                -ONE <= gz <= ONE,
        ;
    }
    NoiseSample {
        value,
        dx: floor_div(sx * gx, ONE),
        dy: floor_div(sy * gy, ONE),
        dz: floor_div(sz * gz, ONE),
    }
}

/// The cell of any `i64` coordinate lies well inside `CELL_LIMIT`.
proof fn lemma_cell_bounds(v: int)
    requires
        i64::MIN <= v <= i64::MAX,
    ensures
        -0x1_0000_0000_0000 <= cell_of(v) <= 0x1_0000_0000_0000,
{
    lemma_div_is_ordered(i64::MIN as int, v, ONE as int);
    lemma_div_is_ordered(v, i64::MAX as int, ONE as int);
}

/// Position of the feature point of lattice cell `(cx, cy, cz)` along the
/// axis of `channel`, relative to the cell's origin: in `HALF..ONE`.
pub open spec fn feature_offset(cx: int, cy: int, cz: int, period: Period, channel: int) -> int {
    hash_spec(wrap_spec(cx, period.x as int), wrap_spec(cy, period.y as int), wrap_spec(cz, period.z as int), channel) / 2
        + HALF
}

/// Squared distance from fraction `(wx, wy, wz)` of cell `(cx, cy, cz)` to
/// the feature point of the neighbour cell at offset `(i, j, k)`.
pub open spec fn neighbor_dist_sq(
    cx: int,
    cy: int,
    cz: int,
    wx: int,
    wy: int,
    wz: int,
    i: int,
    j: int,
    k: int,
    period: Period,
) -> int {
    let dx = wx - (i * ONE + feature_offset(cx + i, cy + j, cz + k, period, 1));
    let dy = wy - (j * ONE + feature_offset(cx + i, cy + j, cz + k, period, 2));
    let dz = wz - (k * ONE + feature_offset(cx + i, cy + j, cz + k, period, 3));
    dx * dx + dy * dy + dz * dz
}

/// Neighbour `n` of the 27 cells around a cell: offsets in `-1..=1`.
pub open spec fn offset_x(n: int) -> int {
    n / 9 - 1
}

pub open spec fn offset_y(n: int) -> int {
    (n / 3) % 3 - 1
}

pub open spec fn offset_z(n: int) -> int {
    n % 3 - 1
}

/// Starting value of the search for the nearest feature point, beyond any
/// squared distance that the 27 neighbours can give.
pub const WORLEY_START: i64 = 0x10_0000_0000;

/// The least squared feature distance over the first `n` neighbours.
pub open spec fn worley_min_sq(x: int, y: int, z: int, period: Period, n: nat) -> int
    decreases n,
{
    if n == 0 {
        WORLEY_START as int
    } else {
        let m = n - 1;
        let d = neighbor_dist_sq(
            cell_of(x),
            cell_of(y),
            cell_of(z),
            fract_of(x),
            fract_of(y),
            fract_of(z),
            offset_x(m),
            offset_y(m),
            offset_z(m),
            period,
        );
        let rest = worley_min_sq(x, y, z, period, m as nat);
        if d < rest {
            d
        } else {
            rest
        }
    }
}

/// The squared distance to the nearest feature point among the 27 cells.
pub open spec fn worley_sq_at(x: int, y: int, z: int, period: Period) -> int {
    worley_min_sq(x, y, z, period, 27)
}

proof fn lemma_feature_offset_range(cx: int, cy: int, cz: int, period: Period, channel: int)
    ensures
        HALF <= feature_offset(cx, cy, cz, period, channel) < ONE,
{
    let b = lattice_bits(
        wrap_spec(cx, period.x as int) as i64,
        wrap_spec(cy, period.y as int) as i64,
        wrap_spec(cz, period.z as int) as i64,
        channel as u64,
    );
    assert(b >> 48u64 < 65536) by (bit_vector);
}

proof fn lemma_worley_min_le(x: int, y: int, z: int, period: Period, n: nat, m: nat)
    requires
        m < n,
    ensures
        worley_min_sq(x, y, z, period, n) <= neighbor_dist_sq(
            cell_of(x),
            cell_of(y),
            cell_of(z),
            fract_of(x),
            fract_of(y),
            fract_of(z),
            offset_x(m as int),
            offset_y(m as int),
            offset_z(m as int),
            period,
        ),
    decreases n,
{
    if m < n - 1 {
        lemma_worley_min_le(x, y, z, period, (n - 1) as nat, m);
    }
}

/// The nearest feature point is closer than the one of the sample's own
/// cell, so the squared distance stays under three squared units.
pub proof fn lemma_worley_sq_range(x: int, y: int, z: int, period: Period)
    ensures
        0 <= worley_sq_at(x, y, z, period) < 3 * ONE * ONE,
{
    lemma_worley_min_le(x, y, z, period, 27, 13);
    lemma_worley_min_nonneg(x, y, z, period, 27);
    let (cx, cy, cz) = (cell_of(x), cell_of(y), cell_of(z));
    lemma_feature_offset_range(cx, cy, cz, period, 1);
    lemma_feature_offset_range(cx, cy, cz, period, 2);
    lemma_feature_offset_range(cx, cy, cz, period, 3);
    lemma_mod_bound(x, ONE as int);
    lemma_mod_bound(y, ONE as int);
    lemma_mod_bound(z, ONE as int);
    let dx = fract_of(x) - feature_offset(cx, cy, cz, period, 1);
    let dy = fract_of(y) - feature_offset(cx, cy, cz, period, 2);
    let dz = fract_of(z) - feature_offset(cx, cy, cz, period, 3);
    assert(dx * dx < ONE * ONE && dy * dy < ONE * ONE && dz * dz < ONE * ONE) by (nonlinear_arith)
        requires
            -ONE < dx < ONE,
            -ONE < dy < ONE,
            -ONE < dz < ONE,
    ;
    assert(neighbor_dist_sq(cx, cy, cz, fract_of(x), fract_of(y), fract_of(z), 0, 0, 0, period)
        == dx * dx + dy * dy + dz * dz);
}

proof fn lemma_worley_min_nonneg(x: int, y: int, z: int, period: Period, n: nat)
    ensures
        0 <= worley_min_sq(x, y, z, period, n),
    decreases n,
{
    if n > 0 {
        lemma_worley_min_nonneg(x, y, z, period, (n - 1) as nat);
        let m = n - 1;
        let (cx, cy, cz) = (cell_of(x), cell_of(y), cell_of(z));
        let (i, j, k) = (offset_x(m), offset_y(m), offset_z(m));
        let dx = fract_of(x) - (i * ONE + feature_offset(cx + i, cy + j, cz + k, period, 1));
        let dy = fract_of(y) - (j * ONE + feature_offset(cx + i, cy + j, cz + k, period, 2));
        let dz = fract_of(z) - (k * ONE + feature_offset(cx + i, cy + j, cz + k, period, 3));
        assert(0 <= dx * dx + dy * dy + dz * dz) by (nonlinear_arith);
    }
}

/// Squared distance to one neighbour's feature point.
fn neighbor_sq(cx: i64, cy: i64, cz: i64, wx: i64, wy: i64, wz: i64, i: i64, j: i64, k: i64, period: Period) -> (r: i64)
    requires
        -CELL_LIMIT <= cx <= CELL_LIMIT,
        -CELL_LIMIT <= cy <= CELL_LIMIT,
        -CELL_LIMIT <= cz <= CELL_LIMIT,
        0 <= wx < ONE,
        0 <= wy < ONE,
        0 <= wz < ONE,
        -1 <= i <= 1,
        -1 <= j <= 1,
        -1 <= k <= 1,
    ensures
        r == neighbor_dist_sq(cx as int, cy as int, cz as int, wx as int, wy as int, wz as int, i as int, j as int, k as int, period),
        0 <= r <= 12 * ONE * ONE,
{
    let (nx, ny, nz) = (wrap(cx + i, period.x), wrap(cy + j, period.y), wrap(cz + k, period.z));
    let dx = wx - (i * ONE + (hash(nx, ny, nz, 1) / 2 + HALF));
    let dy = wy - (j * ONE + (hash(nx, ny, nz, 2) / 2 + HALF));
    let dz = wz - (k * ONE + (hash(nx, ny, nz, 3) / 2 + HALF));
    proof {
        assert(0 <= dx * dx <= 4 * ONE * ONE && 0 <= dy * dy <= 4 * ONE * ONE && 0 <= dz * dz <= 4 * ONE * ONE) by (nonlinear_arith)
            requires
                -2 * ONE <= dx <= 2 * ONE,
                -2 * ONE <= dy <= 2 * ONE,
                -2 * ONE <= dz <= 2 * ONE,
        ;
    }
    dx * dx + dy * dy + dz * dz
}

/// Cellular noise: the distance from `p` to the nearest of the feature
/// points of its cell and the 26 neighbouring cells (one jittered point per
/// cell, tiled by `period`). The result is the integer square root of the
/// least squared distance, which stays under `sqrt(3) * ONE`.
pub fn worley_noise(p: Point3, period: Period) -> (r: i64)
    ensures
        r * r <= worley_sq_at(p.x as int, p.y as int, p.z as int, period) < (r + 1) * (r + 1),
        r == sqrt_floor(worley_sq_at(p.x as int, p.y as int, p.z as int, period)),
        0 <= r,
        r * r < 3 * ONE * ONE,
{
    let (cx, cy, cz) = (cell(p.x), cell(p.y), cell(p.z));
    let (wx, wy, wz) = (fract(p.x), fract(p.y), fract(p.z));
    proof {
        lemma_cell_bounds(p.x as int);
        lemma_cell_bounds(p.y as int);
        lemma_cell_bounds(p.z as int);
    }
    let mut best: i64 = WORLEY_START;
    let mut n: u64 = 0;
    while n < 27
        invariant
            n <= 27,
            best == worley_min_sq(p.x as int, p.y as int, p.z as int, period, n as nat),
            0 <= best <= WORLEY_START,
            cx == cell_of(p.x as int),
            cy == cell_of(p.y as int),
            cz == cell_of(p.z as int),
            wx == fract_of(p.x as int),
            wy == fract_of(p.y as int),
            wz == fract_of(p.z as int),
            0 <= wx < ONE,
            0 <= wy < ONE,
            0 <= wz < ONE,
            -CELL_LIMIT <= cx <= CELL_LIMIT,
            -CELL_LIMIT <= cy <= CELL_LIMIT,
            -CELL_LIMIT <= cz <= CELL_LIMIT,
        decreases 27 - n,
    {
        let i = (n / 9) as i64 - 1;
        let j = ((n / 3) % 3) as i64 - 1;
        let k = (n % 3) as i64 - 1;
        let d = neighbor_sq(cx, cy, cz, wx, wy, wz, i, j, k, period);
        assert(i == offset_x(n as int) && j == offset_y(n as int) && k == offset_z(n as int));
        if d < best {
            best = d;
        }
        n = n + 1;
    }
    proof {
        lemma_worley_sq_range(p.x as int, p.y as int, p.z as int, period);
    }
    let s = isqrt(best as u64);
    let r = s as i64;
    proof {
        assert(r * r < 3 * ONE * ONE) by (nonlinear_arith)
            requires
                r * r <= best,
                best < 3 * ONE * ONE,
        ;
    }
    r
}

/// Inverted cellular noise `1 - distance`, clamped to `0..=ONE`: high near
/// feature points (cell cores), zero one unit or more away from them.
pub fn inverted_worley(p: Point3, period: Period) -> (r: i64)
    ensures
        ({
            let m = worley_sq_at(p.x as int, p.y as int, p.z as int, period);
            let d = ONE - r;
            &&& 0 <= r <= ONE
            &&& r > 0 ==> d * d <= m < (d + 1) * (d + 1)
            &&& r == 0 ==> ONE * ONE <= m
        }),
{
    let d = worley_noise(p, period);
    if d < ONE {
        ONE - d
    } else {
        proof {
            assert(ONE * ONE <= d * d) by (nonlinear_arith)
                requires
                    ONE <= d,
            ;
        }
        0
    }
}

/// The dot product of one of the twelve cube-edge gradient directions
/// `(±1, ±1, 0)`, `(±1, 0, ±1)`, `(0, ±1, ±1)` with `(dx, dy, dz)`.
pub open spec fn grad_dot(g: int, dx: int, dy: int, dz: int) -> int {
    if g == 0 {
        dx + dy
    } else if g == 1 {
        -dx + dy
    } else if g == 2 {
        dx - dy
    } else if g == 3 {
        -dx - dy
    } else if g == 4 {
        dx + dz
    } else if g == 5 {
        -dx + dz
    } else if g == 6 {
        dx - dz
    } else if g == 7 {
        -dx - dz
    } else if g == 8 {
        dy + dz
    } else if g == 9 {
        -dy + dz
    } else if g == 10 {
        dy - dz
    } else {
        -dy - dz
    }
}

/// The gradient chosen for a lattice point.
pub open spec fn gradient_index(cx: int, cy: int, cz: int) -> int {
    hash_spec(cx, cy, cz, 4) % 12
}

/// Each corner's gradient dotted with the offset from that corner to the
/// sample at fraction `(wx, wy, wz)` of cell `(cx, cy, cz)`.
pub open spec fn gradient_corners(cx: int, cy: int, cz: int, wx: int, wy: int, wz: int) -> spec_fn(int, int, int) -> int {
    |i: int, j: int, k: int|
        grad_dot(gradient_index(cx + i, cy + j, cz + k), wx - i * ONE, wy - j * ONE, wz - k * ONE)
}

/// Gradient (Perlin) noise at `(x, y, z)`: corner contributions blended with
/// quintic fade weights.
pub open spec fn gradient_noise_at(x: int, y: int, z: int) -> int {
    trilerp_spec(
        gradient_corners(cell_of(x), cell_of(y), cell_of(z), fract_of(x), fract_of(y), fract_of(z)),
        fade_spec(fract_of(x)),
        fade_spec(fract_of(y)),
        fade_spec(fract_of(z)),
    )
}

fn gradient_corner(cx: i64, cy: i64, cz: i64, wx: i64, wy: i64, wz: i64, i: i64, j: i64, k: i64) -> (r: i64)
    requires
        -CELL_LIMIT <= cx <= CELL_LIMIT,
        -CELL_LIMIT <= cy <= CELL_LIMIT,
        -CELL_LIMIT <= cz <= CELL_LIMIT,
        0 <= wx < ONE,
        0 <= wy < ONE,
        0 <= wz < ONE,
        0 <= i <= 1,
        0 <= j <= 1,
        0 <= k <= 1,
    ensures
        r == gradient_corners(cx as int, cy as int, cz as int, wx as int, wy as int, wz as int)(i as int, j as int, k as int),
        -2 * ONE <= r <= 2 * ONE,
{
    let g = floor_mod(hash(cx + i, cy + j, cz + k, 4), 12);
    let (dx, dy, dz) = (wx - i * ONE, wy - j * ONE, wz - k * ONE);
    if g == 0 {
        dx + dy
    } else if g == 1 {
        -dx + dy
    } else if g == 2 {
        dx - dy
    } else if g == 3 {
        -dx - dy
    } else if g == 4 {
        dx + dz
    } else if g == 5 {
        -dx + dz
    } else if g == 6 {
        dx - dz
    } else if g == 7 {
        -dx - dz
    } else if g == 8 {
        dy + dz
    } else if g == 9 {
        -dy + dz
    } else if g == 10 {
        dy - dz
    } else {
        -dy - dz
    }
}

/// Gradient noise at `p`, within `-2 * ONE..=2 * ONE`.
pub fn gradient_noise(p: Point3) -> (r: i64)
    ensures
        r == gradient_noise_at(p.x as int, p.y as int, p.z as int),
        -2 * ONE <= r <= 2 * ONE,
{
    let (cx, cy, cz) = (cell(p.x), cell(p.y), cell(p.z));
    let (wx, wy, wz) = (fract(p.x), fract(p.y), fract(p.z));
    proof {
        lemma_cell_bounds(p.x as int);
        lemma_cell_bounds(p.y as int);
        lemma_cell_bounds(p.z as int);
    }
    let (ux, uy, uz) = (fade(wx), fade(wy), fade(wz));
    let a = gradient_corner(cx, cy, cz, wx, wy, wz, 0, 0, 0);
    let b = gradient_corner(cx, cy, cz, wx, wy, wz, 1, 0, 0);
    let c = gradient_corner(cx, cy, cz, wx, wy, wz, 0, 1, 0);
    let d = gradient_corner(cx, cy, cz, wx, wy, wz, 1, 1, 0);
    let e = gradient_corner(cx, cy, cz, wx, wy, wz, 0, 0, 1);
    let f = gradient_corner(cx, cy, cz, wx, wy, wz, 1, 0, 1);
    let g = gradient_corner(cx, cy, cz, wx, wy, wz, 0, 1, 1);
    let h = gradient_corner(cx, cy, cz, wx, wy, wz, 1, 1, 1);
    lerp(lerp(lerp(a, b, ux), lerp(c, d, ux), uy), lerp(lerp(e, f, ux), lerp(g, h, ux), uy), uz)
}

proof fn lemma_worley_min_shift(x: int, y: int, z: int, period: Period, n: nat, sx: int, sy: int, sz: int)
    requires
        sx == 0 || period.x > 0,
        sy == 0 || period.y > 0,
        sz == 0 || period.z > 0,
        sx == 0 || sx == period.x,
        sy == 0 || sy == period.y,
        sz == 0 || sz == period.z,
    ensures
        worley_min_sq(x + sx * ONE, y + sy * ONE, z + sz * ONE, period, n) == worley_min_sq(x, y, z, period, n),
    decreases n,
{
    if n > 0 {
        lemma_worley_min_shift(x, y, z, period, (n - 1) as nat, sx, sy, sz);
        lemma_shift_by_period(x, sx);
        lemma_shift_by_period(y, sy);
        lemma_shift_by_period(z, sz);
        let m = (n - 1) as int;
        let (i, j, k) = (offset_x(m), offset_y(m), offset_z(m));
        let (cx, cy, cz) = (cell_of(x), cell_of(y), cell_of(z));
        if sx != 0 {
            lemma_mod_add_multiples_vanish(cx + i, sx);
            assert(cx + sx + i == sx + (cx + i));
        }
        if sy != 0 {
            lemma_mod_add_multiples_vanish(cy + j, sy);
            assert(cy + sy + j == sy + (cy + j));
        }
        if sz != 0 {
            lemma_mod_add_multiples_vanish(cz + k, sz);
            assert(cz + sz + k == sz + (cz + k));
        }
        assert(wrap_spec(cx + sx + i, period.x as int) == wrap_spec(cx + i, period.x as int));
        assert(wrap_spec(cy + sy + j, period.y as int) == wrap_spec(cy + j, period.y as int));
        assert(wrap_spec(cz + sz + k, period.z as int) == wrap_spec(cz + k, period.z as int));
    }
}

/// Tiled cellular noise repeats with its period: shifting a coordinate by
/// the period of its axis (in cells) does not change the nearest feature
/// distance.
pub proof fn lemma_worley_tiles(x: int, y: int, z: int, period: Period)
    ensures
        period.x > 0 ==> worley_sq_at(x + period.x * ONE, y, z, period) == worley_sq_at(x, y, z, period),
        period.y > 0 ==> worley_sq_at(x, y + period.y * ONE, z, period) == worley_sq_at(x, y, z, period),
        period.z > 0 ==> worley_sq_at(x, y, z + period.z * ONE, period) == worley_sq_at(x, y, z, period),
{
    if period.x > 0 {
        lemma_worley_min_shift(x, y, z, period, 27, period.x as int, 0, 0);
    }
    if period.y > 0 {
        lemma_worley_min_shift(x, y, z, period, 27, 0, period.y as int, 0);
    }
    if period.z > 0 {
        lemma_worley_min_shift(x, y, z, period, 27, 0, 0, period.z as int);
    }
}

} // verus!
