//! Noise textures: fractal cellular and value noise sampled on regular
//! grids, stored with x varying fastest. Each texture tiles: its noise
//! wraps with a period equal to its extent in noise cells.
use crate::fbm::{fbm_at, value_fbm, value_fbm_params, wfbm, worley_fbm_params};
use crate::fixed::{floor_div, Point3, ONE};
use crate::noise::Period;
use vstd::arithmetic::div_mod::{lemma_div_is_ordered, lemma_div_pos_is_pos, lemma_fundamental_div_mod, lemma_mod_bound};
use vstd::prelude::*;

verus! {

/// The largest extent of a texture along one axis.
pub const MAX_TEXTURE_DIM: usize = 4096;

/// The largest extent of a volume texture along one axis.
pub const MAX_VOLUME_DIM: usize = 1024;

/// The largest span of a texture in noise cells.
pub const MAX_SCALE: i64 = 1024;

/// Noise-space coordinate of texel `i` of `res` texels spanning `scale`
/// cells.
pub open spec fn texel_coord(i: int, res: int, scale: int) -> int {
    i * scale * ONE / res
}

fn texel(i: usize, res: usize, scale: i64) -> (r: i64)
    requires
        1 <= res <= MAX_TEXTURE_DIM,
        i < res,
        1 <= scale <= MAX_SCALE,
    ensures
        r == texel_coord(i as int, res as int, scale as int),
        0 <= r <= MAX_SCALE * ONE,
{
    proof {
        assert(0 <= i * scale <= res * MAX_SCALE) by (nonlinear_arith)
            requires
                i < res,
                1 <= scale <= MAX_SCALE,
        ;
        assert(0 <= i * scale * ONE <= res * (MAX_SCALE * ONE)) by (nonlinear_arith)
            requires
                0 <= i * scale <= res * MAX_SCALE,
        ;
        lemma_div_is_ordered(0, i * scale * ONE, res as int);
        lemma_div_is_ordered(i * scale * ONE, res * (MAX_SCALE * ONE), res as int);
        vstd::arithmetic::div_mod::lemma_div_multiples_vanish(MAX_SCALE * ONE as int, res as int);
    }
    floor_div((i as i64) * scale * ONE, res as i64)
}

/// Which fractal sum a texture samples.
pub open spec fn texture_value(worley: bool, p: Point3, period: Period) -> int {
    if worley {
        fbm_at(p, period, worley_fbm_params())
    } else {
        fbm_at(p, period, value_fbm_params())
    }
}

/// The texel `i` of a `w` by `h` texture spanning `sx` by `sy` cells.
pub open spec fn texel_point(i: int, w: int, h: int, sx: int, sy: int) -> Point3 {
    Point3 { x: texel_coord(i % w, w, sx) as i64, y: texel_coord(i / w, h, sy) as i64, z: 0 }
}

fn texture_2d(dims: (usize, usize), scale: (i64, i64), worley: bool) -> (r: Vec<i64>)
    requires
        1 <= dims.0 <= MAX_TEXTURE_DIM,
        1 <= dims.1 <= MAX_TEXTURE_DIM,
        1 <= scale.0 <= MAX_SCALE,
        1 <= scale.1 <= MAX_SCALE,
    ensures
        r@.len() == dims.0 * dims.1,
        forall|i: int|
            0 <= i < r@.len() ==> #[trigger] r@[i] == texture_value(
                worley,
                texel_point(i, dims.0 as int, dims.1 as int, scale.0 as int, scale.1 as int),
                Period { x: scale.0, y: scale.1, z: 0 },
            ),
{
    let (w, h) = dims;
    proof {
        assert(w * h <= MAX_TEXTURE_DIM * MAX_TEXTURE_DIM) by (nonlinear_arith)
            requires
                1 <= w <= MAX_TEXTURE_DIM,
                1 <= h <= MAX_TEXTURE_DIM,
        ;
    }
    let n = w * h;
    let period = Period { x: scale.0, y: scale.1, z: 0 };
    let mut out: Vec<i64> = Vec::new();
    let mut i: usize = 0;
    while i < n
        invariant
            1 <= w <= MAX_TEXTURE_DIM,
            1 <= h <= MAX_TEXTURE_DIM,
            1 <= scale.0 <= MAX_SCALE,
            1 <= scale.1 <= MAX_SCALE,
            (w, h) == dims,
            n == w * h,
            period == (Period { x: scale.0, y: scale.1, z: 0 }),
            i <= n,
            out@.len() == i,
            forall|j: int|
                0 <= j < i ==> #[trigger] out@[j] == texture_value(
                    worley,
                    texel_point(j, w as int, h as int, scale.0 as int, scale.1 as int),
                    period,
                ),
        decreases n - i,
    {
        proof {
            lemma_mod_bound(i as int, w as int);
            lemma_fundamental_div_mod(i as int, w as int);
            lemma_div_pos_is_pos(i as int, w as int);
            assert((i as int) / (w as int) < h) by (nonlinear_arith)
                requires
                    i < w * h,
                    i == w * ((i as int) / (w as int)) + (i as int) % (w as int),
                    0 <= (i as int) % (w as int),
                    1 <= w,
            ;
        }
        let p = Point3 { x: texel(i % w, w, scale.0), y: texel(i / w, h, scale.1), z: 0 };
        let v = if worley {
            wfbm(p, period)
        } else {
            value_fbm(p, period)
        };
        out.push(v);
        i = i + 1;
    }
    out
}

/// A `dims.0` by `dims.1` texture of billowy cellular fractal noise
/// spanning `scale` cells, in `0..=2 * ONE`.
pub fn worley_texture_data(dims: (usize, usize), scale: (i64, i64)) -> (r: Vec<i64>)
    requires
        1 <= dims.0 <= MAX_TEXTURE_DIM,
        1 <= dims.1 <= MAX_TEXTURE_DIM,
        1 <= scale.0 <= MAX_SCALE,
        1 <= scale.1 <= MAX_SCALE,
    ensures
        r@.len() == dims.0 * dims.1,
        forall|i: int|
            0 <= i < r@.len() ==> #[trigger] r@[i] == fbm_at(
                texel_point(i, dims.0 as int, dims.1 as int, scale.0 as int, scale.1 as int),
                Period { x: scale.0, y: scale.1, z: 0 },
                worley_fbm_params(),
            ),
{
    texture_2d(dims, scale, true)
}

/// A `dims.0` by `dims.1` texture of value-noise fractal noise spanning
/// `scale` cells, in `0..=2 * ONE`.
pub fn value_texture_data(dims: (usize, usize), scale: (i64, i64)) -> (r: Vec<i64>)
    requires
        1 <= dims.0 <= MAX_TEXTURE_DIM,
        1 <= dims.1 <= MAX_TEXTURE_DIM,
        1 <= scale.0 <= MAX_SCALE,
        1 <= scale.1 <= MAX_SCALE,
    ensures
        r@.len() == dims.0 * dims.1,
        forall|i: int|
            0 <= i < r@.len() ==> #[trigger] r@[i] == fbm_at(
                texel_point(i, dims.0 as int, dims.1 as int, scale.0 as int, scale.1 as int),
                Period { x: scale.0, y: scale.1, z: 0 },
                value_fbm_params(),
            ),
{
    texture_2d(dims, scale, false)
}

/// The span of the volume texture in noise cells.
pub const VOLUME_SCALE: i64 = 10;

/// The noise-space position of voxel `i` of a `res`-cubed volume texture.
pub open spec fn volume_point(i: int, res: int) -> Point3 {
    Point3 {
        x: texel_coord(i % res, res, VOLUME_SCALE as int) as i64,
        y: texel_coord((i / res) % res, res, VOLUME_SCALE as int) as i64,
        z: texel_coord(i / (res * res), res, VOLUME_SCALE as int) as i64,
    }
}

/// A `res`-cubed volume of billowy cellular fractal noise spanning ten
/// cells per axis, tiling, in `0..=2 * ONE`.
pub fn w3noise(res: usize) -> (r: Vec<i64>)
    requires
        1 <= res <= MAX_VOLUME_DIM,
    ensures
        r@.len() == res * res * res,
        forall|i: int|
            0 <= i < r@.len() ==> #[trigger] r@[i] == fbm_at(
                volume_point(i, res as int),
                Period { x: VOLUME_SCALE, y: VOLUME_SCALE, z: VOLUME_SCALE },
                worley_fbm_params(),
            ),
{
    proof {
        assert(1 <= res * res <= MAX_VOLUME_DIM * MAX_VOLUME_DIM && res * res * res <= MAX_VOLUME_DIM * MAX_VOLUME_DIM
            * MAX_VOLUME_DIM) by (nonlinear_arith)
            requires
                1 <= res <= MAX_VOLUME_DIM,
        ;
    }
    let n = res * res * res;
    let period = Period { x: VOLUME_SCALE, y: VOLUME_SCALE, z: VOLUME_SCALE };
    let mut out: Vec<i64> = Vec::new();
    let mut i: usize = 0;
    while i < n
        invariant
            1 <= res <= MAX_VOLUME_DIM,
            n == res * res * res,
            1 <= res * res <= MAX_VOLUME_DIM * MAX_VOLUME_DIM,
            period == (Period { x: VOLUME_SCALE, y: VOLUME_SCALE, z: VOLUME_SCALE }),
            i <= n,
            out@.len() == i,
            forall|j: int|
                0 <= j < i ==> #[trigger] out@[j] == fbm_at(volume_point(j, res as int), period, worley_fbm_params()),
        decreases n - i,
    {
        proof {
            crate::grid::lemma_coords_of(i as int, res as int, res as int, res as int);
        }
        let p = Point3 {
            x: texel(i % res, res, VOLUME_SCALE),
            y: texel((i / res) % res, res, VOLUME_SCALE),
            z: texel(i / (res * res), res, VOLUME_SCALE),
        };
        out.push(wfbm(p, period));
        i = i + 1;
    }
    out
}

} // verus!
