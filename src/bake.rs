//! Sun-light transmittance baked into a voxel grid.
//!
//! For every voxel and every sun sample a ray is marched from the voxel
//! towards the sun in steps of `2 / n` (with `n` the smallest grid extent).
//! Each step inside the cloud (negative distance) attenuates the carried
//! transmittance by the implicit Euler step of Beer–Lambert's law,
//! `t <- t / (1 + k * density * dt)`, with `density = -distance`, which
//! keeps `t` in `0..=ONE` and never lets more light through where there is
//! more density. The march ends when the ray leaves the domain `-1..=1` on
//! some axis, when its voxel lies outside the grid, or after the step
//! budget. A voxel's light is the average of its transmittances weighted by
//! the samples' phase weights.
use crate::fixed::{floor_div, Point3, ONE};
use crate::grid::{
    coord_to_pos, coord_to_pos_spec, coords_of, dims_ok, lemma_coords_of, linear_index, pos_to_coord,
    pos_to_coord_spec, Voxel, VoxelGrid,
};
use vstd::arithmetic::div_mod::{lemma_div_is_ordered, lemma_div_is_ordered_by_denominator, lemma_div_pos_is_pos};
use vstd::prelude::*;

verus! {

/// One direction towards the sun (a unit vector in fixed point) with its
/// phase weight.
#[derive(Clone, Copy, PartialEq, Eq, Structural, Debug)]
pub struct SunSample {
    pub direction: Point3,
    pub weight: i64,
}

/// The largest depth inside the cloud (negated distance) a voxel may hold.
pub const DENSITY_LIMIT: i64 = 0x100_0000_0000;

/// The largest extinction coefficient.
pub const EXTINCTION_LIMIT: i64 = 0x400_0000;

/// The largest phase weight of a sun sample.
pub const WEIGHT_LIMIT: i64 = 0x1_0000_0000;

/// The largest number of sun samples in one bake.
pub const MAX_SUNS: usize = 1024;

/// How far inside the cloud a voxel lies; zero outside it.
pub open spec fn density_of(v: Voxel) -> int {
    if v.distance < 0 {
        -v.distance
    } else {
        0
    }
}

pub open spec fn min_dim(g: VoxelGrid) -> int {
    let m = if g.width < g.height {
        g.width
    } else {
        g.height
    };
    if m < g.depth {
        m as int
    } else {
        g.depth as int
    }
}

/// Length of one march step: the domain `-1..=1` spans `2 / n` per voxel.
pub open spec fn step_len(g: VoxelGrid) -> int {
    2 * ONE / min_dim(g)
}

/// Number of steps a march may take; a unit direction leaves the domain
/// sooner.
pub open spec fn march_limit(g: VoxelGrid) -> nat {
    (4 * min_dim(g) + 4) as nat
}

/// The displacement of one march step along a direction.
pub open spec fn step_along(dir: int, dt: int) -> int {
    dir * dt / (ONE as int)
}

/// Optical depth of one step through the given density.
pub open spec fn optical_depth(density: int, extinction: int, dt: int) -> int {
    extinction * density * dt / (ONE * ONE)
}

/// Transmittance after passing an optical depth `tau`.
pub open spec fn attenuate(t: int, tau: int) -> int {
    t * ONE / (ONE + tau)
}

pub open spec fn in_domain(px: int, py: int, pz: int) -> bool {
    -ONE <= px <= ONE && -ONE <= py <= ONE && -ONE <= pz <= ONE
}

/// Transmittance carried from position `(px, py, pz)`, whose voxel is
/// `(cx, cy, cz)`, after at most `fuel` further steps of `(sx, sy, sz)`.
pub open spec fn march_spec(
    g: VoxelGrid,
    sx: int,
    sy: int,
    sz: int,
    extinction: int,
    px: int,
    py: int,
    pz: int,
    cx: int,
    cy: int,
    cz: int,
    t: int,
    fuel: nat,
) -> int
    decreases fuel,
{
    if fuel == 0 || !in_domain(px, py, pz) || !g.contains(cx, cy, cz) {
        t
    } else {
        let t2 = attenuate(t, optical_depth(density_of(g.at(cx, cy, cz)), extinction, step_len(g)));
        let (qx, qy, qz) = (px + sx, py + sy, pz + sz);
        march_spec(
            g,
            sx,
            sy,
            sz,
            extinction,
            qx,
            qy,
            qz,
            pos_to_coord_spec(qx, g.width as int),
            pos_to_coord_spec(qy, g.height as int),
            pos_to_coord_spec(qz, g.depth as int),
            t2,
            (fuel - 1) as nat,
        )
    }
}

/// Transmittance from voxel `i` (a linear position) towards direction `dir`.
pub open spec fn transmittance_spec(g: VoxelGrid, dir: Point3, extinction: int, i: int) -> int {
    let (x, y, z) = coords_of(i, g.width as int, g.height as int);
    let dt = step_len(g);
    march_spec(
        g,
        step_along(dir.x as int, dt),
        step_along(dir.y as int, dt),
        step_along(dir.z as int, dt),
        extinction,
        coord_to_pos_spec(x, g.width as int),
        coord_to_pos_spec(y, g.height as int),
        coord_to_pos_spec(z, g.depth as int),
        x,
        y,
        z,
        ONE as int,
        march_limit(g),
    )
}

/// Sum of `weight * transmittance` over the first `n` sun samples.
pub open spec fn weighted_sum(g: VoxelGrid, suns: Seq<SunSample>, extinction: int, i: int, n: nat) -> int
    decreases n,
{
    if n == 0 {
        0
    } else {
        let s = suns[n - 1];
        weighted_sum(g, suns, extinction, i, (n - 1) as nat) + s.weight * transmittance_spec(g, s.direction, extinction, i)
    }
}

/// Sum of the weights of the first `n` sun samples.
pub open spec fn total_weight(suns: Seq<SunSample>, n: nat) -> int
    decreases n,
{
    if n == 0 {
        0
    } else {
        total_weight(suns, (n - 1) as nat) + suns[n - 1].weight
    }
}

/// The baked light of voxel `i`: the weighted mean transmittance, or full
/// light when the samples carry no weight.
pub open spec fn light_spec(g: VoxelGrid, suns: Seq<SunSample>, extinction: int, i: int) -> int {
    let w = total_weight(suns, suns.len());
    if w == 0 {
        ONE as int
    } else {
        weighted_sum(g, suns, extinction, i, suns.len()) / w
    }
}

/// What a bake asks of its grid: well formed, with bounded densities.
pub open spec fn bakeable(g: VoxelGrid) -> bool {
    &&& g.wf()
    &&& forall|j: int| 0 <= j < g.cells@.len() ==> density_of(#[trigger] g.cells@[j]) <= DENSITY_LIMIT
}

/// What a bake asks of its sun samples.
pub open spec fn suns_ok(suns: Seq<SunSample>) -> bool {
    &&& suns.len() <= MAX_SUNS
    &&& forall|k: int|
        0 <= k < suns.len() ==> {
            let s = #[trigger] suns[k];
            &&& -2 * ONE <= s.direction.x <= 2 * ONE
            &&& -2 * ONE <= s.direction.y <= 2 * ONE
            &&& -2 * ONE <= s.direction.z <= 2 * ONE
            &&& 0 <= s.weight <= WEIGHT_LIMIT
        }
}

pub proof fn lemma_attenuate_range(t: int, tau: int)
    requires
        0 <= t <= ONE,
        0 <= tau,
    ensures
        0 <= attenuate(t, tau) <= t,
{
    lemma_div_is_ordered_by_denominator(t * ONE, ONE as int, ONE + tau);
    lemma_div_pos_is_pos(t * ONE, ONE + tau);
    vstd::arithmetic::div_mod::lemma_div_multiples_vanish(t, ONE as int);
    assert(t * ONE == ONE * t) by (nonlinear_arith);
}

/// Less light in and a thicker step out never give more light.
pub proof fn lemma_attenuate_monotone(t1: int, t2: int, tau1: int, tau2: int)
    requires
        0 <= t2 <= t1,
        0 <= tau1 <= tau2,
    ensures
        attenuate(t2, tau2) <= attenuate(t1, tau1),
{
    assert(t2 * ONE <= t1 * ONE) by (nonlinear_arith)
        requires
            t2 <= t1,
    ;
    lemma_div_is_ordered(t2 * ONE, t1 * ONE, ONE + tau2);
    assert(0 <= t2 * ONE) by (nonlinear_arith)
        requires
            0 <= t2,
    ;
    lemma_div_is_ordered_by_denominator(t1 * ONE, ONE + tau1, ONE + tau2);
}

proof fn lemma_depth_monotone(d1: int, d2: int, extinction: int, dt: int)
    requires
        0 <= d1 <= d2,
        0 <= extinction,
        0 <= dt,
    ensures
        0 <= optical_depth(d1, extinction, dt) <= optical_depth(d2, extinction, dt),
{
    assert(0 <= extinction * d1 * dt <= extinction * d2 * dt) by (nonlinear_arith)
        requires
            0 <= d1 <= d2,
            0 <= extinction,
            0 <= dt,
    ;
    lemma_div_is_ordered(extinction * d1 * dt, extinction * d2 * dt, ONE * ONE);
    lemma_div_pos_is_pos(extinction * d1 * dt, ONE * ONE);
}

pub proof fn lemma_min_dim(g: VoxelGrid)
    requires
        g.wf(),
    ensures
        1 <= min_dim(g) <= g.width,
        min_dim(g) <= g.height,
        min_dim(g) <= g.depth,
        0 <= step_len(g) <= 2 * ONE,
{
    lemma_div_is_ordered_by_denominator(2 * ONE, 1, min_dim(g));
    lemma_div_pos_is_pos(2 * ONE, min_dim(g));
}

/// The march keeps transmittance in `0..=t`.
pub proof fn lemma_march_range(
    g: VoxelGrid,
    sx: int,
    sy: int,
    sz: int,
    extinction: int,
    px: int,
    py: int,
    pz: int,
    cx: int,
    cy: int,
    cz: int,
    t: int,
    fuel: nat,
)
    requires
        g.wf(),
        0 <= extinction,
        0 <= t <= ONE,
    ensures
        0 <= march_spec(g, sx, sy, sz, extinction, px, py, pz, cx, cy, cz, t, fuel) <= t,
    decreases fuel,
{
    if !(fuel == 0 || !in_domain(px, py, pz) || !g.contains(cx, cy, cz)) {
        lemma_min_dim(g);
        let d = density_of(g.at(cx, cy, cz));
        lemma_depth_monotone(0, d, extinction, step_len(g));
        let t2 = attenuate(t, optical_depth(d, extinction, step_len(g)));
        lemma_attenuate_range(t, optical_depth(d, extinction, step_len(g)));
        let (qx, qy, qz) = (px + sx, py + sy, pz + sz);
        lemma_march_range(
            g,
            sx,
            sy,
            sz,
            extinction,
            qx,
            qy,
            qz,
            pos_to_coord_spec(qx, g.width as int),
            pos_to_coord_spec(qy, g.height as int),
            pos_to_coord_spec(qz, g.depth as int),
            t2,
            (fuel - 1) as nat,
        );
    }
}

/// Grid `h` is `g` with at least as much density in every voxel.
pub open spec fn denser(h: VoxelGrid, g: VoxelGrid) -> bool {
    &&& h.width == g.width
    &&& h.height == g.height
    &&& h.depth == g.depth
    &&& h.cells@.len() == g.cells@.len()
    &&& forall|j: int|
        0 <= j < g.cells@.len() ==> density_of(#[trigger] h.cells@[j]) >= density_of(g.cells@[j])
}

proof fn lemma_march_monotone(
    g: VoxelGrid,
    h: VoxelGrid,
    sx: int,
    sy: int,
    sz: int,
    extinction: int,
    px: int,
    py: int,
    pz: int,
    cx: int,
    cy: int,
    cz: int,
    t1: int,
    t2: int,
    fuel: nat,
)
    requires
        g.wf(),
        denser(h, g),
        0 <= extinction,
        0 <= t2 <= t1 <= ONE,
    ensures
        march_spec(h, sx, sy, sz, extinction, px, py, pz, cx, cy, cz, t2, fuel) <= march_spec(
            g,
            sx,
            sy,
            sz,
            extinction,
            px,
            py,
            pz,
            cx,
            cy,
            cz,
            t1,
            fuel,
        ),
    decreases fuel,
{
    if !(fuel == 0 || !in_domain(px, py, pz) || !g.contains(cx, cy, cz)) {
        lemma_min_dim(g);
        assert(step_len(h) == step_len(g) && min_dim(h) == min_dim(g));
        let j = linear_index(cx, cy, cz, g.width as int, g.height as int);
        crate::grid::lemma_index_in_bounds(cx, cy, cz, g.width as int, g.height as int, g.depth as int);
        let dg = density_of(g.at(cx, cy, cz));
        let dh = density_of(h.at(cx, cy, cz));
        assert(dh >= dg);
        let dt = step_len(g);
        lemma_depth_monotone(0, dg, extinction, dt);
        lemma_depth_monotone(dg, dh, extinction, dt);
        let u1 = attenuate(t1, optical_depth(dg, extinction, dt));
        let u2 = attenuate(t2, optical_depth(dh, extinction, dt));
        lemma_attenuate_monotone(t1, t2, optical_depth(dg, extinction, dt), optical_depth(dh, extinction, dt));
        lemma_attenuate_range(t2, optical_depth(dh, extinction, dt));
        lemma_attenuate_range(t1, optical_depth(dg, extinction, dt));
        let (qx, qy, qz) = (px + sx, py + sy, pz + sz);
        lemma_march_monotone(
            g,
            h,
            sx,
            sy,
            sz,
            extinction,
            qx,
            qy,
            qz,
            pos_to_coord_spec(qx, g.width as int),
            pos_to_coord_spec(qy, g.height as int),
            pos_to_coord_spec(qz, g.depth as int),
            u1,
            u2,
            (fuel - 1) as nat,
        );
    }
}

proof fn lemma_weighted_sum_monotone(g: VoxelGrid, h: VoxelGrid, suns: Seq<SunSample>, extinction: int, i: int, n: nat)
    requires
        g.wf(),
        denser(h, g),
        suns_ok(suns),
        n <= suns.len(),
        0 <= extinction,
    ensures
        weighted_sum(h, suns, extinction, i, n) <= weighted_sum(g, suns, extinction, i, n),
    decreases n,
{
    if n > 0 {
        lemma_weighted_sum_monotone(g, h, suns, extinction, i, (n - 1) as nat);
        let s = suns[n - 1];
        let (x, y, z) = coords_of(i, g.width as int, g.height as int);
        let dt = step_len(g);
        lemma_min_dim(g);
        assert(step_len(h) == dt && march_limit(h) == march_limit(g));
        lemma_march_monotone(
            g,
            h,
            step_along(s.direction.x as int, dt),
            step_along(s.direction.y as int, dt),
            step_along(s.direction.z as int, dt),
            extinction,
            coord_to_pos_spec(x, g.width as int),
            coord_to_pos_spec(y, g.height as int),
            coord_to_pos_spec(z, g.depth as int),
            x,
            y,
            z,
            ONE as int,
            ONE as int,
            march_limit(g),
        );
        let tg = transmittance_spec(g, s.direction, extinction, i);
        let th = transmittance_spec(h, s.direction, extinction, i);
        assert(s.weight * th <= s.weight * tg) by (nonlinear_arith)
            requires
                0 <= s.weight,
                th <= tg,
        ;
    }
}

proof fn lemma_total_weight_nonneg(suns: Seq<SunSample>, n: nat)
    requires
        suns_ok(suns),
        n <= suns.len(),
    ensures
        0 <= total_weight(suns, n) <= n * WEIGHT_LIMIT,
    decreases n,
{
    if n > 0 {
        lemma_total_weight_nonneg(suns, (n - 1) as nat);
        assert(suns[n - 1].weight <= WEIGHT_LIMIT);
    }
}

/// The weighted sum lies between zero and `ONE` times the total weight.
proof fn lemma_weighted_sum_range(g: VoxelGrid, suns: Seq<SunSample>, extinction: int, i: int, n: nat)
    requires
        g.wf(),
        suns_ok(suns),
        n <= suns.len(),
        0 <= extinction,
    ensures
        0 <= weighted_sum(g, suns, extinction, i, n) <= ONE * total_weight(suns, n),
    decreases n,
{
    if n > 0 {
        lemma_weighted_sum_range(g, suns, extinction, i, (n - 1) as nat);
        let s = suns[n - 1];
        let (x, y, z) = coords_of(i, g.width as int, g.height as int);
        let dt = step_len(g);
        lemma_march_range(
            g,
            step_along(s.direction.x as int, dt),
            step_along(s.direction.y as int, dt),
            step_along(s.direction.z as int, dt),
            extinction,
            coord_to_pos_spec(x, g.width as int),
            coord_to_pos_spec(y, g.height as int),
            coord_to_pos_spec(z, g.depth as int),
            x,
            y,
            z,
            ONE as int,
            march_limit(g),
        );
        let tr = transmittance_spec(g, s.direction, extinction, i);
        assert(0 <= s.weight * tr <= ONE * s.weight) by (nonlinear_arith)
            requires
                0 <= s.weight,
                0 <= tr <= ONE,
        ;
    }
}

/// Baked light is a fraction: it lies in `0..=ONE`.
pub proof fn lemma_light_range(g: VoxelGrid, suns: Seq<SunSample>, extinction: int, i: int)
    requires
        g.wf(),
        suns_ok(suns),
        0 <= extinction,
    ensures
        0 <= light_spec(g, suns, extinction, i) <= ONE,
{
    let n = suns.len();
    lemma_total_weight_nonneg(suns, n);
    lemma_weighted_sum_range(g, suns, extinction, i, n);
    let w = total_weight(suns, n);
    if w != 0 {
        let ws = weighted_sum(g, suns, extinction, i, n);
        lemma_div_is_ordered(0, ws, w);
        lemma_div_is_ordered(ws, ONE * w, w);
        vstd::arithmetic::div_mod::lemma_div_multiples_vanish(ONE as int, w);
        assert(ONE * w == w * ONE) by (nonlinear_arith);
    }
}

/// More density never brings more light: when every voxel of `h` is at
/// least as dense as the same voxel of `g` (same extents), every voxel's
/// baked light in `h` is at most its light in `g`.
pub proof fn lemma_bake_monotone(g: VoxelGrid, h: VoxelGrid, suns: Seq<SunSample>, extinction: int, i: int)
    requires
        g.wf(),
        denser(h, g),
        suns_ok(suns),
        0 <= extinction,
    ensures
        light_spec(h, suns, extinction, i) <= light_spec(g, suns, extinction, i),
{
    let n = suns.len();
    lemma_total_weight_nonneg(suns, n);
    lemma_weighted_sum_monotone(g, h, suns, extinction, i, n);
    let w = total_weight(suns, n);
    if w != 0 {
        lemma_div_is_ordered(weighted_sum(h, suns, extinction, i, n), weighted_sum(g, suns, extinction, i, n), w);
    }
}

fn smallest_extent(g: &VoxelGrid) -> (r: usize)
    requires
        g.wf(),
    ensures
        r == min_dim(*g),
{
    let m = if g.width < g.height {
        g.width
    } else {
        g.height
    };
    if m < g.depth {
        m
    } else {
        g.depth
    }
}

/// Optical depth of one step, for bounded inputs.
fn step_depth(density: i64, extinction: i64, dt: i64) -> (r: i64)
    requires
        0 <= density <= DENSITY_LIMIT,
        0 <= extinction <= EXTINCTION_LIMIT,
        0 <= dt <= 2 * ONE,
    ensures
        r == optical_depth(density as int, extinction as int, dt as int),
        0 <= r <= 0x8_0000_0000_0000,
{
    let (d, k, s) = (density as i128, extinction as i128, dt as i128);
    proof {
        assert(0 <= k * d <= EXTINCTION_LIMIT * DENSITY_LIMIT) by (nonlinear_arith)
            requires
                0 <= d <= DENSITY_LIMIT,
                0 <= k <= EXTINCTION_LIMIT,
        ;
        assert(0 <= k * d * s <= EXTINCTION_LIMIT * DENSITY_LIMIT * (2 * ONE)) by (nonlinear_arith)
            requires
                0 <= k * d <= EXTINCTION_LIMIT * DENSITY_LIMIT,
                0 <= s <= 2 * ONE,
        ;
        lemma_div_is_ordered(k * d * s, EXTINCTION_LIMIT * DENSITY_LIMIT * (2 * ONE), ONE * ONE);
        lemma_div_pos_is_pos(k * d * s, ONE * ONE);
    }
    let q = (k * d * s).checked_div_euclid((ONE as i128) * (ONE as i128)).unwrap();
    q as i64
}

fn attenuate_exec(t: i64, tau: i64) -> (r: i64)
    requires
        0 <= t <= ONE,
        0 <= tau <= 0x8_0000_0000_0000,
    ensures
        r == attenuate(t as int, tau as int),
        0 <= r <= t,
{
    proof {
        lemma_attenuate_range(t as int, tau as int);
    }
    floor_div(t * ONE, ONE + tau)
}

/// Marches from voxel `start` with step `s` and returns the transmittance.
fn march(g: &VoxelGrid, s: Point3, extinction: i64, start: [usize; 3]) -> (r: i64)
    requires
        bakeable(*g),
        0 <= extinction <= EXTINCTION_LIMIT,
        -4 * ONE <= s.x <= 4 * ONE,
        -4 * ONE <= s.y <= 4 * ONE,
        -4 * ONE <= s.z <= 4 * ONE,
        g.contains(start[0] as int, start[1] as int, start[2] as int),
    ensures
        r == march_spec(
            *g,
            s.x as int,
            s.y as int,
            s.z as int,
            extinction as int,
            coord_to_pos_spec(start[0] as int, g.width as int),
            coord_to_pos_spec(start[1] as int, g.height as int),
            coord_to_pos_spec(start[2] as int, g.depth as int),
            start[0] as int,
            start[1] as int,
            start[2] as int,
            ONE as int,
            march_limit(*g),
        ),
        0 <= r <= ONE,
{
    let dims = [g.width, g.height, g.depth];
    let m = smallest_extent(g);
    proof {
        lemma_min_dim(*g);
    }
    let dt = floor_div(2 * ONE, m as i64);
    let mut p = coord_to_pos(start, dims);
    let mut c = start;
    let mut t: i64 = ONE;
    let mut fuel: usize = 4 * m + 4;
    let ghost total = march_spec(
        *g,
        s.x as int,
        s.y as int,
        s.z as int,
        extinction as int,
        p.x as int,
        p.y as int,
        p.z as int,
        c[0] as int,
        c[1] as int,
        c[2] as int,
        ONE as int,
        fuel as nat,
    );
    assert(fuel as nat == march_limit(*g));
    loop
        invariant
            bakeable(*g),
            dims == [g.width, g.height, g.depth],
            dt == step_len(*g),
            0 <= dt <= 2 * ONE,
            0 <= extinction <= EXTINCTION_LIMIT,
            -4 * ONE <= s.x <= 4 * ONE,
            -4 * ONE <= s.y <= 4 * ONE,
            -4 * ONE <= s.z <= 4 * ONE,
            in_domain(p.x as int, p.y as int, p.z as int),
            c[0] <= g.width && c[1] <= g.height && c[2] <= g.depth,
            0 <= t <= ONE,
            total == march_spec(
                *g,
                s.x as int,
                s.y as int,
                s.z as int,
                extinction as int,
                coord_to_pos_spec(start[0] as int, g.width as int),
                coord_to_pos_spec(start[1] as int, g.height as int),
                coord_to_pos_spec(start[2] as int, g.depth as int),
                start[0] as int,
                start[1] as int,
                start[2] as int,
                ONE as int,
                march_limit(*g),
            ),
            total == march_spec(
                *g,
                s.x as int,
                s.y as int,
                s.z as int,
                extinction as int,
                p.x as int,
                p.y as int,
                p.z as int,
                c[0] as int,
                c[1] as int,
                c[2] as int,
                t as int,
                fuel as nat,
            ),
        decreases fuel,
    {
        if fuel == 0 || !(c[0] < g.width && c[1] < g.height && c[2] < g.depth) {
            return t;
        }
        let j = g.index(c[0], c[1], c[2]);
        let v = g.cells[j];
        assert(density_of(g.cells@[j as int]) <= DENSITY_LIMIT);
        let dens = if v.distance < 0 {
            -v.distance
        } else {
            0
        };
        t = attenuate_exec(t, step_depth(dens, extinction, dt));
        let q = Point3 { x: p.x + s.x, y: p.y + s.y, z: p.z + s.z };
        fuel = fuel - 1;
        if !(-ONE <= q.x && q.x <= ONE && -ONE <= q.y && q.y <= ONE && -ONE <= q.z && q.z <= ONE) {
            assert(march_spec(
                *g,
                s.x as int,
                s.y as int,
                s.z as int,
                extinction as int,
                q.x as int,
                q.y as int,
                q.z as int,
                pos_to_coord_spec(q.x as int, g.width as int),
                pos_to_coord_spec(q.y as int, g.height as int),
                pos_to_coord_spec(q.z as int, g.depth as int),
                t as int,
                fuel as nat,
            ) == t);
            return t;
        }
        c = pos_to_coord(q, dims);
        p = q;
    }
}

/// Transmittance from voxel `i` (a linear position) towards the sun along
/// `direction` (a unit vector up to rounding), in `0..=ONE`.
pub fn transmittance(g: &VoxelGrid, direction: Point3, extinction: i64, i: usize) -> (r: i64)
    requires
        bakeable(*g),
        0 <= extinction <= EXTINCTION_LIMIT,
        -2 * ONE <= direction.x <= 2 * ONE,
        -2 * ONE <= direction.y <= 2 * ONE,
        -2 * ONE <= direction.z <= 2 * ONE,
        i < g.cells@.len(),
    ensures
        r == transmittance_spec(*g, direction, extinction as int, i as int),
        0 <= r <= ONE,
{
    let m = smallest_extent(g);
    proof {
        lemma_min_dim(*g);
        lemma_coords_of(i as int, g.width as int, g.height as int, g.depth as int);
    }
    let dt = floor_div(2 * ONE, m as i64);
    proof {
        assert(-4 * ONE * ONE <= direction.x * dt <= 4 * ONE * ONE) by (nonlinear_arith)
            requires
                -2 * ONE <= direction.x <= 2 * ONE,
                0 <= dt <= 2 * ONE,
        ;
        assert(-4 * ONE * ONE <= direction.y * dt <= 4 * ONE * ONE) by (nonlinear_arith)
            requires
                -2 * ONE <= direction.y <= 2 * ONE,
                0 <= dt <= 2 * ONE,
        ;
        assert(-4 * ONE * ONE <= direction.z * dt <= 4 * ONE * ONE) by (nonlinear_arith)
            requires
                -2 * ONE <= direction.z <= 2 * ONE,
                0 <= dt <= 2 * ONE,
        ;
        lemma_div_is_ordered(-4 * ONE * ONE, direction.x * dt, ONE as int);
        lemma_div_is_ordered(direction.x * dt, 4 * ONE * ONE, ONE as int);
        lemma_div_is_ordered(-4 * ONE * ONE, direction.y * dt, ONE as int);
        lemma_div_is_ordered(direction.y * dt, 4 * ONE * ONE, ONE as int);
        lemma_div_is_ordered(-4 * ONE * ONE, direction.z * dt, ONE as int);
        lemma_div_is_ordered(direction.z * dt, 4 * ONE * ONE, ONE as int);
    }
    let s = Point3 {
        x: floor_div(direction.x * dt, ONE),
        y: floor_div(direction.y * dt, ONE),
        z: floor_div(direction.z * dt, ONE),
    };
    let w = g.width;
    let h = g.height;
    let n = g.cells.len();
    proof {
        assert(w * h <= w * h * g.depth) by (nonlinear_arith)
            requires
                1 <= g.depth,
                1 <= w,
                1 <= h,
        ;
    }
    let start = [i % w, (i / w) % h, i / (w * h)];
    march(g, s, extinction, start)
}

/// The baked light of voxel `i`: its transmittances towards the sun
/// samples averaged with the samples' weights, or `ONE` when the samples
/// carry no weight.
pub fn voxel_light(g: &VoxelGrid, suns: &Vec<SunSample>, extinction: i64, i: usize) -> (r: i64)
    requires
        bakeable(*g),
        suns_ok(suns@),
        0 <= extinction <= EXTINCTION_LIMIT,
        i < g.cells@.len(),
    ensures
        r == light_spec(*g, suns@, extinction as int, i as int),
        0 <= r <= ONE,
{
    let mut sum: i64 = 0;
    let mut total: i64 = 0;
    let mut k: usize = 0;
    while k < suns.len()
        invariant
            bakeable(*g),
            suns_ok(suns@),
            0 <= extinction <= EXTINCTION_LIMIT,
            i < g.cells@.len(),
            k <= suns@.len(),
            sum == weighted_sum(*g, suns@, extinction as int, i as int, k as nat),
            total == total_weight(suns@, k as nat),
            0 <= sum <= k * (ONE * WEIGHT_LIMIT),
            0 <= total <= k * WEIGHT_LIMIT,
        decreases suns@.len() - k,
    {
        let sun = suns[k];
        assert(suns@[k as int] == sun);
        let tr = transmittance(g, sun.direction, extinction, i);
        proof {
            assert(0 <= sun.weight * tr <= ONE * WEIGHT_LIMIT) by (nonlinear_arith)
                requires
                    0 <= sun.weight <= WEIGHT_LIMIT,
                    0 <= tr <= ONE,
            ;
            assert(k * (ONE * WEIGHT_LIMIT) + ONE * WEIGHT_LIMIT == (k + 1) * (ONE * WEIGHT_LIMIT)) by (nonlinear_arith);
        }
        sum = sum + sun.weight * tr;
        total = total + sun.weight;
        k = k + 1;
    }
    proof {
        lemma_light_range(*g, suns@, extinction as int, i as int);
    }
    if total == 0 {
        ONE
    } else {
        floor_div(sum, total)
    }
}

/// Bakes the light channel of every voxel from the grid's densities: the
/// other channels stay as they were, and every voxel's light is computed
/// from the grid as it stood before the bake.
pub fn bake_light(g: &mut VoxelGrid, suns: &Vec<SunSample>, extinction: i64)
    requires
        bakeable(*old(g)),
        suns_ok(suns@),
        0 <= extinction <= EXTINCTION_LIMIT,
    ensures
        final(g).wf(),
        final(g).width == old(g).width,
        final(g).height == old(g).height,
        final(g).depth == old(g).depth,
        forall|i: int|
            0 <= i < final(g).cells@.len() ==> #[trigger] final(g).cells@[i] == (Voxel {
                light: light_spec(*old(g), suns@, extinction as int, i) as i64,
                ..old(g).cells@[i]
            }),
{
    let n = g.cells.len();
    let mut lights: Vec<i64> = Vec::new();
    let mut i: usize = 0;
    while i < n
        invariant
            bakeable(*g),
            suns_ok(suns@),
            0 <= extinction <= EXTINCTION_LIMIT,
            n == g.cells@.len(),
            i <= n,
            lights@.len() == i,
            forall|j: int| 0 <= j < i ==> #[trigger] lights@[j] == light_spec(*g, suns@, extinction as int, j),
        decreases n - i,
    {
        let l = voxel_light(g, suns, extinction, i);
        lights.push(l);
        i = i + 1;
    }
    let ghost before = *g;
    let mut i: usize = 0;
    while i < n
        invariant
            before.wf(),
            g.width == before.width && g.height == before.height && g.depth == before.depth,
            n == g.cells@.len(),
            n == before.cells@.len(),
            lights@.len() == n,
            i <= n,
            forall|j: int| 0 <= j < n ==> #[trigger] lights@[j] == light_spec(before, suns@, extinction as int, j),
            forall|j: int|
                0 <= j < i ==> #[trigger] g.cells@[j] == (Voxel { light: lights@[j], ..before.cells@[j] }),
            forall|j: int| i <= j < n ==> #[trigger] g.cells@[j] == before.cells@[j],
        decreases n - i,
    {
        let v = g.cells[i];
        g.cells.set(i, Voxel { light: lights[i], ..v });
        i = i + 1;
    }
}

} // verus!
