//! The cloud volume: a voxel grid filled from the signed distance field and
//! detail noise, lit by a bake towards a cluster of sun directions.
use crate::bake::{bake_light, bakeable, density_of, light_spec, suns_ok, SunSample, DENSITY_LIMIT, EXTINCTION_LIMIT};
use crate::fbm::{fbm_at, value_fbm, value_fbm_params, COORD_LIMIT};
use crate::fixed::{floor_div, Point3, ONE};
use crate::grid::{coord_to_pos, coord_to_pos_spec, coords_of, dims_ok, lemma_coords_of, lemma_mul_nonneg, Voxel, VoxelGrid};
use crate::noise::{value_noise, value_noise_at, Period};
use crate::sdf::{abs_spec, sdf, sdf_at};
use vstd::prelude::*;

verus! {

/// Extinction coefficient of the bake: 20 per unit of depth and length.
pub const EXTINCTION: i64 = 1310720;

/// `cos(0.15)` and `sin(0.15)`: the angular jitter of the sun cluster.
pub const JITTER_COS: i64 = 64800;

pub const JITTER_SIN: i64 = 9794;

/// Cosine and sine of the jitter angle with index `a`: `-0.15`, `0`, `0.15`.
pub open spec fn jitter_cos(a: int) -> int {
    if a == 1 {
        ONE as int
    } else {
        JITTER_COS as int
    }
}

pub open spec fn jitter_sin(a: int) -> int {
    if a == 0 {
        -JITTER_SIN
    } else if a == 1 {
        0
    } else {
        JITTER_SIN as int
    }
}

/// The plane rotation of `(u, v)` by the angle with cosine `c` and sine `s`.
pub open spec fn turn(u: int, v: int, c: int, s: int) -> (int, int) {
    ((c * u - s * v) / (ONE as int), (s * u + c * v) / (ONE as int))
}

/// `v` rotated by the Euler angles with indices `(a, b, c)` about x, y and
/// z: first about z, then y, then x.
pub open spec fn euler_turn(x: int, y: int, z: int, a: int, b: int, c: int) -> (int, int, int) {
    let (x1, y1) = turn(x, y, jitter_cos(c), jitter_sin(c));
    let (z2, x2) = turn(z, x1, jitter_cos(b), jitter_sin(b));
    let (y3, z3) = turn(y1, z2, jitter_cos(a), jitter_sin(a));
    (x2, y3, z3)
}

fn turn_exec(u: i64, v: i64, c: i64, s: i64, bound: Ghost<int>) -> (r: (i64, i64))
    requires
        0 <= bound@ <= 0x10_0000,
        -bound@ <= u <= bound@,
        -bound@ <= v <= bound@,
        0 <= c <= ONE,
        -JITTER_SIN <= s <= JITTER_SIN,
        c + abs_spec(s as int) <= 74594,
    ensures
        (r.0 as int, r.1 as int) == turn(u as int, v as int, c as int, s as int),
        -(74594 * bound@ / (ONE as int) + 1) <= r.0 <= 74594 * bound@ / (ONE as int) + 1,
        -(74594 * bound@ / (ONE as int) + 1) <= r.1 <= 74594 * bound@ / (ONE as int) + 1,
{
    proof {
        let b = bound@;
        assert(-74594 * b <= c * u - s * v <= 74594 * b && -74594 * b <= s * u + c * v <= 74594 * b) by (nonlinear_arith)
            requires
                -b <= u <= b,
                -b <= v <= b,
                0 <= c,
                -JITTER_SIN <= s <= JITTER_SIN,
                c + abs_spec(s as int) <= 74594,
        ;
        assert(-0x10_0000_0000 <= c * u <= 0x10_0000_0000 && -0x10_0000_0000 <= c * v <= 0x10_0000_0000
            && -0x10_0000_0000 <= s * u <= 0x10_0000_0000 && -0x10_0000_0000 <= s * v <= 0x10_0000_0000) by (nonlinear_arith)
            requires
                -b <= u <= b,
                -b <= v <= b,
                b <= 0x10_0000,
                0 <= c <= ONE,
                -JITTER_SIN <= s <= JITTER_SIN,
        ;
        crate::fixed::lemma_div_band_general(c * u - s * v, 74594 * b);
        crate::fixed::lemma_div_band_general(s * u + c * v, 74594 * b);
    }
    (floor_div(c * u - s * v, ONE), floor_div(s * u + c * v, ONE))
}

fn angle(a: i64) -> (r: (i64, i64))
    requires
        0 <= a <= 2,
    ensures
        r.0 == jitter_cos(a as int),
        r.1 == jitter_sin(a as int),
{
    if a == 0 {
        (JITTER_COS, -JITTER_SIN)
    } else if a == 1 {
        (ONE, 0)
    } else {
        (JITTER_COS, JITTER_SIN)
    }
}

/// The 27 sun directions of a bake: `base` rotated by every combination of
/// the angles `-0.15`, `0`, `0.15` about x, y and z. Direction `n` uses the
/// angle indices `(n / 9, (n / 3) % 3, n % 3)`.
pub fn sun_directions(base: Point3) -> (r: Vec<Point3>)
    requires
        -ONE <= base.x <= ONE,
        -ONE <= base.y <= ONE,
        -ONE <= base.z <= ONE,
    ensures
        r@.len() == 27,
        forall|n: int|
            0 <= n < 27 ==> {
                let d = #[trigger] r@[n];
                let e = euler_turn(base.x as int, base.y as int, base.z as int, n / 9, (n / 3) % 3, n % 3);
                &&& d.x == e.0 && d.y == e.1 && d.z == e.2
                &&& -2 * ONE <= d.x <= 2 * ONE && -2 * ONE <= d.y <= 2 * ONE && -2 * ONE <= d.z <= 2 * ONE
            },
{
    let mut out: Vec<Point3> = Vec::new();
    let mut n: i64 = 0;
    while n < 27
        invariant
            0 <= n <= 27,
            -ONE <= base.x <= ONE,
            -ONE <= base.y <= ONE,
            -ONE <= base.z <= ONE,
            out@.len() == n,
            forall|m: int|
                0 <= m < n ==> {
                    let d = #[trigger] out@[m];
                    let e = euler_turn(base.x as int, base.y as int, base.z as int, m / 9, (m / 3) % 3, m % 3);
                    &&& d.x == e.0 && d.y == e.1 && d.z == e.2
                    &&& -2 * ONE <= d.x <= 2 * ONE && -2 * ONE <= d.y <= 2 * ONE && -2 * ONE <= d.z <= 2 * ONE
                },
        decreases 27 - n,
    {
        let (ca, sa) = angle(n / 9);
        let (cb, sb) = angle((n / 3) % 3);
        let (cc, sc) = angle(n % 3);
        let (x1, y1) = turn_exec(base.x, base.y, cc, sc, Ghost(ONE as int));
        let (z2, x2) = turn_exec(base.z, x1, cb, sb, Ghost(74595int));
        let (y3, z3) = turn_exec(y1, z2, ca, sa, Ghost(84909int));
        out.push(Point3 { x: x2, y: y3, z: z3 });
        n = n + 1;
    }
    out
}

/// Position of voxel `i` (a linear position) of a grid with extents `dims`.
pub open spec fn voxel_pos(i: int, w: int, h: int, d: int) -> (int, int, int) {
    let (x, y, z) = coords_of(i, w, h);
    (coord_to_pos_spec(x, w), coord_to_pos_spec(y, h), coord_to_pos_spec(z, d))
}

/// The unlit cloud voxel `i`: its signed distance and value-noise detail.
pub open spec fn cloud_voxel(i: int, w: int, h: int, d: int) -> Voxel {
    let (px, py, pz) = voxel_pos(i, w, h, d);
    let p = Point3 { x: px as i64, y: py as i64, z: pz as i64 };
    Voxel {
        distance: sdf_at(px, py, pz) as i64,
        light: 0,
        noise: fbm_at(p, Period { x: 0, y: 0, z: 0 }, value_fbm_params()) as i64,
        extra: 0,
    }
}

/// A grid whose every voxel holds `distance` and `noise` as `f` gives them
/// for its linear position, with the other channels zero.
pub open spec fn filled_with(g: VoxelGrid, f: spec_fn(int) -> Voxel, dims: [usize; 3]) -> bool {
    &&& g.wf()
    &&& g.width == dims[0] && g.height == dims[1] && g.depth == dims[2]
    &&& forall|i: int| 0 <= i < g.cells@.len() ==> #[trigger] g.cells@[i] == f(i)
}

/// `g` is the unlit cloud field of the given extents.
pub open spec fn is_cloud_field(g: VoxelGrid, dims: [usize; 3]) -> bool {
    filled_with(g, |i: int| cloud_voxel(i, dims[0] as int, dims[1] as int, dims[2] as int), dims)
}

pub open spec fn grid_dims_ok(dims: [usize; 3]) -> bool {
    dims_ok(dims[0] as int, dims[1] as int, dims[2] as int) && dims[0] * dims[1] * dims[2] <= usize::MAX
}

fn voxel_position(g: &VoxelGrid, i: usize) -> (r: Point3)
    requires
        g.wf(),
        i < g.cells@.len(),
    ensures
        (r.x as int, r.y as int, r.z as int) == voxel_pos(i as int, g.width as int, g.height as int, g.depth as int),
        -ONE <= r.x <= ONE && -ONE <= r.y <= ONE && -ONE <= r.z <= ONE,
{
    let (w, h) = (g.width, g.height);
    let n = g.cells.len();
    proof {
        lemma_coords_of(i as int, w as int, h as int, g.depth as int);
        assert(w * h <= w * h * g.depth) by (nonlinear_arith)
            requires
                1 <= g.depth,
                1 <= w,
                1 <= h,
        ;
    }
    coord_to_pos([i % w, (i / w) % h, i / (w * h)], [g.width, g.height, g.depth])
}

/// A grid of the given extents filled from the cloud's signed distance and
/// value-noise detail, unlit.
pub fn cloud_field(dims: [usize; 3]) -> (r: VoxelGrid)
    requires
        grid_dims_ok(dims),
    ensures
        is_cloud_field(r, dims),
        bakeable(r),
{
    let zero = Voxel { distance: 0, light: 0, noise: 0, extra: 0 };
    let mut g = VoxelGrid::new(dims[0], dims[1], dims[2], zero);
    let n = g.cells.len();
    let mut i: usize = 0;
    while i < n
        invariant
            g.wf(),
            g.width == dims[0] && g.height == dims[1] && g.depth == dims[2],
            n == g.cells@.len(),
            i <= n,
            forall|j: int| 0 <= j < i ==> #[trigger] g.cells@[j] == cloud_voxel(j, dims[0] as int, dims[1] as int, dims[2] as int),
            forall|j: int| 0 <= j < i ==> density_of(#[trigger] g.cells@[j]) <= DENSITY_LIMIT,
        decreases n - i,
    {
        let p = voxel_position(&g, i);
        let d = sdf(p);
        let detail = value_fbm(p, Period { x: 0, y: 0, z: 0 });
        g.cells.set(i, Voxel { distance: d, light: 0, noise: detail, extra: 0 });
        i = i + 1;
    }
    g
}

/// The lit cloud volume: the cloud field, with every voxel's light baked
/// towards `suns` from the unlit field.
pub fn new_cloud_data(dims: [usize; 3], suns: &Vec<SunSample>) -> (r: VoxelGrid)
    requires
        grid_dims_ok(dims),
        suns_ok(suns@),
    ensures
        r.wf(),
        r.width == dims[0] && r.height == dims[1] && r.depth == dims[2],
        exists|f: VoxelGrid|
            {
                &&& #[trigger] is_cloud_field(f, dims)
                &&& forall|i: int|
                    0 <= i < r.cells@.len() ==> #[trigger] r.cells@[i] == (Voxel {
                        light: light_spec(f, suns@, EXTINCTION as int, i) as i64,
                        ..f.cells@[i]
                    })
            },
{
    let mut g = cloud_field(dims);
    let ghost f = g;
    bake_light(&mut g, suns, EXTINCTION);
    assert(forall|i: int|
        0 <= i < g.cells@.len() ==> #[trigger] g.cells@[i] == (Voxel {
            light: light_spec(f, suns@, EXTINCTION as int, i) as i64,
            ..f.cells@[i]
        }));
    g
}

} // verus!
