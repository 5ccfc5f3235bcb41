//! A variant of the cloud volume whose inside holds value noise: outside
//! the cloud a voxel keeps its signed distance, inside it takes the negated
//! value noise at its position as its depth, so the bake sees a noisy
//! density.
use crate::bake::{bake_light, bakeable, density_of, light_spec, suns_ok, SunSample, DENSITY_LIMIT};
use crate::cloud::{filled_with, grid_dims_ok, voxel_pos, EXTINCTION};
use crate::fixed::{Point3, ONE};
use crate::grid::{coord_to_pos, lemma_coords_of, Voxel, VoxelGrid};
use crate::noise::{value_noise, value_noise_at, Period};
use crate::sdf::{sdf, sdf_at};
use vstd::prelude::*;

verus! {

/// Unlit voxel `i`: its signed distance outside the cloud, the negated value
/// noise inside.
pub open spec fn noisy_voxel(i: int, w: int, h: int, d: int) -> Voxel {
    let (px, py, pz) = voxel_pos(i, w, h, d);
    let dist = sdf_at(px, py, pz);
    Voxel {
        distance: (if dist > 0 {
            dist
        } else {
            -value_noise_at(px, py, pz, Period { x: 0, y: 0, z: 0 })
        }) as i64,
        light: 0,
        noise: 0,
        extra: 0,
    }
}

pub open spec fn is_noisy_field(g: VoxelGrid, dims: [usize; 3]) -> bool {
    filled_with(g, |i: int| noisy_voxel(i, dims[0] as int, dims[1] as int, dims[2] as int), dims)
}

fn position(g: &VoxelGrid, i: usize) -> (r: Point3)
    requires
        g.wf(),
        i < g.cells@.len(),
    ensures
        (r.x as int, r.y as int, r.z as int) == voxel_pos(i as int, g.width as int, g.height as int, g.depth as int),
        -ONE <= r.x <= ONE && -ONE <= r.y <= ONE && -ONE <= r.z <= ONE,
{
    let (w, h) = (g.width, g.height);
    let n = g.cells.len();
    proof {
        lemma_coords_of(i as int, w as int, h as int, g.depth as int);
        assert(w * h <= w * h * g.depth) by (nonlinear_arith)
            requires
                1 <= g.depth,
                1 <= w,
                1 <= h,
        ;
    }
    coord_to_pos([i % w, (i / w) % h, i / (w * h)], [g.width, g.height, g.depth])
}

/// The noisy cloud volume of the given extents, lit towards `suns`.
pub fn new(dims: [usize; 3], suns: &Vec<SunSample>) -> (r: VoxelGrid)
    requires
        grid_dims_ok(dims),
        suns_ok(suns@),
    ensures
        r.wf(),
        r.width == dims[0] && r.height == dims[1] && r.depth == dims[2],
        exists|f: VoxelGrid|
            {
                &&& #[trigger] is_noisy_field(f, dims)
                &&& forall|i: int|
                    0 <= i < r.cells@.len() ==> #[trigger] r.cells@[i] == (Voxel {
                        light: light_spec(f, suns@, EXTINCTION as int, i) as i64,
                        ..f.cells@[i]
                    })
            },
{
    let zero = Voxel { distance: 0, light: 0, noise: 0, extra: 0 };
    let mut g = VoxelGrid::new(dims[0], dims[1], dims[2], zero);
    let n = g.cells.len();
    let mut i: usize = 0;
    while i < n
        invariant
            g.wf(),
            g.width == dims[0] && g.height == dims[1] && g.depth == dims[2],
            n == g.cells@.len(),
            i <= n,
            forall|j: int| 0 <= j < i ==> #[trigger] g.cells@[j] == noisy_voxel(j, dims[0] as int, dims[1] as int, dims[2] as int),
            forall|j: int| 0 <= j < i ==> density_of(#[trigger] g.cells@[j]) <= DENSITY_LIMIT,
        decreases n - i,
    {
        let p = position(&g, i);
        let d = sdf(p);
        let dist = if d > 0 {
            d
        } else {
            -value_noise(p)
        };
        g.cells.set(i, Voxel { distance: dist, light: 0, noise: 0, extra: 0 });
        i = i + 1;
    }
    let ghost f = g;
    assert(bakeable(g));
    bake_light(&mut g, suns, EXTINCTION);
    assert(is_noisy_field(f, dims));
    g
}

} // verus!
