//! Voxel grids: a fixed-size 3D array of four-channel fixed-point records,
//! stored with the x index varying fastest (`x + width * (y + height * z)`),
//! the order in which 3D textures are laid out.
use crate::fixed::{floor_div, Point3, ONE};
use vstd::arithmetic::div_mod::{
    lemma_div_denominator, lemma_div_is_ordered, lemma_div_multiples_vanish, lemma_div_pos_is_pos,
    lemma_fundamental_div_mod, lemma_fundamental_div_mod_converse, lemma_mod_bound,
};
use vstd::prelude::*;

verus! {

/// One voxel: signed distance to the cloud surface (negative inside),
/// baked sun light, a detail noise channel and a spare channel.
#[derive(Clone, Copy, PartialEq, Eq, Structural, Debug)]
pub struct Voxel {
    pub distance: i64,
    pub light: i64,
    pub noise: i64,
    pub extra: i64,
}

/// The largest extent of a grid along one axis.
pub const MAX_DIM: usize = 4096;

pub struct VoxelGrid {
    pub width: usize,
    pub height: usize,
    pub depth: usize,
    pub cells: Vec<Voxel>,
}

/// Linear position of voxel `(x, y, z)` in a grid of the given extents.
pub open spec fn linear_index(x: int, y: int, z: int, width: int, height: int) -> int {
    x + width * (y + height * z)
}

/// Grid extents along x, y and z.
pub open spec fn dims_ok(w: int, h: int, d: int) -> bool {
    1 <= w <= MAX_DIM && 1 <= h <= MAX_DIM && 1 <= d <= MAX_DIM
}

impl VoxelGrid {
    pub open spec fn wf(&self) -> bool {
        &&& dims_ok(self.width as int, self.height as int, self.depth as int)
        &&& self.cells@.len() == self.width * self.height * self.depth
    }

    /// Whether `(x, y, z)` names a voxel of the grid.
    pub open spec fn contains(&self, x: int, y: int, z: int) -> bool {
        0 <= x < self.width && 0 <= y < self.height && 0 <= z < self.depth
    }

    /// The voxel at `(x, y, z)`.
    pub open spec fn at(&self, x: int, y: int, z: int) -> Voxel {
        self.cells@[linear_index(x, y, z, self.width as int, self.height as int)]
    }

    /// A grid of the given extents with every voxel set to `fill`.
    pub fn new(width: usize, height: usize, depth: usize, fill: Voxel) -> (r: VoxelGrid)
        requires
            dims_ok(width as int, height as int, depth as int),
            width * height * depth <= usize::MAX,
        ensures
            r.wf(),
            r.width == width && r.height == height && r.depth == depth,
            forall|i: int| 0 <= i < r.cells@.len() ==> r.cells@[i] == fill,
    {
        proof {
            lemma_mul_nonneg(width as int, height as int, depth as int);
            assert(width * height <= width * height * depth) by (nonlinear_arith)
                requires
                    1 <= depth,
                    0 <= width * height,
            ;
        }
        let n = width * height * depth;
        let mut cells: Vec<Voxel> = Vec::new();
        let mut i: usize = 0;
        while i < n
            invariant
                i <= n,
                cells@.len() == i,
                forall|j: int| 0 <= j < i ==> cells@[j] == fill,
            decreases n - i,
        {
            cells.push(fill);
            i = i + 1;
        }
        VoxelGrid { width, height, depth, cells }
    }

    /// Linear position of voxel `(x, y, z)`.
    pub fn index(&self, x: usize, y: usize, z: usize) -> (r: usize)
        requires
            self.wf(),
            self.contains(x as int, y as int, z as int),
        ensures
            r == linear_index(x as int, y as int, z as int, self.width as int, self.height as int),
            r < self.cells@.len(),
    {
        let n = self.cells.len();
        proof {
            lemma_index_in_bounds(x as int, y as int, z as int, self.width as int, self.height as int, self.depth as int);
            let (w, h, d) = (self.width as int, self.height as int, self.depth as int);
            assert(h * z <= h * z + y < h * d <= w * h * d && w * (y + h * z) <= w * (y + h * z) + x) by (nonlinear_arith)
                requires
                    0 <= x < w,
                    0 <= y < h,
                    0 <= z < d,
                    1 <= w,
            ;
        }
        let yz = y + self.height * z;
        x + self.width * yz
    }

    /// The voxel at `(x, y, z)`, or `None` outside the grid.
    pub fn get(&self, x: usize, y: usize, z: usize) -> (r: Option<Voxel>)
        requires
            self.wf(),
        ensures
            self.contains(x as int, y as int, z as int) ==> r == Some(self.at(x as int, y as int, z as int)),
            !self.contains(x as int, y as int, z as int) ==> r.is_none(),
    {
        if x < self.width && y < self.height && z < self.depth {
            let i = self.index(x, y, z);
            Some(self.cells[i])
        } else {
            None
        }
    }

    /// Replaces the voxel at `(x, y, z)`.
    pub fn set(&mut self, x: usize, y: usize, z: usize, v: Voxel)
        requires
            old(self).wf(),
            old(self).contains(x as int, y as int, z as int),
        ensures
            final(self).wf(),
            final(self).width == old(self).width,
            final(self).height == old(self).height,
            final(self).depth == old(self).depth,
            final(self).cells@ == old(self).cells@.update(
                linear_index(x as int, y as int, z as int, old(self).width as int, old(self).height as int),
                v,
            ),
    {
        let i = self.index(x, y, z);
        self.cells.set(i, v);
    }
}

pub proof fn lemma_mul_nonneg(w: int, h: int, d: int)
    requires
        0 <= w,
        0 <= h,
        0 <= d,
    ensures
        0 <= w * h,
        0 <= w * h * d,
{
    assert(0 <= w * h && 0 <= w * h * d) by (nonlinear_arith)
        requires
            0 <= w,
            0 <= h,
            0 <= d,
    ;
}

/// Every voxel of the grid has its own linear position below the voxel count.
pub proof fn lemma_index_in_bounds(x: int, y: int, z: int, w: int, h: int, d: int)
    requires
        0 <= x < w,
        0 <= y < h,
        0 <= z < d,
    ensures
        0 <= linear_index(x, y, z, w, h) < w * h * d,
{
    assert(0 <= x + w * (y + h * z) < w * h * d) by (nonlinear_arith)
        requires
            0 <= x < w,
            0 <= y < h,
            0 <= z < d,
    ;
}

/// The voxel coordinates of linear position `i`.
pub open spec fn coords_of(i: int, w: int, h: int) -> (int, int, int) {
    (i % w, (i / w) % h, i / (w * h))
}

pub proof fn lemma_coords_of(i: int, w: int, h: int, d: int)
    requires
        1 <= w,
        1 <= h,
        0 <= i < w * h * d,
    ensures
        0 <= coords_of(i, w, h).0 < w,
        0 <= coords_of(i, w, h).1 < h,
        0 <= coords_of(i, w, h).2 < d,
        linear_index(coords_of(i, w, h).0, coords_of(i, w, h).1, coords_of(i, w, h).2, w, h) == i,
{
    lemma_fundamental_div_mod(i, w);
    lemma_mod_bound(i, w);
    lemma_div_pos_is_pos(i, w);
    let q = i / w;
    lemma_fundamental_div_mod(q, h);
    lemma_mod_bound(q, h);
    lemma_div_pos_is_pos(q, h);
    lemma_div_denominator(i, w, h);
    assert(0 < w * h) by (nonlinear_arith)
        requires
            1 <= w,
            1 <= h,
    ;
    assert(w * h * d - 1 == (d - 1) * (w * h) + (w * h - 1)) by (nonlinear_arith);
    lemma_fundamental_div_mod_converse(w * h * d - 1, w * h, d - 1, w * h - 1);
    lemma_div_is_ordered(i, w * h * d - 1, w * h);
    lemma_div_pos_is_pos(i, w * h);
    assert(i == i % w + w * (q % h + h * (q / h))) by (nonlinear_arith)
        requires
            i == w * q + i % w,
            q == h * (q / h) + q % h,
    ;
}

/// Position of a voxel in the normalized domain `-ONE..=ONE` along an axis
/// of `res` voxels.
pub open spec fn coord_to_pos_spec(c: int, res: int) -> int {
    2 * c * ONE / res - ONE
}

/// Nearest voxel to a position of the normalized domain (rounding halves up).
pub open spec fn pos_to_coord_spec(p: int, res: int) -> int {
    ((p + ONE) * res + ONE) / (2 * ONE)
}

fn axis_to_pos(c: usize, res: usize) -> (r: i64)
    requires
        1 <= res <= MAX_DIM,
        c <= res,
    ensures
        r == coord_to_pos_spec(c as int, res as int),
        -ONE <= r <= ONE,
{
    proof {
        assert(0 <= 2 * c * ONE <= 2 * res * ONE) by (nonlinear_arith)
            requires
                c <= res,
        ;
        lemma_div_is_ordered(0, 2 * c * ONE, res as int);
        lemma_div_is_ordered(2 * c * ONE, 2 * res * ONE, res as int);
        lemma_div_multiples_vanish(2 * ONE, res as int);
        assert(2 * res * ONE == res * (2 * ONE)) by (nonlinear_arith);
    }
    floor_div(2 * (c as i64) * ONE, res as i64) - ONE
}

fn axis_to_coord(p: i64, res: usize) -> (r: usize)
    requires
        1 <= res <= MAX_DIM,
        -ONE <= p <= ONE,
    ensures
        r == pos_to_coord_spec(p as int, res as int),
        r <= res,
{
    let rs = res as i64;
    proof {
        assert(0 <= (p + ONE) * rs <= 2 * ONE * rs) by (nonlinear_arith)
            requires
                -ONE <= p <= ONE,
                1 <= rs,
        ;
        assert(0 <= (p + ONE) * res <= 2 * ONE * res) by (nonlinear_arith)
            requires
                -ONE <= p <= ONE,
                1 <= res,
        ;
        let n = (p + ONE) * res + ONE;
        lemma_div_is_ordered(0, n, 2 * ONE);
        lemma_div_is_ordered(n, 2 * ONE * res + ONE, 2 * ONE);
        assert(2 * ONE * res + ONE == res * (2 * ONE) + ONE) by (nonlinear_arith);
        lemma_fundamental_div_mod_converse(2 * ONE * res + ONE, 2 * ONE, res as int, ONE as int);
    }
    let n = (p + ONE) * rs + ONE;
    floor_div(n, 2 * ONE) as usize
}

/// Position of voxel `coord` in the normalized domain `-ONE..=ONE` of a grid
/// with extents `dims`.
pub fn coord_to_pos(coord: [usize; 3], dims: [usize; 3]) -> (r: Point3)
    requires
        dims_ok(dims[0] as int, dims[1] as int, dims[2] as int),
        coord[0] <= dims[0],
        coord[1] <= dims[1],
        coord[2] <= dims[2],
    ensures
        r.x == coord_to_pos_spec(coord[0] as int, dims[0] as int),
        r.y == coord_to_pos_spec(coord[1] as int, dims[1] as int),
        r.z == coord_to_pos_spec(coord[2] as int, dims[2] as int),
        -ONE <= r.x <= ONE && -ONE <= r.y <= ONE && -ONE <= r.z <= ONE,
{
    Point3 { x: axis_to_pos(coord[0], dims[0]), y: axis_to_pos(coord[1], dims[1]), z: axis_to_pos(coord[2], dims[2]) }
}

/// The voxel nearest to a position of the normalized domain; a coordinate
/// equal to the extent lies just past the grid.
pub fn pos_to_coord(p: Point3, dims: [usize; 3]) -> (r: [usize; 3])
    requires
        dims_ok(dims[0] as int, dims[1] as int, dims[2] as int),
        -ONE <= p.x <= ONE && -ONE <= p.y <= ONE && -ONE <= p.z <= ONE,
    ensures
        r[0] == pos_to_coord_spec(p.x as int, dims[0] as int),
        r[1] == pos_to_coord_spec(p.y as int, dims[1] as int),
        r[2] == pos_to_coord_spec(p.z as int, dims[2] as int),
        r[0] <= dims[0] && r[1] <= dims[1] && r[2] <= dims[2],
{
    [axis_to_coord(p.x, dims[0]), axis_to_coord(p.y, dims[1]), axis_to_coord(p.z, dims[2])]
}

} // verus!
