use cloud_volume::bake::{bake_light, transmittance, voxel_light, SunSample};
use cloud_volume::cloud::{new_cloud_data, sun_directions, EXTINCTION};
use cloud_volume::cloud_gen;
use cloud_volume::fixed::{Point3, ONE};
use cloud_volume::grid::{coord_to_pos, pos_to_coord, Voxel, VoxelGrid};
use cloud_volume::sdf::{sd_base, sd_fbm, sd_sphere, sdf, smooth_max, smooth_min, BASE_CENTER_Y};
use cloud_volume::textures::{value_texture_data, w3noise, worley_texture_data};

fn pt(x: i64, y: i64, z: i64) -> Point3 {
    Point3 { x, y, z }
}

fn voxel(distance: i64) -> Voxel {
    Voxel { distance, light: 0, noise: 0, extra: 0 }
}

/// The 4x4x4 grid with a dense slab at `x < 2`.
fn slab_grid() -> VoxelGrid {
    let mut g = VoxelGrid::new(4, 4, 4, voxel(ONE));
    for z in 0..4 {
        for y in 0..4 {
            for x in 0..2 {
                g.set(x, y, z, voxel(-ONE));
            }
        }
    }
    g
}

#[test]
fn bake_shadows_voxels_behind_dense_cells() {
    let mut g = slab_grid();
    let suns = vec![SunSample { direction: pt(ONE, 0, 0), weight: ONE }];
    bake_light(&mut g, &suns, EXTINCTION);
    for z in 0..4 {
        for y in 0..4 {
            let l0 = g.get(0, y, z).unwrap().light;
            let l1 = g.get(1, y, z).unwrap().light;
            let l2 = g.get(2, y, z).unwrap().light;
            let l3 = g.get(3, y, z).unwrap().light;
            assert_eq!(l3, ONE);
            assert_eq!(l2, ONE);
            // One dense step: 1 / (1 + 20 * 1 * 0.5) = 1 / 11.
            assert_eq!(l1, ONE / 11);
            // Two dense steps.
            assert_eq!(l0, (ONE / 11) * ONE / (11 * ONE));
            assert!(l0 < l1 && l1 < l3);
            assert_eq!(g.get(0, y, z).unwrap().distance, -ONE);
        }
    }
}

#[test]
fn denser_grid_gets_no_more_light() {
    let light = slab_grid();
    let mut heavy = slab_grid();
    heavy.set(2, 1, 1, voxel(-ONE));
    heavy.set(0, 1, 1, voxel(-3 * ONE));
    let suns = vec![
        SunSample { direction: pt(ONE, 0, 0), weight: ONE },
        SunSample { direction: pt(0, 46341, 46341), weight: ONE / 2 },
    ];
    for i in 0..64 {
        let a = voxel_light(&light, &suns, EXTINCTION, i);
        let b = voxel_light(&heavy, &suns, EXTINCTION, i);
        assert!(b <= a, "voxel {i}: {b} > {a}");
        assert!((0..=ONE).contains(&b));
    }
}

#[test]
fn transmittance_through_empty_space_is_full() {
    let g = VoxelGrid::new(3, 3, 3, voxel(ONE));
    for i in 0..27 {
        assert_eq!(transmittance(&g, pt(0, -ONE, 0), EXTINCTION, i), ONE);
    }
    let no_weight = vec![SunSample { direction: pt(ONE, 0, 0), weight: 0 }];
    assert_eq!(voxel_light(&g, &no_weight, EXTINCTION, 4), ONE);
}

#[test]
fn grid_positions_round_trip() {
    let dims = [30, 20, 10];
    for c in [[0, 0, 0], [29, 19, 9], [15, 3, 7]] {
        let p = coord_to_pos(c, dims);
        assert_eq!(pos_to_coord(p, dims), c);
    }
    assert_eq!(coord_to_pos([0, 10, 20], [20, 20, 20]), pt(-ONE, 0, ONE));
    let g = VoxelGrid::new(3, 4, 5, voxel(0));
    assert_eq!(g.index(2, 1, 3), 2 + 3 * (1 + 4 * 3));
    assert_eq!(g.get(3, 0, 0), None);
}

#[test]
fn smooth_blends_reduce_to_min_and_max_at_zero_radius() {
    assert_eq!(smooth_min(3 * ONE, -ONE, 0), -ONE);
    assert_eq!(smooth_max(3 * ONE, -ONE, 0), 3 * ONE);
    assert_eq!(smooth_min(-7, 7, 0), -7);
    assert_eq!(smooth_max(-7, 7, 0), 7);
    // Equal arguments: the blend shifts by k / 4.
    assert_eq!(smooth_min(ONE, ONE, ONE), ONE - ONE / 4);
    assert_eq!(smooth_max(ONE, ONE, ONE), ONE + ONE / 4);
    // Far apart arguments: the blend is exact.
    assert_eq!(smooth_min(0, 10 * ONE, ONE), 0);
    assert_eq!(smooth_max(0, 10 * ONE, ONE), 10 * ONE);
}

#[test]
fn sdf_is_negative_inside_and_positive_far_away() {
    let center = pt(0, BASE_CENTER_Y, 0);
    assert!(sdf(center) < 0);
    let far = sdf(pt(100 * ONE, 0, 0));
    assert!(far > 90 * ONE, "{far}");
    assert!(sdf(pt(0, 0, -100 * ONE)) > 90 * ONE);
    assert_eq!(sd_sphere(pt(3 * ONE, 4 * ONE, 0), pt(0, 0, 0), ONE), 4 * ONE);
}

#[test]
fn metaball_octaves_keep_a_distance_near_its_base() {
    let b = sd_base(pt(ONE / 2, ONE / 3, ONE / 4));
    assert!((-ONE..=3 * ONE).contains(&b));
    let p = pt(ONE, 2 * ONE, 3 * ONE);
    assert_eq!(sd_fbm(p, 5 * ONE, 0), 5 * ONE);
    let d = sd_fbm(p, 50 * ONE, 20);
    assert!(d <= 50 * ONE + ONE && d >= 49 * ONE, "{d}");
    assert_eq!(sd_fbm(p, -ONE, 17), sd_fbm(p, -ONE, 40));
}

#[test]
fn sun_cluster_has_the_base_direction_in_the_middle() {
    let base = pt(-40_000, 12_000, 40_000);
    let dirs = sun_directions(base);
    assert_eq!(dirs.len(), 27);
    assert_eq!(dirs[13], base);
    for d in &dirs {
        assert!(d.x.abs() <= 2 * ONE && d.y.abs() <= 2 * ONE && d.z.abs() <= 2 * ONE);
    }
    assert_ne!(dirs[0], base);
}

#[test]
fn cloud_volumes_have_their_extents_and_bounded_light() {
    let suns: Vec<SunSample> = sun_directions(pt(0, 46341, 46341))
        .into_iter()
        .map(|direction| SunSample { direction, weight: ONE })
        .collect();
    let g = new_cloud_data([5, 4, 3], &suns);
    assert_eq!((g.width, g.height, g.depth, g.cells.len()), (5, 4, 3, 60));
    for v in &g.cells {
        assert!((0..=ONE).contains(&v.light));
        assert!((0..=2 * ONE).contains(&v.noise));
    }
    let p = coord_to_pos([2, 1, 0], [5, 4, 3]);
    assert_eq!(g.get(2, 1, 0).unwrap().distance, sdf(p));
    let n = cloud_gen::new([3, 3, 3], &suns);
    assert_eq!(n.cells.len(), 27);
    for v in &n.cells {
        assert!((0..=ONE).contains(&v.light));
        assert!(v.distance > 0 || v.distance > -ONE);
    }
}

#[test]
fn textures_have_one_texel_per_position() {
    let w = worley_texture_data((8, 4), (5, 5));
    assert_eq!(w.len(), 32);
    assert!(w.iter().all(|v| (0..=2 * ONE).contains(v)));
    let v = value_texture_data((6, 3), (5, 5));
    assert_eq!(v.len(), 18);
    let c = w3noise(3);
    assert_eq!(c.len(), 27);
    assert!(c.iter().all(|v| (0..=2 * ONE).contains(v)));
}
