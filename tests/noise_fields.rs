use cloud_volume::fbm::{fbm, value_fbm, wfbm, FbmParams, NoiseKind};
use cloud_volume::fixed::{fade, floor_div, isqrt, lerp, smoothstep, Point3, ONE};
use cloud_volume::hash::hash;
use cloud_volume::noise::{
    dnoised, gradient_noise, inverted_worley, noised, value_noise, worley_noise, Period,
};

fn pt(x: i64, y: i64, z: i64) -> Point3 {
    Point3 { x, y, z }
}

const UNTILED: Period = Period { x: 0, y: 0, z: 0 };

#[test]
fn fixed_point_basics() {
    assert_eq!(floor_div(-1, ONE), -1);
    assert_eq!(floor_div(3 * ONE + 5, ONE), 3);
    assert_eq!(isqrt(10), 3);
    assert_eq!(isqrt(0), 0);
    assert_eq!(isqrt(u64::MAX), 0xffff_ffff);
    assert_eq!(lerp(0, ONE, ONE / 2), ONE / 2);
    assert_eq!(lerp(10, 20, 0), 10);
    assert_eq!(lerp(10, 20, ONE), 20);
    assert_eq!(smoothstep(0), 0);
    assert_eq!(smoothstep(ONE), ONE);
    assert_eq!(smoothstep(ONE / 2), ONE / 2);
    assert_eq!(fade(0), 0);
    assert_eq!(fade(ONE), ONE);
    assert_eq!(fade(ONE / 2), ONE / 2);
}

#[test]
fn hash_is_in_unit_range_and_varies() {
    let mut distinct = std::collections::HashSet::new();
    for x in -5..5 {
        for y in -5..5 {
            let h = hash(x, y, 7, 0);
            assert!((0..ONE).contains(&h));
            distinct.insert(h);
        }
    }
    assert!(distinct.len() > 90);
    assert_ne!(hash(1, 2, 3, 0), hash(1, 2, 3, 1));
}

#[test]
fn noise_is_deterministic() {
    let p = pt(123_456, -98_765, 4_321_000);
    assert_eq!(value_noise(p), value_noise(p));
    assert_eq!(gradient_noise(p), gradient_noise(p));
    assert_eq!(worley_noise(p, UNTILED), worley_noise(p, UNTILED));
    assert_eq!(noised(p, UNTILED), noised(p, UNTILED));
}

#[test]
fn value_noise_at_lattice_points_is_the_lattice_hash() {
    for (x, y, z) in [(0, 0, 0), (3, -2, 7), (-10, 4, 1)] {
        let v = value_noise(pt(x * ONE, y * ONE, z * ONE));
        assert_eq!(v, hash(x, y, z, 0));
    }
}

#[test]
fn value_noise_is_continuous_across_cell_boundaries() {
    for base in [5 * ONE, -3 * ONE, 0, 17 * ONE] {
        for (oy, oz) in [(1234, 777), (ONE / 2, 3 * ONE + 5), (-40_000, 12)] {
            let a = value_noise(pt(base - 1, oy, oz));
            let b = value_noise(pt(base, oy, oz));
            assert!((a - b).abs() <= 2, "x step at {base}: {a} vs {b}");
            let a = value_noise(pt(oy, base - 1, oz));
            let b = value_noise(pt(oy, base, oz));
            assert!((a - b).abs() <= 2, "y step at {base}: {a} vs {b}");
            let a = value_noise(pt(oy, oz, base - 1));
            let b = value_noise(pt(oy, oz, base));
            assert!((a - b).abs() <= 2, "z step at {base}: {a} vs {b}");
        }
    }
}

#[test]
fn noise_stays_in_range() {
    let mut s: u64 = 0x1234_5678;
    for _ in 0..2000 {
        s = s.wrapping_mul(6364136223846793005).wrapping_add(1442695040888963407);
        let x = ((s >> 16) as i64 % (200 * ONE)) - 100 * ONE;
        let y = ((s >> 24) as i64 % (200 * ONE)) - 100 * ONE;
        let z = ((s >> 32) as i64 % (200 * ONE)) - 100 * ONE;
        let p = pt(x, y, z);
        let v = value_noise(p);
        assert!((0..ONE).contains(&v));
        let w = inverted_worley(p, UNTILED);
        assert!((0..=ONE).contains(&w));
        let d = worley_noise(p, UNTILED);
        assert!(d >= 0 && d * d < 3 * ONE * ONE);
        let g = gradient_noise(p);
        assert!((-2 * ONE..=2 * ONE).contains(&g));
    }
}

#[test]
fn tiled_noise_repeats_with_its_period() {
    let period = Period { x: 4, y: 5, z: 6 };
    for p in [pt(12_345, 67_890, -3_333), pt(-7 * ONE + 9, ONE / 3, 2 * ONE)] {
        let v = dnoised(p, period);
        assert_eq!(v, dnoised(pt(p.x + 4 * ONE, p.y, p.z), period));
        assert_eq!(v, dnoised(pt(p.x, p.y + 5 * ONE, p.z), period));
        assert_eq!(v, dnoised(pt(p.x, p.y, p.z - 6 * ONE), period));
        let w = worley_noise(p, period);
        assert_eq!(w, worley_noise(pt(p.x + 4 * ONE, p.y + 5 * ONE, p.z + 6 * ONE), period));
    }
}

#[test]
fn noised_gradient_vanishes_at_lattice_points_and_matches_value() {
    let p = pt(2 * ONE, -ONE, 5 * ONE);
    let s = noised(p, UNTILED);
    assert_eq!(s.value, value_noise(p));
    assert_eq!((s.dx, s.dy, s.dz), (0, 0, 0));
    let q = pt(2 * ONE + ONE / 2, -ONE + 100, 5 * ONE + 7);
    assert_eq!(noised(q, UNTILED).value, dnoised(q, UNTILED));
}

#[test]
fn gradient_noise_is_zero_on_the_lattice() {
    for (x, y, z) in [(0, 0, 0), (1, 2, 3), (-4, 9, -1)] {
        assert_eq!(gradient_noise(pt(x * ONE, y * ONE, z * ONE)), 0);
    }
}

#[test]
fn worley_distance_is_the_nearest_feature_point() {
    let p = pt(ONE / 3, 2 * ONE / 3, ONE / 5);
    let d = worley_noise(p, UNTILED);
    // The feature point of the sample's own cell lies in [0.5, 1) on each axis.
    let own = |c: u64| hash(0, 0, 0, c) / 2 + ONE / 2;
    let (dx, dy, dz) = (p.x - own(1), p.y - own(2), p.z - own(3));
    let own_sq = (dx * dx + dy * dy + dz * dz) as u64;
    assert!(d * d <= own_sq as i64);
    assert_eq!(inverted_worley(p, UNTILED), ONE - d.min(ONE));
}

#[test]
fn fractal_sums_stay_in_range() {
    for p in [pt(0, 0, 0), pt(ONE / 7, 3 * ONE, -2 * ONE), pt(40 * ONE, 1, 2)] {
        let v = value_fbm(p, UNTILED);
        assert!((0..=2 * ONE).contains(&v));
        let w = wfbm(p, Period { x: 10, y: 10, z: 10 });
        assert!((0..=2 * ONE).contains(&w));
    }
}

#[test]
fn single_octave_fbm_is_scaled_noise() {
    let p = pt(3 * ONE + 17, ONE / 2, -ONE);
    let params = FbmParams {
        kind: NoiseKind::Value,
        octaves: 1,
        lacunarity: 2,
        start: pt(0, 0, 0),
        step: pt(0, 0, 0),
        scale: ONE,
        bias: 0,
    };
    assert_eq!(fbm(p, UNTILED, params), value_noise(p));
    let empty = FbmParams { octaves: 0, bias: 1000, ..params };
    assert_eq!(fbm(p, UNTILED, empty), 1000);
    let clamped = FbmParams { octaves: 0, bias: -5, ..params };
    assert_eq!(fbm(p, UNTILED, clamped), 0);
}
