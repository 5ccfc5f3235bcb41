use cloud_volume::grid::{Voxel, VoxelGrid};
use cloud_volume::pack::{grid_channels, pack_words, unpack_words};

#[test]
fn packing_floats_round_trips_exactly() {
    let values: Vec<f32> = vec![0.0, -0.0, 1.0, -1.5, 3.1415927, f32::MAX, f32::MIN_POSITIVE, 1e-30, 123456.79];
    let words: Vec<u32> = values.iter().map(|v| v.to_bits()).collect();
    let bytes = pack_words(&words);
    assert_eq!(bytes.len(), 4 * values.len());
    let back: Vec<f32> = unpack_words(&bytes).into_iter().map(f32::from_bits).collect();
    for (a, b) in values.iter().zip(back.iter()) {
        assert_eq!(a.to_bits(), b.to_bits());
    }
}

#[test]
fn packing_is_little_endian() {
    assert_eq!(pack_words(&vec![0x0403_0201, 0xdead_beef]), vec![1, 2, 3, 4, 0xef, 0xbe, 0xad, 0xde]);
    assert_eq!(pack_words(&vec![1.0f32.to_bits()]), 1.0f32.to_le_bytes().to_vec());
    assert_eq!(unpack_words(&vec![1, 0, 0, 0, 0, 0, 0x80, 0x3f]), vec![1, 1.0f32.to_bits()]);
    assert!(unpack_words(&vec![]).is_empty());
}

#[test]
fn grid_channels_follow_the_grid_order() {
    let mut g = VoxelGrid::new(2, 1, 1, Voxel { distance: 0, light: 0, noise: 0, extra: 0 });
    g.set(1, 0, 0, Voxel { distance: 5, light: 6, noise: 7, extra: 8 });
    assert_eq!(grid_channels(&g), vec![0, 0, 0, 0, 5, 6, 7, 8]);
}
