//! Procedural cloud volumes in fixed-point arithmetic: lattice hashing,
//! value, gradient and cellular noise, fractal sums, a signed distance field
//! built from blended metaballs, a sun-transmittance bake over a voxel grid,
//! and packing of the result into texture bytes.
pub mod fixed;
pub mod hash;
pub mod noise;
pub mod grid;
pub mod bake;
pub mod pack;
pub mod sdf;
pub mod fbm;
pub mod cloud;
pub mod cloud_gen;
pub mod textures;
