//! Spatial data model of a voxel world: a bit-packed voxel codec, a dense
//! voxel grid with its upload layout, Morton (Z-order) coordinate codes, a
//! sparse voxel octree, and the double-buffered update coordinator that
//! sequences the compute passes of each frame.

pub mod coordinator;
pub mod morton;
pub mod octree;
pub mod voxel;
