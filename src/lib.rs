//! Sparse voxel octree: lazy painting of axis-aligned regions, volume-weighted
//! colour averaging and flattening into an index-linked record array.

pub mod geometry;
pub mod material;

pub mod voxel;
pub mod theorems;
pub mod scene_saver;
