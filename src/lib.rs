//! Procedural voxel terrain streamed around a moving observer: chunk
//! addressing, voxel-field generation, naive cube meshing, a chunk registry
//! and the load/unload controller.

pub mod coord;
pub mod voxel;
pub mod mesh;
pub mod registry;
pub mod loader;
