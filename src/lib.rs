//! A sliding window of procedurally generated voxel terrain chunks around an observer.
pub mod chunk;
pub mod occlusion;
pub mod surface;
