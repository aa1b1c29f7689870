//! Voxel chunk meshing with a fixed-size GPU bucket pool.
//!
//! The library turns chunks of typed voxels into merged quads, lays the
//! resulting vertex and index data out in fixed-capacity buckets, evicts the
//! least recently meshed chunks when the pool runs out, and schedules the
//! background work that produces all of it.

pub mod block;
pub mod face;
pub mod mesh;
pub mod chunk;
pub mod chunk_creation;
pub mod chunk_iteration;
pub mod greedy;
pub mod bucket_manager;
pub mod buffer_commands;
pub mod chunk_index_state;
pub mod recency;
pub mod mesh_manager;
pub mod task_scheduler;
pub mod input_state;
pub mod handles;
pub mod timing;
