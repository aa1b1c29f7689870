//! Writes into named GPU buffers, produced by the library and carried out by the
//! renderer.

use vstd::prelude::*;
use crate::mesh::Vertex;

verus! {

/// One indexed indirect draw record, as the GPU reads it.
#[derive(PartialEq, Eq, Structural, Copy, Clone, Debug)]
pub struct DrawIndexedIndirectArgs {
    pub index_count: u32,
    pub instance_count: u32,
    pub first_index: u32,
    pub base_vertex: i32,
    pub first_instance: u32,
}

/// What a write puts into a buffer.
#[derive(Debug)]
pub enum WritePayload {
    Vertices(Vec<Vertex>),
    Indices(Vec<u32>),
    DrawArgs(DrawIndexedIndirectArgs),
    Coordinates([i32; 3]),
}

/// A write of `data` at byte `offset` of the buffer named `buffer_name`.
#[derive(Debug)]
pub struct BufferWriteCommand {
    pub buffer_name: &'static str,
    pub offset: u64,
    pub data: WritePayload,
}

} // verus!
