use vstd::prelude::*;

use crate::chunk::ChunkCoord;
use crate::chunkmesher::MeshData;

verus! {

/// A chunk mesh resident in GPU memory: the raw handles of its vertex and
/// index buffers and their memory, the number of indices to draw, and the
/// chunk's grid position.
#[derive(Debug, Clone, Copy)]
pub struct GpuChunk {
    pub vertex_buffer: u64,
    pub vertex_buffer_memory: u64,
    pub index_buffer: u64,
    pub index_buffer_memory: u64,
    pub index_count: u32,
    pub world_pos: (i32, i32, i32),
}

impl GpuChunk {
    /// Records the buffers that hold `meshdata` on the GPU; the index count
    /// is the mesh's index count truncated to 32 bits.
    pub fn new(
        vertex_buffer: u64,
        vertex_buffer_memory: u64,
        index_buffer: u64,
        index_buffer_memory: u64,
        meshdata: &MeshData,
        world_pos: ChunkCoord,
    ) -> (g: Self)
        ensures
            g.vertex_buffer == vertex_buffer,
            g.vertex_buffer_memory == vertex_buffer_memory,
            g.index_buffer == index_buffer,
            g.index_buffer_memory == index_buffer_memory,
            g.index_count == meshdata.indices@.len() as u32,
            g.world_pos == world_pos,
    {
        let index_count = meshdata.indices.len() as u32;
        GpuChunk {
            vertex_buffer,
            vertex_buffer_memory,
            index_buffer,
            index_buffer_memory,
            index_count,
            world_pos,
        }
    }
}

} // verus!
