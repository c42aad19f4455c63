use vstd::prelude::*;

verus! {

/// Initial window width in logical pixels.
pub const WINDOW_WIDTH: u32 = 1920;

/// Initial window height in logical pixels.
pub const WINDOW_HEIGHT: u32 = 1080;

/// Number of frames the renderer may have in flight at once.
pub const MAX_FRAMES_IN_FLIGHT: usize = 2;

/// Edge length of a cubic chunk, in voxels.
pub const CHUNK_SIZE: usize = 16;

/// Number of voxels in one chunk.
pub const VOXEL_COUNT: usize = 4096;

/// Number of 64-bit words in a chunk's occupancy bitmap.
pub const ACTIVE_WORDS: usize = 64;

/// Radius, in chunks, within which chunks are uploaded for rendering.
pub const RENDER_DISTANCE: usize = 3;

} // verus!
