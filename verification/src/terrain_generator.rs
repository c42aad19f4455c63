use vstd::prelude::*;

use rand::seq::IndexedRandom;

use crate::chunk::{word_bit, Chunk, ChunkCoord};
use crate::constants::{ACTIVE_WORDS, VOXEL_COUNT};
use crate::voxel::Voxel;

verus! {

/// Produces the voxel content of chunks.
pub struct TerrainGenerator {}

/// Whether a voxel is one of the three terrain colours: red (255, 0, 80),
/// green (40, 255, 0) or blue (0, 70, 255).
pub open spec fn terrain_colour(v: Voxel) -> bool {
    ||| v.packed() == Voxel::pack(255, 0, 80)
    ||| v.packed() == Voxel::pack(40, 255, 0)
    ||| v.packed() == Voxel::pack(0, 70, 255)
}

/// Picks one of `options` at random, through `rand`'s thread-local
/// generator (`IndexedRandom::choose` with `rand::rng()`). Claimed: the
/// result is an element of `options`; which one is left to chance.
#[verifier::external_body]
fn choose_random(options: &[Voxel]) -> (v: Voxel)
    requires
        options@.len() > 0,
    ensures
        options@.contains(v),
{
    *options.choose(&mut rand::rng()).unwrap()
}

impl TerrainGenerator {
    pub fn new() -> (g: Self) {
        TerrainGenerator {}
    }

    /// Generates the chunk at `coord`: every voxel is solid and gets a colour
    /// drawn at random from the three terrain colours.
    pub fn generate_chunk(&self, coord: &ChunkCoord) -> (c: Chunk)
        ensures
            c.position == *coord,
            c.is_dirty,
            !c.is_empty,
            forall|i: int| 0 <= i < VOXEL_COUNT ==> #[trigger] c.active(i),
            forall|i: int| 0 <= i < VOXEL_COUNT ==> terrain_colour(#[trigger] c.voxel(i)),
    {
        let red_voxel = Voxel::new(255, 0, 80);
        let green_voxel = Voxel::new(40, 255, 0);
        let blue_voxel = Voxel::new(0, 70, 255);
        let voxel_options = [red_voxel, green_voxel, blue_voxel];

        let mut voxels = [red_voxel; VOXEL_COUNT];
        let mut i: usize = 0;
        while i < VOXEL_COUNT
            invariant
                i <= VOXEL_COUNT,
                voxel_options@ == seq![red_voxel, green_voxel, blue_voxel],
                terrain_colour(red_voxel),
                terrain_colour(green_voxel),
                terrain_colour(blue_voxel),
                forall|j: int| 0 <= j < VOXEL_COUNT ==> terrain_colour(#[trigger] voxels@[j]),
            decreases VOXEL_COUNT - i,
        {
            let v = choose_random(&voxel_options);
            voxels[i] = v;
            i = i + 1;
        }
        let active_voxels = [u64::MAX; ACTIVE_WORDS];
        let chunk = Chunk::create(voxels, active_voxels, *coord);
        proof {
            assert forall|i: int| 0 <= i < VOXEL_COUNT implies #[trigger] chunk.active(i) by {
                let b = (i % 64) as u64;
                assert((u64::MAX >> b) & 1u64 == 1u64) by (bit_vector)
                    requires
                        b < 64,
                ;
                assert(chunk.active_voxels@[i / 64] == u64::MAX);
                assert(word_bit(u64::MAX, i % 64));
            }
            assert(chunk.active(0));
        }
        chunk
    }
}

} // verus!
