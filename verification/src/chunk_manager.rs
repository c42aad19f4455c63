use vstd::prelude::*;

use std::collections::HashMap;
use vstd::std_specs::iter::IteratorSpec;

use crate::chunk::{Chunk, ChunkCoord};
use crate::chunk_rendering::GpuChunk;
use crate::chunkmesher::{greedy_quads, renders, MeshData};
use crate::constants::{RENDER_DISTANCE, VOXEL_COUNT};
use crate::terrain_generator::{terrain_colour, TerrainGenerator};

verus! {

broadcast use vstd::std_specs::hash::group_hash_axioms;

/// Lifecycle of a chunk.
pub enum ChunkState {
    /// Not generated yet.
    Unloaded,
    /// Terrain data generated, not meshed yet.
    Generated(Chunk),
    /// A chunk with no solid voxel; never meshed or uploaded.
    Empty(Chunk),
    /// Mesh computed, waiting for upload to the GPU.
    Meshed(Chunk, MeshData),
    /// Mesh resident on the GPU, ready to render.
    Resident(Chunk, GpuChunk),
}

/// The chunks known to the engine, each with its lifecycle state, keyed by
/// grid coordinate. The hash map is keyed by the coordinate packed into one
/// integer (see `coord_key`); each entry also keeps its coordinate.
pub struct ChunkManager {
    chunks: HashMap<u128, (ChunkCoord, ChunkState)>,
}

/// The map key of a chunk coordinate: each coordinate, shifted to be
/// non-negative, fills its own 32 bits.
pub open spec fn coord_key(c: ChunkCoord) -> u128 {
    ((c.0 + 0x8000_0000) * 0x1_0000_0000_0000_0000 + (c.1 + 0x8000_0000) * 0x1_0000_0000 + (c.2
        + 0x8000_0000)) as u128
}

/// Packs a chunk coordinate into its map key.
fn pack_coord(c: ChunkCoord) -> (k: u128)
    ensures
        k == coord_key(c),
{
    let x = (c.0 as i64 + 0x8000_0000) as u128;
    let y = (c.1 as i64 + 0x8000_0000) as u128;
    let z = (c.2 as i64 + 0x8000_0000) as u128;
    x * 0x1_0000_0000_0000_0000 + y * 0x1_0000_0000 + z
}

/// Distinct coordinates have distinct keys.
proof fn lemma_coord_key_injective(a: ChunkCoord, b: ChunkCoord)
    requires
        coord_key(a) == coord_key(b),
    ensures
        a == b,
{
    let xa = a.0 + 0x8000_0000;
    let ya = a.1 + 0x8000_0000;
    let za = a.2 + 0x8000_0000;
    let xb = b.0 + 0x8000_0000;
    let yb = b.1 + 0x8000_0000;
    let zb = b.2 + 0x8000_0000;
    assert(coord_key(a) == xa * 0x1_0000_0000_0000_0000 + ya * 0x1_0000_0000 + za);
    assert(coord_key(b) == xb * 0x1_0000_0000_0000_0000 + yb * 0x1_0000_0000 + zb);
    assert(xa == xb && ya == yb && za == zb) by (nonlinear_arith)
        requires
            0 <= xa < 0x1_0000_0000,
            0 <= ya < 0x1_0000_0000,
            0 <= za < 0x1_0000_0000,
            0 <= xb < 0x1_0000_0000,
            0 <= yb < 0x1_0000_0000,
            0 <= zb < 0x1_0000_0000,
            xa * 0x1_0000_0000_0000_0000 + ya * 0x1_0000_0000 + za == xb * 0x1_0000_0000_0000_0000
                + yb * 0x1_0000_0000 + zb,
    ;
}

/// The neighbour of `c` in slot `k` of `[+X, -X, +Y, -Y, +Z, -Z]`.
pub open spec fn neighbor_coord(c: ChunkCoord, k: int) -> ChunkCoord {
    if k == 0 {
        ((c.0 + 1) as i32, c.1, c.2)
    } else if k == 1 {
        ((c.0 - 1) as i32, c.1, c.2)
    } else if k == 2 {
        (c.0, (c.1 + 1) as i32, c.2)
    } else if k == 3 {
        (c.0, (c.1 - 1) as i32, c.2)
    } else if k == 4 {
        (c.0, c.1, (c.2 + 1) as i32)
    } else {
        (c.0, c.1, (c.2 - 1) as i32)
    }
}

/// Whether the chunk at `coord` is within `render_distance` chunks of the
/// player's chunk on every axis: the cube of side `2 * render_distance + 1`
/// centred on the player (distance measured as the largest of the three
/// coordinate differences).
pub open spec fn in_render_distance(coord: ChunkCoord, player_coord: ChunkCoord, render_distance: usize) -> bool {
    &&& coord.0 - player_coord.0 <= render_distance
    &&& player_coord.0 - coord.0 <= render_distance
    &&& coord.1 - player_coord.1 <= render_distance
    &&& player_coord.1 - coord.1 <= render_distance
    &&& coord.2 - player_coord.2 <= render_distance
    &&& player_coord.2 - coord.2 <= render_distance
}

/// Whether `c` is a chunk that the terrain generator may produce at `coord`.
pub open spec fn generated_at(c: Chunk, coord: ChunkCoord) -> bool {
    &&& c.position == coord
    &&& c.is_dirty
    &&& !c.is_empty
    &&& forall|i: int| 0 <= i < VOXEL_COUNT ==> #[trigger] c.active(i)
    &&& forall|i: int| 0 <= i < VOXEL_COUNT ==> terrain_colour(#[trigger] c.voxel(i))
}

/// No neighbour chunk loaded on any side.
pub open spec fn no_neighbors() -> Seq<Option<&'static Chunk>> {
    seq![None, None, None, None, None, None]
}

/// `after` holds chunk `c` together with its mesh, computed with no
/// neighbour loaded.
pub open spec fn meshed_alone(c: Chunk, after: ChunkState) -> bool {
    match after {
        ChunkState::Meshed(c2, m) => c2 == c && exists|qs|
            greedy_quads(c, no_neighbors(), qs) && renders(m.vertices@, m.indices@, qs),
        _ => false,
    }
}

/// One step of a chunk's lifecycle during `update`, apart from the GPU
/// upload: unloaded chunks get generated (kept apart when empty), generated
/// chunks get meshed with no neighbours loaded, resident chunks outside the
/// render distance go back to meshed (their GPU buffers are handed back to
/// be freed), other states stay.
pub open spec fn update_step(
    before: ChunkState,
    after: ChunkState,
    coord: ChunkCoord,
    player_coord: ChunkCoord,
) -> bool {
    match before {
        ChunkState::Unloaded => match after {
            ChunkState::Generated(c) => generated_at(c, coord) && c.has_active(),
            ChunkState::Empty(c) => generated_at(c, coord) && !c.has_active(),
            _ => false,
        },
        ChunkState::Generated(c) => meshed_alone(c, after),
        ChunkState::Resident(c, _) => if in_render_distance(coord, player_coord, RENDER_DISTANCE) {
            after == before
        } else {
            meshed_alone(c, after)
        },
        _ => after == before,
    }
}

/// `before` is a resident chunk that the player has left behind.
pub open spec fn leaves_gpu(before: ChunkState, coord: ChunkCoord, player_coord: ChunkCoord) -> bool {
    before is Resident && !in_render_distance(coord, player_coord, RENDER_DISTANCE)
}

/// `before` is a meshed chunk near enough to the player to be uploaded.
pub open spec fn due_for_upload(before: ChunkState, coord: ChunkCoord, player_coord: ChunkCoord) -> bool {
    before is Meshed && in_render_distance(coord, player_coord, RENDER_DISTANCE)
}

/// What an `update` leaves for the renderer to do on the GPU.
pub struct UpdateActions {
    /// Meshed chunks within render distance, due for upload (see
    /// `ChunkManager::make_resident`).
    pub uploads: Vec<ChunkCoord>,
    /// Chunks that left the render distance, each with the GPU buffers to
    /// free; their state is meshed again.
    pub evictions: Vec<(ChunkCoord, GpuChunk)>,
}

/// Whether `coord` is neighbor-safe: each coordinate can move by one.
pub open spec fn coord_inner(coord: ChunkCoord) -> bool {
    &&& i32::MIN < coord.0 < i32::MAX
    &&& i32::MIN < coord.1 < i32::MAX
    &&& i32::MIN < coord.2 < i32::MAX
}

impl View for ChunkManager {
    type V = Map<ChunkCoord, ChunkState>;

    closed spec fn view(&self) -> Map<ChunkCoord, ChunkState> {
        Map::new(
            |c: ChunkCoord| self.chunks@.contains_key(coord_key(c)),
            |c: ChunkCoord| self.chunks@[coord_key(c)].1,
        )
    }
}

impl ChunkManager {
    /// Internal consistency: every entry sits under the key of its own
    /// coordinate.
    pub closed spec fn wf(&self) -> bool {
        forall|k: u128| #[trigger] self.chunks@.contains_key(k) ==> coord_key(self.chunks@[k].0) == k
    }

    /// The entry under key `k` is the chunk at its coordinate.
    proof fn lemma_view_at(&self, k: u128)
        requires
            self.wf(),
            self.chunks@.contains_key(k),
        ensures
            self@.contains_key(self.chunks@[k].0),
            self@[self.chunks@[k].0] == self.chunks@[k].1,
    {
    }

    /// An empty manager.
    pub fn new() -> (m: Self)
        ensures
            m.wf(),
            m@ == Map::<ChunkCoord, ChunkState>::empty(),
    {
        let m = ChunkManager { chunks: HashMap::new() };
        assert(m@ =~= Map::<ChunkCoord, ChunkState>::empty());
        m
    }

    /// The state of the chunk at `chunk_coord`, if it is known.
    pub fn get_chunk(&self, chunk_coord: ChunkCoord) -> (r: Option<&ChunkState>)
        requires
            self.wf(),
        ensures
            match r {
                Some(s) => self@.contains_key(chunk_coord) && *s == self@[chunk_coord],
                None => !self@.contains_key(chunk_coord),
            },
    {
        let key = pack_coord(chunk_coord);
        match self.chunks.get(&key) {
            Some(entry) => Some(&entry.1),
            None => None,
        }
    }

    /// The states of the six neighbouring chunks in the order the mesher
    /// expects, `[+X, -X, +Y, -Y, +Z, -Z]`; `None` where a chunk is not known.
    pub fn neighbors(&self, chunk_coord: &ChunkCoord) -> (r: [Option<&ChunkState>; 6])
        requires
            self.wf(),
            coord_inner(*chunk_coord),
        ensures
            forall|k: int|
                0 <= k < 6 ==> match #[trigger] r@[k] {
                    Some(s) => self@.contains_key(neighbor_coord(*chunk_coord, k)) && *s
                        == self@[neighbor_coord(*chunk_coord, k)],
                    None => !self@.contains_key(neighbor_coord(*chunk_coord, k)),
                },
    {
        let mut neighbors: [Option<&ChunkState>; 6] = [None; 6];

        let pos_x_neighbor = (chunk_coord.0 + 1, chunk_coord.1, chunk_coord.2);
        neighbors[0] = self.get_chunk(pos_x_neighbor);
        let neg_x_neighbor = (chunk_coord.0 - 1, chunk_coord.1, chunk_coord.2);
        neighbors[1] = self.get_chunk(neg_x_neighbor);

        let pos_y_neighbor = (chunk_coord.0, chunk_coord.1 + 1, chunk_coord.2);
        neighbors[2] = self.get_chunk(pos_y_neighbor);
        let neg_y_neighbor = (chunk_coord.0, chunk_coord.1 - 1, chunk_coord.2);
        neighbors[3] = self.get_chunk(neg_y_neighbor);

        let pos_z_neighbor = (chunk_coord.0, chunk_coord.1, chunk_coord.2 + 1);
        neighbors[4] = self.get_chunk(pos_z_neighbor);
        let neg_z_neighbor = (chunk_coord.0, chunk_coord.1, chunk_coord.2 - 1);
        neighbors[5] = self.get_chunk(neg_z_neighbor);

        neighbors
    }

    /// After storing `entry` under the key of its own coordinate, the view
    /// maps that coordinate to the entry's state and is otherwise unchanged.
    proof fn lemma_insert_entry(
        before: Map<u128, (ChunkCoord, ChunkState)>,
        after: Map<u128, (ChunkCoord, ChunkState)>,
        entry: (ChunkCoord, ChunkState),
    )
        requires
            forall|k: u128| #[trigger] before.contains_key(k) ==> coord_key(before[k].0) == k,
            after == before.insert(coord_key(entry.0), entry),
        ensures
            forall|k: u128| #[trigger] after.contains_key(k) ==> coord_key(after[k].0) == k,
            Map::new(
                |c: ChunkCoord| after.contains_key(coord_key(c)),
                |c: ChunkCoord| after[coord_key(c)].1,
            ) == Map::new(
                |c: ChunkCoord| before.contains_key(coord_key(c)),
                |c: ChunkCoord| before[coord_key(c)].1,
            ).insert(entry.0, entry.1),
    {
        let m1 = Map::new(
            |c: ChunkCoord| after.contains_key(coord_key(c)),
            |c: ChunkCoord| after[coord_key(c)].1,
        );
        let m0 = Map::new(
            |c: ChunkCoord| before.contains_key(coord_key(c)),
            |c: ChunkCoord| before[coord_key(c)].1,
        );
        assert forall|c: ChunkCoord| #![auto] m1.contains_key(c) <==> m0.insert(entry.0, entry.1).contains_key(c) by {
            if coord_key(c) == coord_key(entry.0) {
                lemma_coord_key_injective(c, entry.0);
            }
        }
        assert forall|c: ChunkCoord| #![auto] m1.contains_key(c) implies m1[c] == m0.insert(entry.0, entry.1)[c] by {
            if coord_key(c) == coord_key(entry.0) {
                lemma_coord_key_injective(c, entry.0);
            }
        }
        assert(m1 =~= m0.insert(entry.0, entry.1));
    }

    /// Registers the chunk at `chunk_coord` as unloaded, replacing any state
    /// it had.
    pub fn queue_chunk(&mut self, chunk_coord: ChunkCoord)
        requires
            old(self).wf(),
        ensures
            final(self).wf(),
            final(self)@ == old(self)@.insert(chunk_coord, ChunkState::Unloaded),
    {
        let key = pack_coord(chunk_coord);
        self.chunks.insert(key, (chunk_coord, ChunkState::Unloaded));
        proof {
            Self::lemma_insert_entry(old(self).chunks@, self.chunks@, (chunk_coord, ChunkState::Unloaded));
        }
    }
}

/// One chunk's step of `update`: its next state, whether it is due for
/// upload, and the GPU buffers to free when it leaves the GPU.
fn advance(
    state: ChunkState,
    coord: ChunkCoord,
    player_coord: ChunkCoord,
    terrain_generator: &TerrainGenerator,
) -> (r: (ChunkState, bool, Option<GpuChunk>))
    ensures
        update_step(state, r.0, coord, player_coord),
        r.1 == due_for_upload(state, coord, player_coord),
        match r.2 {
            Some(g) => leaves_gpu(state, coord, player_coord) && state->Resident_1 == g,
            None => !leaves_gpu(state, coord, player_coord),
        },
{
    match state {
        ChunkState::Unloaded => {
            let chunk = terrain_generator.generate_chunk(&coord);
            if chunk.is_empty() {
                (ChunkState::Empty(chunk), false, None)
            } else {
                (ChunkState::Generated(chunk), false, None)
            }
        },
        ChunkState::Empty(chunk) => (ChunkState::Empty(chunk), false, None),
        ChunkState::Generated(chunk) => {
            let no_nbrs: [Option<&Chunk>; 6] = [None, None, None, None, None, None];
            let mesh_data = chunk.mesh(no_nbrs);
            proof {
                assert(no_nbrs@ =~= no_neighbors());
            }
            (ChunkState::Meshed(chunk, mesh_data), false, None)
        },
        ChunkState::Meshed(chunk, mesh_data) => {
            let due = within_render_distance(coord, player_coord, RENDER_DISTANCE);
            (ChunkState::Meshed(chunk, mesh_data), due, None)
        },
        ChunkState::Resident(chunk, gpu_chunk) => {
            if within_render_distance(coord, player_coord, RENDER_DISTANCE) {
                (ChunkState::Resident(chunk, gpu_chunk), false, None)
            } else {
                let no_nbrs: [Option<&Chunk>; 6] = [None, None, None, None, None, None];
                let mesh_data = chunk.mesh(no_nbrs);
                proof {
                    assert(no_nbrs@ =~= no_neighbors());
                }
                (ChunkState::Meshed(chunk, mesh_data), false, Some(gpu_chunk))
            }
        },
    }
}

impl ChunkManager {
    /// The keys of the map, each once, in the map's own order.
    fn keys(&self) -> (ks: Vec<u128>)
        ensures
            ks@.no_duplicates(),
            forall|k: u128| ks@.contains(k) <==> self.chunks@.contains_key(k),
    {
        let ghost g = vstd::std_specs::hash::spec_keys_iter(&self.chunks).remaining();
        let mut ks: Vec<u128> = Vec::new();
        for k in it: self.chunks.keys()
            invariant
                it.seq() == g,
                ks@ == g.take(it.index() as int).map_values(|r: &u128| *r),
        {
            ks.push(*k);
            assert(g.take(it.index() + 1).map_values(|r: &u128| *r) =~= g.take(
                it.index() as int,
            ).map_values(|r: &u128| *r).push(*k));
        }
        assert(ks@ =~= g.unref());
        assert forall|k: u128| ks@.contains(k) <==> self.chunks@.contains_key(k) by {
            assert(g.unref().to_set().contains(k) <==> g.unref().contains(k));
        }
        ks
    }

    /// Advances every chunk by one step of its lifecycle: unloaded chunks
    /// are generated (and kept apart as `Empty` when no voxel is solid),
    /// generated chunks are meshed with no neighbours loaded, resident
    /// chunks outside the render distance go back to meshed. Returns the
    /// meshed chunks within render distance, which are due for upload to the
    /// GPU (see `make_resident`), and the chunks that left the GPU with the
    /// buffers to free; both in the map's own order.
    pub fn update(&mut self, player_coord: ChunkCoord, terrain_generator: &TerrainGenerator) -> (actions:
        UpdateActions)
        requires
            old(self).wf(),
        ensures
            final(self).wf(),
            final(self)@.dom() == old(self)@.dom(),
            forall|k: ChunkCoord|
                #[trigger] old(self)@.contains_key(k) ==> update_step(
                    old(self)@[k],
                    final(self)@[k],
                    k,
                    player_coord,
                ),
            actions.uploads@.no_duplicates(),
            forall|k: ChunkCoord|
                #[trigger] actions.uploads@.contains(k) <==> (old(self)@.contains_key(k)
                    && due_for_upload(old(self)@[k], k, player_coord)),
            forall|m: int|
                0 <= m < actions.evictions@.len() ==> {
                    &&& old(self)@.contains_key((#[trigger] actions.evictions@[m]).0)
                    &&& leaves_gpu(old(self)@[actions.evictions@[m].0], actions.evictions@[m].0, player_coord)
                    &&& old(self)@[actions.evictions@[m].0]->Resident_1 == actions.evictions@[m].1
                },
            forall|m1: int, m2: int|
                0 <= m1 < m2 < actions.evictions@.len() ==> (#[trigger] actions.evictions@[m1]).0
                    != (#[trigger] actions.evictions@[m2]).0,
            forall|k: ChunkCoord|
                #[trigger] old(self)@.contains_key(k) && leaves_gpu(old(self)@[k], k, player_coord)
                    ==> exists|m: int|
                    0 <= m < actions.evictions@.len() && (#[trigger] actions.evictions@[m]).0 == k,
    {
        let ghost m0 = self.chunks@;
        let ks = self.keys();
        let mut uploads: Vec<ChunkCoord> = Vec::new();
        let mut evictions: Vec<(ChunkCoord, GpuChunk)> = Vec::new();
        let ghost mut ev_idx: Seq<int> = Seq::empty();
        let mut i: usize = 0;
        while i < ks.len()
            invariant
                self.wf(),
                m0 == old(self).chunks@,
                self.chunks@.dom() == m0.dom(),
                ks@.no_duplicates(),
                forall|k: u128| ks@.contains(k) <==> m0.contains_key(k),
                i <= ks@.len(),
                forall|j: int|
                    0 <= j < i ==> self.chunks@[#[trigger] ks@[j]].0 == m0[ks@[j]].0 && update_step(
                        m0[ks@[j]].1,
                        self.chunks@[ks@[j]].1,
                        m0[ks@[j]].0,
                        player_coord,
                    ),
                forall|j: int| i <= j < ks@.len() ==> self.chunks@[#[trigger] ks@[j]] == m0[ks@[j]],
                uploads@.no_duplicates(),
                forall|c: ChunkCoord|
                    #[trigger] uploads@.contains(c) <==> exists|j: int|
                        0 <= j < i && m0[#[trigger] ks@[j]].0 == c && due_for_upload(
                            m0[ks@[j]].1,
                            c,
                            player_coord,
                        ),
                ev_idx.len() == evictions@.len(),
                forall|m: int|
                    0 <= m < ev_idx.len() ==> {
                        &&& 0 <= #[trigger] ev_idx[m] < i
                        &&& m0[ks@[ev_idx[m]]].0 == evictions@[m].0
                        &&& leaves_gpu(m0[ks@[ev_idx[m]]].1, evictions@[m].0, player_coord)
                        &&& m0[ks@[ev_idx[m]]].1->Resident_1 == evictions@[m].1
                    },
                forall|m1: int, m2: int|
                    0 <= m1 < m2 < ev_idx.len() ==> #[trigger] ev_idx[m1] < #[trigger] ev_idx[m2],
                forall|j: int|
                    0 <= j < i && leaves_gpu(m0[#[trigger] ks@[j]].1, m0[ks@[j]].0, player_coord)
                        ==> exists|m: int| 0 <= m < ev_idx.len() && ev_idx[m] == j,
            decreases ks@.len() - i,
        {
            let ghost old_up = uploads@;
            let ghost prev = self.chunks@;
            let key = ks[i];
            proof {
                assert(ks@.contains(key));
                assert(self.chunks@[ks@[i as int]] == m0[ks@[i as int]]);
            }
            let (coord, state) = self.chunks.remove(&key).unwrap();
            assert(coord == m0[key].0 && state == m0[key].1);
            assert(coord_key(coord) == key);
            let (new_state, due, evicted) = advance(state, coord, player_coord, terrain_generator);
            self.chunks.insert(key, (coord, new_state));
            proof {
                assert(self.chunks@ =~= prev.insert(key, (coord, new_state)));
                assert forall|j: int| 0 <= j < ks@.len() && j != i implies self.chunks@[#[trigger] ks@[j]]
                    == prev[ks@[j]] by {
                    assert(ks@[j] != ks@[i as int]);
                }
                assert(self.chunks@.dom() =~= m0.dom());
            }
            if due {
                proof {
                    assert(!uploads@.contains(coord)) by {
                        if uploads@.contains(coord) {
                            let j = choose|j: int|
                                0 <= j < i && m0[#[trigger] ks@[j]].0 == coord && due_for_upload(
                                    m0[ks@[j]].1,
                                    coord,
                                    player_coord,
                                );
                            assert(m0.contains_key(ks@[j]));
                            assert(ks@[j] == key);
                        }
                    }
                }
                uploads.push(coord);
            }
            proof {
                let prev_up = old_up;
                assert(due ==> uploads@ == prev_up.push(coord));
                assert(!due ==> uploads@ == prev_up);
                assert forall|c: ChunkCoord| #[trigger] uploads@.contains(c) <==> exists|j: int|
                    0 <= j < i + 1 && m0[#[trigger] ks@[j]].0 == c && due_for_upload(
                        m0[ks@[j]].1,
                        c,
                        player_coord,
                    ) by {
                    if uploads@.contains(c) {
                        if due && c == coord {
                            assert(m0[ks@[i as int]].0 == c && due_for_upload(
                                m0[ks@[i as int]].1,
                                c,
                                player_coord,
                            ));
                        } else {
                            if due {
                                let m = choose|m: int| 0 <= m < uploads@.len() && uploads@[m] == c;
                                assert(m < prev_up.len());
                                assert(prev_up[m] == c);
                            }
                            assert(prev_up.contains(c));
                            let j = choose|j: int|
                                0 <= j < i && m0[#[trigger] ks@[j]].0 == c && due_for_upload(
                                    m0[ks@[j]].1,
                                    c,
                                    player_coord,
                                );
                            assert(0 <= j < i + 1 && m0[ks@[j]].0 == c && due_for_upload(
                                m0[ks@[j]].1,
                                c,
                                player_coord,
                            ));
                        }
                    }
                    if exists|j: int|
                        0 <= j < i + 1 && m0[#[trigger] ks@[j]].0 == c && due_for_upload(
                            m0[ks@[j]].1,
                            c,
                            player_coord,
                        ) {
                        let j = choose|j: int|
                            0 <= j < i + 1 && m0[#[trigger] ks@[j]].0 == c && due_for_upload(
                                m0[ks@[j]].1,
                                c,
                                player_coord,
                            );
                        if j == i {
                            assert(due);
                            assert(uploads@[uploads@.len() - 1] == coord);
                        } else {
                            assert(prev_up.contains(c));
                            let m = choose|m: int| 0 <= m < prev_up.len() && prev_up[m] == c;
                            assert(uploads@[m] == c);
                        }
                    }
                }
            }
            match evicted {
                Some(gpu_chunk) => {
                    let ghost prev_idx = ev_idx;
                    evictions.push((coord, gpu_chunk));
                    proof {
                        ev_idx = ev_idx.push(i as int);
                        assert forall|j: int|
                            0 <= j < i + 1 && leaves_gpu(m0[#[trigger] ks@[j]].1, m0[ks@[j]].0, player_coord)
                                implies exists|m: int| 0 <= m < ev_idx.len() && ev_idx[m] == j by {
                            if j == i {
                                assert(ev_idx[prev_idx.len() as int] == j);
                            } else {
                                let m = choose|m: int| 0 <= m < prev_idx.len() && prev_idx[m] == j;
                                assert(ev_idx[m] == j);
                            }
                        }
                    }
                },
                None => {
                    proof {
                        assert forall|j: int|
                            0 <= j < i + 1 && leaves_gpu(m0[#[trigger] ks@[j]].1, m0[ks@[j]].0, player_coord)
                                implies exists|m: int| 0 <= m < ev_idx.len() && ev_idx[m] == j by {
                            if j == i {
                                assert(false);
                            }
                        }
                    }
                },
            }
            i = i + 1;
        }
        proof {
            assert(self@.dom() =~= old(self)@.dom());
            assert forall|k: ChunkCoord| #[trigger] old(self)@.contains_key(k) implies update_step(
                old(self)@[k],
                self@[k],
                k,
                player_coord,
            ) by {
                let key = coord_key(k);
                assert(ks@.contains(key));
                let j = choose|j: int| 0 <= j < ks@.len() && ks@[j] == key;
                lemma_coord_key_injective(m0[key].0, k);
            }
            assert forall|c: ChunkCoord| #[trigger] uploads@.contains(c) <==> (old(self)@.contains_key(c)
                && due_for_upload(old(self)@[c], c, player_coord)) by {
                if old(self)@.contains_key(c) && due_for_upload(old(self)@[c], c, player_coord) {
                    let key = coord_key(c);
                    assert(ks@.contains(key));
                    let j = choose|j: int| 0 <= j < ks@.len() && ks@[j] == key;
                    lemma_coord_key_injective(m0[key].0, c);
                    assert(m0[ks@[j]].0 == c);
                }
                if uploads@.contains(c) {
                    let j = choose|j: int|
                        0 <= j < ks@.len() && m0[#[trigger] ks@[j]].0 == c && due_for_upload(
                            m0[ks@[j]].1,
                            c,
                            player_coord,
                        );
                    assert(m0.contains_key(ks@[j]));
                    old(self).lemma_view_at(ks@[j]);
                }
            }
            assert forall|m: int| 0 <= m < evictions@.len() implies {
                &&& old(self)@.contains_key((#[trigger] evictions@[m]).0)
                &&& leaves_gpu(old(self)@[evictions@[m].0], evictions@[m].0, player_coord)
                &&& old(self)@[evictions@[m].0]->Resident_1 == evictions@[m].1
            } by {
                assert(m0.contains_key(ks@[ev_idx[m]]));
                old(self).lemma_view_at(ks@[ev_idx[m]]);
            }
            assert forall|m1: int, m2: int|
                0 <= m1 < m2 < evictions@.len() implies (#[trigger] evictions@[m1]).0
                    != (#[trigger] evictions@[m2]).0 by {
                let j1 = ev_idx[m1];
                let j2 = ev_idx[m2];
                assert(j1 < j2);
                assert(ks@[j1] != ks@[j2]);
                assert(m0.contains_key(ks@[j1]) && m0.contains_key(ks@[j2]));
            }
            assert forall|k: ChunkCoord|
                #[trigger] old(self)@.contains_key(k) && leaves_gpu(old(self)@[k], k, player_coord)
                    implies exists|m: int|
                    0 <= m < evictions@.len() && (#[trigger] evictions@[m]).0 == k by {
                let key = coord_key(k);
                assert(ks@.contains(key));
                let j = choose|j: int| 0 <= j < ks@.len() && ks@[j] == key;
                lemma_coord_key_injective(m0[key].0, k);
                assert(leaves_gpu(m0[ks@[j]].1, m0[ks@[j]].0, player_coord));
                let m = choose|m: int| 0 <= m < ev_idx.len() && ev_idx[m] == j;
                assert(evictions@[m].0 == k);
            }
        }
        UpdateActions { uploads, evictions }
    }

    /// Records that the meshed chunk at `chunk_coord` has been uploaded as
    /// `gpu_chunk`: it becomes resident and its CPU-side mesh is dropped.
    pub fn make_resident(&mut self, chunk_coord: ChunkCoord, gpu_chunk: GpuChunk)
        requires
            old(self).wf(),
            old(self)@.contains_key(chunk_coord),
            old(self)@[chunk_coord] is Meshed,
        ensures
            final(self).wf(),
            final(self)@ == old(self)@.insert(
                chunk_coord,
                ChunkState::Resident(old(self)@[chunk_coord]->Meshed_0, gpu_chunk),
            ),
    {
        let key = pack_coord(chunk_coord);
        let (coord, state) = self.chunks.remove(&key).unwrap();
        proof {
            let e = old(self).chunks@[key];
            lemma_coord_key_injective(e.0, chunk_coord);
        }
        let new_state = match state {
            ChunkState::Meshed(chunk, _mesh_data) => ChunkState::Resident(chunk, gpu_chunk),
            other => other,
        };
        self.chunks.insert(key, (coord, new_state));
        proof {
            assert(self.chunks@ =~= old(self).chunks@.insert(key, (coord, new_state)));
            Self::lemma_insert_entry(old(self).chunks@, self.chunks@, (coord, new_state));
        }
    }

    /// The GPU chunks of all resident chunks, each once, in the map's own
    /// order.
    pub fn visible_chunks(&self) -> (r: Vec<GpuChunk>)
        requires
            self.wf(),
        ensures
            exists|ks: Seq<ChunkCoord>|
                {
                    &&& ks.no_duplicates()
                    &&& ks.len() == r@.len()
                    &&& forall|k: ChunkCoord|
                        #[trigger] ks.contains(k) <==> (self@.contains_key(k) && self@[k] is Resident)
                    &&& forall|i: int|
                        0 <= i < ks.len() ==> (self@[#[trigger] ks[i]] matches ChunkState::Resident(
                            _,
                            g,
                        ) && g == r@[i])
                },
    {
        let ghost g = vstd::std_specs::hash::spec_hash_map_iter(&self.chunks).remaining();
        let ghost m = self.chunks@;
        let mut r: Vec<GpuChunk> = Vec::new();
        let ghost mut ks: Seq<ChunkCoord> = Seq::empty();
        for kv in it: self.chunks.iter()
            invariant
                self.wf(),
                m == self.chunks@,
                it.seq() == g,
                g.no_duplicates(),
                ks.no_duplicates(),
                ks.len() == r@.len(),
                forall|c: ChunkCoord|
                    #[trigger] ks.contains(c) <==> exists|j: int|
                        0 <= j < it.index() && (*g[j].1).0 == c && (*g[j].1).1 is Resident,
                forall|n: int|
                    0 <= n < ks.len() ==> (self@[#[trigger] ks[n]] matches ChunkState::Resident(_, gg)
                        && gg == r@[n]),
        {
            let (_key, entry) = kv;
            match &entry.1 {
                ChunkState::Resident(_, gpu_chunk) => {
                    let c: ChunkCoord = entry.0;
                    proof {
                        let i = it.index();
                        let key = *g[i].0;
                        assert(m.contains_key(key) && m[key] == *g[i].1);
                        self.lemma_view_at(key);
                        assert(c == (*g[i].1).0);
                        assert(!ks.contains(c)) by {
                            if ks.contains(c) {
                                let j = choose|j: int|
                                    0 <= j < i && (*g[j].1).0 == c && (*g[j].1).1 is Resident;
                                assert(m.contains_key(*g[j].0) && m[*g[j].0] == *g[j].1);
                                assert(*g[j].0 == key);
                                assert(g[j] == g[i]);
                            }
                        }
                        let ks2 = ks.push(c);
                        assert(ks2[ks.len() as int] == c);
                        assert forall|cc: ChunkCoord| #[trigger] ks2.contains(cc) <==> exists|j: int|
                            0 <= j < i + 1 && (*g[j].1).0 == cc && (*g[j].1).1 is Resident by {
                            if ks2.contains(cc) {
                                if cc == c {
                                    assert((*g[i].1).0 == cc);
                                } else {
                                    let n = choose|n: int| 0 <= n < ks2.len() && ks2[n] == cc;
                                    assert(n < ks.len());
                                    assert(ks[n] == cc);
                                    assert(ks.contains(cc));
                                }
                            }
                            if exists|j: int|
                                0 <= j < i + 1 && (*g[j].1).0 == cc && (*g[j].1).1 is Resident {
                                let j = choose|j: int|
                                    0 <= j < i + 1 && (*g[j].1).0 == cc && (*g[j].1).1 is Resident;
                                if j == i {
                                    assert(ks2.contains(cc));
                                } else {
                                    assert(ks.contains(cc));
                                    let n = choose|n: int| 0 <= n < ks.len() && ks[n] == cc;
                                    assert(ks2[n] == cc);
                                }
                            }
                        }
                        ks = ks2;
                    }
                    r.push(*gpu_chunk);
                },
                _ => {},
            }
        }
        proof {
            assert forall|c: ChunkCoord| #[trigger] ks.contains(c) <==> (self@.contains_key(c)
                && self@[c] is Resident) by {
                if self@.contains_key(c) && self@[c] is Resident {
                    let key = coord_key(c);
                    assert(g.contains((&key, &m[key])));
                    let j = choose|j: int| 0 <= j < g.len() && g[j] == (&key, &m[key]);
                    lemma_coord_key_injective(m[key].0, c);
                    assert((*g[j].1).0 == c && (*g[j].1).1 is Resident);
                }
                if ks.contains(c) {
                    let j = choose|j: int|
                        0 <= j < g.len() && (*g[j].1).0 == c && (*g[j].1).1 is Resident;
                    assert(m.contains_key(*g[j].0) && m[*g[j].0] == *g[j].1);
                    self.lemma_view_at(*g[j].0);
                }
            }
        }
        r
    }
}

/// An update never leaves a chunk unloaded: the terrain generator fills
/// every voxel, so a newly generated chunk is never empty.
pub proof fn lemma_update_generates(
    before: ChunkState,
    after: ChunkState,
    coord: ChunkCoord,
    player_coord: ChunkCoord,
)
    requires
        before is Unloaded,
        update_step(before, after, coord, player_coord),
    ensures
        after is Generated,
{
    if after is Empty {
        let c = after->Empty_0;
        assert(c.active(0));
    }
}

/// After an update, every chunk left on the GPU is within render distance of
/// the player: the others have gone back to meshed.
pub proof fn lemma_update_keeps_resident_near(
    before: ChunkState,
    after: ChunkState,
    coord: ChunkCoord,
    player_coord: ChunkCoord,
)
    requires
        update_step(before, after, coord, player_coord),
        after is Resident,
    ensures
        in_render_distance(coord, player_coord, RENDER_DISTANCE),
{
}

/// A chunk at most `RENDER_DISTANCE` chunks from the player along each
/// axis (the player's own chunk included) is near: meshed there, it is due
/// for upload; resident there, it stays resident through an update.
pub proof fn lemma_near_chunk_drawn(
    coord: ChunkCoord,
    player_coord: ChunkCoord,
    c: Chunk,
    m: MeshData,
    g: GpuChunk,
    after: ChunkState,
)
    requires
        -(RENDER_DISTANCE as int) <= coord.0 - player_coord.0 <= RENDER_DISTANCE,
        -(RENDER_DISTANCE as int) <= coord.1 - player_coord.1 <= RENDER_DISTANCE,
        -(RENDER_DISTANCE as int) <= coord.2 - player_coord.2 <= RENDER_DISTANCE,
    ensures
        due_for_upload(ChunkState::Meshed(c, m), coord, player_coord),
        !leaves_gpu(ChunkState::Resident(c, g), coord, player_coord),
        update_step(ChunkState::Resident(c, g), after, coord, player_coord) ==> after
            == ChunkState::Resident(c, g),
{
}

/// A chunk more than `RENDER_DISTANCE` chunks from the player along some
/// axis is far: meshed there, it is not uploaded; resident there, it leaves
/// the GPU and goes back to meshed.
pub proof fn lemma_far_chunk_dropped(
    coord: ChunkCoord,
    player_coord: ChunkCoord,
    c: Chunk,
    m: MeshData,
    g: GpuChunk,
    after: ChunkState,
)
    requires
        coord.0 - player_coord.0 > RENDER_DISTANCE || player_coord.0 - coord.0 > RENDER_DISTANCE
            || coord.1 - player_coord.1 > RENDER_DISTANCE || player_coord.1 - coord.1
            > RENDER_DISTANCE || coord.2 - player_coord.2 > RENDER_DISTANCE || player_coord.2
            - coord.2 > RENDER_DISTANCE,
    ensures
        !due_for_upload(ChunkState::Meshed(c, m), coord, player_coord),
        leaves_gpu(ChunkState::Resident(c, g), coord, player_coord),
        update_step(ChunkState::Resident(c, g), after, coord, player_coord) ==> after is Meshed,
{
}

/// Slot `k` of `neighbors` looks one chunk along axis `k / 2` (X, Y, Z),
/// forward for even slots and backward for odd ones: the order
/// `[+X, -X, +Y, -Y, +Z, -Z]` of the mesher's faces.
pub proof fn lemma_neighbor_slots(c: ChunkCoord, k: int)
    requires
        coord_inner(c),
        0 <= k < 6,
    ensures
        ({
            let step: int = if k % 2 == 0 {
                1
            } else {
                -1
            };
            let n = neighbor_coord(c, k);
            &&& n.0 == c.0 + (if k / 2 == 0 {
                step
            } else {
                0
            })
            &&& n.1 == c.1 + (if k / 2 == 1 {
                step
            } else {
                0
            })
            &&& n.2 == c.2 + (if k / 2 == 2 {
                step
            } else {
                0
            })
        }),
{
}

/// Whether a chunk lies within the render distance of the player (see
/// `in_render_distance`). Differences are taken in 64 bits, so no
/// coordinate pair overflows.
fn within_render_distance(
    coord: ChunkCoord,
    player_coord: ChunkCoord,
    render_distance: usize,
) -> (b: bool)
    ensures
        b == in_render_distance(coord, player_coord, render_distance),
{
    let rd = render_distance as u64;
    axis_within(coord.0, player_coord.0, rd) && axis_within(coord.1, player_coord.1, rd)
        && axis_within(coord.2, player_coord.2, rd)
}

/// Whether `a` and `b` are at most `rd` apart.
fn axis_within(a: i32, b: i32, rd: u64) -> (r: bool)
    ensures
        r == (a - b <= rd && b - a <= rd),
{
    let d: i64 = a as i64 - b as i64;
    let ad: u64 = if d < 0 {
        (-d) as u64
    } else {
        d as u64
    };
    ad <= rd
}

} // verus!
