use vstd::prelude::*;

use crate::chunk::Chunk;
use crate::constants::{CHUNK_SIZE, VOXEL_COUNT};
use crate::voxel::Voxel;

verus! {

/// One vertex of a meshed chunk. `pos` is a corner of the voxel grid in
/// chunk-local voxel units (each coordinate in `0..=16`), `normal` is the
/// face direction index and `color` the RGB value of the face.
#[derive(Debug, Clone, Copy)]
pub struct VoxelVertex {
    pub pos: [u32; 3],
    pub normal: i8,
    pub color: [u8; 3],
}

impl VoxelVertex {
    fn new(pos: [u32; 3], normal: i8, color: [u8; 3]) -> (vx: Self)
        ensures
            vx.pos == pos,
            vx.normal == normal,
            vx.color == color,
    {
        Self { pos, normal, color }
    }
}

/// Triangle mesh of a chunk: 4 vertices and 6 indices per quad.
#[derive(Debug)]
pub struct MeshData {
    pub vertices: Vec<VoxelVertex>,
    pub indices: Vec<u32>,
}

impl MeshData {
    /// Whether the mesh has no triangles.
    pub fn is_empty(&self) -> (b: bool)
        ensures
            b == (self.indices@.len() == 0),
    {
        self.indices.len() == 0
    }
}

impl Default for MeshData {
    fn default() -> (m: Self)
        ensures
            m.vertices@.len() == 0,
            m.indices@.len() == 0,
    {
        MeshData { vertices: Vec::new(), indices: Vec::new() }
    }
}

/// The six face directions, in the order of the neighbour slots
/// `[+X, -X, +Y, -Y, +Z, -Z]`.
#[derive(Debug, Clone, Copy, PartialEq, Eq, Structural)]
pub enum Face {
    PosX,
    NegX,
    PosY,
    NegY,
    PosZ,
    NegZ,
}

impl Face {
    /// Position of the face in `[+X, -X, +Y, -Y, +Z, -Z]`; also its normal code.
    pub open spec fn slot(self) -> int {
        match self {
            Face::PosX => 0,
            Face::NegX => 1,
            Face::PosY => 2,
            Face::NegY => 3,
            Face::PosZ => 4,
            Face::NegZ => 5,
        }
    }

    /// The axis perpendicular to the face (0 = X, 1 = Y, 2 = Z).
    pub open spec fn ax(self) -> int {
        match self {
            Face::PosX | Face::NegX => 0,
            Face::PosY | Face::NegY => 1,
            Face::PosZ | Face::NegZ => 2,
        }
    }

    /// First axis spanning the face.
    pub open spec fn u_ax(self) -> int {
        match self {
            Face::PosX | Face::NegX => 1,
            _ => 0,
        }
    }

    /// Second axis spanning the face.
    pub open spec fn v_ax(self) -> int {
        match self {
            Face::PosZ | Face::NegZ => 1,
            _ => 2,
        }
    }

    /// Whether the face points along the positive direction of its axis.
    pub open spec fn positive(self) -> bool {
        self == Face::PosX || self == Face::PosY || self == Face::PosZ
    }

    /// Whether the face's two triangles are listed as `0,1,2 / 0,2,3`
    /// (otherwise `0,2,1 / 0,3,2`).
    pub open spec fn straight_winding(self) -> bool {
        self == Face::PosX || self == Face::NegY || self == Face::PosZ
    }

    /// The normal code of the face: its slot in `[+X, -X, +Y, -Y, +Z, -Z]`.
    pub fn normal(self) -> (n: i8)
        ensures
            n == self.slot(),
    {
        match self {
            Face::PosX => 0,
            Face::NegX => 1,
            Face::PosY => 2,
            Face::NegY => 3,
            Face::PosZ => 4,
            Face::NegZ => 5,
        }
    }

    /// The axis perpendicular to the face: its slot halved.
    pub fn axis(self) -> (a: usize)
        ensures
            a == self.ax(),
            a == self.slot() / 2,
    {
        match self {
            Face::PosX | Face::NegX => 0,
            Face::PosY | Face::NegY => 1,
            Face::PosZ | Face::NegZ => 2,
        }
    }

    /// The two axes spanning the face: the axes other than its own, in
    /// increasing order.
    pub fn uv_axes(self) -> (r: (usize, usize))
        ensures
            r.0 == self.u_ax(),
            r.1 == self.v_ax(),
            r.0 < r.1 < 3,
            r.0 != self.ax(),
            r.1 != self.ax(),
    {
        match self {
            Face::PosX | Face::NegX => (1, 2),
            Face::PosY | Face::NegY => (0, 2),
            Face::PosZ | Face::NegZ => (0, 1),
        }
    }

    /// Whether the face points along the positive direction of its axis.
    pub fn is_positive(self) -> (b: bool)
        ensures
            b == self.positive(),
    {
        match self {
            Face::PosX | Face::PosY | Face::PosZ => true,
            _ => false,
        }
    }

    /// The face at a slot of `[+X, -X, +Y, -Y, +Z, -Z]`.
    pub fn from_slot(i: usize) -> (f: Face)
        requires
            i < 6,
        ensures
            f.slot() == i,
    {
        if i == 0 {
            Face::PosX
        } else if i == 1 {
            Face::NegX
        } else if i == 2 {
            Face::PosY
        } else if i == 3 {
            Face::NegY
        } else if i == 4 {
            Face::PosZ
        } else {
            Face::NegZ
        }
    }
}

/// Each face direction is spanned by the two axes other than its own: its
/// axis is its slot halved, the two spanning axes come in increasing order,
/// and the face points the positive way exactly on even slots.
pub proof fn lemma_face_axes(f: Face)
    ensures
        f.ax() == f.slot() / 2,
        0 <= f.ax() < 3,
        0 <= f.u_ax() < f.v_ax() < 3,
        f.u_ax() != f.ax(),
        f.v_ax() != f.ax(),
        f.positive() <==> f.slot() % 2 == 0,
{
}

/// X coordinate of the cell at slice `d`, row `u`, column `v` of a face direction.
pub open spec fn cell_x(f: Face, d: int, u: int, v: int) -> int {
    if f.ax() == 0 {
        d
    } else {
        u
    }
}

/// Y coordinate of the cell at slice `d`, row `u`, column `v` of a face direction.
pub open spec fn cell_y(f: Face, d: int, u: int, v: int) -> int {
    if f.ax() == 0 {
        u
    } else if f.ax() == 1 {
        d
    } else {
        v
    }
}

/// Z coordinate of the cell at slice `d`, row `u`, column `v` of a face direction.
pub open spec fn cell_z(f: Face, d: int, u: int, v: int) -> int {
    if f.ax() == 2 {
        d
    } else {
        v
    }
}

/// Voxel index `x + 16 y + 256 z` of the cell at slice `d`, row `u`, column `v`.
pub open spec fn cell_index(f: Face, d: int, u: int, v: int) -> int {
    cell_x(f, d, u, v) + 16 * cell_y(f, d, u, v) + 256 * cell_z(f, d, u, v)
}

/// Whether slice, row and column all lie inside a chunk.
pub open spec fn in_chunk(d: int, u: int, v: int) -> bool {
    0 <= d < 16 && 0 <= u < 16 && 0 <= v < 16
}

/// Whether the cell next to (`d`, `u`, `v`) in the direction of `f` is solid.
/// Past the chunk border the cell is looked up in the neighbour chunk on
/// that side; a missing neighbour counts as air.
pub open spec fn adjacent_solid(
    c: Chunk,
    nbrs: Seq<Option<&Chunk>>,
    f: Face,
    d: int,
    u: int,
    v: int,
) -> bool {
    let nd = if f.positive() {
        d + 1
    } else {
        d - 1
    };
    if 0 <= nd < 16 {
        c.active(cell_index(f, nd, u, v))
    } else {
        match nbrs[f.slot()] {
            Some(n) => n.active(
                cell_index(
                    f,
                    if f.positive() {
                        0
                    } else {
                        15
                    },
                    u,
                    v,
                ),
            ),
            None => false,
        }
    }
}

/// Whether the face `f` of the cell (`d`, `u`, `v`) is drawn: the cell is
/// solid and the cell in front of the face is not.
pub open spec fn exposed(c: Chunk, nbrs: Seq<Option<&Chunk>>, f: Face, d: int, u: int, v: int) -> bool {
    c.active(cell_index(f, d, u, v)) && !adjacent_solid(c, nbrs, f, d, u, v)
}

/// The voxel stored at the cell (`d`, `u`, `v`).
pub open spec fn voxel_at(c: Chunk, f: Face, d: int, u: int, v: int) -> Voxel {
    c.voxel(cell_index(f, d, u, v))
}

/// A rectangle of faces in one slice: rows `u..u+du`, columns `v..v+dv` of
/// slice `d`, all showing `voxel`.
#[derive(Debug, Clone, Copy)]
pub struct Quad {
    pub face: Face,
    pub d: usize,
    pub u: usize,
    pub v: usize,
    pub du: usize,
    pub dv: usize,
    pub voxel: Voxel,
}

/// Whether quad `q` contains the face `f` of cell (`d`, `u`, `v`).
pub open spec fn covers(q: Quad, f: Face, d: int, u: int, v: int) -> bool {
    q.face == f && q.d == d && q.u <= u < q.u + q.du && q.v <= v < q.v + q.dv
}

/// Scan order of faces: by direction, then slice, row, column.
pub open spec fn scan_key(f: Face, d: int, u: int, v: int) -> int {
    f.slot() * 4096 + d * 256 + u * 16 + v
}

/// Scan position of a quad's first cell.
pub open spec fn quad_key(q: Quad) -> int {
    scan_key(q.face, q.d as int, q.u as int, q.v as int)
}

/// Whether one of the first `n` quads contains the given face.
pub open spec fn covered_by_first(qs: Seq<Quad>, n: int, f: Face, d: int, u: int, v: int) -> bool {
    exists|j: int| 0 <= j < n && #[trigger] covers(qs[j], f, d, u, v)
}

/// A quad lies in the chunk and every face it contains is drawn and shows
/// the quad's voxel.
pub open spec fn quad_sound(c: Chunk, nbrs: Seq<Option<&Chunk>>, q: Quad) -> bool {
    &&& 1 <= q.du
    &&& 1 <= q.dv
    &&& q.d < 16
    &&& q.u + q.du <= 16
    &&& q.v + q.dv <= 16
    &&& forall|u: int, v: int|
        #![trigger cell_index(q.face, q.d as int, u, v)]
        covers(q, q.face, q.d as int, u, v) ==> exposed(c, nbrs, q.face, q.d as int, u, v)
            && voxel_at(c, q.face, q.d as int, u, v) == q.voxel
}

/// Quad `i` cannot grow into the cell (`u`, `v`) of its slice: the cell is
/// outside the chunk, not drawn, of another voxel, or taken by an earlier quad.
pub open spec fn blocked(
    c: Chunk,
    nbrs: Seq<Option<&Chunk>>,
    qs: Seq<Quad>,
    i: int,
    u: int,
    v: int,
) -> bool {
    let q = qs[i];
    ||| !(0 <= u < 16 && 0 <= v < 16)
    ||| !exposed(c, nbrs, q.face, q.d as int, u, v)
    ||| voxel_at(c, q.face, q.d as int, u, v) != q.voxel
    ||| covered_by_first(qs, i, q.face, q.d as int, u, v)
}

/// Quad `i` was grown as far as it goes: first along its columns, then row
/// by row.
pub open spec fn quad_maximal(c: Chunk, nbrs: Seq<Option<&Chunk>>, qs: Seq<Quad>, i: int) -> bool {
    let q = qs[i];
    &&& blocked(c, nbrs, qs, i, q.u as int, q.v + q.dv)
    &&& exists|k: int|
        0 <= k < q.dv && #[trigger] blocked(c, nbrs, qs, i, q.u + q.du, q.v + k)
}

/// `qs` is what the greedy mesher has produced once it has scanned the
/// faces from scan position `start` up to `limit`: quads start in that
/// range, are sound, grown maximally, in scan order, pairwise disjoint, and
/// cover every drawn face in the range.
pub open spec fn greedy_prefix(
    c: Chunk,
    nbrs: Seq<Option<&Chunk>>,
    qs: Seq<Quad>,
    start: int,
    limit: int,
) -> bool {
    &&& forall|i: int|
        0 <= i < qs.len() ==> quad_sound(c, nbrs, #[trigger] qs[i]) && start <= quad_key(qs[i])
            < limit && quad_maximal(c, nbrs, qs, i)
    &&& forall|i: int, j: int| 0 <= i < j < qs.len() ==> quad_key(qs[i]) < quad_key(qs[j])
    &&& forall|i: int, j: int, f: Face, d: int, u: int, v: int|
        0 <= i < j < qs.len() && #[trigger] covers(qs[i], f, d, u, v) ==> !#[trigger] covers(
            qs[j],
            f,
            d,
            u,
            v,
        )
    &&& forall|f: Face, d: int, u: int, v: int|
        in_chunk(d, u, v) && start <= scan_key(f, d, u, v) < limit && #[trigger] exposed(
            c,
            nbrs,
            f,
            d,
            u,
            v,
        ) ==> covered_by_first(qs, qs.len() as int, f, d, u, v)
}

/// `qs` is exactly the quad list of the greedy mesher for the whole chunk.
pub open spec fn greedy_quads(c: Chunk, nbrs: Seq<Option<&Chunk>>, qs: Seq<Quad>) -> bool {
    greedy_prefix(c, nbrs, qs, 0, 24576int)
}

/// Corner (`a`, `b`) of a quad's rectangle, in chunk-local voxel units; the
/// rectangle lies on the far side of the cell for positive faces.
pub open spec fn corner_of(q: Quad, a: int, b: int) -> (int, int, int) {
    let dd = if q.face.positive() {
        q.d + 1
    } else {
        q.d as int
    };
    (
        cell_x(q.face, dd, q.u + a, q.v + b),
        cell_y(q.face, dd, q.u + a, q.v + b),
        cell_z(q.face, dd, q.u + a, q.v + b),
    )
}

/// The `k`-th vertex position of a quad: origin, then along `u`, the far
/// corner, then along `v`.
pub open spec fn quad_corner(q: Quad, k: int) -> (int, int, int) {
    if k == 0 {
        corner_of(q, 0, 0)
    } else if k == 1 {
        corner_of(q, q.du as int, 0)
    } else if k == 2 {
        corner_of(q, q.du as int, q.dv as int)
    } else {
        corner_of(q, 0, q.dv as int)
    }
}

/// Offset of the `k`-th index of a quad's two triangles from its first vertex.
pub open spec fn winding(f: Face, k: int) -> int {
    if f.straight_winding() {
        if k == 0 || k == 3 {
            0
        } else if k == 1 {
            1
        } else if k == 2 || k == 4 {
            2
        } else {
            3
        }
    } else {
        if k == 0 || k == 3 {
            0
        } else if k == 1 || k == 5 {
            2
        } else if k == 2 {
            1
        } else {
            3
        }
    }
}

/// A vertex sits at position `p` and carries the quad's normal and colour.
pub open spec fn vertex_is(vx: VoxelVertex, p: (int, int, int), q: Quad) -> bool {
    &&& vx.pos@[0] == p.0
    &&& vx.pos@[1] == p.1
    &&& vx.pos@[2] == p.2
    &&& vx.normal == q.face.slot()
    &&& vx.color@[0] == q.voxel.spec_r()
    &&& vx.color@[1] == q.voxel.spec_g()
    &&& vx.color@[2] == q.voxel.spec_b()
}

/// The vertex and index lists draw the quads `qs` in order: quad `i` owns
/// vertices `4i..4i+4` and indices `6i..6i+6`.
pub open spec fn renders(vs: Seq<VoxelVertex>, is: Seq<u32>, qs: Seq<Quad>) -> bool {
    &&& vs.len() == 4 * qs.len()
    &&& is.len() == 6 * qs.len()
    &&& forall|i: int, k: int|
        0 <= i < qs.len() && 0 <= k < 4 ==> vertex_is(
            vs[4 * i + k],
            #[trigger] quad_corner(qs[i], k),
            qs[i],
        )
    &&& forall|i: int, k: int|
        0 <= i < qs.len() && 0 <= k < 6 ==> is[6 * i + k] == 4 * i + #[trigger] winding(
            qs[i].face,
            k,
        )
}

/// From vertex `v0` and index `i0` on, the vertex and index lists draw the
/// quads `qs` in order: quad `i` owns vertices `v0+4i..v0+4i+4` and indices
/// `i0+6i..i0+6i+6`, which refer to its own vertices.
pub open spec fn renders_after(vs: Seq<VoxelVertex>, is: Seq<u32>, v0: int, i0: int, qs: Seq<Quad>) -> bool {
    &&& vs.len() == v0 + 4 * qs.len()
    &&& is.len() == i0 + 6 * qs.len()
    &&& forall|i: int, k: int|
        0 <= i < qs.len() && 0 <= k < 4 ==> vertex_is(
            vs[v0 + 4 * i + k],
            #[trigger] quad_corner(qs[i], k),
            qs[i],
        )
    &&& forall|i: int, k: int|
        0 <= i < qs.len() && 0 <= k < 6 ==> is[i0 + 6 * i + k] == v0 + 4 * i + #[trigger] winding(
            qs[i].face,
            k,
        )
}


/// The coordinate of (`x`, `y`, `z`) along axis `a`.
pub open spec fn pick(x: int, y: int, z: int, a: int) -> int {
    if a == 0 {
        x
    } else if a == 1 {
        y
    } else {
        z
    }
}

/// Position of row `u`, column `v` in a slice's visited grid.
pub open spec fn slot_index(u: int, v: int) -> int {
    u * 16 + v
}

/// The face (`d`, `u`, `v`) can join a quad of `voxel` being grown now:
/// drawn, of that voxel, and not yet visited.
pub open spec fn cell_free(
    c: Chunk,
    nbrs: Seq<Option<&Chunk>>,
    f: Face,
    d: int,
    u: int,
    v: int,
    voxel: Voxel,
    vis: Seq<bool>,
) -> bool {
    &&& exposed(c, nbrs, f, d, u, v)
    &&& voxel_at(c, f, d, u, v) == voxel
    &&& !vis[slot_index(u, v)]
}

/// In slice `d` of `f`, a cell is visited exactly when it was scanned before
/// `limit` or lies in a quad already emitted.
pub open spec fn visited_ok(vis: Seq<bool>, qs: Seq<Quad>, f: Face, d: int, limit: int) -> bool {
    &&& vis.len() == 256
    &&& forall|u: int, v: int|
        0 <= u < 16 && 0 <= v < 16 ==> (#[trigger] vis[slot_index(u, v)] <==> (scan_key(f, d, u, v)
            < limit || covered_by_first(qs, qs.len() as int, f, d, u, v)))
}

/// Distinct cells have distinct scan positions.
proof fn lemma_scan_key_unique(f1: Face, d1: int, u1: int, v1: int, f2: Face, d2: int, u2: int, v2: int)
    requires
        in_chunk(d1, u1, v1),
        in_chunk(d2, u2, v2),
        scan_key(f1, d1, u1, v1) == scan_key(f2, d2, u2, v2),
    ensures
        f1 == f2 && d1 == d2 && u1 == u2 && v1 == v2,
{
    assert(f1.slot() == f2.slot() && d1 == d2 && u1 == u2 && v1 == v2) by (nonlinear_arith)
        requires
            0 <= f1.slot() < 6,
            0 <= f2.slot() < 6,
            in_chunk(d1, u1, v1),
            in_chunk(d2, u2, v2),
            f1.slot() * 4096 + d1 * 256 + u1 * 16 + v1 == f2.slot() * 4096 + d2 * 256 + u2 * 16 + v2,
    ;
}

/// Distinct rows and columns have distinct visited slots.
proof fn lemma_slot_unique(u1: int, v1: int, u2: int, v2: int)
    requires
        0 <= u1 < 16,
        0 <= v1 < 16,
        0 <= u2 < 16,
        0 <= v2 < 16,
        slot_index(u1, v1) == slot_index(u2, v2),
    ensures
        u1 == u2 && v1 == v2,
{
    assert(u1 == u2 && v1 == v2) by (nonlinear_arith)
        requires
            0 <= u1 < 16,
            0 <= v1 < 16,
            0 <= u2 < 16,
            0 <= v2 < 16,
            u1 * 16 + v1 == u2 * 16 + v2,
    ;
}

/// Coordinates of slice `d`, row `u`, column `v` for the face whose axes are given.
fn cell_coords(
    axis: usize,
    u_ax: usize,
    v_ax: usize,
    d: usize,
    u: usize,
    v: usize,
    Ghost(face): Ghost<Face>,
) -> (coord: [usize; 3])
    requires
        axis == face.ax(),
        u_ax == face.u_ax(),
        v_ax == face.v_ax(),
    ensures
        coord@[0] == cell_x(face, d as int, u as int, v as int),
        coord@[1] == cell_y(face, d as int, u as int, v as int),
        coord@[2] == cell_z(face, d as int, u as int, v as int),
{
    let mut coord = [0usize; 3];
    coord[axis] = d;
    coord[u_ax] = u;
    coord[v_ax] = v;
    coord
}

/// Index of the voxel at (`x`, `y`, `z`).
fn voxel_index(x: usize, y: usize, z: usize) -> (idx: usize)
    requires
        x < 16,
        y < 16,
        z < 16,
    ensures
        idx == x + 16 * y + 256 * z,
        idx < VOXEL_COUNT,
{
    let s = CHUNK_SIZE;
    x + y * s + z * s * s
}

impl Chunk {
    /// Greedy mesher: merges the drawn faces of each slice into rectangles
    /// of one voxel, scanning rows and columns in order and growing each new
    /// rectangle first along its row, then row by row.
    ///
    /// `neighbors` are the adjacent chunks in `[+X, -X, +Y, -Y, +Z, -Z]`
    /// order; `None` means not loaded, and faces on that border are drawn.
    pub fn mesh(&self, neighbors: [Option<&Chunk>; 6]) -> (m: MeshData)
        ensures
            exists|qs: Seq<Quad>|
                greedy_quads(*self, neighbors@, qs) && renders(m.vertices@, m.indices@, qs),
            !self.has_active() ==> m.vertices@.len() == 0 && m.indices@.len() == 0,
    {
        if self.is_empty() {
            let m = MeshData::default();
            proof {
                let qs = Seq::<Quad>::empty();
                assert forall|f: Face, d: int, u: int, v: int|
                    in_chunk(d, u, v) && scan_key(f, d, u, v) < 24576 && #[trigger] exposed(
                        *self,
                        neighbors@,
                        f,
                        d,
                        u,
                        v,
                    ) implies covered_by_first(qs, qs.len() as int, f, d, u, v) by {
                    assert(0 <= cell_index(f, d, u, v) < VOXEL_COUNT);
                    assert(crate::chunk::bitmap_active(self.active_voxels@, cell_index(f, d, u, v)));
                }
                assert(greedy_quads(*self, neighbors@, qs));
                assert(renders(m.vertices@, m.indices@, qs));
            }
            return m;
        }
        let mut mesh = MeshData::default();
        let ghost mut qs: Seq<Quad> = Seq::empty();
        let mut i: usize = 0;
        while i < 6
            invariant
                i <= 6,
                greedy_prefix(*self, neighbors@, qs, 0, i * 4096),
                renders(mesh.vertices@, mesh.indices@, qs),
                qs.len() <= i * 4096,
            decreases 6 - i,
        {
            let face = Face::from_slot(i);
            let ghost ov = mesh.vertices@;
            let ghost oi = mesh.indices@;
            let Ghost(fq) = self.mesh_face(face, &neighbors, &mut mesh);
            proof {
                lemma_append_face(*self, neighbors@, qs, fq, face);
                lemma_renders_concat(ov, oi, mesh.vertices@, mesh.indices@, qs, fq);
                qs = qs + fq;
            }
            i = i + 1;
        }
        assert(greedy_quads(*self, neighbors@, qs) && renders(mesh.vertices@, mesh.indices@, qs));
        mesh
    }

    /// Whether the face `face` of the voxel at (`x`, `y`, `z`) is exposed:
    /// the cell in front of it is not solid. Past the chunk border the
    /// neighbour chunk on that side decides; a missing one counts as air.
    fn face_visible(
        &self,
        x: usize,
        y: usize,
        z: usize,
        face: Face,
        neighbors: &[Option<&Chunk>; 6],
    ) -> (b: bool)
        requires
            x < 16,
            y < 16,
            z < 16,
        ensures
            b == !adjacent_solid(
                *self,
                neighbors@,
                face,
                pick(x as int, y as int, z as int, face.ax()),
                pick(x as int, y as int, z as int, face.u_ax()),
                pick(x as int, y as int, z as int, face.v_ax()),
            ),
    {
        let axis = face.axis();
        let positive = face.is_positive();
        let s = CHUNK_SIZE;
        let xyz = [x, y, z];
        let d = xyz[axis];
        if positive {
            if d + 1 < s {
                let mut nc = [x, y, z];
                nc[axis] = nc[axis] + 1;
                let nidx = nc[0] + nc[1] * s + nc[2] * s * s;
                !self.is_active(nidx)
            } else {
                let neighbor_idx = face.normal() as usize;
                match neighbors[neighbor_idx] {
                    None => true,
                    Some(neighbor) => {
                        let mut nc = [x, y, z];
                        nc[axis] = 0;
                        let nidx = nc[0] + nc[1] * s + nc[2] * s * s;
                        !neighbor.is_active(nidx)
                    },
                }
            }
        } else {
            if d > 0 {
                let mut nc = [x, y, z];
                nc[axis] = nc[axis] - 1;
                let nidx = nc[0] + nc[1] * s + nc[2] * s * s;
                !self.is_active(nidx)
            } else {
                let neighbor_idx = face.normal() as usize;
                match neighbors[neighbor_idx] {
                    None => true,
                    Some(neighbor) => {
                        let mut nc = [x, y, z];
                        nc[axis] = s - 1;
                        let nidx = nc[0] + nc[1] * s + nc[2] * s * s;
                        !neighbor.is_active(nidx)
                    },
                }
            }
        }
    }
}


impl Chunk {
    /// Grows a quad from the free cell (`d`, `u`, `v`): first along the row
    /// while the next cell is free, then row by row while the whole next
    /// row span is free. Returns the row and column extents.
    #[verifier::loop_isolation(false)]
    fn grow_quad(
        &self,
        face: Face,
        d: usize,
        u: usize,
        v: usize,
        neighbors: &[Option<&Chunk>; 6],
        visited: &Vec<bool>,
        voxel: Voxel,
    ) -> (r: (usize, usize))
        requires
            in_chunk(d as int, u as int, v as int),
            visited@.len() == 256,
            cell_free(*self, neighbors@, face, d as int, u as int, v as int, voxel, visited@),
        ensures
            1 <= r.0,
            u + r.0 <= 16,
            1 <= r.1,
            v + r.1 <= 16,
            forall|a: int, b: int|
                0 <= a < r.0 && 0 <= b < r.1 ==> #[trigger] cell_free(
                    *self,
                    neighbors@,
                    face,
                    d as int,
                    u + a,
                    v + b,
                    voxel,
                    visited@,
                ),
            !(v + r.1 < 16 && cell_free(
                *self,
                neighbors@,
                face,
                d as int,
                u as int,
                v + r.1,
                voxel,
                visited@,
            )),
            u + r.0 == 16 || exists|k: int|
                0 <= k < r.1 && !#[trigger] cell_free(
                    *self,
                    neighbors@,
                    face,
                    d as int,
                    u + r.0,
                    v + k,
                    voxel,
                    visited@,
                ),
    {
        let s = CHUNK_SIZE;
        let ghost nb = neighbors@;
        let ghost vis = visited@;

        // Expand along the row first.
        let mut quad_v: usize = 1;
        assert(cell_free(*self, nb, face, d as int, u + 0, v + 0, voxel, vis));
        while v + quad_v < s
            invariant
                1 <= quad_v,
                v + quad_v <= 16,
                forall|b: int|
                    0 <= b < quad_v ==> #[trigger] cell_free(
                        *self,
                        nb,
                        face,
                        d as int,
                        u + 0,
                        v + b,
                        voxel,
                        vis,
                    ),
            decreases 16 - quad_v,
        {
            if !self.cell_is_free(face, d, u, v + quad_v, neighbors, visited, voxel) {
                break;
            }
            assert(cell_free(*self, nb, face, d as int, u + 0, v + quad_v, voxel, vis));
            quad_v = quad_v + 1;
        }

        // Then row by row, checking the whole span of each new row.
        let mut quad_u: usize = 1;
        while u + quad_u < s
            invariant
                1 <= quad_u,
                u + quad_u <= 16,
                forall|a: int, b: int|
                    0 <= a < quad_u && 0 <= b < quad_v ==> #[trigger] cell_free(
                        *self,
                        nb,
                        face,
                        d as int,
                        u + a,
                        v + b,
                        voxel,
                        vis,
                    ),
            decreases 16 - quad_u,
        {
            let mut dv: usize = 0;
            while dv < quad_v
                invariant
                    dv <= quad_v,
                    forall|b: int|
                        0 <= b < dv ==> #[trigger] cell_free(
                            *self,
                            nb,
                            face,
                            d as int,
                            u + quad_u,
                            v + b,
                            voxel,
                            vis,
                        ),
                decreases quad_v - dv,
            {
                if !self.cell_is_free(face, d, u + quad_u, v + dv, neighbors, visited, voxel) {
                    break;
                }
                assert(cell_free(*self, nb, face, d as int, u + quad_u, v + dv, voxel, vis));
                dv = dv + 1;
            }
            if dv < quad_v {
                break;
            }
            quad_u = quad_u + 1;
        }
        (quad_u, quad_v)
    }
}


/// Among the first `j <= qs.len()` quads, appending a quad changes nothing.
proof fn lemma_covered_prefix(qs: Seq<Quad>, q: Quad, j: int, f: Face, d: int, u: int, v: int)
    requires
        0 <= j <= qs.len(),
    ensures
        covered_by_first(qs.push(q), j, f, d, u, v) == covered_by_first(qs, j, f, d, u, v),
{
    let qs2 = qs.push(q);
    if covered_by_first(qs2, j, f, d, u, v) {
        let w = choose|w: int| 0 <= w < j && #[trigger] covers(qs2[w], f, d, u, v);
        assert(qs2[w] == qs[w]);
        assert(covers(qs[w], f, d, u, v));
    }
    if covered_by_first(qs, j, f, d, u, v) {
        let w = choose|w: int| 0 <= w < j && #[trigger] covers(qs[w], f, d, u, v);
        assert(qs2[w] == qs[w]);
        assert(covers(qs2[w], f, d, u, v));
    }
}

/// At the start of a slice, with every visited flag cleared, no cell of the
/// slice is visited or covered.
proof fn lemma_slice_start(
    c: Chunk,
    nb: Seq<Option<&Chunk>>,
    qs: Seq<Quad>,
    vis: Seq<bool>,
    f: Face,
    d: int,
    start: int,
)
    requires
        0 <= d < 16,
        greedy_prefix(c, nb, qs, start, scan_key(f, d, 0, 0)),
        vis.len() == 256,
        forall|j: int| 0 <= j < 256 ==> !vis[j],
    ensures
        visited_ok(vis, qs, f, d, scan_key(f, d, 0, 0)),
{
    assert forall|u: int, v: int| 0 <= u < 16 && 0 <= v < 16 implies (#[trigger] vis[slot_index(
        u,
        v,
    )] <==> (scan_key(f, d, u, v) < scan_key(f, d, 0, 0) || covered_by_first(
        qs,
        qs.len() as int,
        f,
        d,
        u,
        v,
    ))) by {
        assert(0 <= slot_index(u, v) < 256);
        if covered_by_first(qs, qs.len() as int, f, d, u, v) {
            let w = choose|w: int| 0 <= w < qs.len() && #[trigger] covers(qs[w], f, d, u, v);
            assert(quad_key(qs[w]) < scan_key(f, d, 0, 0));
        }
    }
}

/// Scanning a cell that is already visited, or that is not drawn and is now
/// marked visited, moves the scan position by one.
proof fn lemma_skip_cell(
    c: Chunk,
    nb: Seq<Option<&Chunk>>,
    qs: Seq<Quad>,
    vis: Seq<bool>,
    vis2: Seq<bool>,
    f: Face,
    d: int,
    u: int,
    v: int,
    start: int,
)
    requires
        in_chunk(d, u, v),
        start <= scan_key(f, d, u, v),
        visited_ok(vis, qs, f, d, scan_key(f, d, u, v)),
        greedy_prefix(c, nb, qs, start, scan_key(f, d, u, v)),
        (vis[slot_index(u, v)] && vis2 == vis) || (!exposed(c, nb, f, d, u, v) && vis2 == vis.update(
            slot_index(u, v),
            true,
        )),
    ensures
        visited_ok(vis2, qs, f, d, scan_key(f, d, u, v) + 1),
        greedy_prefix(c, nb, qs, start, scan_key(f, d, u, v) + 1),
{
    let p = scan_key(f, d, u, v);
    assert(0 <= slot_index(u, v) < 256);
    assert forall|a: int, b: int| 0 <= a < 16 && 0 <= b < 16 implies (#[trigger] vis2[slot_index(
        a,
        b,
    )] <==> (scan_key(f, d, a, b) < p + 1 || covered_by_first(qs, qs.len() as int, f, d, a, b))) by {
        assert(0 <= slot_index(a, b) < 256);
        if scan_key(f, d, a, b) == p {
            lemma_scan_key_unique(f, d, a, b, f, d, u, v);
        }
        if slot_index(a, b) == slot_index(u, v) {
            lemma_slot_unique(a, b, u, v);
        }
    }
    assert forall|ff: Face, dd: int, uu: int, vv: int|
        in_chunk(dd, uu, vv) && start <= scan_key(ff, dd, uu, vv) < p + 1 && #[trigger] exposed(
            c,
            nb,
            ff,
            dd,
            uu,
            vv,
        ) implies covered_by_first(qs, qs.len() as int, ff, dd, uu, vv) by {
        if scan_key(ff, dd, uu, vv) == p {
            lemma_scan_key_unique(ff, dd, uu, vv, f, d, u, v);
            assert(vis[slot_index(u, v)]);
        }
    }
}

/// Emitting a quad grown from the scan position keeps every invariant of
/// the greedy scan and moves the scan position by one.
#[verifier::rlimit(50)]
proof fn lemma_new_quad(
    c: Chunk,
    nb: Seq<Option<&Chunk>>,
    qs: Seq<Quad>,
    vis: Seq<bool>,
    vis2: Seq<bool>,
    q: Quad,
    start: int,
)
    requires
        in_chunk(q.d as int, q.u as int, q.v as int),
        start <= quad_key(q),
        visited_ok(vis, qs, q.face, q.d as int, quad_key(q)),
        greedy_prefix(c, nb, qs, start, quad_key(q)),
        1 <= q.du,
        q.u + q.du <= 16,
        1 <= q.dv,
        q.v + q.dv <= 16,
        forall|a: int, b: int|
            0 <= a < q.du && 0 <= b < q.dv ==> #[trigger] cell_free(
                c,
                nb,
                q.face,
                q.d as int,
                q.u + a,
                q.v + b,
                q.voxel,
                vis,
            ),
        !(q.v + q.dv < 16 && cell_free(
            c,
            nb,
            q.face,
            q.d as int,
            q.u as int,
            q.v + q.dv,
            q.voxel,
            vis,
        )),
        q.u + q.du == 16 || exists|k: int|
            0 <= k < q.dv && !#[trigger] cell_free(
                c,
                nb,
                q.face,
                q.d as int,
                q.u + q.du,
                q.v + k,
                q.voxel,
                vis,
            ),
        vis2.len() == 256,
        forall|a: int, b: int|
            0 <= a < 16 && 0 <= b < 16 ==> #[trigger] vis2[slot_index(a, b)] == (vis[slot_index(
                a,
                b,
            )] || covers(q, q.face, q.d as int, a, b)),
    ensures
        visited_ok(vis2, qs.push(q), q.face, q.d as int, quad_key(q) + 1),
        greedy_prefix(c, nb, qs.push(q), start, quad_key(q) + 1),
{
    let qs2 = qs.push(q);
    let n = qs.len() as int;
    let f = q.face;
    let d = q.d as int;
    let p = quad_key(q);
    assert(qs2[n] == q);

    // Every face of the new quad is free, hence not in an earlier quad.
    assert forall|a: int, b: int| #[trigger] covers(q, f, d, a, b) implies !covered_by_first(
        qs,
        n,
        f,
        d,
        a,
        b,
    ) && scan_key(f, d, a, b) >= p && 0 <= a < 16 && 0 <= b < 16 by {
        assert(cell_free(c, nb, f, d, q.u + (a - q.u), q.v + (b - q.v), q.voxel, vis));
    }

    // The new quad is sound.
    assert forall|a: int, b: int| covers(q, f, d, a, b) implies exposed(c, nb, f, d, a, b)
        && voxel_at(c, f, d, a, b) == q.voxel by {
        assert(cell_free(c, nb, f, d, q.u + (a - q.u), q.v + (b - q.v), q.voxel, vis));
    }
    assert(quad_sound(c, nb, q));

    // A free cell after the scan position is not in any earlier quad; a
    // cell that is not free there blocks growth.
    assert forall|a: int, b: int|
        0 <= a < 16 && 0 <= b < 16 && scan_key(f, d, a, b) > p && !cell_free(
            c,
            nb,
            f,
            d,
            a,
            b,
            q.voxel,
            vis,
        ) implies #[trigger] blocked(c, nb, qs2, n, a, b) by {
        assert(0 <= slot_index(a, b) < 256);
        lemma_covered_prefix(qs, q, n, f, d, a, b);
    }

    // The new quad is maximal.
    if q.v + q.dv < 16 {
        assert(blocked(c, nb, qs2, n, q.u as int, q.v + q.dv));
    }
    assert(blocked(c, nb, qs2, n, q.u as int, q.v + q.dv));
    if q.u + q.du == 16 {
        assert(blocked(c, nb, qs2, n, q.u + q.du, q.v + 0));
    } else {
        let k = choose|k: int|
            0 <= k < q.dv && !#[trigger] cell_free(
                c,
                nb,
                q.face,
                q.d as int,
                q.u + q.du,
                q.v + k,
                q.voxel,
                vis,
            );
        assert(blocked(c, nb, qs2, n, q.u + q.du, q.v + k));
    }
    assert(quad_maximal(c, nb, qs2, n));

    // Earlier quads keep their properties.
    assert forall|i: int| 0 <= i < qs2.len() implies quad_sound(c, nb, #[trigger] qs2[i])
        && start <= quad_key(qs2[i]) < p + 1 && quad_maximal(c, nb, qs2, i) by {
        if i < n {
            assert(qs2[i] == qs[i]);
            assert(quad_sound(c, nb, qs[i]) && start <= quad_key(qs[i]) < p && quad_maximal(
                c,
                nb,
                qs,
                i,
            ));
            let qi = qs[i];
            lemma_covered_prefix(qs, q, i, qi.face, qi.d as int, qi.u as int, qi.v + qi.dv);
            assert(blocked(c, nb, qs2, i, qi.u as int, qi.v + qi.dv));
            let k = choose|k: int|
                0 <= k < qi.dv && #[trigger] blocked(c, nb, qs, i, qi.u + qi.du, qi.v + k);
            lemma_covered_prefix(qs, q, i, qi.face, qi.d as int, qi.u + qi.du, qi.v + k);
            assert(blocked(c, nb, qs2, i, qi.u + qi.du, qi.v + k));
        }
    }

    assert forall|i: int, j: int| 0 <= i < j < qs2.len() implies quad_key(qs2[i]) < quad_key(
        qs2[j],
    ) by {
        assert(qs2[i] == qs[i]);
        if j < n {
            assert(qs2[j] == qs[j]);
        }
    }

    assert forall|i: int, j: int, ff: Face, dd: int, uu: int, vv: int|
        0 <= i < j < qs2.len() && #[trigger] covers(qs2[i], ff, dd, uu, vv) implies !#[trigger] covers(
        qs2[j],
        ff,
        dd,
        uu,
        vv,
    ) by {
        assert(qs2[i] == qs[i]);
        if j < n {
            assert(qs2[j] == qs[j]);
        } else {
            if covers(q, ff, dd, uu, vv) {
                assert(covered_by_first(qs, n, f, d, uu, vv));
            }
        }
    }

    assert forall|ff: Face, dd: int, uu: int, vv: int|
        in_chunk(dd, uu, vv) && start <= scan_key(ff, dd, uu, vv) < p + 1 && #[trigger] exposed(
            c,
            nb,
            ff,
            dd,
            uu,
            vv,
        ) implies covered_by_first(qs2, qs2.len() as int, ff, dd, uu, vv) by {
        if scan_key(ff, dd, uu, vv) == p {
            lemma_scan_key_unique(ff, dd, uu, vv, f, d, q.u as int, q.v as int);
            assert(covers(qs2[n], ff, dd, uu, vv));
        } else {
            assert(covered_by_first(qs, n, ff, dd, uu, vv));
            let w = choose|w: int| 0 <= w < n && #[trigger] covers(qs[w], ff, dd, uu, vv);
            assert(qs2[w] == qs[w]);
            assert(covers(qs2[w], ff, dd, uu, vv));
        }
    }

    assert forall|a: int, b: int| 0 <= a < 16 && 0 <= b < 16 implies (#[trigger] vis2[slot_index(
        a,
        b,
    )] <==> (scan_key(f, d, a, b) < p + 1 || covered_by_first(qs2, qs2.len() as int, f, d, a, b))) by {
        assert(0 <= slot_index(a, b) < 256);
        if scan_key(f, d, a, b) == p {
            lemma_scan_key_unique(f, d, a, b, f, d, q.u as int, q.v as int);
        }
        lemma_covered_prefix(qs, q, n, f, d, a, b);
        if covered_by_first(qs2, n + 1, f, d, a, b) && !covered_by_first(qs2, n, f, d, a, b) {
            let w = choose|w: int| 0 <= w < n + 1 && #[trigger] covers(qs2[w], f, d, a, b);
            assert(w == n);
        }
        if covers(q, f, d, a, b) {
            assert(covers(qs2[n], f, d, a, b));
        }
    }
}



impl Chunk {
    /// Whether the face (`d`, `u`, `v`) of `face` is drawn; also returns the
    /// index of its voxel.
    fn face_exposed(
        &self,
        face: Face,
        d: usize,
        u: usize,
        v: usize,
        neighbors: &[Option<&Chunk>; 6],
    ) -> (r: (bool, usize))
        requires
            in_chunk(d as int, u as int, v as int),
        ensures
            r.0 == exposed(*self, neighbors@, face, d as int, u as int, v as int),
            r.1 == cell_index(face, d as int, u as int, v as int),
            r.1 < VOXEL_COUNT,
    {
        let axis = face.axis();
        let (u_ax, v_ax) = face.uv_axes();
        let coord = cell_coords(axis, u_ax, v_ax, d, u, v, Ghost(face));
        let idx = voxel_index(coord[0], coord[1], coord[2]);
        let drawn = self.is_active(idx) && self.face_visible(
            coord[0],
            coord[1],
            coord[2],
            face,
            neighbors,
        );
        (drawn, idx)
    }

    /// Whether the face (`d`, `u`, `v`) is unvisited, solid, of `voxel` and
    /// exposed, so that a quad of `voxel` may grow over it.
    fn cell_is_free(
        &self,
        face: Face,
        d: usize,
        u: usize,
        v: usize,
        neighbors: &[Option<&Chunk>; 6],
        visited: &Vec<bool>,
        voxel: Voxel,
    ) -> (b: bool)
        requires
            in_chunk(d as int, u as int, v as int),
            visited@.len() == 256,
        ensures
            b == cell_free(*self, neighbors@, face, d as int, u as int, v as int, voxel, visited@),
    {
        let s = CHUNK_SIZE;
        if visited[u * s + v] {
            return false;
        }
        let (drawn, idx) = self.face_exposed(face, d, u, v, neighbors);
        drawn && self.voxels[idx] == voxel
    }
}

/// Marks rows `u..u+quad_u`, columns `v..v+quad_v` of a slice as visited.
fn mark_visited(visited: &mut Vec<bool>, u: usize, v: usize, quad_u: usize, quad_v: usize)
    requires
        old(visited)@.len() == 256,
        u + quad_u <= 16,
        v + quad_v <= 16,
    ensures
        final(visited)@.len() == 256,
        forall|a: int, b: int|
            0 <= a < 16 && 0 <= b < 16 ==> #[trigger] final(visited)@[slot_index(a, b)] == (old(
                visited,
            )@[slot_index(a, b)] || (u <= a < u + quad_u && v <= b < v + quad_v)),
{
    let s = CHUNK_SIZE;
    let ghost vis = old(visited)@;
    let mut du: usize = 0;
    while du < quad_u
        invariant
            du <= quad_u,
            s == 16,
            u + quad_u <= 16,
            v + quad_v <= 16,
            visited@.len() == 256,
            forall|a: int, b: int|
                0 <= a < 16 && 0 <= b < 16 ==> #[trigger] visited@[slot_index(a, b)] == (
                vis[slot_index(a, b)] || (u <= a < u + du && v <= b < v + quad_v)),
        decreases quad_u - du,
    {
        let mut dv: usize = 0;
        while dv < quad_v
            invariant
                dv <= quad_v,
                du < quad_u,
                s == 16,
                u + quad_u <= 16,
                v + quad_v <= 16,
                visited@.len() == 256,
                forall|a: int, b: int|
                    0 <= a < 16 && 0 <= b < 16 ==> #[trigger] visited@[slot_index(a, b)] == (
                    vis[slot_index(a, b)] || (u <= a < u + du && v <= b < v + quad_v) || (a == u
                        + du && v <= b < v + dv)),
            decreases quad_v - dv,
        {
            let ghost before = visited@;
            assert((u + du) * s + (v + dv) == slot_index(u + du, v + dv));
            visited[(u + du) * s + (v + dv)] = true;
            proof {
                assert forall|a: int, b: int| 0 <= a < 16 && 0 <= b < 16 implies #[trigger] visited@[slot_index(
                    a,
                    b,
                )] == (vis[slot_index(a, b)] || (u <= a < u + du && v <= b < v + quad_v) || (a == u
                    + du && v <= b < v + dv + 1)) by {
                    assert(0 <= slot_index(a, b) < 256);
                    if slot_index(a, b) == slot_index(u + du, v + dv) {
                        lemma_slot_unique(a, b, u + du, v + dv);
                    }
                    assert(before[slot_index(a, b)] == (vis[slot_index(a, b)] || (u <= a < u + du
                        && v <= b < v + quad_v) || (a == u + du && v <= b < v + dv)));
                }
            }
            dv = dv + 1;
        }
        du = du + 1;
    }
}

/// Position of corner (`du`, `dv`) of the quad whose first cell sits at `origin`.
fn corner(
    face: Face,
    origin: [usize; 3],
    du: usize,
    dv: usize,
    u_ax: usize,
    v_ax: usize,
    Ghost(q): Ghost<Quad>,
) -> (pos: [u32; 3])
    requires
        q.face == face,
        in_chunk(q.d as int, q.u as int, q.v as int),
        origin@[0] == cell_x(face, q.d as int, q.u as int, q.v as int),
        origin@[1] == cell_y(face, q.d as int, q.u as int, q.v as int),
        origin@[2] == cell_z(face, q.d as int, q.u as int, q.v as int),
        u_ax == face.u_ax(),
        v_ax == face.v_ax(),
        du <= 16,
        dv <= 16,
    ensures
        pos@[0] == corner_of(q, du as int, dv as int).0,
        pos@[1] == corner_of(q, du as int, dv as int).1,
        pos@[2] == corner_of(q, du as int, dv as int).2,
{
    let face_offset: usize = if face.is_positive() {
        1
    } else {
        0
    };
    let a = face.axis();
    let mut pos = [0u32; 3];
    pos[a] = (origin[a] + face_offset) as u32;
    pos[u_ax] = (origin[u_ax] + du) as u32;
    pos[v_ax] = (origin[v_ax] + dv) as u32;
    pos
}

/// Appends the 4 vertices and 6 indices (two triangles) of quad `q`,
/// wound so that the visible side faces outward.
fn emit_quad(
    mesh: &mut MeshData,
    face: Face,
    origin: [usize; 3],
    quad_u: usize,
    quad_v: usize,
    u_ax: usize,
    v_ax: usize,
    voxel: Voxel,
    Ghost(q): Ghost<Quad>,
)
    requires
        q.face == face,
        q.du == quad_u,
        q.dv == quad_v,
        q.voxel == voxel,
        in_chunk(q.d as int, q.u as int, q.v as int),
        q.u + q.du <= 16,
        q.v + q.dv <= 16,
        origin@[0] == cell_x(face, q.d as int, q.u as int, q.v as int),
        origin@[1] == cell_y(face, q.d as int, q.u as int, q.v as int),
        origin@[2] == cell_z(face, q.d as int, q.u as int, q.v as int),
        u_ax == face.u_ax(),
        v_ax == face.v_ax(),
        old(mesh).vertices@.len() + 4 <= u32::MAX,
    ensures
        final(mesh).vertices@.len() == old(mesh).vertices@.len() + 4,
        final(mesh).indices@.len() == old(mesh).indices@.len() + 6,
        forall|j: int|
            0 <= j < old(mesh).vertices@.len() ==> final(mesh).vertices@[j] == old(
                mesh,
            ).vertices@[j],
        forall|j: int|
            0 <= j < old(mesh).indices@.len() ==> final(mesh).indices@[j] == old(mesh).indices@[j],
        forall|k: int|
            0 <= k < 4 ==> vertex_is(
                final(mesh).vertices@[old(mesh).vertices@.len() + k],
                #[trigger] quad_corner(q, k),
                q,
            ),
        forall|k: int|
            0 <= k < 6 ==> final(mesh).indices@[old(mesh).indices@.len() + k] == old(
                mesh,
            ).vertices@.len() + #[trigger] winding(face, k),
{
    let normal = face.normal();
    let color = [voxel.r(), voxel.g(), voxel.b()];
    let v0 = corner(face, origin, 0, 0, u_ax, v_ax, Ghost(q));
    let v1 = corner(face, origin, quad_u, 0, u_ax, v_ax, Ghost(q));
    let v2 = corner(face, origin, quad_u, quad_v, u_ax, v_ax, Ghost(q));
    let v3 = corner(face, origin, 0, quad_v, u_ax, v_ax, Ghost(q));

    let base = mesh.vertices.len() as u32;
    mesh.vertices.push(VoxelVertex::new(v0, normal, color));
    mesh.vertices.push(VoxelVertex::new(v1, normal, color));
    mesh.vertices.push(VoxelVertex::new(v2, normal, color));
    mesh.vertices.push(VoxelVertex::new(v3, normal, color));

    // Counter-clockwise seen from outside, with the Y axis flipped.
    if matches!(face, Face::PosX | Face::NegY | Face::PosZ) {
        mesh.indices.push(base);
        mesh.indices.push(base + 1);
        mesh.indices.push(base + 2);
        mesh.indices.push(base);
        mesh.indices.push(base + 2);
        mesh.indices.push(base + 3);
    } else {
        mesh.indices.push(base);
        mesh.indices.push(base + 2);
        mesh.indices.push(base + 1);
        mesh.indices.push(base);
        mesh.indices.push(base + 3);
        mesh.indices.push(base + 2);
    }
}

/// Appending the vertices and indices of one more quad extends what a mesh
/// renders after `v0` and `i0`.
proof fn lemma_renders_after_push(
    vs: Seq<VoxelVertex>,
    is: Seq<u32>,
    vs2: Seq<VoxelVertex>,
    is2: Seq<u32>,
    v0: int,
    i0: int,
    qs: Seq<Quad>,
    q: Quad,
)
    requires
        0 <= v0,
        0 <= i0,
        renders_after(vs, is, v0, i0, qs),
        vs2.len() == vs.len() + 4,
        is2.len() == is.len() + 6,
        forall|j: int| 0 <= j < vs.len() ==> vs2[j] == vs[j],
        forall|j: int| 0 <= j < is.len() ==> is2[j] == is[j],
        forall|k: int| 0 <= k < 4 ==> vertex_is(vs2[vs.len() + k], #[trigger] quad_corner(q, k), q),
        forall|k: int| 0 <= k < 6 ==> is2[is.len() + k] == vs.len() + #[trigger] winding(q.face, k),
    ensures
        renders_after(vs2, is2, v0, i0, qs.push(q)),
{
    let qs2 = qs.push(q);
    let n = qs.len() as int;
    assert forall|i: int, k: int| 0 <= i < qs2.len() && 0 <= k < 4 implies vertex_is(
        vs2[v0 + 4 * i + k],
        #[trigger] quad_corner(qs2[i], k),
        qs2[i],
    ) by {
        if i < n {
            assert(qs2[i] == qs[i]);
            assert(vertex_is(vs[v0 + 4 * i + k], quad_corner(qs[i], k), qs[i]));
        } else {
            assert(qs2[i] == q);
            assert(vertex_is(vs2[vs.len() + k], quad_corner(q, k), q));
        }
    }
    assert forall|i: int, k: int| 0 <= i < qs2.len() && 0 <= k < 6 implies is2[i0 + 6 * i + k] == v0
        + 4 * i + #[trigger] winding(qs2[i].face, k) by {
        if i < n {
            assert(qs2[i] == qs[i]);
            assert(is[i0 + 6 * i + k] == v0 + 4 * i + winding(qs[i].face, k));
        } else {
            assert(qs2[i] == q);
            assert(is2[is.len() + k] == vs.len() + winding(q.face, k));
        }
    }
}

/// A mesh that renders `qs`, followed by vertices and indices that render
/// `fq` after it, renders `qs + fq`.
proof fn lemma_renders_concat(
    pv: Seq<VoxelVertex>,
    pi: Seq<u32>,
    vs: Seq<VoxelVertex>,
    is: Seq<u32>,
    qs: Seq<Quad>,
    fq: Seq<Quad>,
)
    requires
        renders(pv, pi, qs),
        vs.subrange(0, pv.len() as int) == pv,
        is.subrange(0, pi.len() as int) == pi,
        renders_after(vs, is, pv.len() as int, pi.len() as int, fq),
    ensures
        renders(vs, is, qs + fq),
{
    let all = qs + fq;
    let n = qs.len() as int;
    assert forall|i: int, k: int| 0 <= i < all.len() && 0 <= k < 4 implies vertex_is(
        vs[4 * i + k],
        #[trigger] quad_corner(all[i], k),
        all[i],
    ) by {
        if i < n {
            assert(all[i] == qs[i]);
            assert(vertex_is(pv[4 * i + k], quad_corner(qs[i], k), qs[i]));
            assert(vs[4 * i + k] == pv[4 * i + k]);
        } else {
            assert(all[i] == fq[i - n]);
            assert(vertex_is(
                vs[pv.len() + 4 * (i - n) + k],
                quad_corner(fq[i - n], k),
                fq[i - n],
            ));
        }
    }
    assert forall|i: int, k: int| 0 <= i < all.len() && 0 <= k < 6 implies is[6 * i + k] == 4 * i
        + #[trigger] winding(all[i].face, k) by {
        if i < n {
            assert(all[i] == qs[i]);
            assert(pi[6 * i + k] == 4 * i + winding(qs[i].face, k));
            assert(is[6 * i + k] == pi[6 * i + k]);
        } else {
            assert(all[i] == fq[i - n]);
            assert(is[pi.len() + 6 * (i - n) + k] == pv.len() + 4 * (i - n) + winding(
                fq[i - n].face,
                k,
            ));
        }
    }
}

/// Each index of a quad's two triangles refers to one of its four vertices.
proof fn lemma_winding_range(f: Face, k: int)
    requires
        0 <= k < 6,
    ensures
        0 <= winding(f, k) < 4,
{
}

/// Every vertex rendered after `v0` for quads of direction `f` carries the
/// normal of `f`, and every index rendered after `i0` refers to a vertex of
/// its own quad.
proof fn lemma_renders_after_face(
    vs: Seq<VoxelVertex>,
    is: Seq<u32>,
    v0: int,
    i0: int,
    qs: Seq<Quad>,
    f: Face,
)
    requires
        0 <= v0,
        0 <= i0,
        renders_after(vs, is, v0, i0, qs),
        forall|i: int| 0 <= i < qs.len() ==> (#[trigger] qs[i]).face == f,
    ensures
        forall|j: int| v0 <= j < vs.len() ==> (#[trigger] vs[j]).normal == f.slot(),
        forall|i: int, k: int|
            0 <= i < qs.len() && 0 <= k < 6 ==> v0 + 4 * i <= #[trigger] is[i0 + 6 * i + k] < v0 + 4
                * i + 4,
{
    assert forall|j: int| v0 <= j < vs.len() implies (#[trigger] vs[j]).normal == f.slot() by {
        let i = (j - v0) / 4;
        let k = (j - v0) % 4;
        assert(j - v0 == 4 * i + k && 0 <= k < 4) by {
            vstd::arithmetic::div_mod::lemma_fundamental_div_mod(j - v0, 4);
        }
        assert(0 <= i < qs.len()) by (nonlinear_arith)
            requires
                j - v0 == 4 * i + k,
                0 <= k < 4,
                0 <= j - v0 < vs.len() - v0,
                vs.len() - v0 == 4 * qs.len(),
        ;
        assert(vertex_is(vs[v0 + 4 * i + k], quad_corner(qs[i], k), qs[i]));
    }
    assert forall|i: int, k: int| 0 <= i < qs.len() && 0 <= k < 6 implies v0 + 4 * i
        <= #[trigger] is[i0 + 6 * i + k] < v0 + 4 * i + 4 by {
        lemma_winding_range(qs[i].face, k);
    }
}

impl Chunk {
    /// Meshes every slice of one face direction, appending its quads to
    /// `mesh` whatever it held before: the earlier vertices and indices stay
    /// as they were, and each quad of the direction adds 4 vertices with the
    /// face's normal and 6 indices into those vertices.
    pub fn mesh_face(&self, face: Face, neighbors: &[Option<&Chunk>; 6], mesh: &mut MeshData) -> (fq:
        Ghost<Seq<Quad>>)
        requires
            old(mesh).vertices@.len() + 4 * 4096 <= u32::MAX,
        ensures
            greedy_part(*self, neighbors@, fq@, only(face)),
            fq@.len() <= 4096,
            final(mesh).vertices@.subrange(0, old(mesh).vertices@.len() as int) == old(mesh).vertices@,
            final(mesh).indices@.subrange(0, old(mesh).indices@.len() as int) == old(mesh).indices@,
            renders_after(
                final(mesh).vertices@,
                final(mesh).indices@,
                old(mesh).vertices@.len() as int,
                old(mesh).indices@.len() as int,
                fq@,
            ),
            forall|j: int|
                old(mesh).vertices@.len() <= j < final(mesh).vertices@.len()
                    ==> (#[trigger] final(mesh).vertices@[j]).normal == face.slot(),
            forall|i: int, k: int|
                #![trigger final(mesh).indices@[old(mesh).indices@.len() + 6 * i + k]]
                0 <= i < fq@.len() && 0 <= k < 6 ==> old(mesh).vertices@.len() + 4 * i
                    <= final(mesh).indices@[old(mesh).indices@.len() + 6 * i + k]
                    < old(mesh).vertices@.len() + 4 * i + 4,
    {
        let ghost ov = mesh.vertices@;
        let ghost oi = mesh.indices@;
        let ghost v0 = ov.len() as int;
        let ghost i0 = oi.len() as int;
        let ghost start = scan_key(face, 0, 0, 0);
        let ghost nb = neighbors@;
        let ghost c = *self;
        let axis = face.axis();
        let (u_ax, v_ax) = face.uv_axes();
        let s = CHUNK_SIZE;

        let mut visited: Vec<bool> = vec![false; s * s];
        let ghost mut qs: Seq<Quad> = Seq::empty();
        assert(renders_after(mesh.vertices@, mesh.indices@, v0, i0, qs));

        let mut d: usize = 0;
        while d < s
            invariant
                d <= 16,
                c == *self,
                nb == neighbors@,
                s == 16,
                axis == face.ax(),
                u_ax == face.u_ax(),
                v_ax == face.v_ax(),
                visited@.len() == 256,
                greedy_prefix(c, nb, qs, start, scan_key(face, d as int, 0, 0)),
                v0 == ov.len(),
                i0 == oi.len(),
                start == scan_key(face, 0, 0, 0),
                v0 + 4 * 4096 <= u32::MAX,
                forall|j: int| 0 <= j < v0 ==> mesh.vertices@[j] == ov[j],
                forall|j: int| 0 <= j < i0 ==> mesh.indices@[j] == oi[j],
                renders_after(mesh.vertices@, mesh.indices@, v0, i0, qs),
                qs.len() <= scan_key(face, d as int, 0, 0) - start,
            decreases 16 - d,
        {
            // Reset visited for each new slice.
            let mut i: usize = 0;
            while i < s * s
                invariant
                    i <= 256,
                    s == 16,
                    visited@.len() == 256,
                    forall|j: int| 0 <= j < i ==> !visited@[j],
                decreases 256 - i,
            {
                visited[i] = false;
                i = i + 1;
            }
            proof {
                lemma_slice_start(c, nb, qs, visited@, face, d as int, start);
            }

            let mut u: usize = 0;
            while u < s
                invariant
                    u <= 16,
                    d < 16,
                    c == *self,
                    nb == neighbors@,
                    s == 16,
                    axis == face.ax(),
                    u_ax == face.u_ax(),
                    v_ax == face.v_ax(),
                    visited_ok(visited@, qs, face, d as int, scan_key(face, d as int, u as int, 0)),
                    greedy_prefix(c, nb, qs, start, scan_key(face, d as int, u as int, 0)),
                    v0 == ov.len(),
                    i0 == oi.len(),
                    start == scan_key(face, 0, 0, 0),
                    v0 + 4 * 4096 <= u32::MAX,
                    forall|j: int| 0 <= j < v0 ==> mesh.vertices@[j] == ov[j],
                    forall|j: int| 0 <= j < i0 ==> mesh.indices@[j] == oi[j],
                    renders_after(mesh.vertices@, mesh.indices@, v0, i0, qs),
                    qs.len() <= scan_key(face, d as int, u as int, 0) - start,
                decreases 16 - u,
            {
                let mut v: usize = 0;
                while v < s
                    invariant
                        v <= 16,
                        u < 16,
                        d < 16,
                        c == *self,
                        nb == neighbors@,
                        s == 16,
                        axis == face.ax(),
                        u_ax == face.u_ax(),
                        v_ax == face.v_ax(),
                        visited_ok(
                            visited@,
                            qs,
                            face,
                            d as int,
                            scan_key(face, d as int, u as int, v as int),
                        ),
                        greedy_prefix(
                            c,
                            nb,
                            qs,
                            start,
                            scan_key(face, d as int, u as int, v as int),
                        ),
                        v0 == ov.len(),
                        i0 == oi.len(),
                        start == scan_key(face, 0, 0, 0),
                        v0 + 4 * 4096 <= u32::MAX,
                        forall|j: int| 0 <= j < v0 ==> mesh.vertices@[j] == ov[j],
                        forall|j: int| 0 <= j < i0 ==> mesh.indices@[j] == oi[j],
                        renders_after(mesh.vertices@, mesh.indices@, v0, i0, qs),
                        qs.len() <= scan_key(face, d as int, u as int, v as int) - start,
                    decreases 16 - v,
                {
                    let ghost vis = visited@;
                    assert(0 <= slot_index(u as int, v as int) < 256);
                    assert(u * s + v == slot_index(u as int, v as int));
                    if visited[u * s + v] {
                        // Already part of a quad of this slice.
                        proof {
                            lemma_skip_cell(
                                c,
                                nb,
                                qs,
                                vis,
                                vis,
                                face,
                                d as int,
                                u as int,
                                v as int,
                                start,
                            );
                        }
                    } else {
                        let (drawn, idx) = self.face_exposed(face, d, u, v, neighbors);
                        if !drawn {
                            // Not a drawn face: mark it and move on.
                            visited[u * s + v] = true;
                            proof {
                                lemma_skip_cell(
                                    c,
                                    nb,
                                    qs,
                                    vis,
                                    visited@,
                                    face,
                                    d as int,
                                    u as int,
                                    v as int,
                                    start,
                                );
                            }
                        } else {
                            let voxel = self.voxels[idx];
                            assert(cell_free(c, nb, face, d as int, u as int, v as int, voxel, vis));
                            let (quad_u, quad_v) = self.grow_quad(
                                face,
                                d,
                                u,
                                v,
                                neighbors,
                                &visited,
                                voxel,
                            );
                            let ghost q = Quad { face, d, u, v, du: quad_u, dv: quad_v, voxel };
                            let coord = cell_coords(axis, u_ax, v_ax, d, u, v, Ghost(face));
                            proof {
                                if u + quad_u < 16 {
                                    let k = choose|k: int|
                                        0 <= k < quad_v && !#[trigger] cell_free(
                                            *self,
                                            neighbors@,
                                            face,
                                            d as int,
                                            u + quad_u,
                                            v + k,
                                            voxel,
                                            vis,
                                        );
                                    assert(!cell_free(
                                        c,
                                        nb,
                                        q.face,
                                        q.d as int,
                                        q.u + q.du,
                                        q.v + k,
                                        q.voxel,
                                        vis,
                                    ));
                                }
                            }

                            // Mark every cell of the quad as visited.
                            mark_visited(&mut visited, u, v, quad_u, quad_v);

                            let ghost vs_before = mesh.vertices@;
                            let ghost is_before = mesh.indices@;
                            emit_quad(
                                mesh,
                                face,
                                coord,
                                quad_u,
                                quad_v,
                                u_ax,
                                v_ax,
                                voxel,
                                Ghost(q),
                            );
                            proof {
                                assert forall|a: int, b: int|
                                    0 <= a < 16 && 0 <= b < 16 implies #[trigger] visited@[slot_index(
                                    a,
                                    b,
                                )] == (vis[slot_index(a, b)] || covers(q, q.face, q.d as int, a, b)) by {
                                }
                                lemma_new_quad(c, nb, qs, vis, visited@, q, start);
                                lemma_renders_after_push(
                                    vs_before,
                                    is_before,
                                    mesh.vertices@,
                                    mesh.indices@,
                                    v0,
                                    i0,
                                    qs,
                                    q,
                                );
                                qs = qs.push(q);
                            }
                        }
                    }
                    v = v + 1;
                }
                u = u + 1;
            }
            d = d + 1;
        }
        proof {
            lemma_prefix_to_part(c, nb, qs, face);
            lemma_renders_after_face(mesh.vertices@, mesh.indices@, v0, i0, qs, face);
            assert(mesh.vertices@.subrange(0, v0) =~= ov);
            assert(mesh.indices@.subrange(0, i0) =~= oi);
        }
        Ghost(qs)
    }
}


/// The X faces of voxel (`x`, `y`, `z`): the +X face is drawn exactly when
/// the voxel is solid and the voxel touching that face is not, which is
/// (`x + 1`, `y`, `z`) inside the chunk and (`0`, `y`, `z`) of the +X
/// neighbour on the border (air when that neighbour is not loaded); the -X
/// face likewise against (`x - 1`, `y`, `z`), or (`15`, `y`, `z`) of the -X
/// neighbour.
pub proof fn lemma_x_faces(c: Chunk, nbrs: Seq<Option<&Chunk>>, x: int, y: int, z: int)
    requires
        0 <= x < 16,
        0 <= y < 16,
        0 <= z < 16,
    ensures
        exposed(c, nbrs, Face::PosX, x, y, z) == (c.active(x + 16 * y + 256 * z) && !(if x < 15 {
            c.active(x + 1 + 16 * y + 256 * z)
        } else {
            match nbrs[0] {
                Some(n) => n.active(16 * y + 256 * z),
                None => false,
            }
        })),
        exposed(c, nbrs, Face::NegX, x, y, z) == (c.active(x + 16 * y + 256 * z) && !(if x > 0 {
            c.active(x - 1 + 16 * y + 256 * z)
        } else {
            match nbrs[1] {
                Some(n) => n.active(15 + 16 * y + 256 * z),
                None => false,
            }
        })),
{
}

/// The Y faces of voxel (`x`, `y`, `z`): the +Y face is drawn exactly when
/// the voxel is solid and the voxel touching that face is not, which is
/// (`x`, `y + 1`, `z`) inside the chunk and (`x`, `0`, `z`) of the +Y
/// neighbour on the border (air when that neighbour is not loaded); the -Y
/// face likewise against (`x`, `y - 1`, `z`), or (`x`, `15`, `z`) of the -Y
/// neighbour.
pub proof fn lemma_y_faces(c: Chunk, nbrs: Seq<Option<&Chunk>>, x: int, y: int, z: int)
    requires
        0 <= x < 16,
        0 <= y < 16,
        0 <= z < 16,
    ensures
        exposed(c, nbrs, Face::PosY, y, x, z) == (c.active(x + 16 * y + 256 * z) && !(if y < 15 {
            c.active(x + 16 * (y + 1) + 256 * z)
        } else {
            match nbrs[2] {
                Some(n) => n.active(x + 256 * z),
                None => false,
            }
        })),
        exposed(c, nbrs, Face::NegY, y, x, z) == (c.active(x + 16 * y + 256 * z) && !(if y > 0 {
            c.active(x + 16 * (y - 1) + 256 * z)
        } else {
            match nbrs[3] {
                Some(n) => n.active(x + 16 * 15 + 256 * z),
                None => false,
            }
        })),
{
}

/// The Z faces of voxel (`x`, `y`, `z`): the +Z face is drawn exactly when
/// the voxel is solid and the voxel touching that face is not, which is
/// (`x`, `y`, `z + 1`) inside the chunk and (`x`, `y`, `0`) of the +Z
/// neighbour on the border (air when that neighbour is not loaded); the -Z
/// face likewise against (`x`, `y`, `z - 1`), or (`x`, `y`, `15`) of the -Z
/// neighbour.
pub proof fn lemma_z_faces(c: Chunk, nbrs: Seq<Option<&Chunk>>, x: int, y: int, z: int)
    requires
        0 <= x < 16,
        0 <= y < 16,
        0 <= z < 16,
    ensures
        exposed(c, nbrs, Face::PosZ, z, x, y) == (c.active(x + 16 * y + 256 * z) && !(if z < 15 {
            c.active(x + 16 * y + 256 * (z + 1))
        } else {
            match nbrs[4] {
                Some(n) => n.active(x + 16 * y),
                None => false,
            }
        })),
        exposed(c, nbrs, Face::NegZ, z, x, y) == (c.active(x + 16 * y + 256 * z) && !(if z > 0 {
            c.active(x + 16 * y + 256 * (z - 1))
        } else {
            match nbrs[5] {
                Some(n) => n.active(x + 16 * y + 256 * 15),
                None => false,
            }
        })),
{
}

/// The greedy quads of a chunk draw every exposed face exactly once: a face
/// is exposed exactly when some quad contains it, no two quads share a face,
/// and every face of a quad shows the quad's voxel.
pub proof fn lemma_quads_partition_faces(
    c: Chunk,
    nbrs: Seq<Option<&Chunk>>,
    qs: Seq<Quad>,
    f: Face,
    d: int,
    u: int,
    v: int,
)
    requires
        greedy_quads(c, nbrs, qs),
        in_chunk(d, u, v),
    ensures
        exposed(c, nbrs, f, d, u, v) <==> covered_by_first(qs, qs.len() as int, f, d, u, v),
        forall|i: int, j: int|
            0 <= i < qs.len() && 0 <= j < qs.len() && #[trigger] covers(qs[i], f, d, u, v)
                && #[trigger] covers(qs[j], f, d, u, v) ==> i == j,
        forall|i: int|
            0 <= i < qs.len() && #[trigger] covers(qs[i], f, d, u, v) ==> voxel_at(c, f, d, u, v)
                == qs[i].voxel,
{
    assert(scan_key(f, d, u, v) < 24576) by {
        assert(0 <= f.slot() < 6);
    }
    if covered_by_first(qs, qs.len() as int, f, d, u, v) {
        let i = choose|i: int| 0 <= i < qs.len() && #[trigger] covers(qs[i], f, d, u, v);
        assert(quad_sound(c, nbrs, qs[i]));
        assert(cell_index(f, d, u, v) == cell_index(qs[i].face, qs[i].d as int, u, v));
    }
    assert forall|i: int| 0 <= i < qs.len() && #[trigger] covers(qs[i], f, d, u, v) implies voxel_at(
        c,
        f,
        d,
        u,
        v,
    ) == qs[i].voxel by {
        assert(quad_sound(c, nbrs, qs[i]));
        assert(cell_index(f, d, u, v) == cell_index(qs[i].face, qs[i].d as int, u, v));
    }
    assert forall|i: int, j: int|
        0 <= i < qs.len() && 0 <= j < qs.len() && #[trigger] covers(qs[i], f, d, u, v)
            && #[trigger] covers(qs[j], f, d, u, v) implies i == j by {
        if i < j {
            assert(!covers(qs[j], f, d, u, v));
        } else if j < i {
            assert(!covers(qs[i], f, d, u, v));
        }
    }
}

/// Every index of a rendered mesh refers to one of its vertices.
pub proof fn lemma_indices_in_range(vs: Seq<VoxelVertex>, is: Seq<u32>, qs: Seq<Quad>)
    requires
        renders(vs, is, qs),
    ensures
        forall|j: int| 0 <= j < is.len() ==> #[trigger] is[j] < vs.len(),
{
    assert forall|j: int| 0 <= j < is.len() implies #[trigger] is[j] < vs.len() by {
        let i = j / 6;
        let k = j % 6;
        assert(j == 6 * i + k && 0 <= k < 6) by {
            vstd::arithmetic::div_mod::lemma_fundamental_div_mod(j, 6);
        }
        assert(0 <= i < qs.len()) by (nonlinear_arith)
            requires
                j == 6 * i + k,
                0 <= k < 6,
                0 <= j < is.len(),
                is.len() == 6 * qs.len(),
        ;
        assert(is[6 * i + k] == 4 * i + winding(qs[i].face, k));
    }
}

/// A solid voxel on a chunk border whose neighbour on that side is not
/// loaded shows its face on that border.
pub proof fn lemma_missing_neighbor_shows_face(
    c: Chunk,
    nbrs: Seq<Option<&Chunk>>,
    f: Face,
    d: int,
    u: int,
    v: int,
)
    requires
        nbrs[f.slot()] is None,
        d == (if f.positive() {
            15int
        } else {
            0int
        }),
        c.active(cell_index(f, d, u, v)),
    ensures
        exposed(c, nbrs, f, d, u, v),
{
}


/// Treating a neighbour as not loaded only ever shows more faces: every face
/// exposed next to a loaded neighbour is also exposed when that neighbour
/// is missing.
pub proof fn lemma_unloaded_neighbor_conservative(
    c: Chunk,
    nbrs: Seq<Option<&Chunk>>,
    f: Face,
    d: int,
    u: int,
    v: int,
)
    requires
        nbrs.len() == 6,
    ensures
        exposed(c, nbrs, f, d, u, v) ==> exposed(c, nbrs.update(f.slot(), None), f, d, u, v),
{
    assert(0 <= f.slot() < 6);
    assert(nbrs.update(f.slot(), None)[f.slot()] is None);
}

/// `qs` is the greedy mesher's quad list for the face directions that `on`
/// selects: quads of those directions only, sound, grown maximally, in scan
/// order, pairwise disjoint, and covering every drawn face of those
/// directions.
pub open spec fn greedy_part(
    c: Chunk,
    nbrs: Seq<Option<&Chunk>>,
    qs: Seq<Quad>,
    on: spec_fn(Face) -> bool,
) -> bool {
    &&& forall|i: int|
        0 <= i < qs.len() ==> on((#[trigger] qs[i]).face) && quad_sound(c, nbrs, qs[i])
            && quad_maximal(c, nbrs, qs, i)
    &&& forall|i: int, j: int| 0 <= i < j < qs.len() ==> quad_key(qs[i]) < quad_key(qs[j])
    &&& forall|i: int, j: int, f: Face, d: int, u: int, v: int|
        0 <= i < j < qs.len() && #[trigger] covers(qs[i], f, d, u, v) ==> !#[trigger] covers(
            qs[j],
            f,
            d,
            u,
            v,
        )
    &&& forall|f: Face, d: int, u: int, v: int|
        on(f) && in_chunk(d, u, v) && #[trigger] exposed(c, nbrs, f, d, u, v)
            ==> covered_by_first(qs, qs.len() as int, f, d, u, v)
}

/// Selects the one face direction `f`.
pub open spec fn only(f: Face) -> spec_fn(Face) -> bool {
    |g: Face| g == f
}

/// Whether a quad belongs to face direction `f`.
pub open spec fn is_face(f: Face) -> spec_fn(Quad) -> bool {
    |q: Quad| q.face == f
}

/// The quads of face direction `f` in a quad list, in list order.
pub open spec fn face_quads(qs: Seq<Quad>, f: Face) -> Seq<Quad> {
    qs.filter(is_face(f))
}

/// The whole greedy quad list is the greedy part for any selection that
/// takes every face direction.
proof fn lemma_greedy_quads_part(
    c: Chunk,
    nbrs: Seq<Option<&Chunk>>,
    qs: Seq<Quad>,
    on: spec_fn(Face) -> bool,
)
    requires
        greedy_quads(c, nbrs, qs),
        forall|f: Face| #[trigger] on(f),
    ensures
        greedy_part(c, nbrs, qs, on),
{
    assert forall|f: Face, d: int, u: int, v: int|
        on(f) && in_chunk(d, u, v) && #[trigger] exposed(c, nbrs, f, d, u, v) implies covered_by_first(
        qs,
        qs.len() as int,
        f,
        d,
        u,
        v,
    ) by {
        assert(0 <= f.slot() < 6);
    }
}

/// Quads that agree on their first `n` entries agree on which faces those
/// entries cover.
proof fn lemma_prefix_covered_eq(
    qs1: Seq<Quad>,
    qs2: Seq<Quad>,
    n: int,
    f: Face,
    d: int,
    u: int,
    v: int,
)
    requires
        0 <= n <= qs1.len(),
        n <= qs2.len(),
        forall|j: int| 0 <= j < n ==> qs1[j] == qs2[j],
    ensures
        covered_by_first(qs1, n, f, d, u, v) == covered_by_first(qs2, n, f, d, u, v),
{
    if covered_by_first(qs1, n, f, d, u, v) {
        let j = choose|j: int| 0 <= j < n && #[trigger] covers(qs1[j], f, d, u, v);
        assert(covers(qs2[j], f, d, u, v));
    }
    if covered_by_first(qs2, n, f, d, u, v) {
        let j = choose|j: int| 0 <= j < n && #[trigger] covers(qs2[j], f, d, u, v);
        assert(covers(qs1[j], f, d, u, v));
    }
}

/// The first cell of greedy quad `i` is drawn and not in an earlier quad.
proof fn lemma_origin_free(
    c: Chunk,
    nbrs: Seq<Option<&Chunk>>,
    qs: Seq<Quad>,
    on: spec_fn(Face) -> bool,
    i: int,
)
    requires
        greedy_part(c, nbrs, qs, on),
        0 <= i < qs.len(),
    ensures
        on(qs[i].face),
        in_chunk(qs[i].d as int, qs[i].u as int, qs[i].v as int),
        exposed(c, nbrs, qs[i].face, qs[i].d as int, qs[i].u as int, qs[i].v as int),
        voxel_at(c, qs[i].face, qs[i].d as int, qs[i].u as int, qs[i].v as int) == qs[i].voxel,
        !covered_by_first(qs, i, qs[i].face, qs[i].d as int, qs[i].u as int, qs[i].v as int),
{
    let q = qs[i];
    assert(quad_sound(c, nbrs, q));
    assert(covers(q, q.face, q.d as int, q.u as int, q.v as int));
    if covered_by_first(qs, i, q.face, q.d as int, q.u as int, q.v as int) {
        let j = choose|j: int|
            0 <= j < i && #[trigger] covers(qs[j], q.face, q.d as int, q.u as int, q.v as int);
        assert(!covers(qs[i], q.face, q.d as int, q.u as int, q.v as int));
    }
}

/// A face of a greedy quad is drawn, shows the quad's voxel and is not in an
/// earlier quad.
proof fn lemma_quad_cell_free(
    c: Chunk,
    nbrs: Seq<Option<&Chunk>>,
    qs: Seq<Quad>,
    on: spec_fn(Face) -> bool,
    i: int,
    u: int,
    v: int,
)
    requires
        greedy_part(c, nbrs, qs, on),
        0 <= i < qs.len(),
        covers(qs[i], qs[i].face, qs[i].d as int, u, v),
    ensures
        !blocked(c, nbrs, qs, i, u, v),
{
    let q = qs[i];
    assert(quad_sound(c, nbrs, q));
    if covered_by_first(qs, i, q.face, q.d as int, u, v) {
        let j = choose|j: int| 0 <= j < i && #[trigger] covers(qs[j], q.face, q.d as int, u, v);
        assert(!covers(qs[i], q.face, q.d as int, u, v));
    }
}

/// A drawn face of a selected direction that no quad before `i` covers lies
/// at or after the first cell of quad `i` in scan order.
proof fn lemma_origin_first(
    c: Chunk,
    nbrs: Seq<Option<&Chunk>>,
    qs: Seq<Quad>,
    on: spec_fn(Face) -> bool,
    i: int,
    f: Face,
    d: int,
    u: int,
    v: int,
)
    requires
        greedy_part(c, nbrs, qs, on),
        0 <= i < qs.len(),
        on(f),
        in_chunk(d, u, v),
        exposed(c, nbrs, f, d, u, v),
        !covered_by_first(qs, i, f, d, u, v),
    ensures
        quad_key(qs[i]) <= scan_key(f, d, u, v),
{
    assert(covered_by_first(qs, qs.len() as int, f, d, u, v));
    let k = choose|k: int| 0 <= k < qs.len() && #[trigger] covers(qs[k], f, d, u, v);
    assert(k >= i);
    if k > i {
        assert(quad_key(qs[i]) < quad_key(qs[k]));
    }
}

/// Greedy parts agreeing on their first `n` entries agree on entry `n`.
proof fn lemma_greedy_step_unique(
    c: Chunk,
    nbrs: Seq<Option<&Chunk>>,
    on: spec_fn(Face) -> bool,
    qs1: Seq<Quad>,
    qs2: Seq<Quad>,
    n: int,
)
    requires
        greedy_part(c, nbrs, qs1, on),
        greedy_part(c, nbrs, qs2, on),
        0 <= n < qs1.len(),
        n < qs2.len(),
        forall|j: int| 0 <= j < n ==> qs1[j] == qs2[j],
    ensures
        qs1[n] == qs2[n],
{
    let q1 = qs1[n];
    let q2 = qs2[n];
    lemma_origin_free(c, nbrs, qs1, on, n);
    lemma_origin_free(c, nbrs, qs2, on, n);
    lemma_prefix_covered_eq(qs1, qs2, n, q1.face, q1.d as int, q1.u as int, q1.v as int);
    lemma_prefix_covered_eq(qs1, qs2, n, q2.face, q2.d as int, q2.u as int, q2.v as int);
    lemma_origin_first(c, nbrs, qs2, on, n, q1.face, q1.d as int, q1.u as int, q1.v as int);
    lemma_origin_first(c, nbrs, qs1, on, n, q2.face, q2.d as int, q2.u as int, q2.v as int);
    lemma_scan_key_unique(
        q1.face,
        q1.d as int,
        q1.u as int,
        q1.v as int,
        q2.face,
        q2.d as int,
        q2.u as int,
        q2.v as int,
    );
    assert(q1.voxel == q2.voxel);

    // Both quads share face, slice, first cell and voxel, so being blocked
    // means the same for both.
    assert forall|u: int, v: int| blocked(c, nbrs, qs1, n, u, v) == blocked(c, nbrs, qs2, n, u, v) by {
        lemma_prefix_covered_eq(qs1, qs2, n, q1.face, q1.d as int, u, v);
    }

    // Column extents agree: each extent stops at the first blocked column.
    if q1.dv < q2.dv {
        assert(blocked(c, nbrs, qs1, n, q1.u as int, q1.v + q1.dv));
        lemma_quad_cell_free(c, nbrs, qs2, on, n, q1.u as int, q1.v + q1.dv);
    }
    if q2.dv < q1.dv {
        assert(blocked(c, nbrs, qs2, n, q2.u as int, q2.v + q2.dv));
        lemma_quad_cell_free(c, nbrs, qs1, on, n, q2.u as int, q2.v + q2.dv);
    }
    assert(q1.dv == q2.dv);

    // Row extents agree: each extent stops at the first row with a blocked cell.
    if q1.du < q2.du {
        let k = choose|k: int|
            0 <= k < q1.dv && #[trigger] blocked(c, nbrs, qs1, n, q1.u + q1.du, q1.v + k);
        lemma_quad_cell_free(c, nbrs, qs2, on, n, q1.u + q1.du, q1.v + k);
    }
    if q2.du < q1.du {
        let k = choose|k: int|
            0 <= k < q2.dv && #[trigger] blocked(c, nbrs, qs2, n, q2.u + q2.du, q2.v + k);
        lemma_quad_cell_free(c, nbrs, qs1, on, n, q2.u + q2.du, q2.v + k);
    }
    assert(q1.du == q2.du);
}

/// Greedy parts agree on their first `n` entries.
proof fn lemma_greedy_prefix_unique(
    c: Chunk,
    nbrs: Seq<Option<&Chunk>>,
    on: spec_fn(Face) -> bool,
    qs1: Seq<Quad>,
    qs2: Seq<Quad>,
    n: int,
)
    requires
        greedy_part(c, nbrs, qs1, on),
        greedy_part(c, nbrs, qs2, on),
        0 <= n <= qs1.len(),
        n <= qs2.len(),
    ensures
        forall|j: int| 0 <= j < n ==> qs1[j] == qs2[j],
    decreases n,
{
    if n > 0 {
        lemma_greedy_prefix_unique(c, nbrs, on, qs1, qs2, n - 1);
        lemma_greedy_step_unique(c, nbrs, on, qs1, qs2, n - 1);
    }
}

/// Of two greedy parts where the second extends the first, the second has
/// no further quad: its first cell would be drawn yet uncovered by the first.
proof fn lemma_no_longer_list(
    c: Chunk,
    nbrs: Seq<Option<&Chunk>>,
    on: spec_fn(Face) -> bool,
    qs1: Seq<Quad>,
    qs2: Seq<Quad>,
)
    requires
        greedy_part(c, nbrs, qs1, on),
        greedy_part(c, nbrs, qs2, on),
        qs1.len() <= qs2.len(),
        forall|j: int| 0 <= j < qs1.len() ==> qs1[j] == qs2[j],
    ensures
        qs2.len() == qs1.len(),
{
    if qs1.len() < qs2.len() {
        let n = qs1.len() as int;
        let q = qs2[n];
        lemma_origin_free(c, nbrs, qs2, on, n);
        lemma_prefix_covered_eq(qs1, qs2, n, q.face, q.d as int, q.u as int, q.v as int);
        assert(covered_by_first(qs1, n, q.face, q.d as int, q.u as int, q.v as int));
    }
}

/// A greedy part is unique: its contract leaves no choice of quads.
proof fn lemma_greedy_part_unique(
    c: Chunk,
    nbrs: Seq<Option<&Chunk>>,
    on: spec_fn(Face) -> bool,
    qs1: Seq<Quad>,
    qs2: Seq<Quad>,
)
    requires
        greedy_part(c, nbrs, qs1, on),
        greedy_part(c, nbrs, qs2, on),
    ensures
        qs1 == qs2,
{
    let m = if qs1.len() <= qs2.len() {
        qs1.len() as int
    } else {
        qs2.len() as int
    };
    lemma_greedy_prefix_unique(c, nbrs, on, qs1, qs2, m);
    if qs1.len() <= qs2.len() {
        lemma_no_longer_list(c, nbrs, on, qs1, qs2);
    } else {
        lemma_no_longer_list(c, nbrs, on, qs2, qs1);
    }
    assert(qs1 =~= qs2);
}

/// The greedy quad list of a chunk is unique: the mesher's contract leaves
/// no choice of output.
pub proof fn lemma_greedy_quads_unique(
    c: Chunk,
    nbrs: Seq<Option<&Chunk>>,
    qs1: Seq<Quad>,
    qs2: Seq<Quad>,
)
    requires
        greedy_quads(c, nbrs, qs1),
        greedy_quads(c, nbrs, qs2),
    ensures
        qs1 == qs2,
{
    let every = |f: Face| true;
    lemma_greedy_quads_part(c, nbrs, qs1, every);
    lemma_greedy_quads_part(c, nbrs, qs2, every);
    lemma_greedy_part_unique(c, nbrs, every, qs1, qs2);
}

/// Face directions with the same slot are the same direction.
proof fn lemma_slot_injective(a: Face, b: Face)
    requires
        a.slot() == b.slot(),
    ensures
        a == b,
{
}

/// A quad inside the chunk has its scan position in the block of 4096
/// positions of its direction.
proof fn lemma_key_in_face_block(q: Quad)
    requires
        q.d < 16,
        q.u < 16,
        q.v < 16,
    ensures
        q.face.slot() * 4096 <= quad_key(q) < q.face.slot() * 4096 + 4096,
{
}

/// Index of the first quad, from `j` on, whose scan position is at least
/// `bound`; the length of the list when there is none.
spec fn first_from(qs: Seq<Quad>, bound: int, j: int) -> int
    decreases qs.len() - j,
{
    if j < 0 || j >= qs.len() {
        qs.len() as int
    } else if quad_key(qs[j]) >= bound {
        j
    } else {
        first_from(qs, bound, j + 1)
    }
}

/// In a list sorted by scan position, `first_from` splits the quads from
/// `j` on into those before `bound` and those at or after it.
proof fn lemma_first_from(qs: Seq<Quad>, bound: int, j: int)
    requires
        0 <= j <= qs.len(),
        forall|a: int, b: int| 0 <= a < b < qs.len() ==> quad_key(qs[a]) < quad_key(qs[b]),
    ensures
        j <= first_from(qs, bound, j) <= qs.len(),
        forall|k: int| j <= k < first_from(qs, bound, j) ==> quad_key(#[trigger] qs[k]) < bound,
        forall|k: int|
            first_from(qs, bound, j) <= k < qs.len() ==> quad_key(#[trigger] qs[k]) >= bound,
    decreases qs.len() - j,
{
    if j < qs.len() {
        if quad_key(qs[j]) < bound {
            lemma_first_from(qs, bound, j + 1);
        } else {
            assert forall|k: int| j <= k < qs.len() implies quad_key(#[trigger] qs[k]) >= bound by {
                if k > j {
                    assert(quad_key(qs[j]) < quad_key(qs[k]));
                }
            }
        }
    }
}

/// When the quads of direction `f` are exactly those at `lo..hi`, the
/// faces of `f` covered by the first `lo + i` quads are those covered by the
/// first `i` quads of the block.
proof fn lemma_block_covered(
    qs: Seq<Quad>,
    f: Face,
    lo: int,
    hi: int,
    i: int,
    d: int,
    u: int,
    v: int,
)
    requires
        0 <= lo <= hi <= qs.len(),
        forall|j: int| 0 <= j < qs.len() ==> ((#[trigger] qs[j]).face == f <==> lo <= j < hi),
        0 <= i <= hi - lo,
    ensures
        covered_by_first(qs, lo + i, f, d, u, v) == covered_by_first(
            qs.subrange(lo, hi),
            i,
            f,
            d,
            u,
            v,
        ),
{
    let b = qs.subrange(lo, hi);
    if covered_by_first(qs, lo + i, f, d, u, v) {
        let j = choose|j: int| 0 <= j < lo + i && #[trigger] covers(qs[j], f, d, u, v);
        assert(qs[j].face == f);
        assert(b[j - lo] == qs[j]);
        assert(covers(b[j - lo], f, d, u, v));
    }
    if covered_by_first(b, i, f, d, u, v) {
        let j = choose|j: int| 0 <= j < i && #[trigger] covers(b[j], f, d, u, v);
        assert(covers(qs[lo + j], f, d, u, v));
    }
}

/// Quad `i` of the block of direction `f` in a greedy quad list is a sound,
/// maximal quad of that block.
proof fn lemma_block_quad(
    c: Chunk,
    nbrs: Seq<Option<&Chunk>>,
    qs: Seq<Quad>,
    f: Face,
    lo: int,
    hi: int,
    i: int,
)
    requires
        greedy_quads(c, nbrs, qs),
        0 <= lo <= hi <= qs.len(),
        forall|j: int| 0 <= j < qs.len() ==> ((#[trigger] qs[j]).face == f <==> lo <= j < hi),
        0 <= i < hi - lo,
    ensures
        only(f)(qs.subrange(lo, hi)[i].face),
        quad_sound(c, nbrs, qs.subrange(lo, hi)[i]),
        quad_maximal(c, nbrs, qs.subrange(lo, hi), i),
{
    let b = qs.subrange(lo, hi);
    let q = qs[lo + i];
    assert(b[i] == q);
    assert(quad_sound(c, nbrs, q));
    assert(quad_maximal(c, nbrs, qs, lo + i));
    assert forall|uu: int, vv: int|
        blocked(c, nbrs, b, i, uu, vv) == blocked(c, nbrs, qs, lo + i, uu, vv) by {
        lemma_block_covered(qs, f, lo, hi, i, q.d as int, uu, vv);
    }
    let k = choose|k: int|
        0 <= k < q.dv && #[trigger] blocked(c, nbrs, qs, lo + i, q.u + q.du, q.v + k);
    assert(blocked(c, nbrs, b, i, q.u + q.du, q.v + k));
}

/// The block of direction `f` in a greedy quad list is the greedy part for
/// that direction alone.
proof fn lemma_block_part(
    c: Chunk,
    nbrs: Seq<Option<&Chunk>>,
    qs: Seq<Quad>,
    f: Face,
    lo: int,
    hi: int,
)
    requires
        greedy_quads(c, nbrs, qs),
        0 <= lo <= hi <= qs.len(),
        forall|j: int| 0 <= j < qs.len() ==> ((#[trigger] qs[j]).face == f <==> lo <= j < hi),
    ensures
        greedy_part(c, nbrs, qs.subrange(lo, hi), only(f)),
{
    let b = qs.subrange(lo, hi);
    assert forall|i: int| 0 <= i < b.len() implies only(f)((#[trigger] b[i]).face) && quad_sound(
        c,
        nbrs,
        b[i],
    ) && quad_maximal(c, nbrs, b, i) by {
        lemma_block_quad(c, nbrs, qs, f, lo, hi, i);
    }
    assert forall|i: int, j: int| 0 <= i < j < b.len() implies quad_key(b[i]) < quad_key(b[j]) by {
        assert(b[i] == qs[lo + i] && b[j] == qs[lo + j]);
    }
    assert forall|i: int, j: int, g: Face, d: int, u: int, v: int|
        0 <= i < j < b.len() && #[trigger] covers(b[i], g, d, u, v) implies !#[trigger] covers(
        b[j],
        g,
        d,
        u,
        v,
    ) by {
        assert(b[i] == qs[lo + i] && b[j] == qs[lo + j]);
    }
    assert forall|g: Face, d: int, u: int, v: int|
        only(f)(g) && in_chunk(d, u, v) && #[trigger] exposed(c, nbrs, g, d, u, v) implies covered_by_first(
        b,
        b.len() as int,
        g,
        d,
        u,
        v,
    ) by {
        assert(0 <= f.slot() < 6);
        assert(covered_by_first(qs, qs.len() as int, f, d, u, v));
        let k = choose|k: int| 0 <= k < qs.len() && #[trigger] covers(qs[k], f, d, u, v);
        assert(qs[k].face == f);
        assert(b[k - lo] == qs[k]);
        assert(covers(b[k - lo], f, d, u, v));
    }
}

/// In a greedy quad list the quads of one direction form a contiguous block,
/// and that block is the greedy part for that direction alone.
proof fn lemma_face_block(c: Chunk, nbrs: Seq<Option<&Chunk>>, qs: Seq<Quad>, f: Face) -> (r: (
    int,
    int,
))
    requires
        greedy_quads(c, nbrs, qs),
    ensures
        0 <= r.0 <= r.1 <= qs.len(),
        forall|j: int| 0 <= j < qs.len() ==> ((#[trigger] qs[j]).face == f <==> r.0 <= j < r.1),
        greedy_part(c, nbrs, qs.subrange(r.0, r.1), only(f)),
{
    let base = f.slot() * 4096;
    lemma_first_from(qs, base, 0);
    lemma_first_from(qs, base + 4096, 0);
    let lo = first_from(qs, base, 0);
    let hi = first_from(qs, base + 4096, 0);
    assert forall|j: int| 0 <= j < qs.len() implies ((#[trigger] qs[j]).face == f <==> lo <= j
        < hi) by {
        assert(quad_sound(c, nbrs, qs[j]));
        lemma_key_in_face_block(qs[j]);
        if qs[j].face.slot() == f.slot() {
            lemma_slot_injective(qs[j].face, f);
        }
    }
    if hi < lo {
        assert(quad_key(qs[hi]) >= base + 4096);
    }
    lemma_block_part(c, nbrs, qs, f, lo, hi);
    (lo, hi)
}

/// A cell's scan position lies in the block of 4096 positions of its direction.
proof fn lemma_cell_key_block(f: Face, d: int, u: int, v: int)
    requires
        in_chunk(d, u, v),
    ensures
        f.slot() * 4096 <= scan_key(f, d, u, v) < f.slot() * 4096 + 4096,
{
}

/// What the scan of one direction produces is the greedy part for that
/// direction.
proof fn lemma_prefix_to_part(c: Chunk, nbrs: Seq<Option<&Chunk>>, qs: Seq<Quad>, f: Face)
    requires
        greedy_prefix(c, nbrs, qs, f.slot() * 4096, f.slot() * 4096 + 4096),
    ensures
        greedy_part(c, nbrs, qs, only(f)),
{
    assert forall|i: int| 0 <= i < qs.len() implies only(f)((#[trigger] qs[i]).face) && quad_sound(
        c,
        nbrs,
        qs[i],
    ) && quad_maximal(c, nbrs, qs, i) by {
        assert(quad_sound(c, nbrs, qs[i]));
        lemma_key_in_face_block(qs[i]);
        lemma_slot_injective(qs[i].face, f);
    }
    assert forall|g: Face, d: int, u: int, v: int|
        only(f)(g) && in_chunk(d, u, v) && #[trigger] exposed(c, nbrs, g, d, u, v) implies covered_by_first(
        qs,
        qs.len() as int,
        g,
        d,
        u,
        v,
    ) by {
        lemma_cell_key_block(f, d, u, v);
    }
}

/// Quads of an earlier direction, before the block of `f`, never have
/// direction `f`.
proof fn lemma_append_block(
    c: Chunk,
    nbrs: Seq<Option<&Chunk>>,
    qs: Seq<Quad>,
    fq: Seq<Quad>,
    f: Face,
)
    requires
        greedy_prefix(c, nbrs, qs, 0, f.slot() * 4096),
        greedy_part(c, nbrs, fq, only(f)),
    ensures
        forall|j: int|
            0 <= j < (qs + fq).len() ==> ((#[trigger] (qs + fq)[j]).face == f <==> qs.len() <= j
                < (qs + fq).len()),
        forall|j: int|
            0 <= j < qs.len() ==> quad_key(#[trigger] (qs + fq)[j]) < f.slot() * 4096,
        forall|j: int|
            qs.len() <= j < (qs + fq).len() ==> f.slot() * 4096 <= quad_key(#[trigger] (qs + fq)[j])
                < f.slot() * 4096 + 4096,
{
    let all = qs + fq;
    let n = qs.len() as int;
    assert forall|j: int| 0 <= j < all.len() implies ((#[trigger] all[j]).face == f <==> n <= j
        < all.len()) && (j < n ==> quad_key(all[j]) < f.slot() * 4096) && (n <= j ==> f.slot()
        * 4096 <= quad_key(all[j]) < f.slot() * 4096 + 4096) by {
        if j < n {
            assert(all[j] == qs[j]);
            assert(quad_sound(c, nbrs, qs[j]));
            lemma_key_in_face_block(qs[j]);
        } else {
            assert(all[j] == fq[j - n]);
            assert(quad_sound(c, nbrs, fq[j - n]));
            lemma_key_in_face_block(fq[j - n]);
        }
    }
}

/// Appending the greedy part of direction `f` to the greedy quads of the
/// earlier directions gives the greedy quads up to the end of `f`.
#[verifier::rlimit(30)]
proof fn lemma_append_face(
    c: Chunk,
    nbrs: Seq<Option<&Chunk>>,
    qs: Seq<Quad>,
    fq: Seq<Quad>,
    f: Face,
)
    requires
        greedy_prefix(c, nbrs, qs, 0, f.slot() * 4096),
        greedy_part(c, nbrs, fq, only(f)),
    ensures
        greedy_prefix(c, nbrs, qs + fq, 0, f.slot() * 4096 + 4096),
{
    let all = qs + fq;
    let n = qs.len() as int;
    let base = f.slot() * 4096;
    lemma_append_block(c, nbrs, qs, fq, f);
    assert(all.subrange(n, all.len() as int) =~= fq);
    assert forall|i: int| 0 <= i < all.len() implies quad_sound(c, nbrs, #[trigger] all[i]) && 0
        <= quad_key(all[i]) < base + 4096 && quad_maximal(c, nbrs, all, i) by {
        let q = all[i];
        if i < n {
            assert(q == qs[i]);
            assert(quad_sound(c, nbrs, qs[i]) && quad_maximal(c, nbrs, qs, i));
            assert forall|uu: int, vv: int|
                blocked(c, nbrs, all, i, uu, vv) == blocked(c, nbrs, qs, i, uu, vv) by {
                lemma_prefix_covered_eq(all, qs, i, q.face, q.d as int, uu, vv);
            }
            let k = choose|k: int|
                0 <= k < q.dv && #[trigger] blocked(c, nbrs, qs, i, q.u + q.du, q.v + k);
            assert(blocked(c, nbrs, all, i, q.u + q.du, q.v + k));
        } else {
            let j = i - n;
            assert(q == fq[j]);
            assert(quad_sound(c, nbrs, fq[j]) && quad_maximal(c, nbrs, fq, j));
            assert(q.face == f);
            assert forall|uu: int, vv: int|
                blocked(c, nbrs, all, i, uu, vv) == blocked(c, nbrs, fq, j, uu, vv) by {
                lemma_block_covered(all, f, n, all.len() as int, j, q.d as int, uu, vv);
            }
            let k = choose|k: int|
                0 <= k < q.dv && #[trigger] blocked(c, nbrs, fq, j, q.u + q.du, q.v + k);
            assert(blocked(c, nbrs, all, i, q.u + q.du, q.v + k));
        }
    }
    assert forall|i: int, j: int| 0 <= i < j < all.len() implies quad_key(all[i]) < quad_key(
        all[j],
    ) by {
        if j < n {
            assert(all[i] == qs[i] && all[j] == qs[j]);
        } else if n <= i {
            assert(all[i] == fq[i - n] && all[j] == fq[j - n]);
        }
    }
    assert forall|i: int, j: int, g: Face, d: int, u: int, v: int|
        0 <= i < j < all.len() && #[trigger] covers(all[i], g, d, u, v) implies !#[trigger] covers(
        all[j],
        g,
        d,
        u,
        v,
    ) by {
        if j < n {
            assert(all[i] == qs[i] && all[j] == qs[j]);
        } else if n <= i {
            assert(all[i] == fq[i - n] && all[j] == fq[j - n]);
        }
    }
    assert forall|g: Face, d: int, u: int, v: int|
        in_chunk(d, u, v) && 0 <= scan_key(g, d, u, v) < base + 4096 && #[trigger] exposed(
            c,
            nbrs,
            g,
            d,
            u,
            v,
        ) implies covered_by_first(all, all.len() as int, g, d, u, v) by {
        if scan_key(g, d, u, v) < base {
            assert(covered_by_first(qs, n, g, d, u, v));
            let w = choose|w: int| 0 <= w < n && #[trigger] covers(qs[w], g, d, u, v);
            assert(all[w] == qs[w]);
            assert(covers(all[w], g, d, u, v));
        } else {
            lemma_cell_key_block(g, d, u, v);
            lemma_slot_injective(g, f);
            assert(covered_by_first(fq, fq.len() as int, g, d, u, v));
            let w = choose|w: int| 0 <= w < fq.len() && #[trigger] covers(fq[w], g, d, u, v);
            assert(all[n + w] == fq[w]);
            assert(covers(all[n + w], g, d, u, v));
        }
    }
}

/// The greedy part of direction `f` depends on the neighbours only through
/// the neighbour on side `f`.
proof fn lemma_part_same_side(
    c: Chunk,
    nbrs1: Seq<Option<&Chunk>>,
    nbrs2: Seq<Option<&Chunk>>,
    qs: Seq<Quad>,
    f: Face,
)
    requires
        nbrs1[f.slot()] == nbrs2[f.slot()],
        greedy_part(c, nbrs1, qs, only(f)),
    ensures
        greedy_part(c, nbrs2, qs, only(f)),
{
    assert forall|d: int, u: int, v: int|
        exposed(c, nbrs1, f, d, u, v) == #[trigger] exposed(c, nbrs2, f, d, u, v) by {
    }
    assert forall|i: int| 0 <= i < qs.len() implies only(f)((#[trigger] qs[i]).face) && quad_sound(
        c,
        nbrs2,
        qs[i],
    ) && quad_maximal(c, nbrs2, qs, i) by {
        let q = qs[i];
        assert(q.face == f);
        assert(quad_sound(c, nbrs1, q));
        assert(quad_maximal(c, nbrs1, qs, i));
        assert forall|uu: int, vv: int|
            blocked(c, nbrs1, qs, i, uu, vv) == blocked(c, nbrs2, qs, i, uu, vv) by {
            assert(exposed(c, nbrs1, f, q.d as int, uu, vv) == exposed(c, nbrs2, f, q.d as int, uu, vv));
        }
        assert forall|uu: int, vv: int|
            #![trigger cell_index(q.face, q.d as int, uu, vv)]
            covers(q, q.face, q.d as int, uu, vv) implies exposed(c, nbrs2, q.face, q.d as int, uu, vv)
            && voxel_at(c, q.face, q.d as int, uu, vv) == q.voxel by {
            assert(exposed(c, nbrs1, f, q.d as int, uu, vv) == exposed(c, nbrs2, f, q.d as int, uu, vv));
        }
        let k = choose|k: int|
            0 <= k < q.dv && #[trigger] blocked(c, nbrs1, qs, i, q.u + q.du, q.v + k);
        assert(blocked(c, nbrs2, qs, i, q.u + q.du, q.v + k));
    }
    assert forall|g: Face, d: int, u: int, v: int|
        only(f)(g) && in_chunk(d, u, v) && #[trigger] exposed(c, nbrs2, g, d, u, v) implies covered_by_first(
        qs,
        qs.len() as int,
        g,
        d,
        u,
        v,
    ) by {
        assert(exposed(c, nbrs1, f, d, u, v));
    }
}

/// When the quads of direction `f` are exactly those at `lo..hi`, they are
/// that block.
proof fn lemma_filter_block(qs: Seq<Quad>, f: Face, lo: int, hi: int)
    requires
        0 <= lo <= hi <= qs.len(),
        forall|j: int| 0 <= j < qs.len() ==> ((#[trigger] qs[j]).face == f <==> lo <= j < hi),
    ensures
        face_quads(qs, f) == qs.subrange(lo, hi),
    decreases qs.len(),
{
    if qs.len() == 0 {
        reveal(Seq::filter);
        assert(qs.subrange(lo, hi) =~= qs);
    } else {
        let n = qs.len() - 1;
        let s = qs.drop_last();
        assert(qs =~= s.push(qs[n]));
        s.lemma_filter_push(qs[n], is_face(f));
        if hi == qs.len() && lo < hi {
            lemma_filter_block(s, f, lo, n);
            assert(qs.subrange(lo, hi) =~= s.subrange(lo, n).push(qs[n]));
        } else {
            let l2 = if hi == qs.len() {
                n
            } else {
                lo
            };
            let h2 = if hi == qs.len() {
                n
            } else {
                hi
            };
            lemma_filter_block(s, f, l2, h2);
            assert(qs.subrange(lo, hi) =~= s.subrange(l2, h2));
        }
    }
}

/// Loading or unloading the neighbour on one side changes only the quads of
/// that side: for every other face direction the greedy mesher emits the
/// same quads, in the same order.
pub proof fn lemma_neighbor_changes_one_side(
    c: Chunk,
    nbrs1: Seq<Option<&Chunk>>,
    nbrs2: Seq<Option<&Chunk>>,
    qs1: Seq<Quad>,
    qs2: Seq<Quad>,
    side: int,
    f: Face,
)
    requires
        nbrs1.len() == 6,
        nbrs2.len() == 6,
        0 <= side < 6,
        forall|k: int| 0 <= k < 6 && k != side ==> nbrs1[k] == nbrs2[k],
        greedy_quads(c, nbrs1, qs1),
        greedy_quads(c, nbrs2, qs2),
        f.slot() != side,
    ensures
        face_quads(qs1, f) == face_quads(qs2, f),
{
    assert(0 <= f.slot() < 6);
    let (lo1, hi1) = lemma_face_block(c, nbrs1, qs1, f);
    let (lo2, hi2) = lemma_face_block(c, nbrs2, qs2, f);
    lemma_part_same_side(c, nbrs2, nbrs1, qs2.subrange(lo2, hi2), f);
    lemma_greedy_part_unique(c, nbrs1, only(f), qs1.subrange(lo1, hi1), qs2.subrange(lo2, hi2));
    lemma_filter_block(qs1, f, lo1, hi1);
    lemma_filter_block(qs2, f, lo2, hi2);
}

/// Loading the neighbour on one side only ever hides faces: a face covered
/// by the mesh with that neighbour loaded is covered by the mesh without it.
pub proof fn lemma_loaded_neighbor_only_hides(
    c: Chunk,
    nbrs1: Seq<Option<&Chunk>>,
    nbrs2: Seq<Option<&Chunk>>,
    qs1: Seq<Quad>,
    qs2: Seq<Quad>,
    side: int,
    f: Face,
    d: int,
    u: int,
    v: int,
)
    requires
        nbrs1.len() == 6,
        nbrs2.len() == 6,
        0 <= side < 6,
        nbrs1[side] is None,
        forall|k: int| 0 <= k < 6 && k != side ==> nbrs1[k] == nbrs2[k],
        greedy_quads(c, nbrs1, qs1),
        greedy_quads(c, nbrs2, qs2),
        covered_by_first(qs2, qs2.len() as int, f, d, u, v),
    ensures
        covered_by_first(qs1, qs1.len() as int, f, d, u, v),
{
    let j = choose|j: int| 0 <= j < qs2.len() && #[trigger] covers(qs2[j], f, d, u, v);
    let q = qs2[j];
    assert(quad_sound(c, nbrs2, q));
    assert(exposed(c, nbrs2, f, d, u, v));
    assert(in_chunk(d, u, v));
    assert(0 <= f.slot() < 6);
    assert(exposed(c, nbrs1, f, d, u, v));
}

/// A vertex and index list renders at most one quad list's way: equal quad
/// lists give equal meshes.
pub proof fn lemma_renders_unique(
    vs1: Seq<VoxelVertex>,
    is1: Seq<u32>,
    vs2: Seq<VoxelVertex>,
    is2: Seq<u32>,
    qs: Seq<Quad>,
)
    requires
        renders(vs1, is1, qs),
        renders(vs2, is2, qs),
    ensures
        vs1 == vs2,
        is1 == is2,
{
    assert forall|j: int| 0 <= j < vs1.len() implies vs1[j] == vs2[j] by {
        let i = j / 4;
        let k = j % 4;
        assert(j == 4 * i + k && 0 <= k < 4) by {
            vstd::arithmetic::div_mod::lemma_fundamental_div_mod(j, 4);
        }
        assert(0 <= i < qs.len()) by (nonlinear_arith)
            requires
                j == 4 * i + k,
                0 <= k < 4,
                0 <= j < vs1.len(),
                vs1.len() == 4 * qs.len(),
        ;
        assert(vertex_is(vs1[4 * i + k], quad_corner(qs[i], k), qs[i]));
        assert(vertex_is(vs2[4 * i + k], quad_corner(qs[i], k), qs[i]));
        vstd::array::axiom_array_ext_equal(vs1[j].pos, vs2[j].pos);
        vstd::array::axiom_array_ext_equal(vs1[j].color, vs2[j].color);
        assert(vs1[j].pos =~= vs2[j].pos);
        assert(vs1[j].color =~= vs2[j].color);
    }
    assert forall|j: int| 0 <= j < is1.len() implies is1[j] == is2[j] by {
        let i = j / 6;
        let k = j % 6;
        assert(j == 6 * i + k && 0 <= k < 6) by {
            vstd::arithmetic::div_mod::lemma_fundamental_div_mod(j, 6);
        }
        assert(0 <= i < qs.len()) by (nonlinear_arith)
            requires
                j == 6 * i + k,
                0 <= k < 6,
                0 <= j < is1.len(),
                is1.len() == 6 * qs.len(),
        ;
        assert(is1[6 * i + k] == 4 * i + winding(qs[i].face, k));
        assert(is2[6 * i + k] == 4 * i + winding(qs[i].face, k));
    }
    assert(vs1 =~= vs2);
    assert(is1 =~= is2);
}

} // verus!
