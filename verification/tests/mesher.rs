use garbo_engine::chunk::Chunk;
use garbo_engine::chunkmesher::{Face, MeshData, VoxelVertex};
use garbo_engine::constants::{ACTIVE_WORDS, VOXEL_COUNT};
use garbo_engine::voxel::Voxel;

fn idx(x: usize, y: usize, z: usize) -> usize {
    x + y * 16 + z * 256
}

fn chunk_with(cells: &[((usize, usize, usize), Voxel)]) -> Chunk {
    let mut c = Chunk::create([Voxel::empty(); VOXEL_COUNT], [0u64; ACTIVE_WORDS], (0, 0, 0));
    for &((x, y, z), v) in cells {
        c.set(idx(x, y, z), Some(v));
    }
    c
}

fn full_chunk(v: Voxel) -> Chunk {
    Chunk::create([v; VOXEL_COUNT], [u64::MAX; ACTIVE_WORDS], (0, 0, 0))
}

fn quad_count(m: &MeshData) -> usize {
    assert_eq!(m.vertices.len() % 4, 0);
    assert_eq!(m.indices.len(), m.vertices.len() / 4 * 6);
    m.vertices.len() / 4
}

fn quads_with_normal(m: &MeshData, normal: i8) -> usize {
    m.vertices.chunks(4).filter(|q| q[0].normal == normal).count()
}

fn check_vertex(vx: &VoxelVertex, pos: [u32; 3], normal: i8, color: [u8; 3]) {
    assert_eq!(vx.pos, pos);
    assert_eq!(vx.normal, normal);
    assert_eq!(vx.color, color);
}

#[test]
fn empty_chunk_gives_empty_mesh() {
    let c = chunk_with(&[]);
    let m = c.mesh([None; 6]);
    assert!(m.is_empty());
    assert!(m.vertices.is_empty());
    assert!(MeshData::default().is_empty());
}

#[test]
fn single_voxel_gives_six_unit_quads() {
    let red = Voxel::new(200, 10, 20);
    let c = chunk_with(&[((0, 0, 0), red)]);
    let m = c.mesh([None; 6]);
    assert_eq!(quad_count(&m), 6);
    let col = [200, 10, 20];
    // +X
    check_vertex(&m.vertices[0], [1, 0, 0], 0, col);
    check_vertex(&m.vertices[1], [1, 1, 0], 0, col);
    check_vertex(&m.vertices[2], [1, 1, 1], 0, col);
    check_vertex(&m.vertices[3], [1, 0, 1], 0, col);
    // -X
    check_vertex(&m.vertices[4], [0, 0, 0], 1, col);
    check_vertex(&m.vertices[6], [0, 1, 1], 1, col);
    // +Y
    check_vertex(&m.vertices[8], [0, 1, 0], 2, col);
    check_vertex(&m.vertices[9], [1, 1, 0], 2, col);
    check_vertex(&m.vertices[11], [0, 1, 1], 2, col);
    // -Y
    check_vertex(&m.vertices[13], [1, 0, 0], 3, col);
    // +Z
    check_vertex(&m.vertices[16], [0, 0, 1], 4, col);
    check_vertex(&m.vertices[18], [1, 1, 1], 4, col);
    // -Z
    check_vertex(&m.vertices[21], [1, 0, 0], 5, col);
    check_vertex(&m.vertices[23], [0, 1, 0], 5, col);
    assert_eq!(
        m.indices,
        vec![
            0, 1, 2, 0, 2, 3, // +X
            4, 6, 5, 4, 7, 6, // -X
            8, 10, 9, 8, 11, 10, // +Y
            12, 13, 14, 12, 14, 15, // -Y
            16, 17, 18, 16, 18, 19, // +Z
            20, 22, 21, 20, 23, 22, // -Z
        ]
    );
}

#[test]
fn full_chunk_merges_each_side_into_one_quad() {
    let c = full_chunk(Voxel::new(1, 2, 3));
    let m = c.mesh([None; 6]);
    assert_eq!(quad_count(&m), 6);
    check_vertex(&m.vertices[0], [16, 0, 0], 0, [1, 2, 3]);
    check_vertex(&m.vertices[2], [16, 16, 16], 0, [1, 2, 3]);
    check_vertex(&m.vertices[4], [0, 0, 0], 1, [1, 2, 3]);
    check_vertex(&m.vertices[6], [0, 16, 16], 1, [1, 2, 3]);
    for j in m.indices.iter() {
        assert!((*j as usize) < m.vertices.len());
    }
}

#[test]
fn loaded_neighbour_hides_shared_border() {
    let c = full_chunk(Voxel::new(1, 2, 3));
    let other = full_chunk(Voxel::new(9, 9, 9));
    let m = c.mesh([Some(&other), None, None, None, None, None]);
    assert_eq!(quad_count(&m), 5);
    assert_eq!(quads_with_normal(&m, 0), 0);
    let empty = chunk_with(&[]);
    let m2 = c.mesh([Some(&empty), None, None, None, None, Some(&other)]);
    assert_eq!(quads_with_normal(&m2, 0), 1);
    assert_eq!(quads_with_normal(&m2, 5), 0);
}

#[test]
fn inner_faces_are_hidden() {
    let v = Voxel::new(5, 5, 5);
    let c = chunk_with(&[((3, 3, 3), v), ((4, 3, 3), v)]);
    let m = c.mesh([None; 6]);
    // The two voxels touch along X: no +X face on the first, no -X face on
    // the second; the other four sides merge into 1x2 quads.
    assert_eq!(quad_count(&m), 6);
    assert_eq!(quads_with_normal(&m, 0), 1);
    check_vertex(&m.vertices[0], [5, 3, 3], 0, [5, 5, 5]);
}

#[test]
fn different_colours_are_not_merged() {
    let red = Voxel::new(255, 0, 0);
    let blue = Voxel::new(0, 0, 255);
    let c = chunk_with(&[((0, 0, 0), red), ((0, 0, 1), blue)]);
    let m = c.mesh([None; 6]);
    assert_eq!(quads_with_normal(&m, 0), 2);
    let same = chunk_with(&[((0, 0, 0), red), ((0, 0, 1), red)]);
    let m2 = same.mesh([None; 6]);
    assert_eq!(quads_with_normal(&m2, 0), 1);
    check_vertex(&m2.vertices[2], [1, 1, 2], 0, [255, 0, 0]);
}

#[test]
fn greedy_merge_is_not_always_minimal() {
    // A T of +X faces in slice x = 0: (y, z) = (0, 1), (1, 0), (1, 1), (1, 2).
    // Growing along z first, then y, gives a vertical bar and two single
    // faces, while a row of three plus one face would do.
    let v = Voxel::new(7, 7, 7);
    let c = chunk_with(&[((0, 0, 1), v), ((0, 1, 0), v), ((0, 1, 1), v), ((0, 1, 2), v)]);
    let m = c.mesh([None; 6]);
    assert_eq!(quads_with_normal(&m, 0), 3);
    check_vertex(&m.vertices[0], [1, 0, 1], 0, [7, 7, 7]);
    check_vertex(&m.vertices[2], [1, 2, 2], 0, [7, 7, 7]);
}

#[test]
fn meshing_is_deterministic_and_well_indexed() {
    let tg = garbo_engine::terrain_generator::TerrainGenerator::new();
    let c = tg.generate_chunk(&(0, 0, 0));
    let a = c.mesh([None; 6]);
    let b = c.mesh([None; 6]);
    assert_eq!(a.indices, b.indices);
    assert_eq!(a.vertices.len(), b.vertices.len());
    for (x, y) in a.vertices.iter().zip(b.vertices.iter()) {
        assert_eq!((x.pos, x.normal, x.color), (y.pos, y.normal, y.color));
    }
    quad_count(&a);
    for j in a.indices.iter() {
        assert!((*j as usize) < a.vertices.len());
    }
    // Only the six outer sides of a solid chunk are exposed.
    for q in a.vertices.chunks(4) {
        let axis = (q[0].normal / 2) as usize;
        let expected = if q[0].normal % 2 == 0 { 16 } else { 0 };
        for vx in q {
            assert_eq!(vx.pos[axis], expected);
        }
    }
}

fn faces_with_normal(m: &MeshData, normal: i8) -> Vec<([u32; 3], [u32; 3], [u8; 3])> {
    m.vertices
        .chunks(4)
        .filter(|q| q[0].normal == normal)
        .map(|q| (q[0].pos, q[2].pos, q[0].color))
        .collect()
}

#[test]
fn neighbour_changes_only_its_own_side() {
    let a = Voxel::new(10, 20, 30);
    let b = Voxel::new(40, 50, 60);
    // An irregular shape touching the +X border.
    let c = chunk_with(&[
        ((15, 0, 0), a),
        ((15, 1, 0), a),
        ((15, 0, 1), b),
        ((14, 0, 0), b),
        ((15, 5, 7), a),
    ]);
    let wall = full_chunk(Voxel::new(1, 1, 1));
    let open = c.mesh([None; 6]);
    let closed = c.mesh([Some(&wall), None, None, None, None, None]);
    // The +X side loses its faces to the loaded wall.
    assert!(quads_with_normal(&open, 0) > 0);
    assert_eq!(quads_with_normal(&closed, 0), 0);
    // Every other side keeps the very same quads, in the same order.
    for normal in 1..6 {
        assert_eq!(faces_with_normal(&open, normal), faces_with_normal(&closed, normal));
    }
}

#[test]
fn face_axes_span_the_other_two() {
    let faces = [Face::PosX, Face::NegX, Face::PosY, Face::NegY, Face::PosZ, Face::NegZ];
    for (slot, f) in faces.iter().enumerate() {
        let (u, v) = f.uv_axes();
        let a = f.axis();
        assert_eq!(a, slot / 2);
        assert!(u < v && v < 3);
        assert!(u != a && v != a);
        assert_eq!(a + u + v, 3);
        assert_eq!(f.normal() as usize, slot);
        assert_eq!(f.is_positive(), slot % 2 == 0);
        assert_eq!(Face::from_slot(slot), *f);
    }
}

#[test]
fn mesh_face_appends_to_any_mesh() {
    let v = Voxel::new(7, 8, 9);
    let c = chunk_with(&[((3, 4, 5), v), ((3, 5, 5), v)]);
    // A mesh with unrelated prior contents.
    let junk = VoxelVertex { pos: [99, 98, 97], normal: 5, color: [1, 2, 3] };
    let mut m = MeshData { vertices: vec![junk, junk, junk], indices: vec![7, 7] };
    let _ = c.mesh_face(Face::PosX, &[None; 6], &mut m);
    // The old contents stay in front.
    for vx in &m.vertices[..3] {
        check_vertex(vx, [99, 98, 97], 5, [1, 2, 3]);
    }
    assert_eq!(&m.indices[..2], &[7, 7]);
    // The two +X faces merge into one quad: 4 vertices, 6 indices.
    assert_eq!(m.vertices.len(), 3 + 4);
    assert_eq!(m.indices.len(), 2 + 6);
    assert!(m.vertices[3..].iter().all(|vx| vx.normal == 0));
    assert!(m.indices[2..].iter().all(|&i| (3..7).contains(&i)));
    check_vertex(&m.vertices[3], [4, 4, 5], 0, [7, 8, 9]);
}
