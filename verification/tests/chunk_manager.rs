use garbo_engine::chunk_manager::{ChunkManager, ChunkState};
use garbo_engine::chunk_rendering::GpuChunk;
use garbo_engine::chunkmesher::MeshData;
use garbo_engine::constants::VOXEL_COUNT;
use garbo_engine::terrain_generator::TerrainGenerator;
use garbo_engine::voxel::Voxel;

#[test]
fn queued_chunk_is_unloaded() {
    let mut m = ChunkManager::new();
    assert!(m.get_chunk((0, 0, 0)).is_none());
    m.queue_chunk((0, 0, 0));
    assert!(matches!(m.get_chunk((0, 0, 0)), Some(ChunkState::Unloaded)));
    assert!(m.get_chunk((1, 0, 0)).is_none());
}

#[test]
fn update_walks_the_lifecycle() {
    let tg = TerrainGenerator::new();
    let mut m = ChunkManager::new();
    m.queue_chunk((1, 2, 3));

    let actions = m.update((0, 0, 0), &tg);
    assert!(actions.uploads.is_empty());
    assert!(actions.evictions.is_empty());
    match m.get_chunk((1, 2, 3)) {
        Some(ChunkState::Generated(c)) => {
            assert_eq!(c.position, (1, 2, 3));
            assert!(!c.is_empty());
        }
        _ => panic!("expected a generated chunk"),
    }

    let actions = m.update((0, 0, 0), &tg);
    assert!(actions.uploads.is_empty());
    let index_count = match m.get_chunk((1, 2, 3)) {
        Some(ChunkState::Meshed(_, mesh)) => {
            assert!(!mesh.is_empty());
            mesh.indices.len()
        }
        _ => panic!("expected a meshed chunk"),
    };

    let actions = m.update((0, 0, 0), &tg);
    assert_eq!(actions.uploads, vec![(1, 2, 3)]);
    assert!(actions.evictions.is_empty());
    assert!(m.visible_chunks().is_empty());

    let mesh = match m.get_chunk((1, 2, 3)) {
        Some(ChunkState::Meshed(_, mesh)) => mesh,
        _ => panic!("expected a meshed chunk"),
    };
    let gpu = GpuChunk::new(11, 12, 13, 14, mesh, (1, 2, 3));
    assert_eq!(gpu.index_count as usize, index_count);
    m.make_resident((1, 2, 3), gpu);
    assert!(matches!(m.get_chunk((1, 2, 3)), Some(ChunkState::Resident(_, _))));

    let visible = m.visible_chunks();
    assert_eq!(visible.len(), 1);
    assert_eq!(visible[0].vertex_buffer, 11);
    assert_eq!(visible[0].index_buffer_memory, 14);
    assert_eq!(visible[0].world_pos, (1, 2, 3));

    // Resident chunks within render distance stay resident.
    let actions = m.update((0, 0, 0), &tg);
    assert!(actions.uploads.is_empty());
    assert!(actions.evictions.is_empty());
    assert_eq!(m.visible_chunks().len(), 1);
}

#[test]
fn resident_chunk_left_behind_is_evicted() {
    let tg = TerrainGenerator::new();
    let mut m = ChunkManager::new();
    m.queue_chunk((1, 2, 3));
    m.update((0, 0, 0), &tg);
    m.update((0, 0, 0), &tg);
    let index_count = match m.get_chunk((1, 2, 3)) {
        Some(ChunkState::Meshed(_, mesh)) => mesh.indices.len(),
        _ => panic!("expected a meshed chunk"),
    };
    let gpu = match m.get_chunk((1, 2, 3)) {
        Some(ChunkState::Meshed(_, mesh)) => GpuChunk::new(21, 22, 23, 24, mesh, (1, 2, 3)),
        _ => panic!("expected a meshed chunk"),
    };
    m.make_resident((1, 2, 3), gpu);

    // The player walks away along X: the chunk is 9 chunks off, beyond 3.
    let actions = m.update((10, 0, 0), &tg);
    assert!(actions.uploads.is_empty());
    assert_eq!(actions.evictions.len(), 1);
    let (coord, freed) = actions.evictions[0];
    assert_eq!(coord, (1, 2, 3));
    assert_eq!(freed.vertex_buffer, 21);
    assert_eq!(freed.index_buffer_memory, 24);
    assert!(m.visible_chunks().is_empty());
    match m.get_chunk((1, 2, 3)) {
        Some(ChunkState::Meshed(c, mesh)) => {
            assert_eq!(c.position, (1, 2, 3));
            // The mesh is rebuilt, ready for the next upload.
            assert_eq!(mesh.indices.len(), index_count);
        }
        _ => panic!("expected the chunk to be meshed again"),
    }

    // Far away, a meshed chunk is not uploaded; back near, it is.
    let actions = m.update((10, 0, 0), &tg);
    assert!(actions.uploads.is_empty());
    assert!(actions.evictions.is_empty());
    let actions = m.update((4, -1, 0), &tg);
    assert_eq!(actions.uploads, vec![(1, 2, 3)]);
}

#[test]
fn render_distance_is_a_cube_around_the_player() {
    let tg = TerrainGenerator::new();
    let mut m = ChunkManager::new();
    // Three chunks off on every axis is still in range; four is not.
    m.queue_chunk((3, -3, 3));
    m.queue_chunk((4, 0, 0));
    m.queue_chunk((0, 0, -4));
    m.queue_chunk((i32::MAX, i32::MIN, 0));
    m.update((0, 0, 0), &tg);
    m.update((0, 0, 0), &tg);
    let actions = m.update((0, 0, 0), &tg);
    assert_eq!(actions.uploads, vec![(3, -3, 3)]);
    // Seen from the far corner, the far chunk is the near one.
    let actions = m.update((i32::MAX - 1, i32::MIN + 3, 2), &tg);
    assert_eq!(actions.uploads, vec![(i32::MAX, i32::MIN, 0)]);
}

#[test]
fn requeue_resets_to_unloaded() {
    let tg = TerrainGenerator::new();
    let mut m = ChunkManager::new();
    m.queue_chunk((0, 0, 0));
    m.update((0, 0, 0), &tg);
    m.queue_chunk((0, 0, 0));
    assert!(matches!(m.get_chunk((0, 0, 0)), Some(ChunkState::Unloaded)));
}

#[test]
fn neighbors_follow_mesher_order() {
    let mut m = ChunkManager::new();
    m.queue_chunk((1, 0, 0));
    m.queue_chunk((0, -1, 0));
    // Diagonal chunks are not neighbours.
    m.queue_chunk((1, 0, -1));
    let n = m.neighbors(&(0, 0, 0));
    assert!(n[0].is_some());
    assert!(n[1].is_none());
    assert!(n[2].is_none());
    assert!(n[3].is_some());
    assert!(n[4].is_none());
    assert!(n[5].is_none());
    m.queue_chunk((0, 0, -1));
    m.queue_chunk((0, 0, 1));
    let n = m.neighbors(&(0, 0, 0));
    assert!(n[4].is_some());
    assert!(n[5].is_some());
    let far = m.neighbors(&(10, 10, 10));
    assert!(far.iter().all(|s| s.is_none()));
}

#[test]
fn generated_terrain_is_solid_and_coloured() {
    let tg = TerrainGenerator::new();
    let c = tg.generate_chunk(&(5, -6, 7));
    assert_eq!(c.position, (5, -6, 7));
    assert!(c.is_dirty);
    assert!(!c.is_empty);
    let palette = [Voxel::new(255, 0, 80), Voxel::new(40, 255, 0), Voxel::new(0, 70, 255)];
    let mut seen = [false; 3];
    for i in 0..VOXEL_COUNT {
        assert!(c.is_active(i));
        let k = palette.iter().position(|p| *p == c.voxels[i]).expect("terrain colour");
        seen[k] = true;
    }
    // Colours are drawn at random: 4096 draws all alike would be absurdly unlikely.
    assert!(seen.iter().filter(|s| **s).count() >= 2);
}

#[test]
fn gpu_chunk_counts_indices() {
    let mesh = MeshData { vertices: Vec::new(), indices: vec![0, 1, 2, 0, 2, 3] };
    let g = GpuChunk::new(1, 2, 3, 4, &mesh, (-1, 0, 1));
    assert_eq!(g.index_count, 6);
    assert_eq!(g.vertex_buffer_memory, 2);
    assert_eq!(g.index_buffer, 3);
    assert_eq!(g.world_pos, (-1, 0, 1));
}

#[test]
fn coordinates_are_kept_apart() {
    let tg = TerrainGenerator::new();
    let mut m = ChunkManager::new();
    let coords = [
        (0, 0, 1),
        (0, 1, 0),
        (1, 0, 0),
        (-1, 0, 0),
        (0, -1, 0),
        (0, 0, -1),
        (i32::MIN, i32::MAX, -1),
        (i32::MAX, i32::MIN, 0),
    ];
    for c in coords {
        m.queue_chunk(c);
    }
    m.update((0, 0, 0), &tg);
    for c in coords {
        match m.get_chunk(c) {
            Some(ChunkState::Generated(chunk)) => assert_eq!(chunk.position, c),
            _ => panic!("expected a generated chunk"),
        }
    }
    assert!(m.get_chunk((0, 0, 0)).is_none());
    assert!(m.get_chunk((1, 1, 0)).is_none());
}
