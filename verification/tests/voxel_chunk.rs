use garbo_engine::chunk::Chunk;
use garbo_engine::constants::{ACTIVE_WORDS, CHUNK_SIZE, VOXEL_COUNT};
use garbo_engine::voxel::Voxel;

fn empty_chunk() -> Chunk {
    Chunk::create([Voxel::empty(); VOXEL_COUNT], [0u64; ACTIVE_WORDS], (0, 0, 0))
}

#[test]
fn voxel_new_packs_channels() {
    let v = Voxel::new(255, 0, 80);
    assert_eq!(v.r(), 255);
    assert_eq!(v.g(), 0);
    assert_eq!(v.b(), 80);
    let w = Voxel::new(1, 2, 3);
    assert_eq!((w.r(), w.g(), w.b()), (1, 2, 3));
    assert_ne!(v, w);
}

#[test]
fn voxel_empty_is_not_an_opaque_black_voxel() {
    let e = Voxel::empty();
    assert_eq!((e.r(), e.g(), e.b()), (0, 0, 0));
    assert_ne!(e, Voxel::new(0, 0, 0));
}

#[test]
fn chunk_size_constants_agree() {
    assert_eq!(CHUNK_SIZE * CHUNK_SIZE * CHUNK_SIZE, VOXEL_COUNT);
    assert_eq!(VOXEL_COUNT / 64, ACTIVE_WORDS);
}

#[test]
fn create_marks_dirty_and_empty() {
    let c = empty_chunk();
    assert!(c.is_dirty);
    assert!(c.is_empty);
    assert!(c.is_empty());
    assert_eq!(c.position, (0, 0, 0));
}

#[test]
fn create_with_one_active_bit_is_not_empty() {
    let mut words = [0u64; ACTIVE_WORDS];
    words[63] = 1u64 << 63;
    let c = Chunk::create([Voxel::empty(); VOXEL_COUNT], words, (1, -2, 3));
    assert!(!c.is_empty);
    assert!(!c.is_empty());
    assert!(c.is_active(VOXEL_COUNT - 1));
    assert!(!c.is_active(VOXEL_COUNT - 2));
    assert_eq!(c.position, (1, -2, 3));
}

#[test]
fn set_active_reads_back_and_spares_neighbours() {
    let mut c = empty_chunk();
    c.set_active(64, true);
    assert!(c.is_active(64));
    assert!(!c.is_active(63));
    assert!(!c.is_active(65));
    assert_eq!(c.active_voxels[1], 1);
    c.set_active(65, true);
    c.set_active(64, false);
    assert!(!c.is_active(64));
    assert!(c.is_active(65));
    assert_eq!(c.active_voxels[1], 2);
}

#[test]
fn set_stores_voxel_and_activity() {
    let mut c = empty_chunk();
    let red = Voxel::new(255, 0, 0);
    c.set(100, Some(red));
    assert!(c.is_active(100));
    assert_eq!(c.voxels[100], red);
    assert!(!c.is_empty());
    // The cached flag is only computed at creation.
    assert!(c.is_empty);
    c.set(100, None);
    assert!(!c.is_active(100));
    assert_eq!(c.voxels[100], red);
    assert!(c.is_empty());
}
