use voxel_craft::voxels::chunks::MAX_SIDE;
use voxel_craft::voxels::{Chunk, Chunks};

#[test]
fn new_world_is_air_and_dark() {
    let world = Chunks::new(2, 1, 2).unwrap();
    assert_eq!(world.width(), 2);
    assert_eq!(world.height(), 1);
    assert_eq!(world.depth(), 2);
    assert_eq!(world.volume(), 4);
    for &(x, y, z) in &[(0isize, 0isize, 0isize), (31, 15, 31), (16, 3, 0)] {
        assert_eq!(world.get_voxel(x, y, z).map(|v| v.id), Some(0));
        for channel in 0..4 {
            assert_eq!(world.get_light(x, y, z, channel), 0);
        }
    }
}

#[test]
fn new_world_rejects_oversized_side() {
    assert!(Chunks::new(MAX_SIDE + 1, 1, 1).is_none());
    assert!(Chunks::new(1, MAX_SIDE + 1, 1).is_none());
    assert!(Chunks::new(1, 1, MAX_SIDE + 1).is_none());
}

#[test]
fn empty_world_has_no_voxels() {
    let world = Chunks::new(0, 3, 3).unwrap();
    assert_eq!(world.volume(), 0);
    assert!(world.get_voxel(0, 0, 0).is_none());
    assert_eq!(world.get_light(0, 0, 0, 0), 0);
}

#[test]
fn outside_world_reads_dark_air() {
    let world = Chunks::new(1, 1, 1).unwrap();
    assert!(world.get_voxel(-1, 0, 0).is_none());
    assert!(world.get_voxel(0, -1, 0).is_none());
    assert!(world.get_voxel(0, 0, -1).is_none());
    assert!(world.get_voxel(16, 0, 0).is_none());
    assert!(world.get_voxel(0, 16, 0).is_none());
    assert!(world.get_voxel(0, 0, 16).is_none());
    assert_eq!(world.get_light(-1, 0, 0, 3), 0);
    assert_eq!(world.get_light(16, 0, 0, 3), 0);
    assert!(world.get_chunk_by_voxel(-16, 0, 0).is_none());
}

#[test]
fn writes_outside_world_are_dropped() {
    let mut world = Chunks::new(1, 1, 1).unwrap();
    world.clear_modified(0, 0, 0);
    world.set(-1, 0, 0, 5);
    world.set(16, 0, 0, 5);
    world.set_light(0, -1, 0, 0, 9);
    world.set_light(0, 0, 16, 0, 9);
    assert!(!world.chunk_at(0, 0, 0).unwrap().modified);
    assert_eq!(world.get_voxel(0, 0, 0).map(|v| v.id), Some(0));
    assert_eq!(world.get_light(0, 0, 0, 0), 0);
}

#[test]
fn set_voxel_marks_chunk_modified() {
    let mut world = Chunks::new(2, 2, 2).unwrap();
    for cy in 0..2 {
        for cz in 0..2 {
            for cx in 0..2 {
                world.clear_modified(cx, cy, cz);
            }
        }
    }
    world.set(17, 3, 20, 4);
    assert_eq!(world.get_voxel(17, 3, 20).map(|v| v.id), Some(4));
    assert_eq!(world.get_voxel(16, 3, 20).map(|v| v.id), Some(0));
    assert_eq!(world.get_voxel(1, 3, 4).map(|v| v.id), Some(0));
    assert!(world.chunk_at(1, 0, 1).unwrap().modified);
    assert!(!world.chunk_at(0, 0, 0).unwrap().modified);
    assert!(!world.chunk_at(1, 0, 0).unwrap().modified);
    assert!(!world.chunk_at(0, 0, 1).unwrap().modified);
    assert!(!world.chunk_at(1, 1, 1).unwrap().modified);
}

#[test]
fn set_light_touches_one_channel_of_one_voxel() {
    let mut world = Chunks::new(2, 1, 1).unwrap();
    world.clear_modified(0, 0, 0);
    world.clear_modified(1, 0, 0);
    world.set_light(16, 0, 0, 2, 11);
    assert_eq!(world.get_light(16, 0, 0, 2), 11);
    assert_eq!(world.get_light(16, 0, 0, 0), 0);
    assert_eq!(world.get_light(16, 0, 0, 1), 0);
    assert_eq!(world.get_light(16, 0, 0, 3), 0);
    assert_eq!(world.get_light(15, 0, 0, 2), 0);
    assert_eq!(world.get_light(0, 0, 0, 2), 0);
    assert!(world.chunk_at(1, 0, 0).unwrap().modified);
    assert!(!world.chunk_at(0, 0, 0).unwrap().modified);
}

#[test]
fn set_light_masks_value() {
    let mut world = Chunks::new(1, 1, 1).unwrap();
    world.set_light(3, 3, 3, 1, 0x17);
    assert_eq!(world.get_light(3, 3, 3, 1), 7);
    assert_eq!(world.get_light(3, 3, 3, 2), 0);
}

#[test]
fn chunk_lookup_uses_floor_division() {
    let world = Chunks::new(3, 2, 2).unwrap();
    let chunk = world.get_chunk_by_voxel(47, 16, 15).unwrap();
    assert_eq!((chunk.x, chunk.y, chunk.z), (2, 1, 0));
    let chunk = world.get_chunk_by_voxel(0, 31, 31).unwrap();
    assert_eq!((chunk.x, chunk.y, chunk.z), (0, 1, 1));
    assert!(world.get_chunk_by_voxel(48, 0, 0).is_none());
    assert!(world.get_chunk_by_voxel(-1, 0, 0).is_none());
    assert!(world.chunk_at(3, 0, 0).is_none());
    assert!(world.chunk_at(0, 2, 0).is_none());
    assert!(world.chunk_at(0, 0, 2).is_none());
}

#[test]
fn from_chunks_accepts_lattice_order() {
    let mut chunks = Vec::new();
    for cy in 0..2isize {
        for cz in 0..1isize {
            for cx in 0..3isize {
                chunks.push(Chunk::empty(cx, cy, cz));
            }
        }
    }
    let world = Chunks::from_chunks(3, 2, 1, chunks).unwrap();
    assert_eq!(world.volume(), 6);
    let chunk = world.chunk_at(2, 1, 0).unwrap();
    assert_eq!((chunk.x, chunk.y, chunk.z), (2, 1, 0));
}

#[test]
fn from_chunks_rejects_wrong_count_or_place() {
    assert!(Chunks::from_chunks(1, 1, 1, Vec::new()).is_none());
    assert!(Chunks::from_chunks(1, 1, 1, vec![Chunk::empty(1, 0, 0)]).is_none());
    assert!(Chunks::from_chunks(2, 1, 1, vec![Chunk::empty(1, 0, 0), Chunk::empty(0, 0, 0)])
        .is_none());
    assert!(Chunks::from_chunks(MAX_SIDE + 1, 0, 0, Vec::new()).is_none());
    assert!(Chunks::from_chunks(0, 0, 0, Vec::new()).is_some());
}

#[test]
fn from_chunks_keeps_voxels_and_light() {
    let mut chunk = Chunk::empty(0, 0, 0);
    chunk.voxels[(2 * 16 + 3) * 16 + 1].id = 9;
    chunk.light_map.set(1, 2, 3, 3, 13);
    let world = Chunks::from_chunks(1, 1, 1, vec![chunk]).unwrap();
    assert_eq!(world.get_voxel(1, 2, 3).map(|v| v.id), Some(9));
    assert_eq!(world.get_light(1, 2, 3, 3), 13);
    assert_eq!(world.get_light(1, 2, 3, 0), 0);
}

#[test]
fn fresh_chunk_terrain_follows_height_and_samples() {
    let mut dense = vec![false; 4096];
    dense[(5 * 16 + 1) * 16 + 2] = true;
    dense[(1 * 16 + 1) * 16 + 2] = true;
    let chunk = Chunk::new(0, 0, 0, &dense);
    assert!(chunk.modified);
    assert_eq!((chunk.x, chunk.y, chunk.z), (0, 0, 0));
    assert_eq!(chunk.voxels[(0 * 16 + 0) * 16 + 0].id, 2);
    assert_eq!(chunk.voxels[(2 * 16 + 7) * 16 + 9].id, 2);
    assert_eq!(chunk.voxels[(1 * 16 + 1) * 16 + 2].id, 2);
    assert_eq!(chunk.voxels[(3 * 16 + 7) * 16 + 9].id, 0);
    assert_eq!(chunk.voxels[(5 * 16 + 1) * 16 + 2].id, 1);
    assert_eq!(chunk.voxels[(5 * 16 + 1) * 16 + 3].id, 0);
    assert_eq!(chunk.light_map.get(2, 5, 1, 0), 0);
}

#[test]
fn fresh_chunk_below_ground_is_solid_and_above_follows_samples() {
    let below = Chunk::new(4, -1, 2, &vec![false; 4096]);
    assert_eq!((below.x, below.y, below.z), (4, -1, 2));
    assert_eq!(below.voxels[0].id, 2);
    assert_eq!(below.voxels[4095].id, 2);
    let above = Chunk::new(0, 1, 0, &vec![true; 4096]);
    assert_eq!(above.voxels[0].id, 1);
    assert_eq!(above.voxels[4095].id, 1);
    let short = Chunk::new(0, 1, 0, &vec![true; 10]);
    assert_eq!(short.voxels[9].id, 1);
    assert_eq!(short.voxels[10].id, 0);
}

#[test]
fn chunk_clone_is_a_snapshot() {
    let mut chunk = Chunk::empty(1, 2, 3);
    chunk.voxels[5].id = 7;
    chunk.light_map.set(5, 0, 0, 0, 4);
    chunk.modified = false;
    let copy = chunk.clone();
    chunk.voxels[5].id = 1;
    chunk.light_map.set(5, 0, 0, 0, 9);
    assert_eq!((copy.x, copy.y, copy.z), (1, 2, 3));
    assert!(!copy.modified);
    assert_eq!(copy.voxels[5].id, 7);
    assert_eq!(copy.light_map.get(5, 0, 0, 0), 4);
}

#[test]
fn mutable_chunk_access_writes_into_world() {
    let mut world = Chunks::new(2, 1, 1).unwrap();
    world.clear_modified(1, 0, 0);
    {
        let chunk = world.get_mut_chunk_by_voxel(17, 2, 3).unwrap();
        assert_eq!((chunk.x, chunk.y, chunk.z), (1, 0, 0));
        chunk.light_map.set(1, 2, 3, 0, 6);
        chunk.modified = true;
    }
    assert_eq!(world.get_light(17, 2, 3, 0), 6);
    assert_eq!(world.get_light(1, 2, 3, 0), 0);
    assert!(world.chunk_at(1, 0, 0).unwrap().modified);
    assert!(world.get_mut_chunk_by_voxel(32, 0, 0).is_none());
    assert!(world.get_mut_chunk_by_voxel(0, -1, 0).is_none());
}

#[test]
fn neighborhood_holds_snapshots_in_slot_order() {
    let mut world = Chunks::new(3, 2, 3).unwrap();
    world.set(16, 0, 16, 7);
    world.set_light(47, 31, 47, 3, 12);
    let around = world.neighborhood(1, 0, 1);
    assert_eq!(around.len(), 27);
    for slot in 0..9 {
        assert!(around[slot].is_none());
    }
    for slot in 9..27isize {
        let chunk = around[slot as usize].as_ref().unwrap();
        assert_eq!((chunk.x, chunk.y, chunk.z), (slot % 3, slot / 9 - 1, (slot / 3) % 3));
    }
    assert_eq!(around[13].as_ref().unwrap().voxels[0].id, 7);
    assert_eq!(around[26].as_ref().unwrap().light_map.get(15, 15, 15, 3), 12);
    let corner = world.neighborhood(0, 0, 0);
    assert!(corner[12].is_none());
    assert!(corner[10].is_none());
    assert!(corner[4].is_none());
    assert!(corner[13].is_some());
    assert!(corner[14].is_some());
    let outside = world.neighborhood(4, 0, 0);
    assert_eq!(outside.iter().filter(|slot| slot.is_some()).count(), 0);
    let beside = world.neighborhood(3, 0, 0);
    assert_eq!(beside.iter().filter(|slot| slot.is_some()).count(), 4);
    let far = world.neighborhood(usize::MAX, usize::MAX, usize::MAX);
    assert_eq!(far.len(), 27);
    assert_eq!(far.iter().filter(|slot| slot.is_some()).count(), 0);
}
