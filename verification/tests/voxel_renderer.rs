use voxel_craft::graphics::voxel_renderer::{
    cdiv, get_chunk, is_blocked, is_chunk, light, local, local_neg, vertex, voxel, VERTEX_SIZE,
};
use voxel_craft::graphics::VoxelRenderer;
use voxel_craft::voxels::Chunk;

fn neighborhood(center: &Chunk) -> Vec<Option<Chunk>> {
    let mut chunks: Vec<Option<Chunk>> = Vec::new();
    for _ in 0..27 {
        chunks.push(None);
    }
    chunks[13] = Some(center.clone());
    chunks
}

fn cell(x: usize, y: usize, z: usize) -> usize {
    (y * 16 + z) * 16 + x
}

#[test]
fn cdiv_is_floor_division() {
    assert_eq!(cdiv(0, 16), 0);
    assert_eq!(cdiv(15, 16), 0);
    assert_eq!(cdiv(16, 16), 1);
    assert_eq!(cdiv(31, 16), 1);
    assert_eq!(cdiv(-1, 16), -1);
    assert_eq!(cdiv(-15, 16), -1);
    assert_eq!(cdiv(-16, 16), -1);
    assert_eq!(cdiv(-17, 16), -2);
    assert_eq!(cdiv(-7, 2), -4);
    assert_eq!(cdiv(7, 2), 3);
    assert_eq!(cdiv(isize::MIN, 1), isize::MIN);
    assert_eq!(cdiv(isize::MAX, 1), isize::MAX);
}

#[test]
fn local_wraps_into_the_chunk() {
    assert_eq!(local(-1, 16), 15);
    assert_eq!(local(-16, 16), 0);
    assert_eq!(local(0, 16), 0);
    assert_eq!(local(15, 16), 15);
    assert_eq!(local(16, 16), 0);
    assert_eq!(local(31, 16), 15);
    assert_eq!(local_neg(-1, 16), 15);
    assert_eq!(local_neg(5, 16), 5);
    assert_eq!(local_neg(20, 16), 20);
}

#[test]
fn neighbourhood_slots_follow_y_z_x_order() {
    let mut chunks: Vec<Option<Chunk>> = Vec::new();
    for i in 0..27isize {
        chunks.push(Some(Chunk::empty(i % 3 - 1, i / 9 - 1, (i / 3) % 3 - 1)));
    }
    let found = get_chunk(0, 0, 0, &chunks).unwrap();
    assert_eq!((found.x, found.y, found.z), (0, 0, 0));
    let found = get_chunk(-1, 16, 5, &chunks).unwrap();
    assert_eq!((found.x, found.y, found.z), (-1, 1, 0));
    let found = get_chunk(16, -1, -1, &chunks).unwrap();
    assert_eq!((found.x, found.y, found.z), (1, -1, -1));
    let found = get_chunk(31, 31, 31, &chunks).unwrap();
    assert_eq!((found.x, found.y, found.z), (1, 1, 1));
    let found = get_chunk(-16, -16, -16, &chunks).unwrap();
    assert_eq!((found.x, found.y, found.z), (-1, -1, -1));
    assert!(get_chunk(32, 0, 0, &chunks).is_none());
    assert!(get_chunk(0, -17, 0, &chunks).is_none());
    assert!(is_chunk(5, 5, 5, &chunks));
    assert!(!is_chunk(5, 5, 32, &chunks));
}

#[test]
fn missing_slots_are_dark_and_open() {
    let mut center = Chunk::empty(0, 0, 0);
    center.voxels[cell(15, 0, 0)].id = 3;
    center.light_map.set(15, 0, 0, 2, 9);
    let chunks = neighborhood(&center);
    assert!(is_chunk(0, 0, 0, &chunks));
    assert!(!is_chunk(16, 0, 0, &chunks));
    assert!(!is_chunk(-1, 0, 0, &chunks));
    assert!(is_blocked(15, 0, 0, &chunks));
    assert!(!is_blocked(14, 0, 0, &chunks));
    assert!(!is_blocked(16, 0, 0, &chunks));
    assert_eq!(light(15, 0, 0, 2, &chunks), 9);
    assert_eq!(light(15, 0, 0, 1, &chunks), 0);
    assert_eq!(light(16, 0, 0, 2, &chunks), 0);
    assert_eq!(voxel(15, 0, 0, &chunks).map(|v| v.id), Some(3));
    assert!(voxel(16, 0, 0, &chunks).is_none());
    let none: Vec<Option<Chunk>> = Vec::new();
    assert!(!is_chunk(0, 0, 0, &none));
    assert!(!is_blocked(0, 0, 0, &none));
    assert_eq!(light(0, 0, 0, 0, &none), 0);
}

#[test]
fn lookups_cross_into_neighbour_chunks() {
    let center = Chunk::empty(0, 0, 0);
    let mut right = Chunk::empty(1, 0, 0);
    right.voxels[cell(0, 4, 4)].id = 1;
    right.light_map.set(1, 4, 4, 0, 12);
    let mut below = Chunk::empty(0, -1, 0);
    below.voxels[cell(7, 15, 7)].id = 2;
    let mut chunks = neighborhood(&center);
    chunks[14] = Some(right);
    chunks[4] = Some(below);
    assert!(is_blocked(16, 4, 4, &chunks));
    assert!(!is_blocked(17, 4, 4, &chunks));
    assert_eq!(light(17, 4, 4, 0, &chunks), 12);
    assert!(is_blocked(7, -1, 7, &chunks));
    assert!(!is_blocked(7, -2, 7, &chunks));
}

#[test]
fn vertex_appends_nine_values() {
    let mut buffer = vec![7];
    vertex(&mut buffer, 1, 2, 3, 4, 5, 6, 7, 8, 9);
    assert_eq!(buffer, vec![7, 1, 2, 3, 4, 5, 6, 7, 8, 9]);
    assert_eq!(VERTEX_SIZE, 9);
}

#[test]
fn air_chunk_yields_empty_buffer() {
    let chunk = Chunk::empty(0, 0, 0);
    let mut renderer = VoxelRenderer::new(16);
    assert_eq!(renderer.render(&chunk, &neighborhood(&chunk)), 0);
    assert_eq!(renderer.buffer().len(), 0);
    assert_eq!(renderer.render(&chunk, &Vec::new()), 0);
    assert_eq!(renderer.buffer().len(), 0);
}

#[test]
fn isolated_voxel_emits_six_faces() {
    let mut chunk = Chunk::empty(0, 0, 0);
    chunk.voxels[cell(8, 8, 8)].id = 1;
    let mut renderer = VoxelRenderer::new(0);
    assert_eq!(renderer.render(&chunk, &neighborhood(&chunk)), 36);
    assert_eq!(renderer.buffer().len(), 36 * 9);
}

#[test]
fn isolated_voxel_at_chunk_corner_emits_six_faces() {
    let mut chunk = Chunk::empty(0, 0, 0);
    chunk.voxels[cell(0, 0, 0)].id = 1;
    chunk.voxels[cell(15, 15, 15)].id = 1;
    let mut renderer = VoxelRenderer::new(2);
    assert_eq!(renderer.render(&chunk, &neighborhood(&chunk)), 72);
    let mut full: Vec<Option<Chunk>> = Vec::new();
    for i in 0..27isize {
        full.push(Some(Chunk::empty(i % 3 - 1, i / 9 - 1, (i / 3) % 3 - 1)));
    }
    full[13] = Some(chunk.clone());
    assert_eq!(renderer.render(&chunk, &full), 72);
}

#[test]
fn enclosed_voxel_emits_no_faces() {
    let mut chunk = Chunk::empty(0, 0, 0);
    for (x, y, z) in [(8, 8, 8), (9, 8, 8), (7, 8, 8), (8, 9, 8), (8, 7, 8), (8, 8, 9), (8, 8, 7)] {
        chunk.voxels[cell(x, y, z)].id = 1;
    }
    let mut renderer = VoxelRenderer::new(64);
    let count = renderer.render(&chunk, &neighborhood(&chunk));
    assert_eq!(count, 6 * 5 * 6);
    let with_center = renderer.buffer().clone();
    chunk.voxels[cell(8, 8, 8)].id = 0;
    assert_eq!(renderer.render(&chunk, &neighborhood(&chunk)), 6 * 6 * 6);
    let without_center = renderer.buffer().clone();
    // every face that the enclosed voxel leaves in the mesh belongs to a neighbour
    let faces = |b: &Vec<i32>| -> Vec<Vec<i32>> { b.chunks(54).map(|f| f[0..3].to_vec()).collect() };
    let open = faces(&without_center);
    for first in faces(&with_center) {
        assert!(open.contains(&first));
    }
}

#[test]
fn full_chunk_shows_only_its_hull() {
    let mut chunk = Chunk::empty(0, 0, 0);
    for i in 0..4096 {
        chunk.voxels[i].id = 1;
    }
    let mut renderer = VoxelRenderer::new(16 * 16 * 6);
    assert_eq!(renderer.render(&chunk, &neighborhood(&chunk)), 6 * 16 * 16 * 6);
    let mut full = neighborhood(&chunk);
    for slot in [4usize, 10, 12, 14, 16, 22] {
        full[slot] = Some(chunk.clone());
    }
    assert_eq!(renderer.render(&chunk, &full), 0);
    full[14] = None;
    assert_eq!(renderer.render(&chunk, &full), 16 * 16 * 6);
}

#[test]
fn buffer_is_cleared_between_renders() {
    let mut solid = Chunk::empty(0, 0, 0);
    solid.voxels[cell(1, 1, 1)].id = 1;
    let air = Chunk::empty(0, 0, 0);
    let mut renderer = VoxelRenderer::new(1);
    assert_eq!(renderer.render(&solid, &neighborhood(&solid)), 36);
    assert_eq!(renderer.render(&solid, &neighborhood(&solid)), 36);
    assert_eq!(renderer.buffer().len(), 324);
    assert_eq!(renderer.render(&air, &neighborhood(&air)), 0);
    assert_eq!(renderer.buffer().len(), 0);
}

#[test]
fn self_slot_decides_visibility() {
    let mut chunk = Chunk::empty(0, 0, 0);
    chunk.voxels[cell(3, 3, 3)].id = 1;
    chunk.voxels[cell(4, 3, 3)].id = 1;
    let mut renderer = VoxelRenderer::new(2);
    assert_eq!(renderer.render(&chunk, &neighborhood(&chunk)), 10 * 6);
    assert_eq!(renderer.render(&chunk, &Vec::new()), 12 * 6);
}

#[test]
fn top_face_vertices_are_exact() {
    let mut chunk = Chunk::empty(0, 0, 0);
    chunk.voxels[cell(2, 3, 4)].id = 18;
    chunk.light_map.set(2, 4, 4, 0, 15);
    chunk.light_map.set(1, 4, 4, 0, 10);
    chunk.light_map.set(1, 4, 3, 0, 5);
    chunk.light_map.set(2, 4, 3, 0, 1);
    chunk.light_map.set(2, 4, 4, 3, 7);
    let mut renderer = VoxelRenderer::new(6);
    assert_eq!(renderer.render(&chunk, &neighborhood(&chunk)), 36);
    let buffer = renderer.buffer();
    // block 18 is the third tile of the second row: u in 2..3, v in 14..15 sixteenths
    assert_eq!(buffer[0..9], [3, 7, 7, 3, 14, 10 + 30 + 5 + 1, 0, 0, 14]);
    assert_eq!(buffer[9..18], [3, 7, 9, 3, 15, 10 + 30, 0, 0, 14]);
    assert_eq!(buffer[18..27], [5, 7, 9, 2, 15, 30, 0, 0, 14]);
    assert_eq!(buffer[27..36], buffer[0..9]);
    assert_eq!(buffer[36..45], buffer[18..27]);
    assert_eq!(buffer[45..54], [5, 7, 7, 2, 14, 30 + 1, 0, 0, 14]);
}

#[test]
fn faces_come_in_fixed_order_with_their_winding() {
    let mut chunk = Chunk::empty(0, 0, 0);
    chunk.voxels[cell(0, 0, 0)].id = 1;
    let mut renderer = VoxelRenderer::new(6);
    renderer.render(&chunk, &neighborhood(&chunk));
    let b = renderer.buffer();
    let corner = |v: usize| (b[v * 9], b[v * 9 + 1], b[v * 9 + 2], b[v * 9 + 3], b[v * 9 + 4]);
    // +y
    assert_eq!(corner(0), (-1, 1, -1, 2, 15));
    assert_eq!(corner(1), (-1, 1, 1, 2, 16));
    assert_eq!(corner(2), (1, 1, 1, 1, 16));
    assert_eq!(corner(5), (1, 1, -1, 1, 15));
    // -y
    assert_eq!(corner(6), (-1, -1, -1, 1, 15));
    assert_eq!(corner(7), (1, -1, 1, 2, 16));
    assert_eq!(corner(8), (-1, -1, 1, 1, 16));
    assert_eq!(corner(10), (1, -1, -1, 2, 15));
    assert_eq!(corner(11), corner(7));
    // +x
    assert_eq!(corner(12), (1, -1, -1, 2, 15));
    assert_eq!(corner(13), (1, 1, -1, 2, 16));
    assert_eq!(corner(14), (1, 1, 1, 1, 16));
    assert_eq!(corner(17), (1, -1, 1, 1, 15));
    // -x
    assert_eq!(corner(18), (-1, -1, -1, 1, 15));
    assert_eq!(corner(19), (-1, 1, 1, 2, 16));
    assert_eq!(corner(20), (-1, 1, -1, 1, 16));
    assert_eq!(corner(22), (-1, -1, 1, 2, 15));
    // +z
    assert_eq!(corner(24), (-1, -1, 1, 1, 15));
    assert_eq!(corner(25), (1, 1, 1, 2, 16));
    assert_eq!(corner(26), (-1, 1, 1, 1, 16));
    assert_eq!(corner(28), (1, -1, 1, 2, 15));
    // -z
    assert_eq!(corner(30), (-1, -1, -1, 2, 15));
    assert_eq!(corner(31), (-1, 1, -1, 2, 16));
    assert_eq!(corner(32), (1, 1, -1, 1, 16));
    assert_eq!(corner(35), (1, -1, -1, 1, 15));
}

#[test]
fn corner_light_reads_across_the_chunk_seam() {
    let mut chunk = Chunk::empty(0, 0, 0);
    chunk.voxels[cell(15, 5, 5)].id = 255;
    let mut right = Chunk::empty(1, 0, 0);
    for channel in 0..4 {
        right.light_map.set(0, 5, 5, channel, 15);
        right.light_map.set(0, 4, 5, channel, 15);
        right.light_map.set(0, 4, 4, channel, 15);
        right.light_map.set(0, 5, 4, channel, 15);
    }
    let mut chunks = neighborhood(&chunk);
    chunks[14] = Some(right);
    let mut renderer = VoxelRenderer::new(6);
    renderer.render(&chunk, &chunks);
    let b = renderer.buffer();
    // first vertex of +x: corner (y-, z-), fully lit
    let v = 12 * 9;
    assert_eq!(b[v..v + 9], [31, 9, 9, 16, 0, 75, 75, 75, 75]);
    // third vertex of +x: corner (y+, z+), only the voxel in front is lit
    let v = 14 * 9;
    assert_eq!(b[v..v + 9], [31, 11, 11, 15, 1, 30, 30, 30, 30]);
}

#[test]
fn mesh_through_world_neighbourhood_hides_faces_across_seams() {
    let mut world = voxel_craft::voxels::Chunks::new(2, 1, 1).unwrap();
    world.set(15, 4, 4, 1);
    world.set(16, 4, 4, 1);
    world.set_light(17, 4, 4, 0, 15);
    let mut renderer = VoxelRenderer::new(12);
    let left = world.neighborhood(0, 0, 0);
    let count = renderer.render(world.chunk_at(0, 0, 0).unwrap(), &left);
    assert_eq!(count, 5 * 6);
    let right = world.neighborhood(1, 0, 0);
    let count = renderer.render(world.chunk_at(1, 0, 0).unwrap(), &right);
    assert_eq!(count, 5 * 6);
    // the voxel is the first of its chunk; its +x face is the third emitted
    let b = renderer.buffer();
    let v = 12 * 9;
    assert_eq!(b[v..v + 3], [1, 7, 7]);
    assert_eq!(b[v + 5], 30);
}

#[test]
fn every_face_has_exact_vertices_in_uneven_light() {
    let mut chunk = Chunk::empty(0, 0, 0);
    chunk.voxels[cell(5, 6, 7)].id = 37;
    for dy in -1i32..=1 {
        for dz in -1i32..=1 {
            for dx in -1i32..=1 {
                for channel in 0..4i32 {
                    let level = (3 * dx + 5 * dy + 7 * dz + 11 * channel + 40) % 16;
                    chunk.light_map.set(
                        (5 + dx) as usize,
                        (6 + dy) as usize,
                        (7 + dz) as usize,
                        channel as usize,
                        level as u8,
                    );
                }
            }
        }
    }
    let mut renderer = VoxelRenderer::new(6);
    assert_eq!(renderer.render(&chunk, &neighborhood(&chunk)), 36);
    // nine values per vertex, six vertices per face, faces +y, -y, +x, -x, +z, -z
    let expected: Vec<i32> = vec![
        9, 13, 13, 6, 13, 45, 36, 27, 50,
        9, 13, 15, 6, 14, 41, 48, 23, 46,
        11, 13, 15, 5, 14, 37, 44, 35, 42,
        9, 13, 13, 6, 13, 45, 36, 27, 50,
        11, 13, 15, 5, 14, 37, 44, 35, 42,
        11, 13, 13, 5, 13, 41, 32, 39, 46,
        9, 11, 13, 5, 13, 27, 50, 41, 32,
        11, 11, 15, 6, 14, 35, 42, 33, 40,
        9, 11, 15, 5, 14, 23, 46, 37, 28,
        9, 11, 13, 5, 13, 27, 50, 41, 32,
        11, 11, 13, 6, 13, 39, 46, 37, 28,
        11, 11, 15, 6, 14, 35, 42, 33, 40,
        11, 11, 13, 6, 13, 47, 38, 29, 36,
        11, 13, 13, 6, 14, 35, 42, 33, 40,
        11, 13, 15, 5, 14, 31, 38, 29, 36,
        11, 11, 13, 6, 13, 47, 38, 29, 36,
        11, 13, 15, 5, 14, 31, 38, 29, 36,
        11, 11, 15, 5, 13, 43, 34, 25, 48,
        9, 11, 13, 5, 13, 33, 24, 47, 38,
        9, 13, 15, 6, 14, 33, 24, 31, 38,
        9, 13, 13, 5, 14, 37, 28, 35, 42,
        9, 11, 13, 5, 13, 33, 24, 47, 38,
        9, 11, 15, 6, 13, 29, 20, 43, 34,
        9, 13, 15, 6, 14, 33, 24, 31, 38,
        9, 11, 15, 5, 13, 59, 34, 25, 32,
        11, 13, 15, 6, 14, 43, 50, 41, 16,
        9, 13, 15, 5, 14, 47, 54, 29, 20,
        9, 11, 15, 5, 13, 59, 34, 25, 32,
        11, 11, 15, 6, 13, 55, 46, 21, 28,
        11, 13, 15, 6, 14, 43, 50, 41, 16,
        9, 11, 13, 6, 13, 37, 44, 35, 42,
        9, 13, 13, 6, 14, 25, 48, 39, 30,
        11, 13, 13, 5, 14, 21, 44, 51, 26,
        9, 11, 13, 6, 13, 37, 44, 35, 42,
        11, 13, 13, 5, 14, 21, 44, 51, 26,
        11, 11, 13, 5, 13, 33, 56, 31, 22,
    ];
    assert_eq!(renderer.buffer(), &expected);
}
