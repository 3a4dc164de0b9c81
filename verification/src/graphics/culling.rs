//! Face culling: how much of a voxel reaches the mesh.
use vstd::prelude::*;
use crate::graphics::voxel_renderer::{
    cell_pos, face_vertices, face_visible, mesh, mesh_prefix, vertex_values, voxel_faces,
    voxel_mesh, VERTEX_SIZE,
};
use crate::graphics::voxel_renderer::{blocked, in_neighborhood, light_at};
use crate::voxels::chunk::Chunk;
use crate::voxels::chunks::{
    chunk_of, is_neighborhood, lattice_index, lemma_lattice_index, slot_offset, valid_layout,
    world_of, Pos,
};

verus! {

/// The number of faces among the first `n` of the voxel at `p` that no
/// solid voxel hides.
pub open spec fn visible_faces(chunks: Seq<Option<Chunk>>, p: Pos, n: int) -> int
    decreases n,
{
    if n <= 0 {
        0
    } else if face_visible(chunks, p, n - 1) {
        visible_faces(chunks, p, n - 1) + 1
    } else {
        visible_faces(chunks, p, n - 1)
    }
}

/// A face has nine values for each of its vertices.
pub proof fn lemma_face_len(chunks: Seq<Option<Chunk>>, p: Pos, id: u8, f: int, k: int)
    requires
        0 <= k,
    ensures
        face_vertices(chunks, p, id, f, k).len() == VERTEX_SIZE * k,
    decreases k,
{
    if k > 0 {
        reveal(vertex_values);
        lemma_face_len(chunks, p, id, f, k - 1);
    }
}

/// A block's part of the mesh holds six vertices for each visible face and
/// nothing else.
pub proof fn lemma_voxel_faces_len(chunks: Seq<Option<Chunk>>, p: Pos, id: u8, n: int)
    requires
        0 <= n,
    ensures
        voxel_faces(chunks, p, id, n).len() == 6 * VERTEX_SIZE * visible_faces(chunks, p, n),
        0 <= visible_faces(chunks, p, n) <= n,
    decreases n,
{
    if n > 0 {
        lemma_voxel_faces_len(chunks, p, id, n - 1);
        lemma_face_len(chunks, p, id, n - 1, 6);
    }
}

/// Face culling, hidden side: a voxel whose six neighbours are all solid
/// adds nothing to the mesh.
pub proof fn lemma_enclosed_voxel_emits_nothing(chunk: Chunk, chunks: Seq<Option<Chunk>>, i: int)
    requires
        0 <= i < 4096,
        forall|f: int| 0 <= f < 6 ==> !face_visible(chunks, cell_pos(i), f),
    ensures
        voxel_mesh(chunk, chunks, i).len() == 0,
{
    let p = cell_pos(i);
    let id = chunk.voxels@[i].id;
    assert(visible_faces(chunks, p, 6) == 0) by {
        reveal_with_fuel(visible_faces, 7);
    }
    lemma_voxel_faces_len(chunks, p, id, 6);
}

/// Face culling, open side: a block none of whose six neighbours is solid
/// adds exactly six faces, 36 vertices.
pub proof fn lemma_exposed_voxel_emits_six_faces(chunk: Chunk, chunks: Seq<Option<Chunk>>, i: int)
    requires
        0 <= i < 4096,
        chunk.voxels@[i].id != 0,
        forall|f: int| 0 <= f < 6 ==> face_visible(chunks, cell_pos(i), f),
    ensures
        voxel_mesh(chunk, chunks, i).len() == 36 * VERTEX_SIZE,
{
    let p = cell_pos(i);
    let id = chunk.voxels@[i].id;
    assert(visible_faces(chunks, p, 6) == 6) by {
        reveal_with_fuel(visible_faces, 7);
    }
    lemma_voxel_faces_len(chunks, p, id, 6);
}

/// Air is never meshed: while the first `n` cells hold air, the mesh is empty.
pub proof fn lemma_air_prefix(chunk: Chunk, chunks: Seq<Option<Chunk>>, n: int)
    requires
        0 <= n <= 4096,
        forall|i: int| 0 <= i < n ==> chunk.voxels@[i].id == 0,
    ensures
        mesh_prefix(chunk, chunks, n) == Seq::<i32>::empty(),
    decreases n,
{
    if n > 0 {
        lemma_air_prefix(chunk, chunks, n - 1);
        assert(mesh_prefix(chunk, chunks, n) =~= Seq::<i32>::empty());
    }
}

/// A chunk that holds only air has an empty vertex buffer, whatever
/// surrounds it.
pub proof fn lemma_air_chunk_empty_mesh(chunk: Chunk, chunks: Seq<Option<Chunk>>)
    requires
        forall|i: int| 0 <= i < 4096 ==> chunk.voxels@[i].id == 0,
    ensures
        mesh(chunk, chunks) == Seq::<i32>::empty(),
{
    lemma_air_prefix(chunk, chunks, 4096);
}

/// Meshing sees no seams: through the neighbourhood of the chunk at
/// `center`, the light and the blocks at `(x, y, z)`, counted from that
/// chunk's corner and up to one chunk beyond it, are those of the world at
/// that voxel.
#[verifier::rlimit(40)]
pub proof fn lemma_neighborhood_reads(
    w: int,
    h: int,
    d: int,
    chunks: Seq<Chunk>,
    center: Pos,
    around: Seq<Option<Chunk>>,
    x: int,
    y: int,
    z: int,
    channel: int,
)
    requires
        valid_layout(w, h, d, chunks),
        is_neighborhood(w, h, d, chunks, center, around),
        in_neighborhood(x, y, z),
    ensures
        ({
            let world = world_of(w, h, d, chunks);
            let p = Pos { x: 16 * center.x + x, y: 16 * center.y + y, z: 16 * center.z + z };
            &&& light_at(around, x, y, z, channel) == world.light(p, channel)
            &&& blocked(around, x, y, z) == (world.voxel(p) matches Some(id) && id != 0)
        }),
{
    let p = Pos { x: 16 * center.x + x, y: 16 * center.y + y, z: 16 * center.z + z };
    let i = ((y / 16 + 1) * 3 + z / 16 + 1) * 3 + x / 16 + 1;
    assert(0 <= i < 27);
    let o = slot_offset(i);
    assert(o == Pos { x: x / 16, y: y / 16, z: z / 16 });
    let c = Pos { x: center.x + o.x, y: center.y + o.y, z: center.z + o.z };
    assert(c == chunk_of(p));
    assert(p.x % 16 == x % 16 && p.y % 16 == y % 16 && p.z % 16 == z % 16);
    match around[i] {
        Some(k) => {
            lemma_lattice_index(w, h, d, c, c);
        },
        None => {},
    }
}

} // verus!
