//! The mesh of a chunk: which faces are visible, and the position, texture
//! coordinates and light of their vertices.
use vstd::prelude::*;
use vstd::arithmetic::div_mod::{
    lemma_fundamental_div_mod, lemma_fundamental_div_mod_converse, lemma_mod_bound,
};
use crate::voxels::chunk::{cell_index, Chunk, CHUNK_D, CHUNK_H, CHUNK_W};
use crate::voxels::chunks::Pos;
use crate::voxels::voxel::Voxel;

verus! {

/// Values per vertex: position (3), texture coordinates (2), light (4).
pub const VERTEX_SIZE: usize = 9;

/// Floor division of `x` by a positive `a`.
pub fn cdiv(x: isize, a: isize) -> (r: isize)
    requires
        a > 0,
    ensures
        r == x as int / a as int,
{
    if x < 0 {
        let m: isize = -(x + 1);
        proof {
            let q = m as int / a as int;
            let r = m as int % a as int;
            lemma_fundamental_div_mod(m as int, a as int);
            lemma_mod_bound(m as int, a as int);
            assert((-q - 1) * a + (a - r - 1) == x) by (nonlinear_arith)
                requires
                    m == a * q + r,
                    x == -m - 1,
            ;
            lemma_fundamental_div_mod_converse(x as int, a as int, -q - 1, a - r - 1);
            assert(0 <= q <= m) by (nonlinear_arith)
                requires
                    m == a * q + r,
                    0 <= r < a,
                    0 <= m,
            ;
        }
        -(m / a) - 1
    } else {
        x / a
    }
}

/// Brings a coordinate that lies up to one chunk below the chunk back into it.
pub fn local_neg(x: isize, size: isize) -> (r: isize)
    requires
        size > 0,
    ensures
        r == if x < 0 {
            size + x
        } else {
            x as int
        },
{
    if x < 0 {
        size + x
    } else {
        x
    }
}

/// Brings a coordinate that lies up to one chunk beside the chunk back into
/// it: on that range, the coordinate modulo the chunk size.
pub fn local(x: isize, size: isize) -> (r: isize)
    requires
        size > 0,
    ensures
        r == if x >= size {
            x - size
        } else if x < 0 {
            size + x
        } else {
            x as int
        },
        -size <= x < 2 * size ==> r == x as int % size as int,
{
    proof {
        if -size <= x < 2 * size {
            let s = size as int;
            let v = x as int;
            if v >= s {
                assert(v % s == v - s) by (nonlinear_arith)
                    requires
                        s <= v < 2 * s,
                ;
            } else if v < 0 {
                assert(v % s == s + v) by (nonlinear_arith)
                    requires
                        -s <= v < 0,
                ;
            } else {
                assert(v % s == v) by (nonlinear_arith)
                    requires
                        0 <= v < s,
                ;
            }
        }
    }
    if x >= size {
        x - size
    } else {
        local_neg(x, size)
    }
}

/// Whether `(x, y, z)`, in the coordinates of the meshed chunk, lies in that
/// chunk or in one of the 26 chunks around it.
pub open spec fn in_neighborhood(x: int, y: int, z: int) -> bool {
    -16 <= x < 32 && -16 <= y < 32 && -16 <= z < 32
}

/// The slot of the 3 x 3 x 3 neighbourhood that owns `(x, y, z)`; the
/// meshed chunk itself has slot 13.
pub open spec fn slot_index(x: int, y: int, z: int) -> int {
    ((y / 16 + 1) * 3 + z / 16 + 1) * 3 + x / 16 + 1
}

/// The chunk of the neighbourhood that owns `(x, y, z)`, if it is loaded.
pub open spec fn chunk_at(chunks: Seq<Option<Chunk>>, x: int, y: int, z: int) -> Option<Chunk> {
    if in_neighborhood(x, y, z) && slot_index(x, y, z) < chunks.len() {
        chunks[slot_index(x, y, z)]
    } else {
        None
    }
}

/// The light of `channel` at `(x, y, z)`; dark where no chunk is loaded.
pub open spec fn light_at(chunks: Seq<Option<Chunk>>, x: int, y: int, z: int, channel: int) -> u8 {
    match chunk_at(chunks, x, y, z) {
        Some(k) => k.light_map.light(x % 16, y % 16, z % 16, channel),
        None => 0,
    }
}

/// The voxel at `(x, y, z)`, or `None` where no chunk is loaded.
pub open spec fn voxel_at(chunks: Seq<Option<Chunk>>, x: int, y: int, z: int) -> Option<Voxel> {
    match chunk_at(chunks, x, y, z) {
        Some(k) => Some(k.voxels@[cell_index(x % 16, y % 16, z % 16)]),
        None => None,
    }
}

/// Whether a solid voxel sits at `(x, y, z)`. Where no chunk is loaded
/// there is nothing solid.
pub open spec fn blocked(chunks: Seq<Option<Chunk>>, x: int, y: int, z: int) -> bool {
    match voxel_at(chunks, x, y, z) {
        Some(v) => v.id != 0,
        None => false,
    }
}

/// Whether a chunk of the neighbourhood is loaded at `(x, y, z)`.
pub fn is_chunk(x: isize, y: isize, z: isize, chunks: &[Option<Chunk>]) -> (r: bool)
    ensures
        r == chunk_at(chunks@, x as int, y as int, z as int).is_some(),
{
    get_chunk(x, y, z, chunks).is_some()
}

/// The chunk of the neighbourhood that owns `(x, y, z)`, if it is loaded.
pub fn get_chunk(x: isize, y: isize, z: isize, chunks: &[Option<Chunk>]) -> (r: Option<&Chunk>)
    ensures
        match r {
            Some(k) => chunk_at(chunks@, x as int, y as int, z as int) == Some(*k),
            None => chunk_at(chunks@, x as int, y as int, z as int).is_none(),
        },
{
    if x < -16 || x >= 32 || y < -16 || y >= 32 || z < -16 || z >= 32 {
        return None;
    }
    let index: isize = ((cdiv(y, CHUNK_H) + 1) * 3 + cdiv(z, CHUNK_D) + 1) * 3 + cdiv(x, CHUNK_W)
        + 1;
    if index >= 0 && (index as usize) < chunks.len() {
        chunks[index as usize].as_ref()
    } else {
        None
    }
}

/// The light of `channel` at `(x, y, z)`; 0 where no chunk is loaded.
pub fn light(x: isize, y: isize, z: isize, channel: usize, chunks: &[Option<Chunk>]) -> (r: u8)
    requires
        channel < 4,
    ensures
        r == light_at(chunks@, x as int, y as int, z as int, channel as int),
        r <= 15,
{
    if let Some(chunk) = get_chunk(x, y, z, chunks) {
        chunk.light_map.get(
            local(x, CHUNK_W) as usize,
            local(y, CHUNK_H) as usize,
            local(z, CHUNK_D) as usize,
            channel,
        )
    } else {
        0
    }
}

/// The voxel at `(x, y, z)`, or `None` where no chunk is loaded.
pub fn voxel(x: isize, y: isize, z: isize, chunks: &[Option<Chunk>]) -> (r: Option<&Voxel>)
    ensures
        match r {
            Some(v) => voxel_at(chunks@, x as int, y as int, z as int) == Some(*v),
            None => voxel_at(chunks@, x as int, y as int, z as int).is_none(),
        },
{
    if let Some(chunk) = get_chunk(x, y, z, chunks) {
        let lx: usize = local(x, CHUNK_W) as usize;
        let ly: usize = local(y, CHUNK_H) as usize;
        let lz: usize = local(z, CHUNK_D) as usize;
        Some(&chunk.voxels[(ly * 16 + lz) * 16 + lx])
    } else {
        None
    }
}

/// Whether a solid voxel sits at `(x, y, z)`: a face that looks at it is hidden.
pub fn is_blocked(x: isize, y: isize, z: isize, chunks: &[Option<Chunk>]) -> (r: bool)
    ensures
        r == blocked(chunks@, x as int, y as int, z as int),
{
    match voxel(x, y, z, chunks) {
        Some(v) => v.id != 0,
        None => false,
    }
}

/// Appends one vertex: position, texture coordinates and the four light channels.
pub fn vertex(
    buffer: &mut Vec<i32>,
    x: i32,
    y: i32,
    z: i32,
    u: i32,
    v: i32,
    r: i32,
    g: i32,
    b: i32,
    s: i32,
)
    ensures
        final(buffer)@ == old(buffer)@ + seq![x, y, z, u, v, r, g, b, s],
{
    buffer.push(x);
    buffer.push(y);
    buffer.push(z);
    buffer.push(u);
    buffer.push(v);
    buffer.push(r);
    buffer.push(g);
    buffer.push(b);
    buffer.push(s);
    assert(final(buffer)@ =~= old(buffer)@ + seq![x, y, z, u, v, r, g, b, s]);
}

/// The sum of two grid vectors.
pub open spec fn plus(a: Pos, b: Pos) -> Pos {
    Pos { x: a.x + b.x, y: a.y + b.y, z: a.z + b.z }
}

/// The grid vector `a` doubled.
pub open spec fn twice(a: Pos) -> Pos {
    Pos { x: 2 * a.x, y: 2 * a.y, z: 2 * a.z }
}

/// The unit step along `axis` in the direction of `sign`.
pub open spec fn toward(sign: int, axis: Pos) -> Pos {
    if sign < 0 {
        Pos { x: -axis.x, y: -axis.y, z: -axis.z }
    } else {
        axis
    }
}

/// The outward normal of face `f`. Faces are numbered in the order in which
/// they are emitted: +y, -y, +x, -x, +z, -z.
pub open spec fn face_normal(f: int) -> Pos {
    if f == 0 {
        Pos { x: 0, y: 1, z: 0 }
    } else if f == 1 {
        Pos { x: 0, y: -1, z: 0 }
    } else if f == 2 {
        Pos { x: 1, y: 0, z: 0 }
    } else if f == 3 {
        Pos { x: -1, y: 0, z: 0 }
    } else if f == 4 {
        Pos { x: 0, y: 0, z: 1 }
    } else {
        Pos { x: 0, y: 0, z: -1 }
    }
}

/// The in-plane axis of face `f` along which the texture's `u` runs: z on
/// the x faces, x on the others.
pub open spec fn face_u_axis(f: int) -> Pos {
    if f == 2 || f == 3 {
        Pos { x: 0, y: 0, z: 1 }
    } else {
        Pos { x: 1, y: 0, z: 0 }
    }
}

/// The in-plane axis of face `f` along which the texture's `v` runs: z on
/// the y faces, y on the others.
pub open spec fn face_v_axis(f: int) -> Pos {
    if f == 0 || f == 1 {
        Pos { x: 0, y: 0, z: 1 }
    } else {
        Pos { x: 0, y: 1, z: 0 }
    }
}

/// Whether `u` runs against its axis on face `f`: on +y, +x and -z.
pub open spec fn face_flipped(f: int) -> bool {
    f == 0 || f == 2 || f == 5
}

/// The corner of the `k`-th of a face's six vertices, as signs along the
/// face's `u` and `v` axes. The two triangles share the diagonal from
/// (-1, -1) to (1, 1); the order of the other two corners depends on
/// whether the face is flipped.
pub open spec fn corner_signs(flipped: bool, k: int) -> (int, int) {
    if flipped {
        if k == 0 || k == 3 {
            (-1, -1)
        } else if k == 1 {
            (-1, 1)
        } else if k == 2 || k == 4 {
            (1, 1)
        } else {
            (1, -1)
        }
    } else {
        if k == 0 || k == 3 {
            (-1, -1)
        } else if k == 1 || k == 5 {
            (1, 1)
        } else if k == 2 {
            (-1, 1)
        } else {
            (1, -1)
        }
    }
}

/// The light of `channel` at the grid position `p` of the neighbourhood.
pub open spec fn sample(chunks: Seq<Option<Chunk>>, p: Pos, channel: int) -> int {
    light_at(chunks, p.x, p.y, p.z, channel) as int
}

/// The light of a face corner, in 75ths of full brightness. `o` is the
/// voxel in front of the face, `du` and `dv` lead from it to the two
/// in-plane neighbours at the corner. Four samples are summed: the two
/// neighbours, the diagonal one, and the voxel in front, which is
/// normalised by 15 and weighted by 30.
#[verifier::opaque]
pub open spec fn corner_light(
    chunks: Seq<Option<Chunk>>,
    o: Pos,
    du: Pos,
    dv: Pos,
    channel: int,
) -> int {
    sample(chunks, plus(o, du), channel) + (30 * sample(chunks, o, channel)) / 15 + sample(
        chunks,
        plus(plus(o, du), dv),
        channel,
    ) + sample(chunks, plus(o, dv), channel)
}

/// The nine values of the `k`-th vertex of face `f` of the voxel at `p`
/// with block `id`: the position in half voxels (the voxel's centre is at
/// `2 * p`), the texture coordinates in sixteenths of the atlas (tile
/// `id % 16` from the left, tile `id / 16` from the top, `v` growing
/// upwards), and the corner light of the four channels in 75ths.
#[verifier::opaque]
pub open spec fn vertex_values(chunks: Seq<Option<Chunk>>, p: Pos, id: u8, f: int, k: int) -> Seq<
    i32,
> {
    let n = face_normal(f);
    let signs = corner_signs(face_flipped(f), k);
    let du = toward(signs.0, face_u_axis(f));
    let dv = toward(signs.1, face_v_axis(f));
    let o = plus(p, n);
    let at = plus(plus(plus(twice(p), n), du), dv);
    let right: int = if face_flipped(f) == (signs.0 < 0) {
        1
    } else {
        0
    };
    let up: int = if signs.1 > 0 {
        1
    } else {
        0
    };
    seq![
        at.x as i32,
        at.y as i32,
        at.z as i32,
        (id % 16 + right) as i32,
        (15 - id / 16 + up) as i32,
        corner_light(chunks, o, du, dv, 0) as i32,
        corner_light(chunks, o, du, dv, 1) as i32,
        corner_light(chunks, o, du, dv, 2) as i32,
        corner_light(chunks, o, du, dv, 3) as i32,
    ]
}

/// The first `k` vertices of a face.
pub open spec fn face_vertices(chunks: Seq<Option<Chunk>>, p: Pos, id: u8, f: int, k: int) -> Seq<
    i32,
>
    decreases k,
{
    if k <= 0 {
        Seq::empty()
    } else {
        face_vertices(chunks, p, id, f, k - 1) + vertex_values(chunks, p, id, f, k - 1)
    }
}

/// Whether face `f` of the voxel at `p` can be seen: no solid voxel sits in
/// front of it.
pub open spec fn face_visible(chunks: Seq<Option<Chunk>>, p: Pos, f: int) -> bool {
    let o = plus(p, face_normal(f));
    !blocked(chunks, o.x, o.y, o.z)
}

/// The visible ones of the first `n` faces of a solid voxel, two triangles each.
pub open spec fn voxel_faces(chunks: Seq<Option<Chunk>>, p: Pos, id: u8, n: int) -> Seq<i32>
    decreases n,
{
    if n <= 0 {
        Seq::empty()
    } else if face_visible(chunks, p, n - 1) {
        voxel_faces(chunks, p, id, n - 1) + face_vertices(chunks, p, id, n - 1, 6)
    } else {
        voxel_faces(chunks, p, id, n - 1)
    }
}

/// The local position of the cell with storage index `i`.
pub open spec fn cell_pos(i: int) -> Pos {
    Pos { x: i % 16, y: i / 256, z: (i / 16) % 16 }
}

/// Storage order is the order `(y, z, x)`.
pub proof fn lemma_cell_pos(x: int, y: int, z: int)
    requires
        0 <= x < 16 && 0 <= y < 16 && 0 <= z < 16,
    ensures
        cell_pos(y * 256 + z * 16 + x) == (Pos { x, y, z }),
        0 <= y * 256 + z * 16 + x < 4096,
{
}

/// What the cell with storage index `i` adds to the mesh: nothing for air,
/// the visible faces for a block.
pub open spec fn voxel_mesh(chunk: Chunk, chunks: Seq<Option<Chunk>>, i: int) -> Seq<i32> {
    let id = chunk.voxels@[i].id;
    if id == 0 {
        Seq::empty()
    } else {
        voxel_faces(chunks, cell_pos(i), id, 6)
    }
}

/// The mesh of the first `n` cells in storage order, which is the order
/// `(y, z, x)`.
pub open spec fn mesh_prefix(chunk: Chunk, chunks: Seq<Option<Chunk>>, n: int) -> Seq<i32>
    decreases n,
{
    if n <= 0 {
        Seq::empty()
    } else {
        mesh_prefix(chunk, chunks, n - 1) + voxel_mesh(chunk, chunks, n - 1)
    }
}

/// The vertex buffer of `chunk` seen in the neighbourhood `chunks`.
pub open spec fn mesh(chunk: Chunk, chunks: Seq<Option<Chunk>>) -> Seq<i32> {
    mesh_prefix(chunk, chunks, 4096)
}

/// A small step on the grid.
#[derive(Clone, Copy, Debug)]
pub struct Step {
    pub x: isize,
    pub y: isize,
    pub z: isize,
}

impl View for Step {
    type V = Pos;

    open spec fn view(&self) -> Pos {
        Pos { x: self.x as int, y: self.y as int, z: self.z as int }
    }
}

impl Step {
    /// Whether every component is -1, 0 or 1.
    pub open spec fn unit(&self) -> bool {
        -1 <= self.x <= 1 && -1 <= self.y <= 1 && -1 <= self.z <= 1
    }
}

/// The orientation of a face: its normal, the axes along which the
/// texture's `u` and `v` run, and whether `u` runs against its axis.
#[derive(Clone, Copy, Debug)]
pub struct Frame {
    pub normal: Step,
    pub u_axis: Step,
    pub v_axis: Step,
    pub flipped: bool,
}

impl Frame {
    /// Whether this is the frame of face `f`.
    pub open spec fn of_face(&self, f: int) -> bool {
        &&& self.normal@ == face_normal(f)
        &&& self.u_axis@ == face_u_axis(f)
        &&& self.v_axis@ == face_v_axis(f)
        &&& self.flipped == face_flipped(f)
        &&& self.normal.unit()
        &&& self.u_axis.unit()
        &&& self.v_axis.unit()
    }
}

/// The frame of face `f`.
pub fn face_frame(f: usize) -> (r: Frame)
    requires
        f < 6,
    ensures
        r.of_face(f as int),
{
    let x = Step { x: 1, y: 0, z: 0 };
    let y = Step { x: 0, y: 1, z: 0 };
    let z = Step { x: 0, y: 0, z: 1 };
    if f == 0 {
        Frame { normal: y, u_axis: x, v_axis: z, flipped: true }
    } else if f == 1 {
        Frame { normal: Step { x: 0, y: -1, z: 0 }, u_axis: x, v_axis: z, flipped: false }
    } else if f == 2 {
        Frame { normal: x, u_axis: z, v_axis: y, flipped: true }
    } else if f == 3 {
        Frame { normal: Step { x: -1, y: 0, z: 0 }, u_axis: z, v_axis: y, flipped: false }
    } else if f == 4 {
        Frame { normal: z, u_axis: x, v_axis: y, flipped: false }
    } else {
        Frame { normal: Step { x: 0, y: 0, z: -1 }, u_axis: x, v_axis: y, flipped: true }
    }
}

/// The corner of the `k`-th vertex of a face.
fn corner(flipped: bool, k: usize) -> (r: (isize, isize))
    requires
        k < 6,
    ensures
        (r.0 as int, r.1 as int) == corner_signs(flipped, k as int),
{
    if k == 0 || k == 3 {
        (-1, -1)
    } else if flipped {
        if k == 1 {
            (-1, 1)
        } else if k == 2 || k == 4 {
            (1, 1)
        } else {
            (1, -1)
        }
    } else {
        if k == 1 || k == 5 {
            (1, 1)
        } else if k == 2 {
            (-1, 1)
        } else {
            (1, -1)
        }
    }
}

/// The unit step along `axis` in the direction of `sign`.
fn step_toward(sign: isize, axis: Step) -> (r: Step)
    requires
        axis.unit(),
    ensures
        r@ == toward(sign as int, axis@),
        r.unit(),
{
    if sign < 0 {
        Step { x: -axis.x, y: -axis.y, z: -axis.z }
    } else {
        axis
    }
}

/// The light of one channel at a face corner.
fn corner_sum(chunks: &[Option<Chunk>], o: Step, du: Step, dv: Step, channel: usize) -> (r: i32)
    requires
        channel < 4,
        -1 <= o.x <= 16 && -1 <= o.y <= 16 && -1 <= o.z <= 16,
        du.unit(),
        dv.unit(),
    ensures
        r == corner_light(chunks@, o@, du@, dv@, channel as int),
        0 <= r <= 75,
{
    proof {
        reveal(corner_light);
    }
    let side_u: i32 = light(o.x + du.x, o.y + du.y, o.z + du.z, channel, chunks) as i32;
    let front: i32 = light(o.x, o.y, o.z, channel, chunks) as i32;
    let diagonal: i32 = light(
        o.x + du.x + dv.x,
        o.y + du.y + dv.y,
        o.z + du.z + dv.z,
        channel,
        chunks,
    ) as i32;
    let side_v: i32 = light(o.x + dv.x, o.y + dv.y, o.z + dv.z, channel, chunks) as i32;
    side_u + (30 * front) / 15 + diagonal + side_v
}

/// Appends the six vertices of face `f` of the voxel at `at`.
#[verifier::rlimit(40)]
fn emit_face(buffer: &mut Vec<i32>, chunks: &[Option<Chunk>], at: Step, id: u8, f: usize)
    requires
        0 <= at.x < 16 && 0 <= at.y < 16 && 0 <= at.z < 16,
        f < 6,
    ensures
        final(buffer)@ == old(buffer)@ + face_vertices(chunks@, at@, id, f as int, 6),
        final(buffer)@.len() == old(buffer)@.len() + 54,
{
    let frame = face_frame(f);
    let n = frame.normal;
    let o = Step { x: at.x + n.x, y: at.y + n.y, z: at.z + n.z };
    let u1: i32 = (id % 16) as i32;
    let v1: i32 = 15 - (id / 16) as i32;
    let mut k: usize = 0;
    while k < 6
        invariant
            k <= 6,
            f < 6,
            0 <= at.x < 16 && 0 <= at.y < 16 && 0 <= at.z < 16,
            frame.of_face(f as int),
            n == frame.normal,
            o@ == plus(at@, n@),
            u1 == id % 16,
            v1 == 15 - id / 16,
            buffer@ == old(buffer)@ + face_vertices(chunks@, at@, id, f as int, k as int),
            buffer@.len() == old(buffer)@.len() + 9 * k,
        decreases 6 - k,
    {
        let (su, sv) = corner(frame.flipped, k);
        let du = step_toward(su, frame.u_axis);
        let dv = step_toward(sv, frame.v_axis);
        let r = corner_sum(chunks, o, du, dv, 0);
        let g = corner_sum(chunks, o, du, dv, 1);
        let b = corner_sum(chunks, o, du, dv, 2);
        let s = corner_sum(chunks, o, du, dv, 3);
        let right: i32 = if frame.flipped == (su < 0) {
            1
        } else {
            0
        };
        let up: i32 = if sv > 0 {
            1
        } else {
            0
        };
        let ghost before = buffer@;
        vertex(
            buffer,
            (2 * at.x + n.x + du.x + dv.x) as i32,
            (2 * at.y + n.y + du.y + dv.y) as i32,
            (2 * at.z + n.z + du.z + dv.z) as i32,
            u1 + right,
            v1 + up,
            r,
            g,
            b,
            s,
        );
        proof {
            reveal(vertex_values);
            let added = vertex_values(chunks@, at@, id, f as int, k as int);
            assert(added.len() == 9);
            assert(buffer@ =~= before + added);
            assert(buffer@ =~= old(buffer)@ + face_vertices(
                chunks@,
                at@,
                id,
                f as int,
                k as int + 1,
            ));
        }
        k += 1;
    }
}

/// Appends the visible faces of the voxel at `at`; nothing for air.
fn emit_voxel(buffer: &mut Vec<i32>, chunks: &[Option<Chunk>], at: Step, id: u8)
    requires
        0 <= at.x < 16 && 0 <= at.y < 16 && 0 <= at.z < 16,
        old(buffer)@.len() % 54 == 0,
    ensures
        final(buffer)@ == old(buffer)@ + (if id == 0 {
            Seq::empty()
        } else {
            voxel_faces(chunks@, at@, id, 6)
        }),
        final(buffer)@.len() % 54 == 0,
{
    if id == 0 {
        assert(buffer@ =~= old(buffer)@ + Seq::<i32>::empty());
        return ;
    }
    let mut f: usize = 0;
    assert(buffer@ =~= old(buffer)@ + voxel_faces(chunks@, at@, id, 0));
    while f < 6
        invariant
            f <= 6,
            0 <= at.x < 16 && 0 <= at.y < 16 && 0 <= at.z < 16,
            buffer@ == old(buffer)@ + voxel_faces(chunks@, at@, id, f as int),
            buffer@.len() % 54 == 0,
        decreases 6 - f,
    {
        let n = face_frame(f).normal;
        if !is_blocked(at.x + n.x, at.y + n.y, at.z + n.z, chunks) {
            emit_face(buffer, chunks, at, id, f);
        }
        assert(buffer@ =~= old(buffer)@ + voxel_faces(chunks@, at@, id, f as int + 1));
        f += 1;
    }
}

/// Builds the vertex buffer of a chunk: two triangles for every face of a
/// block that no solid voxel hides, with texture coordinates and smoothed
/// light per vertex. The buffer is kept and reused from one call to the next.
pub struct VoxelRenderer {
    buffer: Vec<i32>,
}

impl View for VoxelRenderer {
    type V = Seq<i32>;

    /// The vertex buffer, nine values per vertex.
    closed spec fn view(&self) -> Seq<i32> {
        self.buffer@
    }
}

impl VoxelRenderer {
    /// A renderer with an empty buffer that has room for `capacity` faces.
    pub fn new(capacity: usize) -> (r: Self)
        requires
            capacity * VERTEX_SIZE * 6 <= usize::MAX,
        ensures
            r@ == Seq::<i32>::empty(),
    {
        Self { buffer: Vec::with_capacity(capacity * VERTEX_SIZE * 6) }
    }

    /// The vertex buffer of the last `render`.
    pub fn buffer(&self) -> (r: &Vec<i32>)
        ensures
            r@ == self@,
    {
        &self.buffer
    }

    /// Meshes `chunk`. `chunks` is its 3 x 3 x 3 neighbourhood, slot 13 being
    /// the chunk itself; a missing or empty slot hides nothing and is dark.
    /// Returns the number of vertices.
    pub fn render(&mut self, chunk: &Chunk, chunks: &Vec<Option<Chunk>>) -> (count: usize)
        ensures
            final(self)@ == mesh(*chunk, chunks@),
            final(self)@.len() == VERTEX_SIZE * count,
    {
        self.buffer.clear();
        let around: &[Option<Chunk>] = chunks.as_slice();
        let mut y: isize = 0;
        while y < 16
            invariant
                0 <= y <= 16,
                around@ == chunks@,
                self.buffer@ == mesh_prefix(*chunk, chunks@, y * 256),
                self.buffer@.len() % 54 == 0,
            decreases 16 - y,
        {
            let mut z: isize = 0;
            while z < 16
                invariant
                    0 <= y < 16,
                    0 <= z <= 16,
                    around@ == chunks@,
                    self.buffer@ == mesh_prefix(*chunk, chunks@, y * 256 + z * 16),
                    self.buffer@.len() % 54 == 0,
                decreases 16 - z,
            {
                let mut x: isize = 0;
                while x < 16
                    invariant
                        0 <= y < 16,
                        0 <= z < 16,
                        0 <= x <= 16,
                        around@ == chunks@,
                        self.buffer@ == mesh_prefix(*chunk, chunks@, y * 256 + z * 16 + x),
                        self.buffer@.len() % 54 == 0,
                    decreases 16 - x,
                {
                    let index: usize = (y * 256 + z * 16 + x) as usize;
                    let id: u8 = chunk.voxels[index].id;
                    let at = Step { x, y, z };
                    let ghost before = self.buffer@;
                    emit_voxel(&mut self.buffer, around, at, id);
                    proof {
                        lemma_cell_pos(x as int, y as int, z as int);
                        assert(self.buffer@ == before + voxel_mesh(*chunk, chunks@, index as int));
                        assert(mesh_prefix(*chunk, chunks@, index as int + 1) == mesh_prefix(
                            *chunk,
                            chunks@,
                            index as int,
                        ) + voxel_mesh(*chunk, chunks@, index as int));
                    }
                    x += 1;
                }
                z += 1;
            }
            y += 1;
        }
        self.buffer.len() / VERTEX_SIZE
    }
}

} // verus!
