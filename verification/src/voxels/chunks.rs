//! The world: a lattice of chunks, read and written by world position,
//! and its view as one flat grid.
use vstd::prelude::*;
use crate::lighting::light_map::{channel_of, lemma_with_channel, with_channel};
use crate::voxels::chunk::{cell_index, Chunk, CHUNK_VOL};
use crate::voxels::voxel::Voxel;

verus! {

/// Largest number of chunks along one axis: world coordinates then fit in 32 bits.
pub const MAX_SIDE: usize = 0x0800_0000;

/// A position on the integer grid: a voxel in world coordinates, or a chunk
/// in lattice coordinates.
pub ghost struct Pos {
    pub x: int,
    pub y: int,
    pub z: int,
}

/// The lattice position of the chunk that owns the voxel `p`, by floor division.
pub open spec fn chunk_of(p: Pos) -> Pos {
    Pos { x: p.x / 16, y: p.y / 16, z: p.z / 16 }
}

/// The storage index of voxel `p` inside its chunk.
pub open spec fn cell_of(p: Pos) -> int {
    ((p.y % 16) * 16 + p.z % 16) * 16 + p.x % 16
}

/// The storage index of the chunk at lattice position `c` in a world that is
/// `w` chunks wide and `d` chunks deep.
pub open spec fn lattice_index(w: int, d: int, c: Pos) -> int {
    (c.y * d + c.z) * w + c.x
}

/// Whether `c` lies in a lattice of `w` x `h` x `d` chunks.
pub open spec fn in_lattice(w: int, h: int, d: int, c: Pos) -> bool {
    0 <= c.x < w && 0 <= c.y < h && 0 <= c.z < d
}

/// The world as one flat grid: block ids and packed light words by voxel
/// position, and the modified flags by chunk position.
pub ghost struct World {
    pub w: nat,
    pub h: nat,
    pub d: nat,
    pub voxels: Map<Pos, u8>,
    pub lights: Map<Pos, u16>,
    pub modified: Map<Pos, bool>,
}

impl World {
    /// Whether a chunk backs the voxel `p`.
    pub open spec fn loaded(self, p: Pos) -> bool {
        in_lattice(self.w as int, self.h as int, self.d as int, chunk_of(p))
    }

    /// The maps are defined exactly on the loaded voxels and chunks.
    pub open spec fn wf(self) -> bool {
        &&& self.w <= MAX_SIDE
        &&& self.h <= MAX_SIDE
        &&& self.d <= MAX_SIDE
        &&& forall|p: Pos| self.voxels.dom().contains(p) <==> self.loaded(p)
        &&& forall|p: Pos| self.lights.dom().contains(p) <==> self.loaded(p)
        &&& forall|c: Pos|
            self.modified.dom().contains(c) <==> in_lattice(
                self.w as int,
                self.h as int,
                self.d as int,
                c,
            )
    }

    /// The block at `p`, or `None` where no chunk is loaded.
    pub open spec fn voxel(self, p: Pos) -> Option<u8> {
        if self.loaded(p) {
            Some(self.voxels[p])
        } else {
            None
        }
    }

    /// Whether light can enter `p`: a loaded voxel that holds air.
    pub open spec fn passable(self, p: Pos) -> bool {
        self.voxel(p) == Some(0u8)
    }

    /// The light of `channel` at `p`; dark where no chunk is loaded.
    pub open spec fn light(self, p: Pos, channel: int) -> u8 {
        if self.loaded(p) {
            channel_of(self.lights[p], channel)
        } else {
            0
        }
    }

    /// The world after writing the low four bits of `value` into `channel` at
    /// `p` and flagging the owning chunk; unchanged where no chunk is loaded.
    pub open spec fn with_light(self, p: Pos, channel: int, value: u8) -> World {
        if self.loaded(p) {
            World {
                lights: self.lights.insert(p, with_channel(self.lights[p], channel, value)),
                modified: self.modified.insert(chunk_of(p), true),
                ..self
            }
        } else {
            self
        }
    }

    /// The world after placing block `id` at `p` and flagging the owning
    /// chunk; unchanged where no chunk is loaded.
    pub open spec fn with_voxel(self, p: Pos, id: u8) -> World {
        if self.loaded(p) {
            World {
                voxels: self.voxels.insert(p, id),
                modified: self.modified.insert(chunk_of(p), true),
                ..self
            }
        } else {
            self
        }
    }

    /// What a light write changes and what it leaves alone: the written
    /// channel at `p` reads back the value masked to four bits; every other
    /// voxel and channel, all blocks and the set of loaded voxels stay as
    /// they were.
    pub proof fn lemma_with_light(self, p: Pos, channel: int, value: u8)
        requires
            0 <= channel < 4,
        ensures
            self.wf() ==> self.with_light(p, channel, value).wf(),
            forall|q: Pos| #[trigger]
                self.with_light(p, channel, value).loaded(q) == self.loaded(q),
            forall|q: Pos| #[trigger]
                self.with_light(p, channel, value).voxel(q) == self.voxel(q),
            forall|q: Pos, c: int|
                0 <= c < 4 ==> #[trigger] self.with_light(p, channel, value).light(q, c) == if q
                    == p && c == channel && self.loaded(p) {
                    (value % 16) as u8
                } else {
                    self.light(q, c)
                },
    {
        let n = self.with_light(p, channel, value);
        if self.wf() && self.loaded(p) {
            assert(in_lattice(self.w as int, self.h as int, self.d as int, chunk_of(p)));
            assert forall|q: Pos| n.lights.dom().contains(q) <==> n.loaded(q) by {
                assert(self.lights.dom().contains(q) <==> self.loaded(q));
            }
            assert forall|q: Pos| n.voxels.dom().contains(q) <==> n.loaded(q) by {
                assert(self.voxels.dom().contains(q) <==> self.loaded(q));
            }
            assert forall|c: Pos|
                n.modified.dom().contains(c) <==> in_lattice(
                    n.w as int,
                    n.h as int,
                    n.d as int,
                    c,
                ) by {
                assert(self.modified.dom().contains(c) <==> in_lattice(
                    self.w as int,
                    self.h as int,
                    self.d as int,
                    c,
                ));
            }
        }
        assert forall|q: Pos, c: int| 0 <= c < 4 implies #[trigger] n.light(q, c) == if q == p && c
            == channel && self.loaded(p) {
            (value % 16) as u8
        } else {
            self.light(q, c)
        } by {
            if self.loaded(p) {
                lemma_with_channel(self.lights[p], channel, value, c);
            }
        }
    }
}

/// `(c.y * d + c.z) * w + c.x` enumerates the lattice without gaps or repeats.
pub proof fn lemma_lattice_index(w: int, h: int, d: int, a: Pos, b: Pos)
    requires
        in_lattice(w, h, d, a),
        in_lattice(w, h, d, b),
    ensures
        0 <= lattice_index(w, d, a) < w * h * d,
        0 <= a.y * d + a.z < h * d,
        lattice_index(w, d, a) == lattice_index(w, d, b) ==> a == b,
{
    let ra = a.y * d + a.z;
    let rb = b.y * d + b.z;
    assert(0 <= ra < h * d && 0 <= rb < h * d) by (nonlinear_arith)
        requires
            0 <= a.y < h,
            0 <= a.z < d,
            0 <= b.y < h,
            0 <= b.z < d,
            ra == a.y * d + a.z,
            rb == b.y * d + b.z,
    ;
    assert(0 <= ra * w + a.x < w * h * d) by (nonlinear_arith)
        requires
            0 <= ra < h * d,
            0 <= a.x < w,
    ;
    if lattice_index(w, d, a) == lattice_index(w, d, b) {
        assert(ra == rb) by (nonlinear_arith)
            requires
                ra * w + a.x == rb * w + b.x,
                0 <= a.x < w,
                0 <= b.x < w,
        ;
        assert(a.y == b.y) by (nonlinear_arith)
            requires
                a.y * d + a.z == b.y * d + b.z,
                0 <= a.z < d,
                0 <= b.z < d,
        ;
    }
}

/// Two voxels that share a chunk and a cell are the same voxel.
pub proof fn lemma_cell_of(p: Pos, q: Pos)
    ensures
        0 <= cell_of(p) < 4096,
        chunk_of(p) == chunk_of(q) && cell_of(p) == cell_of(q) ==> p == q,
{
}

/// Whether `chunks`, in storage order, fill a lattice of `w` x `h` x `d`
/// chunks, each at its own position.
pub open spec fn valid_layout(w: int, h: int, d: int, chunks: Seq<Chunk>) -> bool {
    &&& 0 <= w <= MAX_SIDE
    &&& 0 <= h <= MAX_SIDE
    &&& 0 <= d <= MAX_SIDE
    &&& chunks.len() == w * h * d
    &&& forall|c: Pos|
        in_lattice(w, h, d, c) ==> placed(#[trigger] chunks[lattice_index(w, d, c)], c)
}

/// Whether a world of `w` x `h` x `d` chunks can be stored and addressed.
pub open spec fn fits(w: int, h: int, d: int) -> bool {
    &&& 0 <= w <= MAX_SIDE
    &&& 0 <= h <= MAX_SIDE
    &&& 0 <= d <= MAX_SIDE
    &&& w * h * d <= usize::MAX
}

/// The number of chunks in a world of `w` x `h` x `d` chunks, if it fits.
fn volume_of(w: usize, h: usize, d: usize) -> (r: Option<usize>)
    ensures
        r.is_some() <==> fits(w as int, h as int, d as int),
        r matches Some(v) ==> v == w * h * d,
{
    if w > MAX_SIDE || h > MAX_SIDE || d > MAX_SIDE {
        return None;
    }
    assert(0 <= w * h <= 0x0800_0000 * 0x0800_0000) by (nonlinear_arith)
        requires
            0 <= w <= 0x0800_0000,
            0 <= h <= 0x0800_0000,
    ;
    let wh: u128 = (w as u128) * (h as u128);
    assert(0 <= wh * d <= 0x0800_0000 * 0x0800_0000 * 0x0800_0000) by (nonlinear_arith)
        requires
            0 <= wh <= 0x0800_0000 * 0x0800_0000,
            0 <= d <= 0x0800_0000,
    ;
    let whd: u128 = wh * (d as u128);
    if whd <= usize::MAX as u128 {
        Some(whd as usize)
    } else {
        None
    }
}

/// A chunk stored at its own lattice position `c`.
pub open spec fn placed(k: Chunk, c: Pos) -> bool {
    k.x == c.x && k.y == c.y && k.z == c.z
}

/// A dark chunk of air at `c`, flagged as modified.
spec fn fresh_chunk(k: Chunk, c: Pos) -> bool {
    &&& placed(k, c)
    &&& k.modified
    &&& k.light_map@.len() == CHUNK_VOL
    &&& forall|i: int| 0 <= i < CHUNK_VOL ==> k.light_map@[i] == 0
    &&& forall|i: int| 0 <= i < CHUNK_VOL ==> k.voxels@[i].id == 0
}

spec fn fresh_prefix(w: int, h: int, d: int, chunks: Seq<Chunk>) -> bool {
    forall|c: Pos|
        in_lattice(w, h, d, c) && lattice_index(w, d, c) < chunks.len() ==> fresh_chunk(
            #[trigger] chunks[lattice_index(w, d, c)],
            c,
        )
}

spec fn placed_prefix(w: int, h: int, d: int, chunks: Seq<Chunk>, n: int) -> bool {
    forall|c: Pos|
        in_lattice(w, h, d, c) && lattice_index(w, d, c) < n ==> placed(
            #[trigger] chunks[lattice_index(w, d, c)],
            c,
        )
}

/// A chunk may be replaced by one at the same position.
pub proof fn lemma_replace_keeps_layout(
    w: int,
    h: int,
    d: int,
    chunks: Seq<Chunk>,
    i: int,
    k: Chunk,
)
    requires
        valid_layout(w, h, d, chunks),
        0 <= i < chunks.len(),
        k.x == chunks[i].x && k.y == chunks[i].y && k.z == chunks[i].z,
    ensures
        valid_layout(w, h, d, chunks.update(i, k)),
{
    assert forall|c: Pos| in_lattice(w, h, d, c) implies placed(
        #[trigger] chunks.update(i, k)[lattice_index(w, d, c)],
        c,
    ) by {
        lemma_lattice_index(w, h, d, c, c);
        assert(placed(chunks[lattice_index(w, d, c)], c));
    }
}

/// Whether `a` is a snapshot of `b`: the same blocks, light, position and flag.
pub open spec fn same_chunk(a: Chunk, b: Chunk) -> bool {
    &&& a.voxels == b.voxels
    &&& a.light_map@ == b.light_map@
    &&& a.x == b.x && a.y == b.y && a.z == b.z
    &&& a.modified == b.modified
}

/// The lattice offset of slot `i` of a 3 x 3 x 3 neighbourhood, whose slots
/// run through `(y, z, x)` from -1 to 1; slot 13 is the centre.
pub open spec fn slot_offset(i: int) -> Pos {
    Pos { x: i % 3 - 1, y: i / 9 - 1, z: (i / 3) % 3 - 1 }
}

/// Whether `around` holds, slot by slot, snapshots of the chunks that
/// surround the lattice position `center` in a world of `w` x `h` x `d`
/// chunks, and `None` where the world ends.
pub open spec fn is_neighborhood(
    w: int,
    h: int,
    d: int,
    chunks: Seq<Chunk>,
    center: Pos,
    around: Seq<Option<Chunk>>,
) -> bool {
    &&& around.len() == 27
    &&& forall|i: int|
        0 <= i < 27 ==> {
            let o = slot_offset(i);
            let c = Pos { x: center.x + o.x, y: center.y + o.y, z: center.z + o.z };
            match #[trigger] around[i] {
                Some(k) => in_lattice(w, h, d, c) && same_chunk(k, chunks[lattice_index(w, d, c)]),
                None => !in_lattice(w, h, d, c),
            }
        }
}

/// The loaded part of the world: a box of `w` x `h` x `d` chunks whose
/// corner chunk sits at the lattice origin.
pub struct Chunks {
    chunks: Vec<Chunk>,
    w: usize,
    h: usize,
    d: usize,
}

/// The flat grid that `chunks`, stored in lattice order, hold together.
pub open spec fn world_of(w: int, h: int, d: int, chunks: Seq<Chunk>) -> World {
    World {
        w: w as nat,
        h: h as nat,
        d: d as nat,
        voxels: Map::new(
            |p: Pos| in_lattice(w, h, d, chunk_of(p)),
            |p: Pos| chunks[lattice_index(w, d, chunk_of(p))].voxels@[cell_of(p)].id,
        ),
        lights: Map::new(
            |p: Pos| in_lattice(w, h, d, chunk_of(p)),
            |p: Pos| chunks[lattice_index(w, d, chunk_of(p))].light_map@[cell_of(p)],
        ),
        modified: Map::new(
            |c: Pos| in_lattice(w, h, d, c),
            |c: Pos| chunks[lattice_index(w, d, c)].modified,
        ),
    }
}

impl View for Chunks {
    type V = World;

    open spec fn view(&self) -> World {
        world_of(self.dims().0 as int, self.dims().1 as int, self.dims().2 as int, self.chunk_seq())
    }
}

impl Chunks {
    /// The width, height and depth of the world in chunks.
    pub closed spec fn dims(&self) -> (usize, usize, usize) {
        (self.w, self.h, self.d)
    }

    /// The chunks fill the lattice, each stored at the index of its position.
    pub open spec fn wf(&self) -> bool {
        valid_layout(
            self.dims().0 as int,
            self.dims().1 as int,
            self.dims().2 as int,
            self.chunk_seq(),
        )
    }

    /// The chunks in storage order.
    pub closed spec fn chunk_seq(&self) -> Seq<Chunk> {
        self.chunks@
    }

    /// A dark world of air, `w` x `h` x `d` chunks large, every chunk flagged
    /// as modified; `None` when a side exceeds [`MAX_SIDE`] or the number of
    /// chunks does not fit in `usize`.
    #[verifier::rlimit(40)]
    pub fn new(w: usize, h: usize, d: usize) -> (r: Option<Self>)
        ensures
            r.is_some() <==> fits(w as int, h as int, d as int),
            r matches Some(c) ==> {
                &&& c.wf()
                &&& c@.w == w && c@.h == h && c@.d == d
                &&& forall|p: Pos| c@.loaded(p) ==> c@.voxels[p] == 0 && c@.lights[p] == 0
                &&& forall|k: Pos| in_lattice(w as int, h as int, d as int, k) ==> c@.modified[k]
            },
    {
        if volume_of(w, h, d).is_none() {
            return None;
        }
        let mut chunks: Vec<Chunk> = Vec::new();
        let mut cy: usize = 0;
        assert(0 * d * w == 0) by (nonlinear_arith);
        while cy < h
            invariant
                fits(w as int, h as int, d as int),
                cy <= h,
                chunks@.len() == cy * d * w,
                fresh_prefix(w as int, h as int, d as int, chunks@),
            decreases h - cy,
        {
            let mut cz: usize = 0;
            assert(cy * d * w == (cy * d + 0) * w);
            while cz < d
                invariant
                    fits(w as int, h as int, d as int),
                    cy < h,
                    cz <= d,
                    chunks@.len() == (cy * d + cz) * w,
                    fresh_prefix(w as int, h as int, d as int, chunks@),
                decreases d - cz,
            {
                let mut cx: usize = 0;
                while cx < w
                    invariant
                        fits(w as int, h as int, d as int),
                        cy < h,
                        cz < d,
                        cx <= w,
                        chunks@.len() == (cy * d + cz) * w + cx,
                        fresh_prefix(w as int, h as int, d as int, chunks@),
                    decreases w - cx,
                {
                    let ghost here = Pos { x: cx as int, y: cy as int, z: cz as int };
                    let ghost before = chunks@;
                    let k = Chunk::empty(cx as isize, cy as isize, cz as isize);
                    chunks.push(k);
                    proof {
                        assert forall|c: Pos|
                            in_lattice(w as int, h as int, d as int, c) && lattice_index(
                                w as int,
                                d as int,
                                c,
                            ) < chunks@.len() implies fresh_chunk(
                            #[trigger] chunks@[lattice_index(w as int, d as int, c)],
                            c,
                        ) by {
                            lemma_lattice_index(w as int, h as int, d as int, c, here);
                            if c != here {
                                assert(fresh_chunk(before[lattice_index(w as int, d as int, c)], c));
                            }
                        }
                    }
                    cx += 1;
                }
                assert((cy * d + cz) * w + w == (cy * d + (cz + 1)) * w) by (nonlinear_arith);
                cz += 1;
            }
            assert((cy * d + d) * w == (cy + 1) * d * w) by (nonlinear_arith);
            cy += 1;
        }
        let r = Chunks { chunks, w, h, d };
        proof {
            assert(h * d * w == w * h * d) by (nonlinear_arith);
            assert forall|c: Pos| in_lattice(w as int, h as int, d as int, c) implies fresh_chunk(
                #[trigger] r.chunks@[lattice_index(w as int, d as int, c)],
                c,
            ) by {
                lemma_lattice_index(w as int, h as int, d as int, c, c);
            }
            assert forall|p: Pos| r@.loaded(p) implies r@.voxels[p] == 0 && r@.lights[p] == 0 by {
                lemma_cell_of(p, p);
                lemma_lattice_index(w as int, h as int, d as int, chunk_of(p), chunk_of(p));
                assert(fresh_chunk(r.chunks@[lattice_index(w as int, d as int, chunk_of(p))], chunk_of(p)));
            }
            assert forall|k: Pos| in_lattice(w as int, h as int, d as int, k) implies r@.modified[k] by {
                lemma_lattice_index(w as int, h as int, d as int, k, k);
                assert(fresh_chunk(r.chunks@[lattice_index(w as int, d as int, k)], k));
            }
        }
        Some(r)
    }

    /// Takes over `chunks` as a world of `w` x `h` x `d` chunks; `None` unless
    /// they fill the lattice in storage order, each at its own position.
    #[verifier::rlimit(40)]
    pub fn from_chunks(w: usize, h: usize, d: usize, chunks: Vec<Chunk>) -> (r: Option<Self>)
        ensures
            r.is_some() <==> valid_layout(w as int, h as int, d as int, chunks@),
            r matches Some(c) ==> {
                &&& c.wf()
                &&& c@.w == w && c@.h == h && c@.d == d
                &&& c.chunk_seq() == chunks@
            },
    {
        let count: usize = chunks.len();
        match volume_of(w, h, d) {
            Some(volume) => {
                if count != volume {
                    return None;
                }
            },
            None => {
                return None;
            },
        }
        let mut i: usize = 0;
        let mut cy: usize = 0;
        assert(0 * d * w == 0) by (nonlinear_arith);
        while cy < h
            invariant
                fits(w as int, h as int, d as int),
                chunks@.len() == w * h * d,
                cy <= h,
                i == cy * d * w,
                placed_prefix(w as int, h as int, d as int, chunks@, i as int),
            decreases h - cy,
        {
            let mut cz: usize = 0;
            assert(cy * d * w == (cy * d + 0) * w);
            while cz < d
                invariant
                    fits(w as int, h as int, d as int),
                    chunks@.len() == w * h * d,
                    cy < h,
                    cz <= d,
                    i == (cy * d + cz) * w,
                    placed_prefix(w as int, h as int, d as int, chunks@, i as int),
                decreases d - cz,
            {
                let mut cx: usize = 0;
                while cx < w
                    invariant
                        fits(w as int, h as int, d as int),
                        chunks@.len() == w * h * d,
                        cy < h,
                        cz < d,
                        cx <= w,
                        i == (cy * d + cz) * w + cx,
                        placed_prefix(w as int, h as int, d as int, chunks@, i as int),
                    decreases w - cx,
                {
                    let ghost here = Pos { x: cx as int, y: cy as int, z: cz as int };
                    proof {
                        lemma_lattice_index(w as int, h as int, d as int, here, here);
                    }
                    let k = &chunks[i];
                    if k.x != cx as isize || k.y != cy as isize || k.z != cz as isize {
                        return None;
                    }
                    proof {
                        assert forall|c: Pos|
                            in_lattice(w as int, h as int, d as int, c) && lattice_index(
                                w as int,
                                d as int,
                                c,
                            ) < i + 1 implies placed(
                            #[trigger] chunks@[lattice_index(w as int, d as int, c)],
                            c,
                        ) by {
                            lemma_lattice_index(w as int, h as int, d as int, c, here);
                        }
                    }
                    i += 1;
                    cx += 1;
                }
                assert((cy * d + cz) * w + w == (cy * d + (cz + 1)) * w) by (nonlinear_arith);
                cz += 1;
            }
            assert((cy * d + d) * w == (cy + 1) * d * w) by (nonlinear_arith);
            cy += 1;
        }
        proof {
            assert(h * d * w == w * h * d) by (nonlinear_arith);
            assert forall|c: Pos| in_lattice(w as int, h as int, d as int, c) implies placed(
                #[trigger] chunks@[lattice_index(w as int, d as int, c)],
                c,
            ) by {
                lemma_lattice_index(w as int, h as int, d as int, c, c);
            }
        }
        Some(Chunks { chunks, w, h, d })
    }

    /// Number of chunks along X.
    pub fn width(&self) -> (r: usize)
        ensures
            r == self@.w,
    {
        self.w
    }

    /// Number of chunks along Y.
    pub fn height(&self) -> (r: usize)
        ensures
            r == self@.h,
    {
        self.h
    }

    /// Number of chunks along Z.
    pub fn depth(&self) -> (r: usize)
        ensures
            r == self@.d,
    {
        self.d
    }

    /// Number of chunks in the world.
    pub fn volume(&self) -> (r: usize)
        ensures
            r == self.chunk_seq().len(),
    {
        self.chunks.len()
    }

    /// The chunk at the lattice position `(cx, cy, cz)`, if it lies in the world.
    pub fn chunk_at(&self, cx: usize, cy: usize, cz: usize) -> (r: Option<&Chunk>)
        requires
            self.wf(),
        ensures
            ({
                let c = Pos { x: cx as int, y: cy as int, z: cz as int };
                match r {
                    Some(k) => {
                        &&& in_lattice(self@.w as int, self@.h as int, self@.d as int, c)
                        &&& *k == self.chunk_seq()[lattice_index(self@.w as int, self@.d as int, c)]
                        &&& k.x == cx && k.y == cy && k.z == cz
                        &&& k.modified == self@.modified[c]
                    },
                    None => !in_lattice(self@.w as int, self@.h as int, self@.d as int, c),
                }
            }),
    {
        if cx >= self.w || cy >= self.h || cz >= self.d {
            return None;
        }
        let ci = self.index_of(cx, cy, cz);
        Some(&self.chunks[ci])
    }

    /// Snapshots of the chunk at the lattice position `(cx, cy, cz)` and of
    /// the 26 chunks around it, in the 27 slots of a 3 x 3 x 3 neighbourhood;
    /// `None` where the world ends.
    #[verifier::rlimit(40)]
    pub fn neighborhood(&self, cx: usize, cy: usize, cz: usize) -> (r: Vec<Option<Chunk>>)
        requires
            self.wf(),
        ensures
            is_neighborhood(
                self@.w as int,
                self@.h as int,
                self@.d as int,
                self.chunk_seq(),
                Pos { x: cx as int, y: cy as int, z: cz as int },
                r@,
            ),
    {
        let ghost center = Pos { x: cx as int, y: cy as int, z: cz as int };
        let far: bool = cx > MAX_SIDE || cy > MAX_SIDE || cz > MAX_SIDE;
        let mut r: Vec<Option<Chunk>> = Vec::new();
        let mut i: usize = 0;
        while i < 27
            invariant
                self.wf(),
                i <= 27,
                r@.len() == i,
                center == (Pos { x: cx as int, y: cy as int, z: cz as int }),
                far == (cx > MAX_SIDE || cy > MAX_SIDE || cz > MAX_SIDE),
                forall|j: int|
                    0 <= j < i ==> {
                        let o = slot_offset(j);
                        let c = Pos { x: center.x + o.x, y: center.y + o.y, z: center.z + o.z };
                        match #[trigger] r@[j] {
                            Some(k) => in_lattice(self.w as int, self.h as int, self.d as int, c)
                                && same_chunk(
                                k,
                                self.chunks@[lattice_index(self.w as int, self.d as int, c)],
                            ),
                            None => !in_lattice(self.w as int, self.h as int, self.d as int, c),
                        }
                    },
            decreases 27 - i,
        {
            let ox: usize = i % 3;
            let oy: usize = i / 9;
            let oz: usize = (i / 3) % 3;
            let slot: Option<Chunk> = if far || cx + ox < 1 || cy + oy < 1 || cz + oz < 1 {
                None
            } else {
                match self.chunk_at(cx + ox - 1, cy + oy - 1, cz + oz - 1) {
                    Some(k) => Some(k.clone()),
                    None => None,
                }
            };
            r.push(slot);
            i += 1;
        }
        r
    }

    /// Clears the modified flag of the chunk at the lattice position
    /// `(cx, cy, cz)`; nothing changes when that lies outside the world.
    pub fn clear_modified(&mut self, cx: usize, cy: usize, cz: usize)
        requires
            old(self).wf(),
        ensures
            final(self).wf(),
            final(self)@ == (if in_lattice(
                old(self)@.w as int,
                old(self)@.h as int,
                old(self)@.d as int,
                Pos { x: cx as int, y: cy as int, z: cz as int },
            ) {
                World {
                    modified: old(self)@.modified.insert(
                        Pos { x: cx as int, y: cy as int, z: cz as int },
                        false,
                    ),
                    ..old(self)@
                }
            } else {
                old(self)@
            }),
    {
        if cx >= self.w || cy >= self.h || cz >= self.d {
            return ;
        }
        let ghost c = Pos { x: cx as int, y: cy as int, z: cz as int };
        let ghost p = Pos { x: cx as int * 16, y: cy as int * 16, z: cz as int * 16 };
        let ci = self.index_of(cx, cy, cz);
        self.chunks[ci].modified = false;
        proof {
            assert(chunk_of(p) == c);
            self.lemma_written(*old(self), p, ci as int);
            let a = final(self)@;
            let b = World { modified: old(self)@.modified.insert(c, false), ..old(self)@ };
            assert(a.voxels =~= b.voxels);
            assert(a.lights =~= b.lights);
            assert(a.modified =~= b.modified);
        }
    }

    /// The storage index of the chunk at a lattice position inside the world.
    fn index_of(&self, cx: usize, cy: usize, cz: usize) -> (ci: usize)
        requires
            self.wf(),
            in_lattice(
                self.w as int,
                self.h as int,
                self.d as int,
                Pos { x: cx as int, y: cy as int, z: cz as int },
            ),
        ensures
            ci == lattice_index(
                self.w as int,
                self.d as int,
                Pos { x: cx as int, y: cy as int, z: cz as int },
            ),
            ci < self.chunks@.len(),
    {
        proof {
            let c = Pos { x: cx as int, y: cy as int, z: cz as int };
            lemma_lattice_index(self.w as int, self.h as int, self.d as int, c, c);
            assert(self.h * self.d <= self.w * self.h * self.d) by (nonlinear_arith)
                requires
                    self.w >= 1,
                    self.h * self.d >= 0,
            ;
        }
        assert(0 <= cy * self.d <= cy * self.d + cz) by (nonlinear_arith)
            requires
                0 <= cy,
                0 <= self.d,
                0 <= cz,
        ;
        assert(0 <= (cy * self.d + cz) * self.w) by (nonlinear_arith)
            requires
                0 <= cy * self.d + cz,
                0 <= self.w,
        ;
        let count: usize = self.chunks.len();
        assert(count == self.w * self.h * self.d);
        (cy * self.d + cz) * self.w + cx
    }

    /// Finds the chunk and the local cell that hold the voxel `(x, y, z)`.
    fn locate(&self, x: isize, y: isize, z: isize) -> (r: Option<(usize, usize, usize, usize)>)
        requires
            self.wf(),
        ensures
            ({
                let p = Pos { x: x as int, y: y as int, z: z as int };
                match r {
                    Some((ci, lx, ly, lz)) => {
                        &&& self@.loaded(p)
                        &&& ci == lattice_index(self.w as int, self.d as int, chunk_of(p))
                        &&& ci < self.chunks@.len()
                        &&& lx == p.x % 16
                        &&& ly == p.y % 16
                        &&& lz == p.z % 16
                    },
                    None => !self@.loaded(p),
                }
            }),
    {
        if x < 0 || y < 0 || z < 0 {
            return None;
        }
        let ux: usize = x as usize;
        let uy: usize = y as usize;
        let uz: usize = z as usize;
        let cx: usize = ux / 16;
        let cy: usize = uy / 16;
        let cz: usize = uz / 16;
        if cx >= self.w || cy >= self.h || cz >= self.d {
            return None;
        }
        let ci: usize = self.index_of(cx, cy, cz);
        Some((ci, ux % 16, uy % 16, uz % 16))
    }

    /// The block at the world position `(x, y, z)`, or `None` where no chunk
    /// is loaded.
    pub fn get_voxel(&self, x: isize, y: isize, z: isize) -> (r: Option<&Voxel>)
        requires
            self.wf(),
        ensures
            ({
                let p = Pos { x: x as int, y: y as int, z: z as int };
                match r {
                    Some(v) => self@.voxel(p) == Some(v.id),
                    None => self@.voxel(p).is_none(),
                }
            }),
    {
        match self.locate(x, y, z) {
            Some((ci, lx, ly, lz)) => Some(&self.chunks[ci].voxels[(ly * 16 + lz) * 16 + lx]),
            None => None,
        }
    }

    /// The light of `channel` at the world position `(x, y, z)`; 0 where no
    /// chunk is loaded.
    pub fn get_light(&self, x: isize, y: isize, z: isize, channel: usize) -> (r: u8)
        requires
            self.wf(),
            channel < 4,
        ensures
            r == self@.light(Pos { x: x as int, y: y as int, z: z as int }, channel as int),
            r <= 15,
    {
        match self.locate(x, y, z) {
            Some((ci, lx, ly, lz)) => self.chunks[ci].light_map.get(lx, ly, lz, channel),
            None => 0,
        }
    }

    /// The chunk that owns the world position `(x, y, z)`, if one is loaded.
    pub fn get_chunk_by_voxel(&self, x: isize, y: isize, z: isize) -> (r: Option<&Chunk>)
        requires
            self.wf(),
        ensures
            ({
                let p = Pos { x: x as int, y: y as int, z: z as int };
                match r {
                    Some(k) => {
                        &&& self@.loaded(p)
                        &&& *k == self.chunk_seq()[lattice_index(
                            self@.w as int,
                            self@.d as int,
                            chunk_of(p),
                        )]
                        &&& k.x == p.x / 16
                        &&& k.y == p.y / 16
                        &&& k.z == p.z / 16
                    },
                    None => !self@.loaded(p),
                }
            }),
    {
        match self.locate(x, y, z) {
            Some((ci, lx, ly, lz)) => {
                assert(in_lattice(
                    self.w as int,
                    self.h as int,
                    self.d as int,
                    chunk_of(Pos { x: x as int, y: y as int, z: z as int }),
                ));
                Some(&self.chunks[ci])
            },
            None => None,
        }
    }

    /// The chunk that owns the world position `(x, y, z)`, for writing, if one
    /// is loaded. What the caller writes into it becomes that chunk of the
    /// world; the world stays well formed as long as the chunk keeps its
    /// position (see [`lemma_replace_keeps_layout`]).
    pub fn get_mut_chunk_by_voxel(&mut self, x: isize, y: isize, z: isize) -> (r: Option<
        &mut Chunk,
    >)
        requires
            old(self).wf(),
        ensures
            final(self).dims() == old(self).dims(),
            ({
                let p = Pos { x: x as int, y: y as int, z: z as int };
                let i = lattice_index(old(self)@.w as int, old(self)@.d as int, chunk_of(p));
                match r {
                    Some(k) => {
                        &&& old(self)@.loaded(p)
                        &&& 0 <= i < old(self).chunk_seq().len()
                        &&& *k == old(self).chunk_seq()[i]
                        &&& final(self).chunk_seq() == old(self).chunk_seq().update(i, *final(k))
                    },
                    None => !old(self)@.loaded(p) && final(self).chunk_seq() == old(
                        self,
                    ).chunk_seq(),
                }
            }),
    {
        match self.locate(x, y, z) {
            Some((ci, lx, ly, lz)) => Some(&mut self.chunks[ci]),
            None => None,
        }
    }

    /// Writes the low four bits of `value` into `channel` at the world
    /// position `(x, y, z)` and flags the owning chunk as modified. Outside
    /// the loaded world the write is dropped.
    #[verifier::rlimit(40)]
    pub fn set_light(&mut self, x: isize, y: isize, z: isize, channel: usize, value: u8)
        requires
            old(self).wf(),
            channel < 4,
        ensures
            final(self).wf(),
            final(self)@ == old(self)@.with_light(
                Pos { x: x as int, y: y as int, z: z as int },
                channel as int,
                value,
            ),
    {
        let ghost p = Pos { x: x as int, y: y as int, z: z as int };
        match self.locate(x, y, z) {
            Some((ci, lx, ly, lz)) => {
                self.chunks[ci].light_map.set(lx, ly, lz, channel, value);
                self.chunks[ci].modified = true;
                proof {
                    self.lemma_written(*old(self), p, ci as int);
                    let a = final(self)@;
                    let b = old(self)@.with_light(p, channel as int, value);
                    assert(a.voxels =~= b.voxels);
                    assert(cell_index(lx as int, ly as int, lz as int) == cell_of(p));
                    assert forall|q: Pos| a.lights.dom().contains(q) implies a.lights[q]
                        == b.lights[q] by {
                        let i = lattice_index(self.w as int, self.d as int, chunk_of(q));
                        assert(old(self)@.loaded(q));
                        let oc = old(self).chunks@;
                        let nc = final(self).chunks@;
                        if q != p && i != ci {
                            assert(nc[i] == oc[i]);
                        }
                    }
                    assert(a.lights =~= b.lights);
                    assert(a.modified =~= b.modified);
                }
            },
            None => {},
        }
    }

    /// Places block `id` at the world position `(x, y, z)` and flags the
    /// owning chunk as modified. Outside the loaded world the write is dropped.
    #[verifier::rlimit(40)]
    pub fn set(&mut self, x: isize, y: isize, z: isize, id: u8)
        requires
            old(self).wf(),
        ensures
            final(self).wf(),
            final(self)@ == old(self)@.with_voxel(Pos { x: x as int, y: y as int, z: z as int }, id),
    {
        let ghost p = Pos { x: x as int, y: y as int, z: z as int };
        match self.locate(x, y, z) {
            Some((ci, lx, ly, lz)) => {
                self.chunks[ci].voxels[(ly * 16 + lz) * 16 + lx] = Voxel { id };
                self.chunks[ci].modified = true;
                proof {
                    self.lemma_written(*old(self), p, ci as int);
                    let a = final(self)@;
                    let b = old(self)@.with_voxel(p, id);
                    assert(a.voxels =~= b.voxels);
                    assert(a.lights =~= b.lights);
                    assert(a.modified =~= b.modified);
                }
            },
            None => {},
        }
    }

    /// After a write into the chunk `ci` that owns `p`, which keeps the
    /// chunk's position: the world is well formed, and a voxel or chunk other
    /// than the written one reads from an unchanged chunk.
    proof fn lemma_written(&self, before: Chunks, p: Pos, ci: int)
        requires
            before.wf(),
            before@.loaded(p),
            ci == lattice_index(before.w as int, before.d as int, chunk_of(p)),
            self.w == before.w,
            self.h == before.h,
            self.d == before.d,
            self.chunks@.len() == before.chunks@.len(),
            forall|i: int| 0 <= i < self.chunks@.len() && i != ci ==> self.chunks@[i] == before.chunks@[i],
            0 <= ci < self.chunks@.len(),
            self.chunks@[ci].x == before.chunks@[ci].x,
            self.chunks@[ci].y == before.chunks@[ci].y,
            self.chunks@[ci].z == before.chunks@[ci].z,
        ensures
            self.wf(),
            forall|q: Pos|
                before@.loaded(q) ==> {
                    let i = #[trigger] lattice_index(self.w as int, self.d as int, chunk_of(q));
                    &&& 0 <= i < self.chunks@.len()
                    &&& (i == ci <==> chunk_of(q) == chunk_of(p))
                    &&& (cell_of(q) == cell_of(p) && chunk_of(q) == chunk_of(p) ==> q == p)
                    &&& 0 <= cell_of(q) < 4096
                },
            forall|c: Pos|
                in_lattice(self.w as int, self.h as int, self.d as int, c) ==> {
                    let i = #[trigger] lattice_index(self.w as int, self.d as int, c);
                    &&& 0 <= i < self.chunks@.len()
                    &&& (i == ci <==> c == chunk_of(p))
                },
    {
        let w = self.w as int;
        let h = self.h as int;
        let d = self.d as int;
        assert forall|c: Pos| in_lattice(w, h, d, c) implies {
            let i = #[trigger] lattice_index(w, d, c);
            &&& 0 <= i < self.chunks@.len()
            &&& (i == ci <==> c == chunk_of(p))
        } by {
            lemma_lattice_index(w, h, d, c, chunk_of(p));
        }
        assert forall|q: Pos| before@.loaded(q) implies {
            let i = #[trigger] lattice_index(w, d, chunk_of(q));
            &&& 0 <= i < self.chunks@.len()
            &&& (i == ci <==> chunk_of(q) == chunk_of(p))
            &&& (cell_of(q) == cell_of(p) && chunk_of(q) == chunk_of(p) ==> q == p)
            &&& 0 <= cell_of(q) < 4096
        } by {
            lemma_lattice_index(w, h, d, chunk_of(q), chunk_of(p));
            lemma_cell_of(q, p);
        }
        assert(self.chunks@ =~= before.chunks@.update(ci, self.chunks@[ci]));
        lemma_replace_keeps_layout(w, h, d, before.chunks@, ci, self.chunks@[ci]);
    }

    /// A well-formed world has a well-formed view, as wide, high and deep as
    /// the lattice, and stores one chunk per lattice position.
    pub proof fn lemma_view_wf(&self)
        requires
            self.wf(),
        ensures
            self@.wf(),
            self.chunk_seq().len() == self@.w * self@.h * self@.d,
            self@.w <= MAX_SIDE,
            self@.h <= MAX_SIDE,
            self@.d <= MAX_SIDE,
    {
    }
}

} // verus!
