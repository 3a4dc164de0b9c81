//! Chunks: cubes of 16 x 16 x 16 voxels with their light.
use vstd::prelude::*;
use crate::lighting::light_map::LightMap;
use crate::voxels::voxel::Voxel;

verus! {

/// Chunk extent along X.
pub const CHUNK_W: isize = 16;

/// Chunk extent along Y.
pub const CHUNK_H: isize = 16;

/// Chunk extent along Z.
pub const CHUNK_D: isize = 16;

/// Number of voxels in a chunk.
pub const CHUNK_VOL: usize = 4096;

/// Index of the local cell `(x, y, z)` in a chunk's row-major `(y, z, x)` storage.
pub open spec fn cell_index(x: int, y: int, z: int) -> int {
    (y * 16 + z) * 16 + x
}

/// Whether `(x, y, z)` are local coordinates of a chunk.
pub open spec fn is_local(x: int, y: int, z: int) -> bool {
    0 <= x < 16 && 0 <= y < 16 && 0 <= z < 16
}

/// Whether the terrain sample of cell `i` is dense; cells without a sample are not.
pub open spec fn dense_at(dense: Seq<bool>, i: int) -> bool {
    0 <= i < dense.len() && dense[i]
}

/// The block a fresh chunk holds in a cell at local height `y`: bedrock-level
/// cells (world height at most 2) hold block 2, dense cells above hold block
/// 1, and the rest is air.
pub open spec fn terrain_id(y_pos: int, y: int, dense: bool) -> u8 {
    if y + y_pos * 16 <= 2 {
        2
    } else if dense {
        1
    } else {
        0
    }
}

/// A cube of 16 x 16 x 16 voxels with its light, placed at the lattice
/// position `(x, y, z)`.
#[derive(Debug)]
pub struct Chunk {
    pub voxels: [Voxel; CHUNK_VOL],
    pub x: isize,
    pub y: isize,
    pub z: isize,
    pub modified: bool,
    pub light_map: LightMap,
}

impl Clone for Chunk {
    /// A snapshot with the same voxels, light, position and flag.
    fn clone(&self) -> (r: Self)
        ensures
            r.voxels == self.voxels,
            r.x == self.x,
            r.y == self.y,
            r.z == self.z,
            r.modified == self.modified,
            r.light_map@ == self.light_map@,
    {
        Chunk {
            voxels: self.voxels,
            x: self.x,
            y: self.y,
            z: self.z,
            modified: self.modified,
            light_map: self.light_map.clone(),
        }
    }
}

impl Chunk {
    /// The block id of the local cell `(x, y, z)`.
    pub open spec fn id_at(&self, x: int, y: int, z: int) -> u8 {
        self.voxels@[cell_index(x, y, z)].id
    }

    /// A dark chunk of air at lattice position `(x, y, z)`, flagged as modified.
    pub fn empty(x: isize, y: isize, z: isize) -> (r: Self)
        ensures
            r.x == x,
            r.y == y,
            r.z == z,
            r.modified,
            r.light_map@.len() == CHUNK_VOL,
            forall|i: int| 0 <= i < CHUNK_VOL ==> r.light_map@[i] == 0,
            forall|i: int| 0 <= i < CHUNK_VOL ==> r.voxels@[i].id == 0,
    {
        Chunk {
            voxels: [Voxel { id: 0 };CHUNK_VOL],
            x,
            y,
            z,
            modified: true,
            light_map: LightMap::new(),
        }
    }

    /// Builds the chunk at lattice position `(x_pos, y_pos, z_pos)` from one
    /// terrain sample per cell, given in storage order. The chunk starts dark
    /// and flagged as modified.
    pub fn new(x_pos: isize, y_pos: isize, z_pos: isize, dense: &Vec<bool>) -> (r: Self)
        ensures
            r.x == x_pos,
            r.y == y_pos,
            r.z == z_pos,
            r.modified,
            r.light_map@.len() == CHUNK_VOL,
            forall|i: int| 0 <= i < CHUNK_VOL ==> r.light_map@[i] == 0,
            forall|x: int, y: int, z: int|
                is_local(x, y, z) ==> #[trigger] r.id_at(x, y, z) == terrain_id(
                    y_pos as int,
                    y,
                    dense_at(dense@, cell_index(x, y, z)),
                ),
    {
        let mut voxels = [Voxel { id: 0 };CHUNK_VOL];
        let mut i: usize = 0;
        while i < CHUNK_VOL
            invariant
                i <= CHUNK_VOL,
                forall|j: int|
                    0 <= j < i ==> voxels@[j].id == terrain_id(
                        y_pos as int,
                        j / 256,
                        dense_at(dense@, j),
                    ),
            decreases CHUNK_VOL - i,
        {
            let y: usize = i / 256;
            let low: bool = y_pos < 0 || (y_pos == 0 && y <= 2);
            let solid: bool = i < dense.len() && dense[i];
            let id: u8 = if low {
                2
            } else if solid {
                1
            } else {
                0
            };
            voxels[i] = Voxel { id };
            i += 1;
        }
        let r = Chunk {
            voxels,
            x: x_pos,
            y: y_pos,
            z: z_pos,
            modified: true,
            light_map: LightMap::new(),
        };
        assert forall|x: int, y: int, z: int| is_local(x, y, z) implies #[trigger] r.id_at(x, y, z)
            == terrain_id(y_pos as int, y, dense_at(dense@, cell_index(x, y, z))) by {
            assert(cell_index(x, y, z) / 256 == y);
        }
        r
    }
}

} // verus!
