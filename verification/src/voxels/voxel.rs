//! The cell of the world.
use vstd::prelude::*;

verus! {

/// One cell of the world: `id` 0 is air, every other id is a block type.
#[derive(Clone, Copy, Debug, PartialEq, Eq, Structural)]
pub struct Voxel {
    pub id: u8,
}

} // verus!
