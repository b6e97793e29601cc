//! A dense chunk: a 16 x 128 x 16 box of block identifiers.
use vstd::prelude::*;

use crate::units::{AIR, BlockID};

verus! {

/// A position inside a chunk, counted from its bottom corner.
#[derive(Clone, Copy, Debug, PartialEq, Eq, Structural)]
pub struct BlockLoc {
    pub x: u32,
    pub y: u32,
    pub z: u32,
}

pub const CHUNKSIZE_X: u32 = 16;

pub const CHUNKSIZE_Y: u32 = 128;

pub const CHUNKSIZE_Z: u32 = 16;

/// The cell index of a position: x varies fastest, then z, then y.
pub open spec fn chunk_index(loc: BlockLoc) -> int {
    loc.x + loc.z * CHUNKSIZE_X + loc.y * (CHUNKSIZE_X * CHUNKSIZE_Z)
}

/// Whether a position lies inside a chunk.
pub open spec fn in_chunk(loc: BlockLoc) -> bool {
    loc.x < CHUNKSIZE_X && loc.y < CHUNKSIZE_Y && loc.z < CHUNKSIZE_Z
}

pub struct Chunk {
    blocks: Vec<BlockID>,
}

impl View for Chunk {
    type V = Seq<BlockID>;

    closed spec fn view(&self) -> Seq<BlockID> {
        self.blocks@
    }
}

impl Chunk {
    /// A chunk of air.
    pub fn new() -> (r: Self)
        ensures
            r@ == Seq::new((CHUNKSIZE_X * CHUNKSIZE_Y * CHUNKSIZE_Z) as nat, |i: int| AIR),
    {
        let size = (CHUNKSIZE_X * CHUNKSIZE_Y * CHUNKSIZE_Z) as usize;
        let mut blocks: Vec<BlockID> = Vec::new();
        let mut i: usize = 0;
        while i < size
            invariant
                i <= size,
                size == CHUNKSIZE_X * CHUNKSIZE_Y * CHUNKSIZE_Z,
                blocks@ == Seq::new(i as nat, |j: int| AIR),
            decreases size - i,
        {
            blocks.push(AIR);
            i = i + 1;
        }
        Chunk { blocks }
    }

    /// The identifier at a position inside the chunk.
    pub fn get(&self, loc: &BlockLoc) -> (r: BlockID)
        requires
            self@.len() == CHUNKSIZE_X * CHUNKSIZE_Y * CHUNKSIZE_Z,
            in_chunk(*loc),
        ensures
            r == self@[chunk_index(*loc)],
    {
        assert(0 <= chunk_index(*loc) < CHUNKSIZE_X * CHUNKSIZE_Y * CHUNKSIZE_Z) by (nonlinear_arith)
            requires loc.x < 16, loc.y < 128, loc.z < 16;
        let i = loc.x + loc.z * CHUNKSIZE_X + loc.y * (CHUNKSIZE_X * CHUNKSIZE_Z);
        self.blocks[i as usize]
    }
}

} // verus!
