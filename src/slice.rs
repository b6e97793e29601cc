//! One horizontal layer of a column: a fixed 16 x 16 grid of block identifiers.
use vstd::prelude::*;

use crate::region::BlockRegion;
use crate::units::{AIR, BlockCoords, BlockID};

verus! {

/// Width of a layer along x, in blocks.
pub const X_SIZE: i32 = 16;

/// Depth of a layer along z, in blocks.
pub const Z_SIZE: i32 = 16;

/// Number of cells in a layer.
pub const SIZE: usize = 256;

/// A renderable block: its texture index and its world block position.
#[derive(Clone, Copy, Debug, PartialEq, Eq, Structural)]
pub struct CubeInstance {
    pub tex_index: u32,
    pub position: BlockCoords,
}

/// Cell `i` of a layer lies at local x `i % 16` and local z `i / 16`.
pub open spec fn local_index(lx: int, lz: int) -> int {
    lx + lz * X_SIZE
}

/// The world block of cell `i` of a layer whose origin corner is `offset`.
pub open spec fn cell_block(offset: BlockCoords, i: int) -> BlockCoords {
    BlockCoords {
        x: (offset.x + i % X_SIZE as int) as i32,
        y: offset.y,
        z: (offset.z + i / X_SIZE as int) as i32,
    }
}

/// Whether `b` lies in the layer whose origin corner is `offset`.
pub open spec fn in_footprint(offset: BlockCoords, b: BlockCoords) -> bool {
    &&& b.y == offset.y
    &&& offset.x <= b.x < offset.x + X_SIZE
    &&& offset.z <= b.z < offset.z + Z_SIZE
}

/// What is drawn for a non-air block `id` at `b`.
pub open spec fn instance_of(b: BlockCoords, id: BlockID) -> CubeInstance {
    CubeInstance { tex_index: (id - 1) as u32, position: b }
}

/// Whether an offset leaves room for a whole layer inside `i32`.
pub open spec fn offset_fits(offset: BlockCoords) -> bool {
    offset.x + X_SIZE - 1 <= i32::MAX && offset.z + Z_SIZE - 1 <= i32::MAX
}

pub struct Slice {
    blocks: Vec<BlockID>,
}

impl View for Slice {
    type V = Seq<BlockID>;

    closed spec fn view(&self) -> Seq<BlockID> {
        self.blocks@
    }
}

pub proof fn lemma_cell_in_footprint(offset: BlockCoords, i: int)
    requires
        0 <= i < SIZE,
        offset_fits(offset),
    ensures
        in_footprint(offset, cell_block(offset, i)),
        local_index(cell_block(offset, i).x - offset.x, cell_block(offset, i).z - offset.z) == i,
{
}

pub proof fn lemma_footprint_cell(offset: BlockCoords, b: BlockCoords)
    requires
        in_footprint(offset, b),
    ensures
        0 <= local_index(b.x - offset.x, b.z - offset.z) < SIZE,
        cell_block(offset, local_index(b.x - offset.x, b.z - offset.z)) == b,
{
    let lx = b.x - offset.x;
    let lz = b.z - offset.z;
    vstd::arithmetic::div_mod::lemma_fundamental_div_mod_converse(lx + lz * 16, 16, lz, lx);
}

impl Slice {
    /// A layer holds exactly one identifier per cell.
    pub open spec fn wf(&self) -> bool {
        self@.len() == SIZE
    }

    /// A layer whose cells all hold `id`.
    pub fn new(id: BlockID) -> (r: Self)
        ensures
            r.wf(),
            r@ == Seq::new(SIZE as nat, |i: int| id),
    {
        let mut blocks: Vec<BlockID> = Vec::new();
        let mut i: usize = 0;
        while i < SIZE
            invariant
                i <= SIZE,
                blocks@ == Seq::new(i as nat, |j: int| id),
            decreases SIZE - i,
        {
            blocks.push(id);
            i = i + 1;
        }
        Slice { blocks }
    }

    /// The cell index of a local position: x varies fastest, then z.
    pub fn coords_to_array_pos(pos: BlockCoords) -> (r: usize)
        requires
            0 <= pos.x < X_SIZE,
            0 <= pos.z < Z_SIZE,
        ensures
            r == local_index(pos.x as int, pos.z as int),
            r < SIZE,
    {
        (pos.x + pos.z * X_SIZE) as usize
    }

    /// The identifier at a local position; its y is ignored.
    pub fn get(&self, position: BlockCoords) -> (r: BlockID)
        requires
            self.wf(),
            0 <= position.x < X_SIZE,
            0 <= position.z < Z_SIZE,
        ensures
            r == self@[local_index(position.x as int, position.z as int)],
    {
        self.blocks[Self::coords_to_array_pos(position)]
    }

    /// Stores `id` at a local position; its y is ignored.
    pub fn set_block(&mut self, position: BlockCoords, id: BlockID)
        requires
            old(self).wf(),
            0 <= position.x < X_SIZE,
            0 <= position.z < Z_SIZE,
        ensures
            final(self).wf(),
            final(self)@ == old(self)@.update(local_index(position.x as int, position.z as int), id),
    {
        let i = Self::coords_to_array_pos(position);
        self.blocks.set(i, id);
    }

    /// Records every cell of this layer, air included, in `map`, keyed by its
    /// world block coordinate; `offset` is the layer's origin corner.
    pub fn get_all_hash(&self, map: &mut BlockRegion, offset: BlockCoords)
        requires
            self.wf(),
            offset_fits(offset),
        ensures
            forall|b: BlockCoords|
                #[trigger] final(map).spec_get(b) == if in_footprint(offset, b) {
                    Some(self@[local_index(b.x - offset.x, b.z - offset.z)])
                } else {
                    old(map).spec_get(b)
                },
    {
        let mut i: usize = 0;
        while i < SIZE
            invariant
                i <= SIZE,
                self@.len() == SIZE,
                offset_fits(offset),
                forall|b: BlockCoords|
                    #[trigger] map.spec_get(b) == if in_footprint(offset, b) && local_index(
                        b.x - offset.x,
                        b.z - offset.z,
                    ) < i {
                        Some(self@[local_index(b.x - offset.x, b.z - offset.z)])
                    } else {
                        old(map).spec_get(b)
                    },
            decreases SIZE - i,
        {
            let ii = i as i32;
            let b = BlockCoords { x: offset.x + ii % X_SIZE, y: offset.y, z: offset.z + ii / X_SIZE };
            proof {
                lemma_cell_in_footprint(offset, i as int);
            }
            map.insert(b, self.blocks[i]);
            proof {
                assert forall|c: BlockCoords|
                    #[trigger] map.spec_get(c) == if in_footprint(offset, c) && local_index(
                        c.x - offset.x,
                        c.z - offset.z,
                    ) < i + 1 {
                        Some(self@[local_index(c.x - offset.x, c.z - offset.z)])
                    } else {
                        old(map).spec_get(c)
                    } by {
                    if in_footprint(offset, c) {
                        lemma_footprint_cell(offset, c);
                    }
                }
            }
            i = i + 1;
        }
    }

    /// Appends what is drawn for every non-air cell of this layer, x varying
    /// fastest, then z; `offset` is the layer's origin corner.
    pub fn get_all(&self, storage: &mut Vec<CubeInstance>, offset: BlockCoords)
        requires
            self.wf(),
            offset_fits(offset),
        ensures
            final(storage)@.len() >= old(storage)@.len(),
            final(storage)@.subrange(0, old(storage)@.len() as int) == old(storage)@,
            forall|j: int|
                old(storage)@.len() <= j < final(storage)@.len() ==> renders_cell(
                    self@,
                    offset,
                    SIZE as int,
                    #[trigger] final(storage)@[j],
                ),
            forall|k: int|
                0 <= k < SIZE && self@[k] != AIR ==> #[trigger] drawn_after(
                    final(storage)@,
                    old(storage)@.len() as int,
                    instance_of(cell_block(offset, k), self@[k]),
                ),
    {
        let ghost start = storage@.len() as int;
        let mut i: usize = 0;
        while i < SIZE
            invariant
                i <= SIZE,
                self.wf(),
                offset_fits(offset),
                start == old(storage)@.len(),
                storage@.len() >= start,
                storage@.subrange(0, start) == old(storage)@,
                forall|j: int|
                    start <= j < storage@.len() ==> renders_cell(
                        self@,
                        offset,
                        i as int,
                        #[trigger] storage@[j],
                    ),
                forall|k: int|
                    0 <= k < i && self@[k] != AIR ==> #[trigger] drawn_after(
                        storage@,
                        start,
                        instance_of(cell_block(offset, k), self@[k]),
                    ),
            decreases SIZE - i,
        {
            let block = self.blocks[i];
            let ghost before = storage@;
            if block != AIR {
                let ii = i as i32;
                let position = BlockCoords {
                    x: offset.x + ii % X_SIZE,
                    y: offset.y,
                    z: offset.z + ii / X_SIZE,
                };
                storage.push(CubeInstance { tex_index: (block - 1) as u32, position });
                proof {
                    let n = before.len() as int;
                    assert(storage@[n] == instance_of(cell_block(offset, i as int), self@[i as int]));
                    assert(renders_at(self@, offset, i as int, storage@[n]));
                    assert(renders_cell(self@, offset, i + 1, storage@[n]));
                    assert(drawn_after(storage@, start, storage@[n]));
                    assert(storage@.subrange(0, start) =~= before.subrange(0, start));
                }
            }
            proof {
                assert forall|j: int| start <= j < storage@.len() implies renders_cell(
                    self@,
                    offset,
                    i + 1,
                    #[trigger] storage@[j],
                ) by {
                    if j < before.len() {
                        assert(storage@[j] == before[j]);
                        assert(renders_cell(self@, offset, i as int, before[j]));
                        let k = choose|k: int| renders_at(self@, offset, k, before[j]) && 0 <= k < i;
                        assert(renders_at(self@, offset, k, storage@[j]));
                    }
                }
                assert forall|k: int| 0 <= k < i + 1 && self@[k] != AIR implies #[trigger] drawn_after(
                    storage@,
                    start,
                    instance_of(cell_block(offset, k), self@[k]),
                ) by {
                    if k < i {
                        let inst = instance_of(cell_block(offset, k), self@[k]);
                        assert(drawn_after(before, start, inst));
                        let j = choose|j: int| start <= j < before.len() && before[j] == inst;
                        assert(storage@[j] == before[j]);
                    }
                }
            }
            i = i + 1;
        }
    }
}

/// Whether cell `k` of a layer with contents `blocks` at `offset` is drawn as `inst`.
pub open spec fn renders_at(blocks: Seq<BlockID>, offset: BlockCoords, k: int, inst: CubeInstance) -> bool {
    blocks[k] != AIR && inst == instance_of(cell_block(offset, k), blocks[k])
}

/// Whether `inst` is what is drawn for one of the first `n` cells of a layer.
pub open spec fn renders_cell(blocks: Seq<BlockID>, offset: BlockCoords, n: int, inst: CubeInstance) -> bool {
    exists|k: int| 0 <= k < n && #[trigger] renders_at(blocks, offset, k, inst)
}

/// Whether `inst` stands in `s` at or after index `start`.
pub open spec fn drawn_after(s: Seq<CubeInstance>, start: int, inst: CubeInstance) -> bool {
    exists|j: int| start <= j < s.len() && s[j] == inst
}

} // verus!
