//! One vertical column of the world: a sparse map from vertical level to layer.
use std::collections::HashMap;
use vstd::prelude::*;

use crate::slice::{
    CubeInstance, Slice, SIZE, X_SIZE, Z_SIZE, cell_block, drawn_after, instance_of, local_index,
    renders_at, renders_cell, lemma_cell_in_footprint, lemma_footprint_cell, in_footprint,
};
use crate::region::BlockRegion;
use crate::units::{
    AIR, BlockCoords, BlockID, EntityCoords, StackCoords, SUBUNITS, floor_div, in_column, local_of,
};

verus! {

broadcast use vstd::std_specs::hash::group_hash_axioms;

/// The world-design height limit, in levels; storage does not enforce it.
pub const MAX_HEIGHT: i32 = 32;

pub struct Stack {
    slices: HashMap<i32, Slice>,
    levels: Vec<i32>,
}

/// The origin corner of the layer at level `y` of column `c`.
pub open spec fn layer_origin(c: StackCoords, y: i32) -> BlockCoords {
    BlockCoords { x: (c.x * 16) as i32, y, z: (c.z * 16) as i32 }
}

/// Whether the origin corner of column `c` and its far edge fit in `i32`.
pub open spec fn column_fits(c: StackCoords) -> bool {
    i32::MIN <= c.x * 16 && c.x * 16 + 15 <= i32::MAX && i32::MIN <= c.z * 16 && c.z * 16 + 15
        <= i32::MAX
}

/// Whether `inst` is what is drawn for some non-air block of `stack` standing
/// as column `c`.
pub open spec fn column_renders(stack: Stack, c: StackCoords, inst: CubeInstance) -> bool {
    exists|b: BlockCoords|
        in_column(c, b) && #[trigger] stack.block_at(local_of(c, b)) != AIR && inst == instance_of(
            b,
            stack.block_at(local_of(c, b)),
        )
}

proof fn lemma_layer_cell(c: StackCoords, y: i32, k: int)
    requires
        0 <= k < SIZE,
        column_fits(c),
    ensures
        in_column(c, cell_block(layer_origin(c, y), k)),
        cell_block(layer_origin(c, y), k).y == y,
        local_index(
            local_of(c, cell_block(layer_origin(c, y), k)).x as int,
            local_of(c, cell_block(layer_origin(c, y), k)).z as int,
        ) == k,
        0 <= local_of(c, cell_block(layer_origin(c, y), k)).x < 16,
        0 <= local_of(c, cell_block(layer_origin(c, y), k)).z < 16,
{
    lemma_cell_in_footprint(layer_origin(c, y), k);
}

proof fn lemma_column_cell(c: StackCoords, b: BlockCoords)
    requires
        in_column(c, b),
        column_fits(c),
    ensures
        cell_block(layer_origin(c, b.y), local_index(local_of(c, b).x as int, local_of(c, b).z as int))
            == b,
        0 <= local_index(local_of(c, b).x as int, local_of(c, b).z as int) < SIZE,
{
    lemma_footprint_cell(layer_origin(c, b.y), b);
}

impl Stack {
    /// Whether level `y` holds a layer.
    pub closed spec fn has_level(&self, y: int) -> bool {
        self.slices@.contains_key(y as i32) && i32::MIN <= y <= i32::MAX
    }

    /// The contents of the layer at level `y`.
    pub closed spec fn layer(&self, y: int) -> Seq<BlockID> {
        self.slices@[y as i32]@
    }

    /// Every present level holds a well-formed layer, and `levels` lists
    /// the present levels once each.
    pub closed spec fn wf(&self) -> bool {
        &&& self.levels@.no_duplicates()
        &&& forall|y: i32| #[trigger] self.slices@.contains_key(y) <==> self.levels@.contains(y)
        &&& forall|y: i32| #[trigger] self.slices@.contains_key(y) ==> self.slices@[y].wf()
    }

    /// The identifier at a position local to the column (x and z in `0..16`):
    /// air where its level holds no layer.
    pub open spec fn block_at(&self, loc: BlockCoords) -> BlockID {
        if self.has_level(loc.y as int) {
            self.layer(loc.y as int)[local_index(loc.x as int, loc.z as int)]
        } else {
            AIR
        }
    }

    /// A column with no layers.
    pub fn new() -> (r: Self)
        ensures
            r.wf(),
            forall|y: int| !r.has_level(y),
    {
        proof {
            assert(vstd::std_specs::hash::obeys_key_model::<i32>());
        }
        Stack { slices: HashMap::new(), levels: Vec::new() }
    }

    /// Stores `slice` as the layer at level `y`, replacing any layer there.
    pub fn insert_slice(&mut self, y: i32, slice: Slice)
        requires
            old(self).wf(),
            slice.wf(),
        ensures
            final(self).wf(),
            forall|l: int|
                #[trigger] final(self).has_level(l) == (old(self).has_level(l) || l == y),
            final(self).layer(y as int) == slice@,
            forall|l: int|
                l != y && old(self).has_level(l) ==> #[trigger] final(self).layer(l) == old(
                    self,
                ).layer(l),
    {
        let ghost s = slice@;
        let present = self.slices.contains_key(&y);
        self.slices.insert(y, slice);
        if !present {
            let ghost before = self.levels@;
            self.levels.push(y);
            proof {
                lemma_push_level(before, y);
            }
        }
        proof {
            assert forall|l: int| l != y && old(self).has_level(l) implies #[trigger] self.layer(l)
                == old(self).layer(l) by {
                assert((l as i32) != y);
            }
        }
    }

    /// The column used while nothing is generated: air layers at levels 0 to 2.
    pub fn test_layout() -> (r: Self)
        ensures
            r.wf(),
            forall|y: int| #[trigger] r.has_level(y) <==> 0 <= y < 3,
            forall|loc: BlockCoords|
                0 <= loc.x < X_SIZE && 0 <= loc.z < Z_SIZE ==> #[trigger] r.block_at(loc) == AIR,
    {
        let mut stack = Stack::new();
        let mut i: i32 = 0;
        while i < 3
            invariant
                0 <= i <= 3,
                stack.wf(),
                forall|y: int| #[trigger] stack.has_level(y) <==> 0 <= y < i,
                forall|y: int| 0 <= y < i ==> #[trigger] stack.layer(y) == Seq::new(SIZE as nat, |k: int| AIR),
            decreases 3 - i,
        {
            stack.insert_slice(i, Slice::new(AIR));
            i = i + 1;
        }
        stack
    }

    /// The identifier at a position local to the column: air where its
    /// level holds no layer.
    pub fn get(&self, loc: BlockCoords) -> (r: BlockID)
        requires
            self.wf(),
            0 <= loc.x < X_SIZE,
            0 <= loc.z < Z_SIZE,
        ensures
            r == self.block_at(loc),
    {
        match self.slices.get(&loc.y) {
            Some(slice) => slice.get(loc),
            None => AIR,
        }
    }

    /// Stores `id` at a position local to the column, adding an air layer at
    /// its level first where there is none.
    pub fn set_block(&mut self, loc: BlockCoords, id: BlockID)
        requires
            old(self).wf(),
            0 <= loc.x < X_SIZE,
            0 <= loc.z < Z_SIZE,
        ensures
            final(self).wf(),
            forall|l: int|
                #[trigger] final(self).has_level(l) == (old(self).has_level(l) || l == loc.y),
            forall|c: BlockCoords|
                0 <= c.x < X_SIZE && 0 <= c.z < Z_SIZE ==> #[trigger] final(self).block_at(c) == if c
                    == loc {
                    id
                } else {
                    old(self).block_at(c)
                },
    {
        let present = self.slices.contains_key(&loc.y);
        let mut slice = match self.slices.remove(&loc.y) {
            Some(slice) => slice,
            None => Slice::new(AIR),
        };
        slice.set_block(loc, id);
        self.slices.insert(loc.y, slice);
        if !present {
            let ghost before = self.levels@;
            self.levels.push(loc.y);
            proof {
                lemma_push_level(before, loc.y);
            }
        }
        proof {
            assert forall|c: BlockCoords|
                0 <= c.x < X_SIZE && 0 <= c.z < Z_SIZE implies #[trigger] self.block_at(c) == if c
                    == loc {
                    id
                } else {
                    old(self).block_at(c)
                } by {
                if c.y != loc.y {
                    assert(self.has_level(c.y as int) == old(self).has_level(c.y as int));
                } else if c != loc {
                    assert(local_index(c.x as int, c.z as int) != local_index(loc.x as int, loc.z as int));
                }
            }
        }
    }

    /// Appends what is drawn for every non-air block of this column, which
    /// stands at column coordinate `coords`, layer by layer.
    pub fn all_blocks(&self, storage: &mut Vec<CubeInstance>, coords: StackCoords)
        requires
            self.wf(),
            column_fits(coords),
        ensures
            final(storage)@.len() >= old(storage)@.len(),
            final(storage)@.subrange(0, old(storage)@.len() as int) == old(storage)@,
            forall|j: int|
                old(storage)@.len() <= j < final(storage)@.len() ==> column_renders(
                    *self,
                    coords,
                    #[trigger] final(storage)@[j],
                ),
            forall|b: BlockCoords|
                in_column(coords, b) && #[trigger] self.block_at(local_of(coords, b)) != AIR
                    ==> drawn_after(
                    final(storage)@,
                    old(storage)@.len() as int,
                    instance_of(b, self.block_at(local_of(coords, b))),
                ),
    {
        let ghost start = storage@.len() as int;
        let (ox, oz) = Self::from_stack_coords(&coords);
        let mut li: usize = 0;
        while li < self.levels.len()
            invariant
                li <= self.levels@.len(),
                self.wf(),
                column_fits(coords),
                ox == coords.x * 16,
                oz == coords.z * 16,
                start == old(storage)@.len(),
                storage@.len() >= start,
                storage@.subrange(0, start) == old(storage)@,
                forall|j: int|
                    start <= j < storage@.len() ==> column_renders(
                        *self,
                        coords,
                        #[trigger] storage@[j],
                    ),
                forall|b: BlockCoords|
                    in_column(coords, b) && #[trigger] self.block_at(local_of(coords, b)) != AIR
                        && self.levels@.subrange(0, li as int).contains(b.y) ==> drawn_after(
                        storage@,
                        start,
                        instance_of(b, self.block_at(local_of(coords, b))),
                    ),
            decreases self.levels@.len() - li,
        {
            let y = self.levels[li];
            assert(self.levels@.contains(y));
            let slice = self.slices.get(&y).unwrap();
            let offset = BlockCoords { x: ox, y, z: oz };
            let ghost before = storage@;
            slice.get_all(storage, offset);
            proof {
                assert(offset == layer_origin(coords, y));
                assert(self.layer(y as int) == slice@);
                assert(self.has_level(y as int));
                assert forall|j: int| start <= j < storage@.len() implies column_renders(
                    *self,
                    coords,
                    #[trigger] storage@[j],
                ) by {
                    if j < before.len() {
                        assert(storage@.subrange(0, before.len() as int)[j] == before[j]);
                        assert(column_renders(*self, coords, before[j]));
                    } else {
                        assert(renders_cell(slice@, offset, SIZE as int, storage@[j]));
                        let k = choose|k: int| 0 <= k < SIZE as int && #[trigger] renders_at(slice@, offset, k, storage@[j]);
                        lemma_layer_cell(coords, y, k);
                        let b = cell_block(offset, k);
                        assert(self.block_at(local_of(coords, b)) == slice@[k]);
                    }
                }
                assert forall|b: BlockCoords|
                    in_column(coords, b) && #[trigger] self.block_at(local_of(coords, b)) != AIR
                        && self.levels@.subrange(0, li + 1).contains(b.y) implies drawn_after(
                        storage@,
                        start,
                        instance_of(b, self.block_at(local_of(coords, b))),
                    ) by {
                    let inst = instance_of(b, self.block_at(local_of(coords, b)));
                    let i = choose|i: int| 0 <= i < li + 1 && #[trigger] self.levels@.subrange(0, li + 1)[i] == b.y;
                    if i < li {
                        assert(self.levels@.subrange(0, li as int)[i] == b.y);
                        assert(drawn_after(before, start, inst));
                        let j = choose|j: int| start <= j < before.len() && before[j] == inst;
                        assert(storage@.subrange(0, before.len() as int)[j] == before[j]);
                    } else {
                        assert(b.y == y);
                        lemma_column_cell(coords, b);
                        let k = local_index(local_of(coords, b).x as int, local_of(coords, b).z as int);
                        assert(drawn_after(storage@, before.len() as int, instance_of(cell_block(offset, k), slice@[k])));
                    }
                }
                assert(storage@.subrange(0, start) =~= storage@.subrange(0, before.len() as int).subrange(0, start));
            }
            li = li + 1;
        }
        proof {
            assert(self.levels@.subrange(0, li as int) =~= self.levels@);
            assert forall|b: BlockCoords|
                in_column(coords, b) && #[trigger] self.block_at(local_of(coords, b)) != AIR
                    implies self.levels@.contains(b.y) by {
                assert(self.has_level(b.y as int));
            }
        }
    }

    /// The column holding an entity position: floor division of x and z by
    /// the layer size in subunits.
    pub fn to_stack_coords(position: &EntityCoords) -> (r: StackCoords)
        ensures
            r.x == position.x as int / (X_SIZE * SUBUNITS) as int,
            r.z == position.z as int / (Z_SIZE * SUBUNITS) as int,
    {
        StackCoords {
            x: floor_div(position.x as i64, (X_SIZE * SUBUNITS) as i64) as i32,
            z: floor_div(position.z as i64, (Z_SIZE * SUBUNITS) as i64) as i32,
        }
    }

    /// The origin corner of a column, in block coordinates.
    pub fn from_stack_coords(position: &StackCoords) -> (r: (i32, i32))
        requires
            column_fits(*position),
        ensures
            r.0 == position.x * X_SIZE,
            r.1 == position.z * Z_SIZE,
    {
        (position.x * X_SIZE, position.z * Z_SIZE)
    }

    /// Records in `region` every cell, air included, of each layer of this
    /// column whose level lies in `ylo..=yhi`; the column stands at `coords`.
    pub fn fill_region(&self, region: &mut BlockRegion, coords: StackCoords, ylo: i32, yhi: i32)
        requires
            self.wf(),
            column_fits(coords),
        ensures
            forall|b: BlockCoords|
                #[trigger] final(region).spec_get(b) == if in_column(coords, b) && ylo <= b.y <= yhi
                    && self.has_level(b.y as int) {
                    Some(self.block_at(local_of(coords, b)))
                } else {
                    old(region).spec_get(b)
                },
    {
        let (ox, oz) = Self::from_stack_coords(&coords);
        let mut li: usize = 0;
        while li < self.levels.len()
            invariant
                li <= self.levels@.len(),
                self.wf(),
                column_fits(coords),
                ox == coords.x * 16,
                oz == coords.z * 16,
                forall|b: BlockCoords|
                    #[trigger] region.spec_get(b) == if in_column(coords, b) && ylo <= b.y <= yhi
                        && self.levels@.subrange(0, li as int).contains(b.y) {
                        Some(self.block_at(local_of(coords, b)))
                    } else {
                        old(region).spec_get(b)
                    },
            decreases self.levels@.len() - li,
        {
            let y = self.levels[li];
            let ghost before = *region;
            assert(self.levels@.contains(y));
            if ylo <= y && y <= yhi {
                let slice = self.slices.get(&y).unwrap();
                let offset = BlockCoords { x: ox, y, z: oz };
                slice.get_all_hash(region, offset);
                proof {
                    assert(self.layer(y as int) == slice@);
                    assert(self.has_level(y as int));
                }
            }
            proof {
                assert forall|b: BlockCoords|
                    #[trigger] region.spec_get(b) == if in_column(coords, b) && ylo <= b.y <= yhi
                        && self.levels@.subrange(0, li + 1).contains(b.y) {
                        Some(self.block_at(local_of(coords, b)))
                    } else {
                        old(region).spec_get(b)
                    } by {
                    let now = self.levels@.subrange(0, li + 1).contains(b.y);
                    let was = self.levels@.subrange(0, li as int).contains(b.y);
                    if was {
                        let i = choose|i: int| 0 <= i < li && #[trigger] self.levels@.subrange(0, li as int)[i] == b.y;
                        assert(self.levels@.subrange(0, li + 1)[i] == b.y);
                    }
                    if now && !was {
                        let i = choose|i: int| 0 <= i < li + 1 && #[trigger] self.levels@.subrange(0, li + 1)[i] == b.y;
                        if i < li {
                            assert(self.levels@.subrange(0, li as int)[i] == b.y);
                        }
                        assert(b.y == y);
                    }
                    if !now {
                        assert(self.levels@.subrange(0, li + 1)[li as int] == y);
                    }
                    if in_column(coords, b) && b.y == y {
                        lemma_column_cell(coords, b);
                        assert(in_footprint(layer_origin(coords, y), b));
                    }
                    if b.y != y || !in_column(coords, b) {
                        assert(!in_footprint(layer_origin(coords, y), b));
                    }
                }
            }
            li = li + 1;
        }
        proof {
            assert(self.levels@.subrange(0, li as int) =~= self.levels@);
            assert forall|b: BlockCoords| #[trigger] region.spec_get(b) == if in_column(coords, b) && ylo <= b.y <= yhi
                    && self.has_level(b.y as int) {
                    Some(self.block_at(local_of(coords, b)))
                } else {
                    old(region).spec_get(b)
                } by {
                assert(self.has_level(b.y as int) <==> self.levels@.contains(b.y));
            }
        }
    }
}

proof fn lemma_push_level(before: Seq<i32>, y: i32)
    requires
        before.no_duplicates(),
        !before.contains(y),
    ensures
        before.push(y).no_duplicates(),
        forall|l: i32| #[trigger] before.push(y).contains(l) <==> before.contains(l) || l == y,
{
    let after = before.push(y);
    assert forall|l: i32| #[trigger] after.contains(l) <==> before.contains(l) || l == y by {
        if before.contains(l) {
            let i = choose|i: int| 0 <= i < before.len() && before[i] == l;
            assert(after[i] == l);
        }
        if l == y {
            assert(after[before.len() as int] == l);
        }
        if after.contains(l) {
            let i = choose|i: int| 0 <= i < after.len() && after[i] == l;
            if i < before.len() {
                assert(before[i] == l);
            }
        }
    }
    assert forall|i: int, j: int|
        0 <= i < after.len() && 0 <= j < after.len() && i != j implies after[i] != after[j] by {
        if i < before.len() && j < before.len() {
        } else if i < before.len() {
            assert(before.contains(after[i]));
        } else if j < before.len() {
            assert(before.contains(after[j]));
        }
    }
}

} // verus!
