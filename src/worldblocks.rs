//! The world's spatial index: a sparse map from column coordinate to column.
use std::collections::HashMap;
use vstd::prelude::*;

use crate::region::BlockRegion;
use crate::slice::{CubeInstance, X_SIZE, Z_SIZE, drawn_after, instance_of};
use crate::stack::{Stack, column_fits, column_renders};
use crate::units::{
    AIR, BlockCoords, BlockID, EntityCoords, StackCoords, Vec3, WorldCoords, SUBUNITS, floor_block,
    floor_div, in_column, lemma_in_column, lemma_stack_key_injective, lemma_locate_round_trip, local_of,
    offset_of, stack_key, stack_key_of, stack_of,
};

verus! {

broadcast use vstd::std_specs::hash::group_hash_axioms;

/// How many columns on each side of the viewer's column are drawn.
pub const STACK_RENDER_BOUND: i32 = 3;

pub struct WorldBlocks {
    stacks: HashMap<u64, Stack>,
}

/// Whether column `c` lies in the square drawn around column `center`.
pub open spec fn in_render_square(center: StackCoords, c: StackCoords) -> bool {
    center.x - STACK_RENDER_BOUND <= c.x < center.x + STACK_RENDER_BOUND && center.z
        - STACK_RENDER_BOUND <= c.z < center.z + STACK_RENDER_BOUND
}

/// Whether block `b` falls in the region fetched for the block range
/// `lo..=hi`: its column lies between the columns of the range's corners, its
/// level lies in the range, and both are present.
pub open spec fn region_selects(world: WorldBlocks, lo: BlockCoords, hi: BlockCoords, b: BlockCoords) -> bool {
    &&& lo.x / 16 <= stack_of(b).x <= hi.x / 16
    &&& lo.z / 16 <= stack_of(b).z <= hi.z / 16
    &&& lo.y <= b.y <= hi.y
    &&& world.has_column(stack_of(b))
    &&& world.column(stack_of(b)).has_level(b.y as int)
}

/// The lowest block touched by the box of half-extent `bounds` around `position`.
pub open spec fn box_lo(position: WorldCoords, bounds: Vec3) -> BlockCoords {
    BlockCoords {
        x: floor_block(position.x - bounds.x) as i32,
        y: floor_block(position.y - bounds.y) as i32,
        z: floor_block(position.z - bounds.z) as i32,
    }
}

/// The highest block touched by the box of half-extent `bounds` around `position`.
pub open spec fn box_hi(position: WorldCoords, bounds: Vec3) -> BlockCoords {
    BlockCoords {
        x: floor_block(position.x + bounds.x) as i32,
        y: floor_block(position.y + bounds.y) as i32,
        z: floor_block(position.z + bounds.z) as i32,
    }
}

/// Whether block `b`, the cell from `b` to `b + 1` on each axis, meets the
/// closed box of half-extent `bounds` around `position`.
pub open spec fn block_meets_box(b: BlockCoords, position: WorldCoords, bounds: Vec3) -> bool {
    forall|a: int|
        0 <= a < 3 ==> #[trigger] b.at(a) * SUBUNITS <= position.at(a) + bounds.at(a) && position.at(a)
            - bounds.at(a) < (b.at(a) + 1) * SUBUNITS
}

/// The block holding subunit coordinate `v`, for any sum or difference of two
/// `i32` values.
pub(crate) fn block_of_wide(v: i64) -> (r: i32)
    requires
        -0x1_0000_0000 <= v <= 0x1_0000_0000,
    ensures
        r == floor_block(v as int),
{
    proof {
        vstd::arithmetic::div_mod::lemma_fundamental_div_mod(v as int, SUBUNITS as int);
    }
    floor_div(v, SUBUNITS as i64) as i32
}

/// Whether `inst` is what is drawn for a non-air block of `world` whose
/// column lies in the square around column `center`.
pub open spec fn world_renders(world: WorldBlocks, center: StackCoords, inst: CubeInstance) -> bool {
    exists|b: BlockCoords|
        in_render_square(center, stack_of(b)) && #[trigger] world.block(b) != AIR && inst
            == instance_of(b, world.block(b))
}

/// The column holding an entity position.
pub open spec fn column_of_position(position: EntityCoords) -> StackCoords {
    StackCoords {
        x: (position.x as int / (X_SIZE * SUBUNITS) as int) as i32,
        z: (position.z as int / (Z_SIZE * SUBUNITS) as int) as i32,
    }
}

/// `after` holds `id` at `position` where `set` is true, and otherwise
/// every block of `before`.
pub open spec fn block_set(before: WorldBlocks, after: WorldBlocks, position: BlockCoords, id: BlockID, set: bool) -> bool {
    forall|b: BlockCoords|
        #[trigger] after.block(b) == if set && b == position {
            id
        } else {
            before.block(b)
        }
}

impl WorldBlocks {
    /// Whether column `c` has been generated.
    pub closed spec fn has_column(&self, c: StackCoords) -> bool {
        self.stacks@.contains_key(stack_key(c) as u64)
    }

    /// The column at `c`, where it has been generated.
    pub closed spec fn column(&self, c: StackCoords) -> Stack {
        self.stacks@[stack_key(c) as u64]
    }

    /// Every generated column is well formed.
    pub closed spec fn wf(&self) -> bool {
        forall|k: u64| #[trigger] self.stacks@.contains_key(k) ==> self.stacks@[k].wf()
    }

    /// The identifier of block `b`: air where its column is not generated.
    pub open spec fn block(&self, b: BlockCoords) -> BlockID {
        if self.has_column(stack_of(b)) {
            self.column(stack_of(b)).block_at(offset_of(b))
        } else {
            AIR
        }
    }

    /// A world with no generated column.
    pub fn new() -> (r: Self)
        ensures
            r.wf(),
            forall|c: StackCoords| !r.has_column(c),
    {
        proof {
            assert(vstd::std_specs::hash::obeys_key_model::<u64>());
        }
        WorldBlocks { stacks: HashMap::new() }
    }

    /// Stores a generated column at `coords`, replacing any column there.
    pub fn insert_stack(&mut self, coords: StackCoords, stack: Stack)
        requires
            old(self).wf(),
            stack.wf(),
        ensures
            final(self).wf(),
            forall|c: StackCoords|
                #[trigger] final(self).has_column(c) == (old(self).has_column(c) || c == coords),
            final(self).column(coords) == stack,
            forall|c: StackCoords|
                c != coords ==> #[trigger] final(self).column(c) == old(self).column(c),
    {
        let k = stack_key_of(coords);
        self.stacks.insert(k, stack);
        proof {
            assert forall|c: StackCoords|
                #[trigger] self.has_column(c) == (old(self).has_column(c) || c == coords) by {
                lemma_stack_key_injective(c, coords);
            }
            assert forall|c: StackCoords|
                c != coords implies #[trigger] self.column(c) == old(self).column(c) by {
                lemma_stack_key_injective(c, coords);
            }
        }
    }

    /// The world used while nothing is generated: columns 0 to 2 along x and
    /// z, each as `Stack::test_layout` gives it.
    pub fn test_layout() -> (r: Self)
        ensures
            r.wf(),
            forall|c: StackCoords|
                #[trigger] r.has_column(c) <==> 0 <= c.x < 3 && 0 <= c.z < 3,
            forall|b: BlockCoords| #[trigger] r.block(b) == AIR,
            forall|b: BlockCoords|
                r.has_column(stack_of(b)) ==> (#[trigger] r.column(stack_of(b)).has_level(
                    b.y as int,
                ) <==> 0 <= b.y < 3),
    {
        let mut world = WorldBlocks::new();
        let mut x: i32 = 0;
        while x < 3
            invariant
                0 <= x <= 3,
                world.wf(),
                forall|c: StackCoords|
                    #[trigger] world.has_column(c) <==> 0 <= c.x < x && 0 <= c.z < 3,
                forall|c: StackCoords|
                    #[trigger] world.has_column(c) ==> (forall|y: int| #[trigger] world.column(c).has_level(y) <==> 0 <= y < 3)
                        && (forall|loc: BlockCoords|
                        0 <= loc.x < X_SIZE && 0 <= loc.z < Z_SIZE ==> #[trigger] world.column(
                            c,
                        ).block_at(loc) == AIR),
            decreases 3 - x,
        {
            let mut z: i32 = 0;
            while z < 3
                invariant
                    0 <= x < 3,
                    0 <= z <= 3,
                    world.wf(),
                    forall|c: StackCoords|
                        #[trigger] world.has_column(c) <==> (0 <= c.x < x && 0 <= c.z < 3) || (c.x
                            == x && 0 <= c.z < z),
                    forall|c: StackCoords|
                        #[trigger] world.has_column(c) ==> (forall|y: int| #[trigger] world.column(c).has_level(y) <==> 0 <= y < 3)
                            && (forall|loc: BlockCoords|
                            0 <= loc.x < X_SIZE && 0 <= loc.z < Z_SIZE ==> #[trigger] world.column(
                                c,
                            ).block_at(loc) == AIR),
                decreases 3 - z,
            {
                world.insert_stack(StackCoords { x, z }, Stack::test_layout());
                z = z + 1;
            }
            x = x + 1;
        }
        proof {
            assert forall|b: BlockCoords| #[trigger] world.block(b) == AIR by {
                lemma_locate_round_trip(b);
            }
        }
        world
    }

    /// Finds the column holding block `b`: its column coordinate, `b`'s place
    /// inside the column, and the column itself; `None` where the column is
    /// not generated.
    pub fn get_stack_at(&self, position: BlockCoords) -> (r: Option<(StackCoords, BlockCoords, &Stack)>)
        requires
            self.wf(),
        ensures
            match r {
                Some((c, offset, stack)) => {
                    &&& self.has_column(stack_of(position))
                    &&& c == stack_of(position)
                    &&& offset == offset_of(position)
                    &&& *stack == self.column(c)
                    &&& stack.wf()
                    &&& c.x * 16 + offset.x == position.x
                    &&& c.z * 16 + offset.z == position.z
                    &&& offset.y == position.y
                    &&& 0 <= offset.x < 16
                    &&& 0 <= offset.z < 16
                },
                None => !self.has_column(stack_of(position)),
            },
    {
        let cx = floor_div(position.x as i64, X_SIZE as i64) as i32;
        let cz = floor_div(position.z as i64, Z_SIZE as i64) as i32;
        let coords = StackCoords { x: cx, z: cz };
        proof {
            lemma_locate_round_trip(position);
        }
        let offset = BlockCoords { x: position.x - cx * X_SIZE, y: position.y, z: position.z - cz * Z_SIZE };
        match self.stacks.get(&stack_key_of(coords)) {
            Some(stack) => Some((coords, offset, stack)),
            None => None,
        }
    }

    /// The identifier of block `b`: air where its column is not generated.
    pub fn get_block(&self, position: BlockCoords) -> (r: BlockID)
        requires
            self.wf(),
        ensures
            r == self.block(position),
            !self.has_column(stack_of(position)) ==> r == AIR,
    {
        proof {
            lemma_locate_round_trip(position);
        }
        match self.get_stack_at(position) {
            Some((_, offset, stack)) => stack.get(offset),
            None => AIR,
        }
    }

    /// Stores `id` at block `b` and returns true where `b`'s column is
    /// generated; returns false and changes nothing where it is not.
    pub fn set_block(&mut self, position: BlockCoords, id: BlockID) -> (r: bool)
        requires
            old(self).wf(),
        ensures
            final(self).wf(),
            r == old(self).has_column(stack_of(position)),
            forall|c: StackCoords| #[trigger] final(self).has_column(c) == old(self).has_column(c),
            block_set(*old(self), *final(self), position, id, r),
    {
        let cx = floor_div(position.x as i64, X_SIZE as i64) as i32;
        let cz = floor_div(position.z as i64, Z_SIZE as i64) as i32;
        let coords = StackCoords { x: cx, z: cz };
        proof {
            lemma_locate_round_trip(position);
        }
        let offset = BlockCoords { x: position.x - cx * X_SIZE, y: position.y, z: position.z - cz * Z_SIZE };
        let k = stack_key_of(coords);
        match self.stacks.remove(&k) {
            Some(mut stack) => {
                assert(old(self).stacks@.contains_key(k));
                stack.set_block(offset, id);
                self.stacks.insert(k, stack);
                proof {
                    assert(self.stacks@ == old(self).stacks@.insert(k, stack));
                    assert forall|c: StackCoords| #[trigger] self.has_column(c) == old(self).has_column(c) by {
                        lemma_stack_key_injective(c, coords);
                    }
                    assert forall|b: BlockCoords|
                        #[trigger] self.block(b) == if b == position {
                            id
                        } else {
                            old(self).block(b)
                        } by {
                        lemma_locate_round_trip(b);
                        lemma_stack_key_injective(stack_of(b), coords);
                    }
                }
                true
            },
            None => {
                proof {
                    assert(self.stacks@ =~= old(self).stacks@);
                }
                false
            },
        }
    }

    /// Fetches, in one pass, every cell of every present layer with level in
    /// `lo.y..=hi.y` of every present column between the columns of `lo` and
    /// of `hi`.
    pub fn region_between(&self, lo: BlockCoords, hi: BlockCoords) -> (r: BlockRegion)
        requires
            self.wf(),
        ensures
            forall|b: BlockCoords|
                #[trigger] r.spec_get(b) == if region_selects(*self, lo, hi, b) {
                    Some(self.block(b))
                } else {
                    None
                },
    {
        let mut region = BlockRegion::new();
        let cxlo = floor_div(lo.x as i64, X_SIZE as i64) as i32;
        let cxhi = floor_div(hi.x as i64, X_SIZE as i64) as i32;
        let czlo = floor_div(lo.z as i64, Z_SIZE as i64) as i32;
        let czhi = floor_div(hi.z as i64, Z_SIZE as i64) as i32;
        proof {
            vstd::arithmetic::div_mod::lemma_fundamental_div_mod(lo.x as int, 16);
            vstd::arithmetic::div_mod::lemma_fundamental_div_mod(hi.x as int, 16);
            vstd::arithmetic::div_mod::lemma_fundamental_div_mod(lo.z as int, 16);
            vstd::arithmetic::div_mod::lemma_fundamental_div_mod(hi.z as int, 16);
        }
        let mut cx = cxlo;
        while cx <= cxhi
            invariant
                self.wf(),
                cxlo == lo.x / 16,
                cxhi == hi.x / 16,
                czlo == lo.z / 16,
                czhi == hi.z / 16,
                cxlo * 16 >= i32::MIN,
                cxhi * 16 + 15 <= i32::MAX,
                czlo * 16 >= i32::MIN,
                czhi * 16 + 15 <= i32::MAX,
                cxlo <= cx,
                cx == cxlo || cx <= cxhi + 1,
                forall|b: BlockCoords|
                    #[trigger] region.spec_get(b) == if region_selects(*self, lo, hi, b)
                        && stack_of(b).x < cx {
                        Some(self.block(b))
                    } else {
                        None
                    },
            decreases cxhi + 1 - cx,
        {
            let mut cz = czlo;
            while cz <= czhi
                invariant
                    self.wf(),
                    cxlo == lo.x / 16,
                    cxhi == hi.x / 16,
                    czlo == lo.z / 16,
                    czhi == hi.z / 16,
                    cxlo * 16 >= i32::MIN,
                    cxhi * 16 + 15 <= i32::MAX,
                    czlo * 16 >= i32::MIN,
                    czhi * 16 + 15 <= i32::MAX,
                    cxlo <= cx <= cxhi,
                    czlo <= cz,
                    cz == czlo || cz <= czhi + 1,
                    forall|b: BlockCoords|
                        #[trigger] region.spec_get(b) == if region_selects(*self, lo, hi, b) && (
                        stack_of(b).x < cx || (stack_of(b).x == cx && stack_of(b).z < cz)) {
                            Some(self.block(b))
                        } else {
                            None
                        },
                decreases czhi + 1 - cz,
            {
                let coords = StackCoords { x: cx, z: cz };
                let ghost before = region;
                match self.stacks.get(&stack_key_of(coords)) {
                    Some(stack) => {
                        assert(column_fits(coords));
                        stack.fill_region(&mut region, coords, lo.y, hi.y);
                        proof {
                            assert forall|b: BlockCoords|
                                #[trigger] region.spec_get(b) == if region_selects(*self, lo, hi, b) && (
                                stack_of(b).x < cx || (stack_of(b).x == cx && stack_of(b).z < cz + 1)) {
                                    Some(self.block(b))
                                } else {
                                    None
                                } by {
                                lemma_locate_round_trip(b);
                                if in_column(coords, b) {
                                    lemma_in_column(coords, b);
                                }
                                assert(region.spec_get(b) == if in_column(coords, b) && lo.y <= b.y <= hi.y
                                    && stack.has_level(b.y as int) {
                                    Some(stack.block_at(local_of(coords, b)))
                                } else {
                                    before.spec_get(b)
                                });
                            }
                        }
                    },
                    None => {
                        proof {
                            assert forall|b: BlockCoords|
                                #[trigger] region.spec_get(b) == if region_selects(*self, lo, hi, b) && (
                                stack_of(b).x < cx || (stack_of(b).x == cx && stack_of(b).z < cz + 1)) {
                                    Some(self.block(b))
                                } else {
                                    None
                                } by {
                                if stack_of(b) == coords {
                                    assert(!self.has_column(stack_of(b)));
                                }
                            }
                        }
                    },
                }
                cz = cz + 1;
            }
            cx = cx + 1;
        }
        region
    }

    /// Fetches the blocks around the box of half-extent `bounds` centred on
    /// `position`: every cell of every present layer that meets the box's
    /// levels, in every present column between those of its two corners.
    pub fn get_subset(&self, position: WorldCoords, bounds: Vec3) -> (r: BlockRegion)
        requires
            self.wf(),
        ensures
            forall|b: BlockCoords|
                #[trigger] r.spec_get(b) == if region_selects(
                    *self,
                    box_lo(position, bounds),
                    box_hi(position, bounds),
                    b,
                ) {
                    Some(self.block(b))
                } else {
                    None
                },
    {
        let lo = BlockCoords {
            x: block_of_wide(position.x as i64 - bounds.x as i64),
            y: block_of_wide(position.y as i64 - bounds.y as i64),
            z: block_of_wide(position.z as i64 - bounds.z as i64),
        };
        let hi = BlockCoords {
            x: block_of_wide(position.x as i64 + bounds.x as i64),
            y: block_of_wide(position.y as i64 + bounds.y as i64),
            z: block_of_wide(position.z as i64 + bounds.z as i64),
        };
        self.region_between(lo, hi)
    }

    /// What is drawn for every non-air block of the generated columns in the
    /// square of columns around the one holding `position`; columns not
    /// generated are skipped.
    pub fn get_renderable_blocks(&self, position: EntityCoords) -> (r: Vec<CubeInstance>)
        requires
            self.wf(),
        ensures
            forall|j: int|
                0 <= j < r@.len() ==> world_renders(
                    *self,
                    column_of_position(position),
                    #[trigger] r@[j],
                ),
            forall|b: BlockCoords|
                in_render_square(column_of_position(position), stack_of(b)) && #[trigger] self.block(b)
                    != AIR ==> r@.contains(instance_of(b, self.block(b))),
    {
        let mut blocks: Vec<CubeInstance> = Vec::new();
        let center = Stack::to_stack_coords(&position);
        let ghost c = column_of_position(position);
        proof {
            vstd::arithmetic::div_mod::lemma_fundamental_div_mod(position.x as int, 16000);
            vstd::arithmetic::div_mod::lemma_fundamental_div_mod(position.z as int, 16000);
        }
        let xlo = center.x - STACK_RENDER_BOUND;
        let zlo = center.z - STACK_RENDER_BOUND;
        let mut x = xlo;
        while x < center.x + STACK_RENDER_BOUND
            invariant
                self.wf(),
                center == c,
                -134218 <= c.x <= 134218,
                -134218 <= c.z <= 134218,
                xlo == c.x - STACK_RENDER_BOUND,
                zlo == c.z - STACK_RENDER_BOUND,
                xlo <= x <= c.x + STACK_RENDER_BOUND,
                forall|j: int|
                    0 <= j < blocks@.len() ==> world_renders(*self, c, #[trigger] blocks@[j]),
                forall|b: BlockCoords|
                    in_render_square(c, stack_of(b)) && stack_of(b).x < x && #[trigger] self.block(b)
                        != AIR ==> blocks@.contains(instance_of(b, self.block(b))),
            decreases c.x + STACK_RENDER_BOUND - x,
        {
            let mut z = zlo;
            while z < center.z + STACK_RENDER_BOUND
                invariant
                    self.wf(),
                    center == c,
                    -134218 <= c.x <= 134218,
                    -134218 <= c.z <= 134218,
                    xlo == c.x - STACK_RENDER_BOUND,
                    zlo == c.z - STACK_RENDER_BOUND,
                    xlo <= x < c.x + STACK_RENDER_BOUND,
                    zlo <= z <= c.z + STACK_RENDER_BOUND,
                    forall|j: int|
                        0 <= j < blocks@.len() ==> world_renders(*self, c, #[trigger] blocks@[j]),
                    forall|b: BlockCoords|
                        in_render_square(c, stack_of(b)) && (stack_of(b).x < x || (stack_of(b).x
                            == x && stack_of(b).z < z)) && #[trigger] self.block(b) != AIR
                            ==> blocks@.contains(instance_of(b, self.block(b))),
                decreases c.z + STACK_RENDER_BOUND - z,
            {
                let coords = StackCoords { x, z };
                match self.stacks.get(&stack_key_of(coords)) {
                    Some(stack) => {
                        let ghost before = blocks@;
                        stack.all_blocks(&mut blocks, coords);
                        proof {
                            assert(*stack == self.column(coords));
                            assert forall|j: int|
                                0 <= j < blocks@.len() implies world_renders(
                                    *self,
                                    c,
                                    #[trigger] blocks@[j],
                                ) by {
                                if j < before.len() {
                                    assert(blocks@.subrange(0, before.len() as int)[j] == before[j]);
                                } else {
                                    assert(column_renders(*stack, coords, blocks@[j]));
                                    let b = choose|b: BlockCoords|
                                        in_column(coords, b) && #[trigger] stack.block_at(
                                            local_of(coords, b),
                                        ) != AIR && blocks@[j] == instance_of(
                                            b,
                                            stack.block_at(local_of(coords, b)),
                                        );
                                    lemma_in_column(coords, b);
                                    assert(self.block(b) == stack.block_at(local_of(coords, b)));
                                }
                            }
                            assert forall|b: BlockCoords|
                                in_render_square(c, stack_of(b)) && (stack_of(b).x < x || (
                                stack_of(b).x == x && stack_of(b).z < z + 1)) && #[trigger] self.block(b)
                                    != AIR implies blocks@.contains(instance_of(b, self.block(b))) by {
                                let inst = instance_of(b, self.block(b));
                                if stack_of(b) == coords {
                                    lemma_locate_round_trip(b);
                                    assert(stack.block_at(local_of(coords, b)) == self.block(b));
                                    assert(drawn_after(blocks@, before.len() as int, inst));
                                    let j = choose|j: int|
                                        before.len() <= j < blocks@.len() && blocks@[j] == inst;
                                    assert(blocks@[j] == inst);
                                } else {
                                    assert(before.contains(inst));
                                    let j = choose|j: int| 0 <= j < before.len() && before[j] == inst;
                                    assert(blocks@.subrange(0, before.len() as int)[j] == before[j]);
                                    assert(blocks@[j] == inst);
                                }
                            }
                        }
                    },
                    None => {
                        proof {
                            assert forall|b: BlockCoords|
                                in_render_square(c, stack_of(b)) && (stack_of(b).x < x || (
                                stack_of(b).x == x && stack_of(b).z < z + 1)) && #[trigger] self.block(b)
                                    != AIR implies blocks@.contains(instance_of(b, self.block(b))) by {
                                if stack_of(b) == coords {
                                    assert(!self.has_column(coords));
                                }
                            }
                        }
                    },
                }
                z = z + 1;
            }
            x = x + 1;
        }
        blocks
    }
}

/// Reading a block just stored in a generated column gives the stored
/// identifier; storing into a column not generated changes no block.
pub proof fn lemma_set_then_get(before: WorldBlocks, after: WorldBlocks, position: BlockCoords, id: BlockID, set: bool)
    requires
        block_set(before, after, position, id, set),
        set == before.has_column(stack_of(position)),
    ensures
        set ==> after.block(position) == id,
        !set ==> forall|b: BlockCoords| #[trigger] after.block(b) == before.block(b),
{
    assert(after.block(position) == if set { id } else { before.block(position) });
}

/// The region fetched for a box holds every block that meets the box, with
/// its identifier, wherever the block's column and level are present; in
/// particular the block at the box's centre.
pub proof fn lemma_region_superset(world: WorldBlocks, position: WorldCoords, bounds: Vec3, b: BlockCoords)
    requires
        block_meets_box(b, position, bounds),
        world.has_column(stack_of(b)),
        world.column(stack_of(b)).has_level(b.y as int),
    ensures
        region_selects(world, box_lo(position, bounds), box_hi(position, bounds), b),
{
    let lo = box_lo(position, bounds);
    let hi = box_hi(position, bounds);
    assert forall|a: int| 0 <= a < 3 implies lo.at(a) <= #[trigger] b.at(a) <= hi.at(a) by {
        assert(b.at(a) * SUBUNITS <= position.at(a) + bounds.at(a));
        assert(position.at(a) - bounds.at(a) < (b.at(a) + 1) * SUBUNITS);
        vstd::arithmetic::div_mod::lemma_fundamental_div_mod(position.at(a) - bounds.at(a), SUBUNITS as int);
        vstd::arithmetic::div_mod::lemma_fundamental_div_mod(position.at(a) + bounds.at(a), SUBUNITS as int);
    }
    assert(lo.at(0) <= b.at(0) <= hi.at(0));
    assert(lo.at(1) <= b.at(1) <= hi.at(1));
    assert(lo.at(2) <= b.at(2) <= hi.at(2));
    vstd::arithmetic::div_mod::lemma_div_is_ordered(lo.x as int, b.x as int, 16);
    vstd::arithmetic::div_mod::lemma_div_is_ordered(b.x as int, hi.x as int, 16);
    vstd::arithmetic::div_mod::lemma_div_is_ordered(lo.z as int, b.z as int, 16);
    vstd::arithmetic::div_mod::lemma_div_is_ordered(b.z as int, hi.z as int, 16);
}

/// The block holding the centre of a box with non-negative half-extents meets
/// the box.
pub proof fn lemma_centre_meets_box(position: WorldCoords, bounds: Vec3)
    requires
        bounds.x >= 0,
        bounds.y >= 0,
        bounds.z >= 0,
    ensures
        block_meets_box(
            BlockCoords {
                x: floor_block(position.x as int) as i32,
                y: floor_block(position.y as int) as i32,
                z: floor_block(position.z as int) as i32,
            },
            position,
            bounds,
        ),
{
    let b = BlockCoords {
        x: floor_block(position.x as int) as i32,
        y: floor_block(position.y as int) as i32,
        z: floor_block(position.z as int) as i32,
    };
    vstd::arithmetic::div_mod::lemma_fundamental_div_mod(position.x as int, SUBUNITS as int);
    vstd::arithmetic::div_mod::lemma_fundamental_div_mod(position.y as int, SUBUNITS as int);
    vstd::arithmetic::div_mod::lemma_fundamental_div_mod(position.z as int, SUBUNITS as int);
    assert forall|a: int|
        0 <= a < 3 implies #[trigger] b.at(a) * SUBUNITS <= position.at(a) + bounds.at(a) && position.at(a)
            - bounds.at(a) < (b.at(a) + 1) * SUBUNITS by {
    }
}

} // verus!
