//! Coordinate spaces: fixed-point entity coordinates, integer block
//! coordinates and column coordinates.
use vstd::prelude::*;
use vstd::arithmetic::div_mod::lemma_fundamental_div_mod_converse;

verus! {

/// A block-type identifier: 0 is air, anything else an opaque block.
pub type BlockID = u8;

/// The identifier of an empty cell.
pub const AIR: BlockID = 0;

/// Entity coordinates are fixed-point: one block is this many subunits.
pub const SUBUNITS: i32 = 1000;

/// Integer coordinate of one unit cube.
#[derive(Clone, Copy, Debug, PartialEq, Eq, Structural)]
pub struct BlockCoords {
    pub x: i32,
    pub y: i32,
    pub z: i32,
}

/// Coordinate of one vertical column of blocks.
#[derive(Clone, Copy, Debug, PartialEq, Eq, Structural, Hash)]
pub struct StackCoords {
    pub x: i32,
    pub z: i32,
}

/// A fixed-point vector: a position, a velocity (subunits per second) or a
/// half-extent, one component per axis, in subunits.
#[derive(Clone, Copy, Debug, PartialEq, Eq, Structural)]
pub struct Vec3 {
    pub x: i32,
    pub y: i32,
    pub z: i32,
}

/// A continuous position, in subunits.
pub type WorldCoords = Vec3;

/// A position in entity space.
pub type EntityCoords = Vec3;

impl Vec3 {
    /// The component on axis `a` (0 = x, 1 = y, 2 = z).
    pub open spec fn at(self, a: int) -> int {
        if a == 0 {
            self.x as int
        } else if a == 1 {
            self.y as int
        } else {
            self.z as int
        }
    }

    /// The component on axis `a`.
    pub fn get(&self, a: usize) -> (r: i32)
        requires
            a < 3,
        ensures
            r as int == self.at(a as int),
    {
        if a == 0 {
            self.x
        } else if a == 1 {
            self.y
        } else {
            self.z
        }
    }

    /// Replaces the component on axis `a`.
    pub fn set(&mut self, a: usize, v: i32)
        requires
            a < 3,
        ensures
            final(self).at(a as int) == v,
            forall|b: int| 0 <= b < 3 && b != a ==> final(self).at(b) == old(self).at(b),
    {
        if a == 0 {
            self.x = v;
        } else if a == 1 {
            self.y = v;
        } else {
            self.z = v;
        }
    }
}

impl BlockCoords {
    /// The component on axis `a` (0 = x, 1 = y, 2 = z).
    pub open spec fn at(self, a: int) -> int {
        if a == 0 {
            self.x as int
        } else if a == 1 {
            self.y as int
        } else {
            self.z as int
        }
    }
}

/// The block index holding subunit coordinate `v`: floor division.
pub open spec fn floor_block(v: int) -> int {
    v / (SUBUNITS as int)
}

/// The block boundary nearest to subunit coordinate `v`, halves rounded away
/// from zero.
pub open spec fn round_block(v: int) -> int {
    if v >= 0 {
        (v + SUBUNITS / 2) / (SUBUNITS as int)
    } else {
        -((-v + SUBUNITS / 2) / (SUBUNITS as int))
    }
}

/// Floor division by a positive divisor, exactly as `a / d` on integers.
pub fn floor_div(a: i64, d: i64) -> (r: i64)
    requires
        d > 0,
        a > i64::MIN + d,
    ensures
        r as int == a as int / d as int,
{
    if a >= 0 {
        a / d
    } else {
        let q = (-a + d - 1) / d;
        proof {
            let n = -a + d - 1;
            let rem = n % (d as int);
            vstd::arithmetic::div_mod::lemma_fundamental_div_mod(n as int, d as int);
            assert(n == d * q + rem);
            assert(a == (-q) * d + (d - 1 - rem)) by (nonlinear_arith)
                requires n == d * q + rem, n == -a + d - 1;
            lemma_fundamental_div_mod_converse(a as int, d as int, -q, d - 1 - rem);
        }
        -q
    }
}

/// Floor division by a positive divisor on 128-bit values.
pub fn floor_div_wide(a: i128, d: i128) -> (r: i128)
    requires
        d > 0,
        a > i128::MIN + d,
    ensures
        r as int == a as int / d as int,
{
    if a >= 0 {
        a / d
    } else {
        let q = (-a + d - 1) / d;
        proof {
            let n = -a + d - 1;
            let rem = n % (d as int);
            vstd::arithmetic::div_mod::lemma_fundamental_div_mod(n as int, d as int);
            assert(n == d * q + rem);
            assert(a == (-q) * d + (d - 1 - rem)) by (nonlinear_arith)
                requires n == d * q + rem, n == -a + d - 1;
            lemma_fundamental_div_mod_converse(a as int, d as int, -q, d - 1 - rem);
        }
        -q
    }
}

/// The block holding a subunit coordinate.
pub fn to_block(v: i32) -> (r: i32)
    ensures
        r as int == floor_block(v as int),
{
    let q = floor_div(v as i64, SUBUNITS as i64);
    proof {
        vstd::arithmetic::div_mod::lemma_fundamental_div_mod(v as int, SUBUNITS as int);
    }
    q as i32
}

/// The block boundary nearest to a subunit coordinate.
pub fn round_to_block(v: i64) -> (r: i64)
    requires
        -0x1_0000_0000_0000 < v < 0x1_0000_0000_0000,
    ensures
        r as int == round_block(v as int),
{
    if v >= 0 {
        (v + (SUBUNITS / 2) as i64) / SUBUNITS as i64
    } else {
        -((-v + (SUBUNITS / 2) as i64) / SUBUNITS as i64)
    }
}

/// The block that holds an entity position, axis by axis.
pub fn to_block_coord(position: WorldCoords) -> (r: BlockCoords)
    ensures
        r.x == floor_block(position.x as int),
        r.y == floor_block(position.y as int),
        r.z == floor_block(position.z as int),
{
    BlockCoords { x: to_block(position.x), y: to_block(position.y), z: to_block(position.z) }
}

/// The column that holds block `b`: floor division of x and z by the layer size.
pub open spec fn stack_of(b: BlockCoords) -> StackCoords {
    StackCoords { x: (b.x / 16) as i32, z: (b.z / 16) as i32 }
}

/// Where block `b` lies inside its column: x and z by Euclidean remainder,
/// always in `0..16`, and y unchanged.
pub open spec fn offset_of(b: BlockCoords) -> BlockCoords {
    BlockCoords { x: (b.x % 16) as i32, y: b.y, z: (b.z % 16) as i32 }
}

/// Whether block `b` lies in column `c`.
pub open spec fn in_column(c: StackCoords, b: BlockCoords) -> bool {
    c.x * 16 <= b.x < c.x * 16 + 16 && c.z * 16 <= b.z < c.z * 16 + 16
}

/// Block `b`'s position relative to the origin corner of column `c`.
pub open spec fn local_of(c: StackCoords, b: BlockCoords) -> BlockCoords {
    BlockCoords { x: (b.x - c.x * 16) as i32, y: b.y, z: (b.z - c.z * 16) as i32 }
}

/// Locating a block and rebuilding it from its column and its place in the
/// column gives the block back, negative coordinates included; the place
/// always lies in `0..16` on x and z.
pub proof fn lemma_locate_round_trip(b: BlockCoords)
    ensures
        in_column(stack_of(b), b),
        local_of(stack_of(b), b) == offset_of(b),
        0 <= offset_of(b).x < 16,
        0 <= offset_of(b).z < 16,
        stack_of(b).x * 16 + offset_of(b).x == b.x,
        stack_of(b).z * 16 + offset_of(b).z == b.z,
{
    vstd::arithmetic::div_mod::lemma_fundamental_div_mod(b.x as int, 16);
    vstd::arithmetic::div_mod::lemma_fundamental_div_mod(b.z as int, 16);
}

/// A block that lies in column `c` has `c` as its column.
pub proof fn lemma_in_column(c: StackCoords, b: BlockCoords)
    requires
        in_column(c, b),
    ensures
        stack_of(b) == c,
        offset_of(b) == local_of(c, b),
{
    lemma_fundamental_div_mod_converse(b.x as int, 16, c.x as int, b.x - c.x * 16);
    lemma_fundamental_div_mod_converse(b.z as int, 16, c.z as int, b.z - c.z * 16);
}

/// Packs a column coordinate into a map key.
pub open spec fn stack_key(c: StackCoords) -> int {
    (c.x + 0x8000_0000) * 0x1_0000_0000 + (c.z + 0x8000_0000)
}

/// Packs a block coordinate into a map key.
pub open spec fn block_key(b: BlockCoords) -> int {
    ((b.x + 0x8000_0000) * 0x1_0000_0000 + (b.y + 0x8000_0000)) * 0x1_0000_0000 + (b.z
        + 0x8000_0000)
}

proof fn lemma_pair_key(hi1: int, lo1: int, hi2: int, lo2: int)
    requires
        0 <= lo1 < 0x1_0000_0000,
        0 <= lo2 < 0x1_0000_0000,
        hi1 * 0x1_0000_0000 + lo1 == hi2 * 0x1_0000_0000 + lo2,
    ensures
        hi1 == hi2,
        lo1 == lo2,
{
    let k = hi1 * 0x1_0000_0000 + lo1;
    lemma_fundamental_div_mod_converse(k, 0x1_0000_0000, hi1, lo1);
    lemma_fundamental_div_mod_converse(k, 0x1_0000_0000, hi2, lo2);
}

/// Distinct columns have distinct keys.
pub proof fn lemma_stack_key_injective(a: StackCoords, b: StackCoords)
    ensures
        stack_key(a) == stack_key(b) <==> a == b,
{
    if stack_key(a) == stack_key(b) {
        lemma_pair_key(a.x + 0x8000_0000, a.z + 0x8000_0000, b.x + 0x8000_0000, b.z + 0x8000_0000);
    }
}

/// Distinct blocks have distinct keys.
pub proof fn lemma_block_key_injective(a: BlockCoords, b: BlockCoords)
    ensures
        block_key(a) == block_key(b) <==> a == b,
{
    if block_key(a) == block_key(b) {
        lemma_pair_key(
            (a.x + 0x8000_0000) * 0x1_0000_0000 + (a.y + 0x8000_0000),
            a.z + 0x8000_0000,
            (b.x + 0x8000_0000) * 0x1_0000_0000 + (b.y + 0x8000_0000),
            b.z + 0x8000_0000,
        );
        lemma_pair_key(a.x + 0x8000_0000, a.y + 0x8000_0000, b.x + 0x8000_0000, b.y + 0x8000_0000);
    }
}

/// The map key of a column.
pub fn stack_key_of(c: StackCoords) -> (r: u64)
    ensures
        r as int == stack_key(c),
{
    let hi = (c.x as i64 + 0x8000_0000) as u64;
    let lo = (c.z as i64 + 0x8000_0000) as u64;
    assert(hi * 0x1_0000_0000 + lo <= u64::MAX) by (nonlinear_arith)
        requires hi < 0x1_0000_0000, lo < 0x1_0000_0000;
    hi * 0x1_0000_0000 + lo
}

/// The map key of a block.
pub fn block_key_of(b: BlockCoords) -> (r: u128)
    ensures
        r as int == block_key(b),
{
    let x = (b.x as i64 + 0x8000_0000) as u128;
    let y = (b.y as i64 + 0x8000_0000) as u128;
    let z = (b.z as i64 + 0x8000_0000) as u128;
    assert(x * 0x1_0000_0000 + y < 0x1_0000_0000_0000_0000) by (nonlinear_arith)
        requires x < 0x1_0000_0000, y < 0x1_0000_0000;
    let xy = x * 0x1_0000_0000 + y;
    assert(xy * 0x1_0000_0000 + z < 0x1_0000_0000_0000_0000_0000_0000) by (nonlinear_arith)
        requires xy < 0x1_0000_0000_0000_0000, z < 0x1_0000_0000;
    xy * 0x1_0000_0000 + z
}

} // verus!
