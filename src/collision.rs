//! Contact between an axis-aligned box and the solid blocks of the world,
//! found by testing each face of the box against the nearest block boundary.
use vstd::prelude::*;

use crate::region::BlockRegion;
use crate::units::{
    AIR, BlockCoords, BlockID, Vec3, SUBUNITS, floor_block, round_block, round_to_block,
};
use crate::spatial::{Position, Velocity};
use crate::util::{in_range3d, range3d};
use crate::worldblocks::{WorldBlocks, block_of_wide, region_selects};

verus! {

/// How close, in subunits, a face must be to a block boundary to touch it.
pub const TOUCH_TOLERANCE: i32 = 100;

/// An axis-aligned box centred on its entity's position, given by its
/// half-extent on each axis, in subunits.
#[derive(Clone, Copy, Debug, PartialEq, Eq, Structural)]
pub struct BoxCollider {
    pub bounds: Vec3,
}

impl BoxCollider {
    /// Half-extents are never negative.
    pub open spec fn wf(&self) -> bool {
        self.bounds.x >= 0 && self.bounds.y >= 0 && self.bounds.z >= 0
    }
}

/// Marks an entity whose box is kept out of solid blocks.
#[derive(Clone, Copy, Debug, PartialEq, Eq, Structural)]
pub struct CollidesWithBlocks;

/// One solid block touching one face of a box: the block's identifier and
/// coordinate, the face's outward unit normal, and the signed offset, in
/// subunits, that moves the face onto the block's surface.
#[derive(Clone, Copy, Debug, PartialEq, Eq, Structural)]
pub struct Contact {
    pub id: BlockID,
    pub block: BlockCoords,
    pub normal: BlockCoords,
    pub depth: i32,
}

/// Face `(a, s)` is the face of the box on axis `a` (0 = x, 1 = y, 2 = z)
/// facing towards negative (`s == -1`) or positive (`s == 1`) coordinates.
pub open spec fn is_face(a: int, s: int) -> bool {
    0 <= a < 3 && (s == -1 || s == 1)
}

/// Coordinate, in subunits, of face `(a, s)` of the box of half-extent `h`
/// around `p`.
pub open spec fn face_value(p: Vec3, h: Vec3, a: int, s: int) -> int {
    if s < 0 {
        p.at(a) - h.at(a)
    } else {
        p.at(a) + h.at(a)
    }
}

/// The block boundary nearest to the face.
pub open spec fn face_boundary(p: Vec3, h: Vec3, a: int, s: int) -> int {
    round_block(face_value(p, h, a, s))
}

/// How far, in subunits, the face lies from its nearest boundary, signed
/// along the axis.
pub open spec fn face_offset(p: Vec3, h: Vec3, a: int, s: int) -> int {
    face_value(p, h, a, s) - face_boundary(p, h, a, s) * SUBUNITS
}

/// The face lies within tolerance of its nearest boundary and on the box's
/// side of it, not past it.
pub open spec fn face_touches(p: Vec3, h: Vec3, a: int, s: int) -> bool {
    &&& -TOUCH_TOLERANCE < face_offset(p, h, a, s) < TOUCH_TOLERANCE
    &&& s < 0 ==> face_offset(p, h, a, s) >= 0
    &&& s > 0 ==> face_offset(p, h, a, s) <= 0
}

/// The offset that moves the face onto its nearest boundary.
pub open spec fn face_depth(p: Vec3, h: Vec3, a: int, s: int) -> int {
    -face_offset(p, h, a, s)
}

/// The layer of cells just beyond the face's boundary, on the face's axis.
pub open spec fn face_cell(p: Vec3, h: Vec3, a: int, s: int) -> int {
    if s < 0 {
        face_boundary(p, h, a, s) - 1
    } else {
        face_boundary(p, h, a, s)
    }
}

/// On axis `o`, other than the face's own axis `a`, block coordinate `c`
/// lies between the box's rounded extents, both included.
pub open spec fn within_span(p: Vec3, h: Vec3, a: int, o: int, c: int) -> bool {
    o == a || (round_block(p.at(o) - h.at(o)) <= c <= round_block(p.at(o) + h.at(o)))
}

/// Block `b` is one of the cells that may touch face `(a, s)`.
pub open spec fn in_face_cells(p: Vec3, h: Vec3, a: int, s: int, b: BlockCoords) -> bool {
    &&& b.at(a) == face_cell(p, h, a, s)
    &&& within_span(p, h, a, 0, b.x as int)
    &&& within_span(p, h, a, 1, b.y as int)
    &&& within_span(p, h, a, 2, b.z as int)
}

/// The outward unit normal of face `(a, s)`.
pub open spec fn normal_of(a: int, s: int) -> BlockCoords {
    BlockCoords {
        x: if a == 0 { s as i32 } else { 0 },
        y: if a == 1 { s as i32 } else { 0 },
        z: if a == 2 { s as i32 } else { 0 },
    }
}

/// Solid block `b` touches face `(a, s)`.
pub open spec fn face_contact(world: WorldBlocks, p: Vec3, h: Vec3, a: int, s: int, b: BlockCoords) -> bool {
    &&& is_face(a, s)
    &&& face_touches(p, h, a, s)
    &&& in_face_cells(p, h, a, s, b)
    &&& world.block(b) != AIR
}

/// The record of solid block `b` touching face `(a, s)`.
pub open spec fn contact_at(world: WorldBlocks, p: Vec3, h: Vec3, a: int, s: int, b: BlockCoords) -> Contact {
    Contact { id: world.block(b), block: b, normal: normal_of(a, s), depth: face_depth(p, h, a, s) as i32 }
}

/// `c` records a solid block touching some face of the box.
pub open spec fn is_contact(world: WorldBlocks, p: Vec3, h: Vec3, c: Contact) -> bool {
    exists|a: int, s: int, b: BlockCoords|
        #[trigger] face_contact(world, p, h, a, s, b) && c == contact_at(world, p, h, a, s, b)
}

/// Some solid block touches face `(a, s)`.
pub open spec fn face_hit(world: WorldBlocks, p: Vec3, h: Vec3, a: int, s: int) -> bool {
    exists|b: BlockCoords| #[trigger] face_contact(world, p, h, a, s, b)
}

/// The lowest block fetched for contact detection: one below the box's lowest.
pub open spec fn search_lo(p: Vec3, h: Vec3) -> BlockCoords {
    BlockCoords {
        x: (floor_block(p.x - h.x) - 1) as i32,
        y: (floor_block(p.y - h.y) - 1) as i32,
        z: (floor_block(p.z - h.z) - 1) as i32,
    }
}

/// The highest block fetched for contact detection: one above the box's highest.
pub open spec fn search_hi(p: Vec3, h: Vec3) -> BlockCoords {
    BlockCoords {
        x: (floor_block(p.x + h.x) + 1) as i32,
        y: (floor_block(p.y + h.y) + 1) as i32,
        z: (floor_block(p.z + h.z) + 1) as i32,
    }
}

/// Rounding lands on the floor or one above it.
pub proof fn lemma_round_floor(v: int)
    ensures
        floor_block(v) <= round_block(v) <= floor_block(v) + 1,
{
    vstd::arithmetic::div_mod::lemma_fundamental_div_mod(v, SUBUNITS as int);
    let q = v / 1000;
    let r = v % 1000;
    if v >= 0 {
        if r < 500 {
            vstd::arithmetic::div_mod::lemma_fundamental_div_mod_converse(v + 500, 1000, q, r + 500);
        } else {
            vstd::arithmetic::div_mod::lemma_fundamental_div_mod_converse(v + 500, 1000, q + 1, r - 500);
        }
    } else {
        if r <= 500 {
            vstd::arithmetic::div_mod::lemma_fundamental_div_mod_converse(-v + 500, 1000, -q, 500 - r);
        } else {
            vstd::arithmetic::div_mod::lemma_fundamental_div_mod_converse(-v + 500, 1000, -q - 1, 1500 - r);
        }
    }
}

/// Rounding keeps order.
pub proof fn lemma_round_ordered(v: int, w: int)
    requires
        v <= w,
    ensures
        round_block(v) <= round_block(w),
{
    if v >= 0 {
        vstd::arithmetic::div_mod::lemma_div_is_ordered(v + 500, w + 500, 1000);
    } else if w < 0 {
        vstd::arithmetic::div_mod::lemma_div_is_ordered(-w + 500, -v + 500, 1000);
    } else {
        vstd::arithmetic::div_mod::lemma_div_pos_is_pos(w + 500, 1000);
        vstd::arithmetic::div_mod::lemma_div_pos_is_pos(-v + 500, 1000);
    }
}

/// A value within less than half a block of boundary `m` rounds to `m`.
pub proof fn lemma_round_near(v: int, m: int)
    requires
        m * SUBUNITS - SUBUNITS / 2 < v < m * SUBUNITS + SUBUNITS / 2,
    ensures
        round_block(v) == m,
{
    if v >= 0 {
        vstd::arithmetic::div_mod::lemma_fundamental_div_mod_converse(v + 500, 1000, m, v + 500 - m * 1000);
    } else {
        vstd::arithmetic::div_mod::lemma_fundamental_div_mod_converse(-v + 500, 1000, -m, -v + 500 + m * 1000);
    }
}

/// The cells that may touch a face lie in the fetched search range.
proof fn lemma_face_cells_searched(p: Vec3, h: Vec3, a: int, s: int, b: BlockCoords)
    requires
        is_face(a, s),
        h.x >= 0,
        h.y >= 0,
        h.z >= 0,
        in_face_cells(p, h, a, s, b),
    ensures
        search_lo(p, h).x <= b.x <= search_hi(p, h).x,
        search_lo(p, h).y <= b.y <= search_hi(p, h).y,
        search_lo(p, h).z <= b.z <= search_hi(p, h).z,
{
    lemma_round_floor(p.x - h.x);
    lemma_round_floor(p.y - h.y);
    lemma_round_floor(p.z - h.z);
    lemma_round_floor(p.x + h.x);
    lemma_round_floor(p.y + h.y);
    lemma_round_floor(p.z + h.z);
    lemma_round_ordered(p.at(a) - h.at(a), p.at(a) + h.at(a));
}

/// Within the search range, a block the region lacks is air.
proof fn lemma_searched_block(world: WorldBlocks, lo: BlockCoords, hi: BlockCoords, b: BlockCoords)
    requires
        lo.x <= b.x <= hi.x,
        lo.y <= b.y <= hi.y,
        lo.z <= b.z <= hi.z,
        !region_selects(world, lo, hi, b),
    ensures
        world.block(b) == AIR,
{
    vstd::arithmetic::div_mod::lemma_div_is_ordered(lo.x as int, b.x as int, 16);
    vstd::arithmetic::div_mod::lemma_div_is_ordered(b.x as int, hi.x as int, 16);
    vstd::arithmetic::div_mod::lemma_div_is_ordered(lo.z as int, b.z as int, 16);
    vstd::arithmetic::div_mod::lemma_div_is_ordered(b.z as int, hi.z as int, 16);
}

/// Whether `c` records a solid block touching face `(a, s)`.
pub open spec fn is_face_contact(world: WorldBlocks, p: Vec3, h: Vec3, a: int, s: int, c: Contact) -> bool {
    exists|b: BlockCoords| #[trigger] face_contact(world, p, h, a, s, b) && c == contact_at(world, p, h, a, s, b)
}

/// Whether `c` lies in the half-open range `r`.
pub open spec fn span_holds(r: (i32, i32), c: int) -> bool {
    r.0 <= c < r.1
}

/// The range of cells, half-open, that may touch face `(a, s)` on axis `o`.
fn face_span(position: Vec3, bounds: Vec3, a: usize, o: usize, cell: i32) -> (r: (i32, i32))
    requires
        a < 3,
        o < 3,
        cell < i32::MAX,
    ensures
        forall|c: int|
            #[trigger] span_holds(r, c) <==> if o == a {
                c == cell
            } else {
                within_span(position, bounds, a as int, o as int, c)
            },
{
    if o == a {
        (cell, cell + 1)
    } else {
        let po = position.get(o) as i64;
        let ho = bounds.get(o) as i64;
        let lo = round_to_block(po - ho);
        let hi = round_to_block(po + ho);
        proof {
            lemma_round_floor(po - ho);
            lemma_round_floor(po + ho);
            vstd::arithmetic::div_mod::lemma_fundamental_div_mod(po - ho, 1000);
            vstd::arithmetic::div_mod::lemma_fundamental_div_mod(po + ho, 1000);
        }
        (lo as i32, (hi + 1) as i32)
    }
}

/// Appends a record for every solid block touching face `(a, s)` of the box
/// of half-extent `bounds` around `position`, looking blocks up in `region`.
fn face_contacts(
    world: &WorldBlocks,
    region: &BlockRegion,
    position: Vec3,
    bounds: Vec3,
    a: usize,
    s: i32,
    out: &mut Vec<Contact>,
)
    requires
        is_face(a as int, s as int),
        bounds.x >= 0,
        bounds.y >= 0,
        bounds.z >= 0,
        forall|b: BlockCoords|
            #[trigger] region.spec_get(b) == if region_selects(
                *world,
                search_lo(position, bounds),
                search_hi(position, bounds),
                b,
            ) {
                Some(world.block(b))
            } else {
                None
            },
    ensures
        final(out)@.len() >= old(out)@.len(),
        final(out)@.subrange(0, old(out)@.len() as int) == old(out)@,
        forall|j: int|
            old(out)@.len() <= j < final(out)@.len() ==> is_face_contact(
                *world,
                position,
                bounds,
                a as int,
                s as int,
                #[trigger] final(out)@[j],
            ),
        forall|b: BlockCoords|
            #[trigger] face_contact(*world, position, bounds, a as int, s as int, b) 
                ==> final(out)@.contains(contact_at(*world, position, bounds, a as int, s as int, b)),
{
    let ghost start = out@;
    let pa = position.get(a) as i64;
    let ha = bounds.get(a) as i64;
    let v = if s < 0 { pa - ha } else { pa + ha };
    let bnd = round_to_block(v);
    proof {
        lemma_round_floor(v as int);
        vstd::arithmetic::div_mod::lemma_fundamental_div_mod(v as int, 1000);
    }
    let off = v - bnd * 1000;
    let touches = -(TOUCH_TOLERANCE as i64) < off && off < TOUCH_TOLERANCE as i64 && (s > 0 || off
        >= 0) && (s < 0 || off <= 0);
    if !touches {
        proof {
            assert(out@.subrange(0, start.len() as int) =~= start);
        }
        return;
    }
    let cell = if s < 0 { (bnd - 1) as i32 } else { bnd as i32 };
    let depth = (-off) as i32;
    let normal = BlockCoords {
        x: if a == 0 { s } else { 0 },
        y: if a == 1 { s } else { 0 },
        z: if a == 2 { s } else { 0 },
    };
    let rx = face_span(position, bounds, a, 0, cell);
    let ry = face_span(position, bounds, a, 1, cell);
    let rz = face_span(position, bounds, a, 2, cell);
    let cells = range3d(rx, ry, rz);
    let ghost fa = a as int;
    let ghost fs = s as int;
    proof {
        assert(face_touches(position, bounds, fa, fs));
        assert(cell == face_cell(position, bounds, fa, fs));
        assert(depth == face_depth(position, bounds, fa, fs));
        assert(normal == normal_of(fa, fs));
        assert forall|b: BlockCoords|
            in_range3d(rx, ry, rz, b) <==> #[trigger] in_face_cells(position, bounds, fa, fs, b) by {
            assert(span_holds(rx, b.x as int) == (rx.0 <= b.x < rx.1));
            assert(span_holds(ry, b.y as int) == (ry.0 <= b.y < ry.1));
            assert(span_holds(rz, b.z as int) == (rz.0 <= b.z < rz.1));
            if fa == 0 {
                assert(b.at(fa) == b.x);
            } else if fa == 1 {
                assert(b.at(fa) == b.y);
            } else {
                assert(b.at(fa) == b.z);
            }
        }
    }
    let mut i: usize = 0;
    while i < cells.len()
        invariant
            i <= cells@.len(),
            is_face(fa, fs),
            face_touches(position, bounds, fa, fs),
            bounds.x >= 0,
            bounds.y >= 0,
            bounds.z >= 0,
            cell == face_cell(position, bounds, fa, fs),
            depth == face_depth(position, bounds, fa, fs) as i32,
            normal == normal_of(fa, fs),
            forall|k: int| 0 <= k < cells@.len() ==> in_range3d(rx, ry, rz, #[trigger] cells@[k]),
            forall|b: BlockCoords|
                in_range3d(rx, ry, rz, b) <==> #[trigger] in_face_cells(position, bounds, fa, fs, b),
            forall|b: BlockCoords|
                #[trigger] region.spec_get(b) == if region_selects(
                    *world,
                    search_lo(position, bounds),
                    search_hi(position, bounds),
                    b,
                ) {
                    Some(world.block(b))
                } else {
                    None
                },
            out@.len() >= start.len(),
            out@.subrange(0, start.len() as int) == start,
            start == old(out)@,
            forall|j: int|
                start.len() <= j < out@.len() ==> is_face_contact(
                    *world,
                    position,
                    bounds,
                    fa,
                    fs,
                    #[trigger] out@[j],
                ),
            forall|k: int|
                0 <= k < i && #[trigger] face_contact(*world, position, bounds, fa, fs, cells@[k])
                    ==> out@.contains(contact_at(*world, position, bounds, fa, fs, cells@[k])),
        decreases cells@.len() - i,
    {
        let b = cells[i];
        let ghost before = out@;
        proof {
            assert(in_range3d(rx, ry, rz, b));
            assert(in_face_cells(position, bounds, fa, fs, b));
            lemma_face_cells_searched(position, bounds, fa, fs, b);
            if !region_selects(*world, search_lo(position, bounds), search_hi(position, bounds), b) {
                lemma_searched_block(*world, search_lo(position, bounds), search_hi(position, bounds), b);
            }
        }
        match region.get(b) {
            Some(id) => {
                if id != AIR {
                    let c = Contact { id, block: b, normal, depth };
                    out.push(c);
                    proof {
                        assert(face_contact(*world, position, bounds, fa, fs, b));
                        assert(c == contact_at(*world, position, bounds, fa, fs, b));
                        assert(out@[before.len() as int] == c);
                    }
                }
            },
            None => {},
        }
        proof {
            assert forall|j: int|
                start.len() <= j < out@.len() implies is_face_contact(
                    *world,
                    position,
                    bounds,
                    fa,
                    fs,
                    #[trigger] out@[j],
                ) by {
                if j < before.len() {
                    assert(out@[j] == before[j]);
                }
            }
            assert forall|k: int|
                0 <= k < i + 1 && #[trigger] face_contact(*world, position, bounds, fa, fs, cells@[k])
                    implies out@.contains(contact_at(*world, position, bounds, fa, fs, cells@[k])) by {
                let c = contact_at(*world, position, bounds, fa, fs, cells@[k]);
                if k < i {
                    let j = choose|j: int| 0 <= j < before.len() && before[j] == c;
                    assert(out@[j] == c);
                } else {
                    assert(out@[before.len() as int] == c);
                }
            }
            assert(out@.subrange(0, start.len() as int) =~= before.subrange(0, start.len() as int));
        }
        i = i + 1;
    }
    proof {
        assert forall|b: BlockCoords|
            #[trigger] face_contact(*world, position, bounds, fa, fs, b) implies out@.contains(
                contact_at(*world, position, bounds, fa, fs, b),
            ) by {
            assert(in_range3d(rx, ry, rz, b));
            assert(cells@.contains(b));
            let k = choose|k: int| 0 <= k < cells@.len() && cells@[k] == b;
            assert(face_contact(*world, position, bounds, fa, fs, cells@[k]));
        }
    }
}

/// The sign of `v`: -1, 0 or 1.
pub open spec fn sign(v: int) -> int {
    if v > 0 {
        1
    } else if v < 0 {
        -1
    } else {
        0
    }
}

/// Whether a box moving at `v` runs into a solid block on axis `a`: it moves
/// along that axis and the face it moves towards touches a solid block.
pub open spec fn blocked(world: WorldBlocks, p: Vec3, h: Vec3, v: Vec3, a: int) -> bool {
    v.at(a) != 0 && face_hit(world, p, h, a, sign(v.at(a)))
}

/// Axis `a` after collision: where the box is blocked, its velocity on the
/// axis is zero and its position moves by the depth of the blocked face;
/// elsewhere both stay.
pub open spec fn axis_resolved(world: WorldBlocks, h: Vec3, p: Vec3, v: Vec3, p2: Vec3, v2: Vec3, a: int) -> bool {
    if blocked(world, p, h, v, a) {
        v2.at(a) == 0 && p2.at(a) == p.at(a) + face_depth(p, h, a, sign(v.at(a)))
    } else {
        v2.at(a) == v.at(a) && p2.at(a) == p.at(a)
    }
}

/// Position `p2` and velocity `v2` are what collision makes of position `p`
/// and velocity `v` for the box of half-extent `h`, axis by axis.
pub open spec fn resolves(world: WorldBlocks, h: Vec3, p: Vec3, v: Vec3, p2: Vec3, v2: Vec3) -> bool {
    &&& axis_resolved(world, h, p, v, p2, v2, 0)
    &&& axis_resolved(world, h, p, v, p2, v2, 1)
    &&& axis_resolved(world, h, p, v, p2, v2, 2)
}

/// Whether moving a position by less than the touch tolerance on any axis
/// stays inside `i32`.
pub open spec fn correction_fits(p: Vec3) -> bool {
    &&& i32::MIN + TOUCH_TOLERANCE <= p.x <= i32::MAX - TOUCH_TOLERANCE
    &&& i32::MIN + TOUCH_TOLERANCE <= p.y <= i32::MAX - TOUCH_TOLERANCE
    &&& i32::MIN + TOUCH_TOLERANCE <= p.z <= i32::MAX - TOUCH_TOLERANCE
}

impl WorldBlocks {
    /// Every solid block touching a face of `collider`'s box around
    /// `position`, one record per block and face; the blocks are fetched
    /// once, before any face is tested.
    pub fn get_block_contact(&self, collider: &BoxCollider, position: &Position) -> (r: Vec<Contact>)
        requires
            self.wf(),
            collider.wf(),
        ensures
            forall|j: int|
                0 <= j < r@.len() ==> is_contact(*self, position.vector, collider.bounds, #[trigger] r@[j]),
            forall|a: int, s: int, b: BlockCoords|
                #[trigger] face_contact(*self, position.vector, collider.bounds, a, s, b) ==> r@.contains(
                    contact_at(*self, position.vector, collider.bounds, a, s, b),
                ),
    {
        let p = position.vector;
        let h = collider.bounds;
        let lo = BlockCoords {
            x: block_of_wide(p.x as i64 - h.x as i64) - 1,
            y: block_of_wide(p.y as i64 - h.y as i64) - 1,
            z: block_of_wide(p.z as i64 - h.z as i64) - 1,
        };
        let hi = BlockCoords {
            x: block_of_wide(p.x as i64 + h.x as i64) + 1,
            y: block_of_wide(p.y as i64 + h.y as i64) + 1,
            z: block_of_wide(p.z as i64 + h.z as i64) + 1,
        };
        let region = self.region_between(lo, hi);
        let mut out: Vec<Contact> = Vec::new();
        let mut f: usize = 0;
        while f < 6
            invariant
                f <= 6,
                self.wf(),
                collider.wf(),
                p == position.vector,
                h == collider.bounds,
                lo == search_lo(p, h),
                hi == search_hi(p, h),
                forall|b: BlockCoords|
                    #[trigger] region.spec_get(b) == if region_selects(*self, lo, hi, b) {
                        Some(self.block(b))
                    } else {
                        None
                    },
                forall|j: int| 0 <= j < out@.len() ==> is_contact(*self, p, h, #[trigger] out@[j]),
                forall|a: int, s: int, b: BlockCoords|
                    #[trigger] face_contact(*self, p, h, a, s, b) && 2 * a + (s + 1) / 2 < f
                        ==> out@.contains(contact_at(*self, p, h, a, s, b)),
            decreases 6 - f,
        {
            let a = f / 2;
            let s: i32 = if f % 2 == 0 { -1 } else { 1 };
            let ghost before = out@;
            face_contacts(self, &region, p, h, a, s, &mut out);
            proof {
                assert forall|j: int| 0 <= j < out@.len() implies is_contact(*self, p, h, #[trigger] out@[j]) by {
                    if j < before.len() {
                        assert(out@.subrange(0, before.len() as int)[j] == before[j]);
                    } else {
                        let b = choose|b: BlockCoords|
                            #[trigger] face_contact(*self, p, h, a as int, s as int, b) && out@[j] == contact_at(
                                *self,
                                p,
                                h,
                                a as int,
                                s as int,
                                b,
                            );
                        assert(face_contact(*self, p, h, a as int, s as int, b));
                    }
                }
                assert forall|a2: int, s2: int, b: BlockCoords|
                    #[trigger] face_contact(*self, p, h, a2, s2, b) && 2 * a2 + (s2 + 1) / 2 < f + 1
                        implies out@.contains(contact_at(*self, p, h, a2, s2, b)) by {
                    if 2 * a2 + (s2 + 1) / 2 < f {
                        let c = contact_at(*self, p, h, a2, s2, b);
                        let j = choose|j: int| 0 <= j < before.len() && before[j] == c;
                        assert(out@.subrange(0, before.len() as int)[j] == before[j]);
                        assert(out@[j] == c);
                    } else {
                        assert(a2 == a && s2 == s);
                    }
                }
            }
            f = f + 1;
        }
        proof {
            assert forall|a: int, s: int, b: BlockCoords|
                #[trigger] face_contact(*self, p, h, a, s, b) implies out@.contains(
                    contact_at(*self, p, h, a, s, b),
                ) by {
                assert(2 * a + (s + 1) / 2 < 6);
            }
        }
        out
    }
}

/// Whether one of the first `n` contacts stops motion `v` on axis `a`.
pub open spec fn stops_axis(contacts: Seq<Contact>, n: int, v: Vec3, a: int) -> bool {
    v.at(a) != 0 && exists|k: int| 0 <= k < n && (#[trigger] contacts[k]).normal.at(a) == sign(v.at(a))
}

/// Whether contact `c` acts on axis `a` of a box moving at `v`: its normal
/// lies on that axis and the box moves the normal's way.
pub open spec fn applies(c: Contact, v: Vec3, a: int) -> bool {
    c.normal.at(a) != 0 && v.at(a) != 0 && sign(v.at(a)) == c.normal.at(a)
}

/// The state of axis `a` after the first `n` contacts have been applied to a
/// box that started at position `p` with velocity `v`.
pub open spec fn axis_state(
    contacts: Seq<Contact>,
    n: int,
    h: Vec3,
    p: Vec3,
    v: Vec3,
    pos: Vec3,
    vel: Vec3,
    a: int,
) -> bool {
    if stops_axis(contacts, n, v, a) {
        vel.at(a) == 0 && pos.at(a) == p.at(a) + face_depth(p, h, a, sign(v.at(a)))
    } else {
        vel.at(a) == v.at(a) && pos.at(a) == p.at(a)
    }
}

/// One contact's effect on one axis.
pub open spec fn axis_step(c: Contact, pos: Vec3, vel: Vec3, pos2: Vec3, vel2: Vec3, a: int) -> bool {
    if applies(c, vel, a) {
        vel2.at(a) == 0 && pos2.at(a) == pos.at(a) + c.depth
    } else {
        vel2.at(a) == vel.at(a) && pos2.at(a) == pos.at(a)
    }
}

/// Applies one contact on axis `a`.
fn correct_axis(pos: &mut Vec3, vel: &mut Vec3, a: usize, c: &Contact)
    requires
        a < 3,
        applies(*c, *old(vel), a as int) ==> i32::MIN <= old(pos).at(a as int) + c.depth <= i32::MAX,
    ensures
        axis_step(*c, *old(pos), *old(vel), *final(pos), *final(vel), a as int),
        forall|o: int|
            0 <= o < 3 && o != a ==> final(vel).at(o) == old(vel).at(o) && final(pos).at(o) == old(
                pos,
            ).at(o),
{
    let n = if a == 0 {
        c.normal.x
    } else if a == 1 {
        c.normal.y
    } else {
        c.normal.z
    };
    let v = vel.get(a);
    let sv: i32 = if v > 0 { 1 } else if v < 0 { -1 } else { 0 };
    if n != 0 && v != 0 && sv == n {
        vel.set(a, 0);
        let moved = pos.get(a) + c.depth;
        pos.set(a, moved);
    }
}

/// Applies one contact on every axis.
fn apply_contact(pos: &mut Vec3, vel: &mut Vec3, c: &Contact)
    requires
        applies(*c, *old(vel), 0) ==> i32::MIN <= old(pos).x + c.depth <= i32::MAX,
        applies(*c, *old(vel), 1) ==> i32::MIN <= old(pos).y + c.depth <= i32::MAX,
        applies(*c, *old(vel), 2) ==> i32::MIN <= old(pos).z + c.depth <= i32::MAX,
    ensures
        axis_step(*c, *old(pos), *old(vel), *final(pos), *final(vel), 0),
        axis_step(*c, *old(pos), *old(vel), *final(pos), *final(vel), 1),
        axis_step(*c, *old(pos), *old(vel), *final(pos), *final(vel), 2),
{
    correct_axis(pos, vel, 0, c);
    correct_axis(pos, vel, 1, c);
    correct_axis(pos, vel, 2, c);
}

proof fn lemma_contact_face(world: WorldBlocks, p: Vec3, h: Vec3, c: Contact, a: int)
    requires
        is_contact(world, p, h, c),
        0 <= a < 3,
        c.normal.at(a) != 0,
    ensures
        face_hit(world, p, h, a, c.normal.at(a)),
        c.depth == face_depth(p, h, a, c.normal.at(a)),
        -TOUCH_TOLERANCE < c.depth < TOUCH_TOLERANCE,
{
    let (fa, fs, fb) = choose|fa: int, fs: int, fb: BlockCoords|
        #[trigger] face_contact(world, p, h, fa, fs, fb) && c == contact_at(world, p, h, fa, fs, fb);
    assert(fa == a && fs == c.normal.at(a));
    assert(face_contact(world, p, h, a, c.normal.at(a), fb));
}

proof fn lemma_axis_step(
    world: WorldBlocks,
    contacts: Seq<Contact>,
    i: int,
    h: Vec3,
    p: Vec3,
    v: Vec3,
    pos: Vec3,
    vel: Vec3,
    pos2: Vec3,
    vel2: Vec3,
    a: int,
)
    requires
        0 <= i < contacts.len(),
        0 <= a < 3,
        is_contact(world, p, h, contacts[i]),
        axis_state(contacts, i, h, p, v, pos, vel, a),
        axis_step(contacts[i], pos, vel, pos2, vel2, a),
    ensures
        axis_state(contacts, i + 1, h, p, v, pos2, vel2, a),
{
    let c = contacts[i];
    if stops_axis(contacts, i, v, a) {
        let k = choose|k: int| 0 <= k < i && (#[trigger] contacts[k]).normal.at(a) == sign(v.at(a));
        assert(0 <= k < i + 1 && contacts[k].normal.at(a) == sign(v.at(a)));
    } else if applies(c, vel, a) {
        lemma_contact_face(world, p, h, c, a);
        assert(0 <= i < i + 1 && contacts[i].normal.at(a) == sign(v.at(a)));
    } else {
        assert forall|k: int| 0 <= k < i + 1 implies (#[trigger] contacts[k]).normal.at(a) != sign(v.at(a))
            || v.at(a) == 0 by {
            if k < i {
            } else {
            }
        }
    }
}

/// Keeps a box out of solid blocks: for every contact, on each axis where the
/// velocity is non-zero and heads into the contact's face, the velocity on
/// that axis is zeroed and the position moved by the contact's depth.
pub fn block_collide(
    blocks: &WorldBlocks,
    collider: &BoxCollider,
    position: &mut Position,
    velocity: &mut Velocity,
)
    requires
        blocks.wf(),
        collider.wf(),
        correction_fits(old(position).vector),
    ensures
        resolves(
            *blocks,
            collider.bounds,
            old(position).vector,
            old(velocity).vector,
            final(position).vector,
            final(velocity).vector,
        ),
{
    let contacts = blocks.get_block_contact(collider, position);
    let ghost p = position.vector;
    let ghost v = velocity.vector;
    let ghost h = collider.bounds;
    let mut i: usize = 0;
    while i < contacts.len()
        invariant
            i <= contacts@.len(),
            correction_fits(p),
            h == collider.bounds,
            p == old(position).vector,
            v == old(velocity).vector,
            forall|j: int| 0 <= j < contacts@.len() ==> is_contact(*blocks, p, h, #[trigger] contacts@[j]),
            axis_state(contacts@, i as int, h, p, v, position.vector, velocity.vector, 0),
            axis_state(contacts@, i as int, h, p, v, position.vector, velocity.vector, 1),
            axis_state(contacts@, i as int, h, p, v, position.vector, velocity.vector, 2),
        decreases contacts@.len() - i,
    {
        let c = &contacts[i];
        let ghost pos0 = position.vector;
        let ghost vel0 = velocity.vector;
        proof {
            assert(is_contact(*blocks, p, h, contacts@[i as int]));
            if applies(*c, vel0, 0) {
                lemma_contact_face(*blocks, p, h, *c, 0);
            }
            if applies(*c, vel0, 1) {
                lemma_contact_face(*blocks, p, h, *c, 1);
            }
            if applies(*c, vel0, 2) {
                lemma_contact_face(*blocks, p, h, *c, 2);
            }
        }
        apply_contact(&mut position.vector, &mut velocity.vector, c);
        proof {
            lemma_axis_step(*blocks, contacts@, i as int, h, p, v, pos0, vel0, position.vector, velocity.vector, 0);
            lemma_axis_step(*blocks, contacts@, i as int, h, p, v, pos0, vel0, position.vector, velocity.vector, 1);
            lemma_axis_step(*blocks, contacts@, i as int, h, p, v, pos0, vel0, position.vector, velocity.vector, 2);
        }
        i = i + 1;
    }
    proof {
        lemma_stops_iff_blocked(*blocks, contacts@, h, p, v, 0);
        lemma_stops_iff_blocked(*blocks, contacts@, h, p, v, 1);
        lemma_stops_iff_blocked(*blocks, contacts@, h, p, v, 2);
    }
}

proof fn lemma_stops_iff_blocked(world: WorldBlocks, contacts: Seq<Contact>, h: Vec3, p: Vec3, v: Vec3, a: int)
    requires
        0 <= a < 3,
        forall|j: int| 0 <= j < contacts.len() ==> is_contact(world, p, h, #[trigger] contacts[j]),
        forall|a: int, s: int, b: BlockCoords|
            #[trigger] face_contact(world, p, h, a, s, b) ==> contacts.contains(contact_at(world, p, h, a, s, b)),
    ensures
        stops_axis(contacts, contacts.len() as int, v, a) == blocked(world, p, h, v, a),
{
    if stops_axis(contacts, contacts.len() as int, v, a) {
        let k = choose|k: int| 0 <= k < contacts.len() && (#[trigger] contacts[k]).normal.at(a) == sign(v.at(a));
        lemma_contact_face(world, p, h, contacts[k], a);
    }
    if blocked(world, p, h, v, a) {
        let s = sign(v.at(a));
        let b = choose|b: BlockCoords| #[trigger] face_contact(world, p, h, a, s, b);
        let c = contact_at(world, p, h, a, s, b);
        assert(contacts.contains(c));
        let k = choose|k: int| 0 <= k < contacts.len() && contacts[k] == c;
        assert(contacts[k].normal.at(a) == s);
    }
}

/// Collision moves a box on an axis only onto the boundary its touching face
/// was nearest, so the box's rounded extents on that axis can only close in.
proof fn lemma_span_narrows(world: WorldBlocks, h: Vec3, p0: Vec3, v0: Vec3, p1: Vec3, v1: Vec3, o: int)
    requires
        0 <= o < 3,
        axis_resolved(world, h, p0, v0, p1, v1, o),
    ensures
        round_block(p0.at(o) - h.at(o)) <= round_block(p1.at(o) - h.at(o)),
        round_block(p1.at(o) + h.at(o)) <= round_block(p0.at(o) + h.at(o)),
{
    if blocked(world, p0, h, v0, o) {
        let s = sign(v0.at(o));
        let b = choose|b: BlockCoords| #[trigger] face_contact(world, p0, h, o, s, b);
        assert(face_touches(p0, h, o, s));
        let big = face_boundary(p0, h, o, s);
        lemma_round_near(big * SUBUNITS, big);
        if s < 0 {
            lemma_round_ordered(p1.at(o) + h.at(o), p0.at(o) + h.at(o));
        } else {
            lemma_round_ordered(p0.at(o) - h.at(o), p1.at(o) - h.at(o));
        }
    }
}

/// Collision resolution is idempotent: resolving a second time, with no
/// movement in between, changes neither position nor velocity.
pub proof fn lemma_collide_idempotent(
    world: WorldBlocks,
    collider: BoxCollider,
    p0: Vec3,
    v0: Vec3,
    p1: Vec3,
    v1: Vec3,
    p2: Vec3,
    v2: Vec3,
)
    requires
        resolves(world, collider.bounds, p0, v0, p1, v1),
        resolves(world, collider.bounds, p1, v1, p2, v2),
    ensures
        p2 == p1,
        v2 == v1,
{
    let h = collider.bounds;
    lemma_span_narrows(world, h, p0, v0, p1, v1, 0);
    lemma_span_narrows(world, h, p0, v0, p1, v1, 1);
    lemma_span_narrows(world, h, p0, v0, p1, v1, 2);
    assert forall|a: int| 0 <= a < 3 implies #[trigger] p2.at(a) == p1.at(a) && v2.at(a) == v1.at(a) by {
        if v1.at(a) != 0 {
            assert(!blocked(world, p0, h, v0, a));
            assert(v1.at(a) == v0.at(a) && p1.at(a) == p0.at(a));
            let s = sign(v0.at(a));
            if face_hit(world, p1, h, a, s) {
                let b = choose|b: BlockCoords| #[trigger] face_contact(world, p1, h, a, s, b);
                assert(face_value(p1, h, a, s) == face_value(p0, h, a, s));
                assert(face_contact(world, p0, h, a, s, b));
            }
        }
    }
    assert(p2.at(0) == p1.at(0) && p2.at(1) == p1.at(1) && p2.at(2) == p1.at(2));
    assert(v2.at(0) == v1.at(0) && v2.at(1) == v1.at(1) && v2.at(2) == v1.at(2));
}

/// Every block from one below to one above the box's blocks, on each axis,
/// is air.
pub open spec fn air_around(world: WorldBlocks, p: Vec3, h: Vec3) -> bool {
    forall|b: BlockCoords|
        search_lo(p, h).x <= b.x <= search_hi(p, h).x && search_lo(p, h).y <= b.y <= search_hi(p, h).y
            && search_lo(p, h).z <= b.z <= search_hi(p, h).z ==> #[trigger] world.block(b) == AIR
}

/// A box with only air around it has no contact, and collision leaves its
/// position and velocity as they were.
pub proof fn lemma_air_passes_through(
    world: WorldBlocks,
    collider: BoxCollider,
    p: Vec3,
    v: Vec3,
    p2: Vec3,
    v2: Vec3,
)
    requires
        collider.wf(),
        air_around(world, p, collider.bounds),
        resolves(world, collider.bounds, p, v, p2, v2),
    ensures
        forall|c: Contact| !is_contact(world, p, collider.bounds, c),
        p2 == p,
        v2 == v,
{
    let h = collider.bounds;
    assert forall|a: int, s: int, b: BlockCoords| !#[trigger] face_contact(world, p, h, a, s, b) by {
        if face_contact(world, p, h, a, s, b) {
            lemma_face_cells_searched(p, h, a, s, b);
        }
    }
    assert(!blocked(world, p, h, v, 0));
    assert(!blocked(world, p, h, v, 1));
    assert(!blocked(world, p, h, v, 2));
    assert(p2.at(0) == p.at(0) && p2.at(1) == p.at(1) && p2.at(2) == p.at(2));
    assert(v2.at(0) == v.at(0) && v2.at(1) == v.at(1) && v2.at(2) == v.at(2));
}

} // verus!
