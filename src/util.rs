//! Small helpers over integer ranges.
use vstd::prelude::*;

use crate::units::BlockCoords;

verus! {

/// Whether `b` lies in the half-open box `xi.0..xi.1` by `yi.0..yi.1` by `zi.0..zi.1`.
pub open spec fn in_range3d(xi: (i32, i32), yi: (i32, i32), zi: (i32, i32), b: BlockCoords) -> bool {
    xi.0 <= b.x < xi.1 && yi.0 <= b.y < yi.1 && zi.0 <= b.z < zi.1
}

/// Every block of the half-open box `xi` by `yi` by `zi`, once each; x
/// varies slowest and z fastest.
pub fn range3d(xi: (i32, i32), yi: (i32, i32), zi: (i32, i32)) -> (r: Vec<BlockCoords>)
    ensures
        forall|i: int| 0 <= i < r@.len() ==> in_range3d(xi, yi, zi, #[trigger] r@[i]),
        forall|b: BlockCoords| in_range3d(xi, yi, zi, b) ==> #[trigger] r@.contains(b),
{
    let mut output: Vec<BlockCoords> = Vec::new();
    let mut x = xi.0;
    while x < xi.1
        invariant
            xi.0 <= x,
            x == xi.0 || x <= xi.1,
            forall|i: int| 0 <= i < output@.len() ==> in_range3d(xi, yi, zi, #[trigger] output@[i]),
            forall|b: BlockCoords|
                in_range3d(xi, yi, zi, b) && b.x < x ==> #[trigger] output@.contains(b),
        decreases xi.1 - x,
    {
        let mut y = yi.0;
        while y < yi.1
            invariant
                xi.0 <= x < xi.1,
                yi.0 <= y,
                y == yi.0 || y <= yi.1,
                forall|i: int|
                    0 <= i < output@.len() ==> in_range3d(xi, yi, zi, #[trigger] output@[i]),
                forall|b: BlockCoords|
                    in_range3d(xi, yi, zi, b) && (b.x < x || (b.x == x && b.y < y))
                        ==> #[trigger] output@.contains(b),
            decreases yi.1 - y,
        {
            let mut z = zi.0;
            while z < zi.1
                invariant
                    xi.0 <= x < xi.1,
                    yi.0 <= y < yi.1,
                    zi.0 <= z,
                    z == zi.0 || z <= zi.1,
                    forall|i: int|
                        0 <= i < output@.len() ==> in_range3d(xi, yi, zi, #[trigger] output@[i]),
                    forall|b: BlockCoords|
                        in_range3d(xi, yi, zi, b) && (b.x < x || (b.x == x && (b.y < y || (b.y == y
                            && b.z < z)))) ==> #[trigger] output@.contains(b),
                decreases zi.1 - z,
            {
                let ghost before = output@;
                let p = BlockCoords { x, y, z };
                output.push(p);
                proof {
                    assert(output@[before.len() as int] == p);
                    assert forall|b: BlockCoords|
                        in_range3d(xi, yi, zi, b) && (b.x < x || (b.x == x && (b.y < y || (b.y == y
                            && b.z < z + 1)))) implies #[trigger] output@.contains(b) by {
                        if b != p {
                            assert(before.contains(b));
                            let i = choose|i: int| 0 <= i < before.len() && before[i] == b;
                            assert(output@[i] == b);
                        }
                    }
                }
                z = z + 1;
            }
            y = y + 1;
        }
        x = x + 1;
    }
    output
}

} // verus!
