//! Per-entity physical state and the integration step that moves it.
use vstd::prelude::*;

use crate::units::{Vec3, WorldCoords, floor_div_wide};

verus! {

/// Downward acceleration, in subunits per second per second.
pub const GRAVITY: i32 = 3000;

/// An entity's position, in subunits.
#[derive(Clone, Copy, Debug, PartialEq, Eq, Structural)]
pub struct Position {
    pub vector: WorldCoords,
}

/// An entity's velocity, in subunits per second.
#[derive(Clone, Copy, Debug, PartialEq, Eq, Structural)]
pub struct Velocity {
    pub vector: Vec3,
}

/// Marks an entity that falls.
#[derive(Clone, Copy, Debug, PartialEq, Eq, Structural)]
pub struct Gravity;

impl Position {
    pub fn zero() -> (r: Self)
        ensures
            r.vector == (Vec3 { x: 0, y: 0, z: 0 }),
    {
        Position { vector: Vec3 { x: 0, y: 0, z: 0 } }
    }
}

impl Velocity {
    pub fn zero() -> (r: Self)
        ensures
            r.vector == (Vec3 { x: 0, y: 0, z: 0 }),
    {
        Velocity { vector: Vec3 { x: 0, y: 0, z: 0 } }
    }
}

/// How far, in subunits, velocity `v` carries an entity in `dt_ms`
/// milliseconds, rounded down.
pub open spec fn travel(v: int, dt_ms: int) -> int {
    v * dt_ms / 1000
}

/// How much gravity changes the vertical velocity in `dt_ms` milliseconds,
/// rounded down.
pub open spec fn gravity_step(dt_ms: int) -> int {
    GRAVITY * dt_ms / 1000
}

/// Whether one integration step of `dt_ms` milliseconds keeps the velocity
/// and the position inside `i32`.
pub open spec fn step_fits(p: Vec3, v: Vec3, dt_ms: int, falls: bool) -> bool {
    let vy = if falls { v.y - gravity_step(dt_ms) } else { v.y as int };
    &&& i32::MIN <= vy
    &&& i32::MIN <= p.x + travel(v.x as int, dt_ms) <= i32::MAX
    &&& i32::MIN <= p.y + travel(vy, dt_ms) <= i32::MAX
    &&& i32::MIN <= p.z + travel(v.z as int, dt_ms) <= i32::MAX
}

/// Speeds the entity downwards by gravity over `dt_ms` milliseconds.
pub fn apply_gravity(vel: &mut Velocity, _grav: &Gravity, dt_ms: u32)
    requires
        old(vel).vector.y - gravity_step(dt_ms as int) >= i32::MIN,
    ensures
        final(vel).vector.y == old(vel).vector.y - gravity_step(dt_ms as int),
        final(vel).vector.x == old(vel).vector.x,
        final(vel).vector.z == old(vel).vector.z,
{
    let step = GRAVITY as i64 * dt_ms as i64 / 1000;
    vel.vector.y = (vel.vector.y as i64 - step) as i32;
}

/// The distance covered at speed `v` over `dt_ms` milliseconds.
fn travel_of(v: i32, dt_ms: u32) -> (r: i64)
    ensures
        r == travel(v as int, dt_ms as int),
{
    assert(-0x1_0000_0000_0000_0000 < (v as int) * (dt_ms as int) < 0x1_0000_0000_0000_0000) by (nonlinear_arith)
        requires -0x8000_0000 <= v < 0x8000_0000, 0 <= dt_ms < 0x1_0000_0000;
    let d = v as i128 * dt_ms as i128;
    let q = floor_div_wide(d, 1000);
    proof {
        vstd::arithmetic::div_mod::lemma_fundamental_div_mod(d as int, 1000);
    }
    q as i64
}

/// Moves the entity by its velocity over `dt_ms` milliseconds.
pub fn apply_velocity(pos: &mut Position, vel: &Velocity, dt_ms: u32)
    requires
        step_fits(old(pos).vector, vel.vector, dt_ms as int, false),
    ensures
        final(pos).vector.x == old(pos).vector.x + travel(vel.vector.x as int, dt_ms as int),
        final(pos).vector.y == old(pos).vector.y + travel(vel.vector.y as int, dt_ms as int),
        final(pos).vector.z == old(pos).vector.z + travel(vel.vector.z as int, dt_ms as int),
{
    pos.vector.x = (pos.vector.x as i64 + travel_of(vel.vector.x, dt_ms)) as i32;
    pos.vector.y = (pos.vector.y as i64 + travel_of(vel.vector.y, dt_ms)) as i32;
    pos.vector.z = (pos.vector.z as i64 + travel_of(vel.vector.z, dt_ms)) as i32;
}

} // verus!
