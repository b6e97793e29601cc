//! The simulation: a plain store of entities and the fixed per-tick order of
//! gravity, movement and block collision.
use vstd::prelude::*;

use crate::collision::{BoxCollider, CollidesWithBlocks, TOUCH_TOLERANCE, block_collide, correction_fits, resolves};
use crate::slice::{CubeInstance, instance_of};
use crate::spatial::{
    Gravity, Position, Velocity, apply_gravity, apply_velocity, gravity_step, step_fits, travel,
    GRAVITY,
};
use crate::units::{AIR, BlockCoords, Vec3, WorldCoords, floor_div_wide, stack_of};
use crate::worldblocks::{WorldBlocks, column_of_position, in_render_square, world_renders};

verus! {

/// Marks the entity the view follows.
#[derive(Clone, Copy, Debug, PartialEq, Eq, Structural)]
pub struct Camera;

/// One entity: its physical state and the components it carries.
#[derive(Clone, Copy, Debug, PartialEq, Eq, Structural)]
pub struct Entity {
    pub position: Position,
    pub velocity: Velocity,
    pub collider: Option<BoxCollider>,
    pub gravity: Option<Gravity>,
    pub collides: Option<CollidesWithBlocks>,
    pub camera: Option<Camera>,
}

/// The velocity after gravity's part of a tick.
pub open spec fn fallen(e: Entity, dt_ms: int) -> Vec3 {
    if e.gravity.is_some() {
        Vec3 { y: (e.velocity.vector.y - gravity_step(dt_ms)) as i32, ..e.velocity.vector }
    } else {
        e.velocity.vector
    }
}

/// The position after the velocity's part of a tick.
pub open spec fn moved(e: Entity, dt_ms: int) -> Vec3 {
    let v = fallen(e, dt_ms);
    Vec3 {
        x: (e.position.vector.x + travel(v.x as int, dt_ms)) as i32,
        y: (e.position.vector.y + travel(v.y as int, dt_ms)) as i32,
        z: (e.position.vector.z + travel(v.z as int, dt_ms)) as i32,
    }
}

/// Whether the entity's box is kept out of solid blocks.
pub open spec fn collides(e: Entity) -> bool {
    e.collider.is_some() && e.collides.is_some()
}

/// Whether a tick of `dt_ms` milliseconds keeps every value of the entity
/// inside `i32`, and its box, if it collides, is well formed.
pub open spec fn tick_fits(e: Entity, dt_ms: int) -> bool {
    &&& step_fits(e.position.vector, e.velocity.vector, dt_ms, e.gravity.is_some())
    &&& collides(e) ==> e.collider.unwrap().wf() && correction_fits(moved(e, dt_ms))
}

/// Entity `e2` is entity `e` after one tick of `dt_ms` milliseconds: gravity
/// speeds it downwards if it falls, its velocity moves it, and then, if it
/// collides, collision corrects its position and velocity.
pub open spec fn ticked(world: WorldBlocks, e: Entity, dt_ms: int, e2: Entity) -> bool {
    &&& e2.collider == e.collider
    &&& e2.gravity == e.gravity
    &&& e2.collides == e.collides
    &&& e2.camera == e.camera
    &&& if collides(e) {
        resolves(
            world,
            e.collider.unwrap().bounds,
            moved(e, dt_ms),
            fallen(e, dt_ms),
            e2.position.vector,
            e2.velocity.vector,
        )
    } else {
        e2.position.vector == moved(e, dt_ms) && e2.velocity.vector == fallen(e, dt_ms)
    }
}

/// The player as the world starts with it: at (10, 20, 10) blocks, at rest,
/// a box two blocks wide and four high, falling, colliding and viewed from.
pub fn generate_main_player(entities: &mut Vec<Entity>)
    ensures
        final(entities)@ == old(entities)@.push(
            Entity {
                position: Position { vector: Vec3 { x: 10000, y: 20000, z: 10000 } },
                velocity: Velocity { vector: Vec3 { x: 0, y: 0, z: 0 } },
                collider: Some(BoxCollider { bounds: Vec3 { x: 1000, y: 2000, z: 1000 } }),
                gravity: Some(Gravity),
                collides: Some(CollidesWithBlocks),
                camera: Some(Camera),
            },
        ),
{
    entities.push(
        Entity {
            position: Position { vector: Vec3 { x: 10000, y: 20000, z: 10000 } },
            velocity: Velocity::zero(),
            collider: Some(BoxCollider { bounds: Vec3 { x: 1000, y: 2000, z: 1000 } }),
            gravity: Some(Gravity),
            collides: Some(CollidesWithBlocks),
            camera: Some(Camera),
        },
    );
}

/// Whether a value lies inside `i32`.
fn fits_i32(v: i64) -> (r: bool)
    ensures
        r == (i32::MIN <= v <= i32::MAX),
{
    i32::MIN as i64 <= v && v <= i32::MAX as i64
}

/// The distance covered at speed `v` over `dt_ms` milliseconds.
fn travel_wide(v: i64, dt_ms: u32) -> (r: i128)
    requires
        -0x1_0000_0000 <= v <= 0x1_0000_0000,
    ensures
        r == travel(v as int, dt_ms as int),
        -0x1_0000_0000_0000_0000 < r < 0x1_0000_0000_0000_0000,
{
    assert(-0x1_0000_0000_0000_0000 < (v as int) * (dt_ms as int) < 0x1_0000_0000_0000_0000) by (nonlinear_arith)
        requires -0x1_0000_0000 <= v <= 0x1_0000_0000, 0 <= dt_ms < 0x1_0000_0000;
    let d = v as i128 * dt_ms as i128;
    proof {
        vstd::arithmetic::div_mod::lemma_fundamental_div_mod(d as int, 1000);
    }
    floor_div_wide(d, 1000)
}

/// Whether one tick of `dt_ms` milliseconds can be applied to `e`.
pub fn can_tick(e: &Entity, dt_ms: u32) -> (r: bool)
    ensures
        r == tick_fits(*e, dt_ms as int),
{
    let p = e.position.vector;
    let v = e.velocity.vector;
    let falls = e.gravity.is_some();
    let step = GRAVITY as i64 * dt_ms as i64 / 1000;
    let vy: i64 = if falls { v.y as i64 - step } else { v.y as i64 };
    if vy < i32::MIN as i64 {
        return false;
    }
    let px = p.x as i128 + travel_wide(v.x as i64, dt_ms);
    let py = p.y as i128 + travel_wide(vy, dt_ms);
    let pz = p.z as i128 + travel_wide(v.z as i64, dt_ms);
    let lo = i32::MIN as i128;
    let hi = i32::MAX as i128;
    if !(lo <= px && px <= hi && lo <= py && py <= hi && lo <= pz && pz <= hi) {
        return false;
    }
    match (e.collider, e.collides) {
        (Some(c), Some(_)) => {
            let t = TOUCH_TOLERANCE as i128;
            c.bounds.x >= 0 && c.bounds.y >= 0 && c.bounds.z >= 0 && lo + t <= px && px <= hi - t
                && lo + t <= py && py <= hi - t && lo + t <= pz && pz <= hi - t
        },
        _ => true,
    }
}

/// Runs one tick of `dt_ms` milliseconds on `e`.
pub fn tick_entity(blocks: &WorldBlocks, e: &mut Entity, dt_ms: u32)
    requires
        blocks.wf(),
        tick_fits(*old(e), dt_ms as int),
    ensures
        ticked(*blocks, *old(e), dt_ms as int, *final(e)),
{
    match e.gravity {
        Some(g) => apply_gravity(&mut e.velocity, &g, dt_ms),
        None => {},
    }
    assert(e.velocity.vector == fallen(*old(e), dt_ms as int));
    apply_velocity(&mut e.position, &e.velocity, dt_ms);
    assert(e.position.vector == moved(*old(e), dt_ms as int));
    match (e.collider, e.collides) {
        (Some(c), Some(_)) => {
            block_collide(blocks, &c, &mut e.position, &mut e.velocity);
        },
        _ => {},
    }
}

/// What the view shows: the camera's position and the blocks drawn around it.
pub struct Renderables {
    pub cam_pos: WorldCoords,
    pub cubes: Vec<CubeInstance>,
}

/// The world and the entities in it.
pub struct Game {
    pub blocks: WorldBlocks,
    pub entities: Vec<Entity>,
}

impl Game {
    /// The test world with the main player in it.
    pub fn new() -> (r: Self)
        ensures
            r.blocks.wf(),
            r.entities@.len() == 1,
            r.entities@[0].camera.is_some(),
            r.entities@[0].position.vector == (Vec3 { x: 10000, y: 20000, z: 10000 }),
    {
        let blocks = WorldBlocks::test_layout();
        let mut entities: Vec<Entity> = Vec::new();
        generate_main_player(&mut entities);
        Game { blocks, entities }
    }

    /// Runs one tick of `dt_ms` milliseconds on every entity that it keeps
    /// inside the coordinate range; any other entity stays as it was.
    pub fn tick(&mut self, dt_ms: u32)
        requires
            old(self).blocks.wf(),
        ensures
            final(self).blocks == old(self).blocks,
            final(self).entities@.len() == old(self).entities@.len(),
            forall|i: int|
                0 <= i < old(self).entities@.len() ==> if tick_fits(old(self).entities@[i], dt_ms as int) {
                    ticked(old(self).blocks, old(self).entities@[i], dt_ms as int, #[trigger] final(self).entities@[i])
                } else {
                    final(self).entities@[i] == old(self).entities@[i]
                },
    {
        let mut i: usize = 0;
        while i < self.entities.len()
            invariant
                i <= self.entities@.len(),
                self.blocks == old(self).blocks,
                self.blocks.wf(),
                self.entities@.len() == old(self).entities@.len(),
                forall|j: int|
                    0 <= j < i ==> if tick_fits(old(self).entities@[j], dt_ms as int) {
                        ticked(old(self).blocks, old(self).entities@[j], dt_ms as int, #[trigger] self.entities@[j])
                    } else {
                        self.entities@[j] == old(self).entities@[j]
                    },
                forall|j: int| i <= j < self.entities@.len() ==> #[trigger] self.entities@[j] == old(self).entities@[j],
            decreases self.entities@.len() - i,
        {
            let mut e = self.entities[i];
            if can_tick(&e, dt_ms) {
                tick_entity(&self.blocks, &mut e, dt_ms);
                self.entities.set(i, e);
            }
            i = i + 1;
        }
    }

    /// The index of the one entity carrying a camera; `None` where there is
    /// no such entity or more than one.
    pub fn get_camera(&self) -> (r: Option<usize>)
        ensures
            r.is_some() ==> r.unwrap() < self.entities@.len() && self.entities@[r.unwrap() as int].camera.is_some(),
            r.is_some() ==> forall|j: int|
                0 <= j < self.entities@.len() && j != r.unwrap() ==> #[trigger] self.entities@[j].camera.is_none(),
            r.is_none() ==> self.no_single_camera(),
    {
        let mut found: Option<usize> = None;
        let mut i: usize = 0;
        while i < self.entities.len()
            invariant
                i <= self.entities@.len(),
                found.is_some() ==> found.unwrap() < i && self.entities@[found.unwrap() as int].camera.is_some()
                    && forall|j: int|
                    0 <= j < i && j != found.unwrap() ==> #[trigger] self.entities@[j].camera.is_none(),
                found.is_none() ==> forall|j: int| 0 <= j < i ==> #[trigger] self.entities@[j].camera.is_none(),
            decreases self.entities@.len() - i,
        {
            if self.entities[i].camera.is_some() {
                match found {
                    Some(k) => {
                        proof {
                            assert forall|m: int|
                                0 <= m < self.entities@.len() && #[trigger] self.entities@[m].camera.is_some()
                                    implies exists|j: int|
                                    0 <= j < self.entities@.len() && j != m && #[trigger] self.entities@[j].camera.is_some() by {
                                if m == k {
                                    assert(self.entities@[i as int].camera.is_some());
                                } else {
                                    assert(self.entities@[k as int].camera.is_some());
                                }
                            }
                        }
                        return None;
                    },
                    None => {
                        found = Some(i);
                    },
                }
            }
            i = i + 1;
        }
        proof {
            if found.is_none() {
                assert forall|m: int|
                    0 <= m < self.entities@.len() && #[trigger] self.entities@[m].camera.is_some() implies exists|j: int|
                        0 <= j < self.entities@.len() && j != m && #[trigger] self.entities@[j].camera.is_some() by {
                    assert(self.entities@[m].camera.is_none());
                }
            }
            if found.is_some() {
                let k = found.unwrap();
                assert(k < self.entities@.len());
                assert forall|j: int| 0 <= j < self.entities@.len() && j != k implies #[trigger] self.entities@[j].camera.is_none() by {
                    assert(0 <= j < i && j != found.unwrap());
                }
            }
        }
        found
    }

    /// The camera's position and what is drawn around it; `None` where there
    /// is not exactly one camera.
    pub fn get_renderables(&self) -> (r: Option<Renderables>)
        requires
            self.blocks.wf(),
        ensures
            match r {
                Some(rs) => {
                    &&& exists|i: int|
                        0 <= i < self.entities@.len() && #[trigger] self.entities@[i].camera.is_some()
                            && rs.cam_pos == self.entities@[i].position.vector && forall|j: int|
                            0 <= j < self.entities@.len() && j != i ==> #[trigger] self.entities@[j].camera.is_none()
                    &&& forall|j: int|
                        0 <= j < rs.cubes@.len() ==> world_renders(
                            self.blocks,
                            column_of_position(rs.cam_pos),
                            #[trigger] rs.cubes@[j],
                        )
                    &&& forall|b: BlockCoords|
                        in_render_square(column_of_position(rs.cam_pos), stack_of(b)) && #[trigger] self.blocks.block(b)
                            != AIR ==> rs.cubes@.contains(instance_of(b, self.blocks.block(b)))
                },
                None => self.no_single_camera(),
            },
    {
        match self.get_camera() {
            Some(i) => {
                let cam_pos = self.entities[i].position.vector;
                let cubes = self.blocks.get_renderable_blocks(cam_pos);
                proof {
                    assert(self.entities@[i as int].camera.is_some());
                }
                Some(Renderables { cam_pos, cubes })
            },
            None => None,
        }
    }

    /// No entity, or more than one, carries a camera.
    pub open spec fn no_single_camera(&self) -> bool {
        forall|i: int|
            0 <= i < self.entities@.len() && #[trigger] self.entities@[i].camera.is_some() ==> exists|j: int|
                0 <= j < self.entities@.len() && j != i && #[trigger] self.entities@[j].camera.is_some()
    }
}

} // verus!
