use voxel_world::collision::{block_collide, BoxCollider, Contact};
use voxel_world::game::{can_tick, Game};
use voxel_world::spatial::{apply_gravity, apply_velocity, Gravity, Position, Velocity};
use voxel_world::units::{BlockCoords, Vec3};
use voxel_world::worldblocks::WorldBlocks;

fn v3(x: i32, y: i32, z: i32) -> Vec3 {
    Vec3 { x, y, z }
}

fn bc(x: i32, y: i32, z: i32) -> BlockCoords {
    BlockCoords { x, y, z }
}

fn standing_fixture() -> (WorldBlocks, BoxCollider, Position, Velocity) {
    let mut world = WorldBlocks::test_layout();
    // the block whose top face lies at y = 3
    assert!(world.set_block(bc(10, 2, 10), 1));
    let collider = BoxCollider { bounds: v3(1000, 2000, 1000) };
    // low face at y = 3.05, within 0.1 of the boundary at 3
    let pos = Position { vector: v3(10000, 5050, 10000) };
    let vel = Velocity { vector: v3(0, -500, 0) };
    (world, collider, pos, vel)
}

#[test]
fn standing_box_has_one_downward_contact() {
    let (world, collider, pos, _) = standing_fixture();
    let contacts = world.get_block_contact(&collider, &pos);
    assert_eq!(
        contacts,
        vec![Contact { id: 1, block: bc(10, 2, 10), normal: bc(0, -1, 0), depth: -50 }]
    );
}

#[test]
fn standing_box_is_stopped_and_snapped() {
    let (world, collider, mut pos, mut vel) = standing_fixture();
    block_collide(&world, &collider, &mut pos, &mut vel);
    assert_eq!(vel.vector, v3(0, 0, 0));
    assert_eq!(pos.vector, v3(10000, 5000, 10000));
    assert_eq!(pos.vector.y - collider.bounds.y, 3000);
}

#[test]
fn rising_box_is_not_stopped_by_floor() {
    let (world, collider, mut pos, _) = standing_fixture();
    let mut vel = Velocity { vector: v3(0, 500, 0) };
    block_collide(&world, &collider, &mut pos, &mut vel);
    assert_eq!(vel.vector, v3(0, 500, 0));
    assert_eq!(pos.vector, v3(10000, 5050, 10000));
}

#[test]
fn box_past_boundary_is_not_a_contact() {
    let (world, collider, _, _) = standing_fixture();
    // low face at y = 2.95: past the boundary, on the wrong side
    let pos = Position { vector: v3(10000, 4950, 10000) };
    assert!(world.get_block_contact(&collider, &pos).is_empty());
}

#[test]
fn box_out_of_tolerance_is_not_a_contact() {
    let (world, collider, _, _) = standing_fixture();
    let pos = Position { vector: v3(10000, 5150, 10000) };
    assert!(world.get_block_contact(&collider, &pos).is_empty());
}

#[test]
fn side_wall_stops_sideways_motion() {
    let mut world = WorldBlocks::test_layout();
    // wall cell just beyond the +x face at x = 12
    assert!(world.set_block(bc(12, 1, 10), 2));
    let collider = BoxCollider { bounds: v3(1000, 1000, 1000) };
    let mut pos = Position { vector: v3(10950, 1500, 10500) };
    let mut vel = Velocity { vector: v3(700, 0, 0) };
    let contacts = world.get_block_contact(&collider, &pos);
    assert_eq!(contacts, vec![Contact { id: 2, block: bc(12, 1, 10), normal: bc(1, 0, 0), depth: 50 }]);
    block_collide(&world, &collider, &mut pos, &mut vel);
    assert_eq!(vel.vector, v3(0, 0, 0));
    assert_eq!(pos.vector, v3(11000, 1500, 10500));
}

#[test]
fn box_in_air_passes_through() {
    let world = WorldBlocks::test_layout();
    let collider = BoxCollider { bounds: v3(1000, 2000, 1000) };
    let mut pos = Position { vector: v3(20000, 1000, 20000) };
    let mut vel = Velocity { vector: v3(300, -400, 500) };
    assert!(world.get_block_contact(&collider, &pos).is_empty());
    block_collide(&world, &collider, &mut pos, &mut vel);
    assert_eq!(pos.vector, v3(20000, 1000, 20000));
    assert_eq!(vel.vector, v3(300, -400, 500));
}

#[test]
fn resolving_twice_changes_nothing_more() {
    let (world, collider, mut pos, mut vel) = standing_fixture();
    block_collide(&world, &collider, &mut pos, &mut vel);
    let (p1, v1) = (pos, vel);
    block_collide(&world, &collider, &mut pos, &mut vel);
    assert_eq!(pos, p1);
    assert_eq!(vel, v1);
}

#[test]
fn gravity_and_velocity_exact_values() {
    let mut vel = Velocity::zero();
    apply_gravity(&mut vel, &Gravity, 100);
    assert_eq!(vel.vector, v3(0, -300, 0));
    let mut pos = Position { vector: v3(10000, 20000, 10000) };
    apply_velocity(&mut pos, &vel, 100);
    assert_eq!(pos.vector, v3(10000, 19970, 10000));
    // distance rounds down
    let slow = Velocity { vector: v3(-1, 1, 0) };
    let mut p = Position::zero();
    apply_velocity(&mut p, &slow, 1);
    assert_eq!(p.vector, v3(-1, 0, 0));
}

#[test]
fn falling_player_one_tick() {
    let mut game = Game::new();
    game.tick(100);
    let player = game.entities[0];
    assert_eq!(player.velocity.vector, v3(0, -300, 0));
    assert_eq!(player.position.vector, v3(10000, 19970, 10000));
    let collider = player.collider.unwrap();
    assert!(game.blocks.get_block_contact(&collider, &player.position).is_empty());
}

#[test]
fn camera_and_renderables() {
    let game = Game::new();
    assert_eq!(game.get_camera(), Some(0));
    let r = game.get_renderables().expect("one camera");
    assert_eq!(r.cam_pos, v3(10000, 20000, 10000));
    assert!(r.cubes.is_empty());
}

#[test]
fn tick_refuses_overflowing_step() {
    let mut game = Game::new();
    game.entities[0].position.vector.y = i32::MIN + 10;
    game.entities[0].velocity.vector.y = -100_000;
    assert!(!can_tick(&game.entities[0], 1000));
    let before = game.entities[0];
    game.tick(1000);
    assert_eq!(game.entities[0], before);
}
