use voxel_world::chunk::{BlockLoc, Chunk};
use voxel_world::slice::{CubeInstance, Slice};
use voxel_world::stack::Stack;
use voxel_world::units::{BlockCoords, StackCoords, Vec3, floor_div, to_block_coord};
use voxel_world::util::range3d;
use voxel_world::worldblocks::WorldBlocks;

fn bc(x: i32, y: i32, z: i32) -> BlockCoords {
    BlockCoords { x, y, z }
}

#[test]
fn locate_round_trip_negative() {
    let mut world = WorldBlocks::new();
    world.insert_stack(StackCoords { x: -1, z: -2 }, Stack::new());
    let b = bc(-1, 5, -17);
    let (c, off, _) = world.get_stack_at(b).expect("column is present");
    assert_eq!(c, StackCoords { x: -1, z: -2 });
    assert_eq!(off, bc(15, 5, 15));
    assert_eq!(c.x * 16 + off.x, b.x);
    assert_eq!(c.z * 16 + off.z, b.z);
    assert_eq!(off.y, b.y);
}

#[test]
fn locate_round_trip_positive_and_boundaries() {
    let world = WorldBlocks::test_layout();
    for &(x, z) in &[(0, 0), (15, 16), (16, 15), (47, 47), (31, 0)] {
        let b = bc(x, 1, z);
        let (c, off, _) = world.get_stack_at(b).expect("column is present");
        assert!(0 <= off.x && off.x < 16 && 0 <= off.z && off.z < 16);
        assert_eq!(c.x * 16 + off.x, x);
        assert_eq!(c.z * 16 + off.z, z);
    }
}

#[test]
fn locate_absent_column_is_none() {
    let world = WorldBlocks::test_layout();
    assert!(world.get_stack_at(bc(-1, 0, 0)).is_none());
    assert!(world.get_stack_at(bc(48, 0, 0)).is_none());
}

#[test]
fn get_block_absent_column_is_air() {
    let world = WorldBlocks::test_layout();
    assert_eq!(world.get_block(bc(-100, 3, -100)), 0);
    assert_eq!(world.get_block(bc(i32::MIN, i32::MIN, i32::MAX)), 0);
    assert_eq!(world.get_block(bc(1000, 0, 5)), 0);
}

#[test]
fn get_block_absent_level_is_air() {
    let world = WorldBlocks::test_layout();
    assert_eq!(world.get_block(bc(5, 40, 5)), 0);
    assert_eq!(world.get_block(bc(5, -1, 5)), 0);
}

#[test]
fn set_then_get_block() {
    let mut world = WorldBlocks::test_layout();
    assert!(world.set_block(bc(17, 1, 33), 7));
    assert_eq!(world.get_block(bc(17, 1, 33)), 7);
    assert_eq!(world.get_block(bc(18, 1, 33)), 0);
    assert_eq!(world.get_block(bc(17, 2, 33)), 0);
    assert!(world.set_block(bc(17, 1, 33), 3));
    assert_eq!(world.get_block(bc(17, 1, 33)), 3);
}

#[test]
fn set_block_creates_missing_level() {
    let mut world = WorldBlocks::test_layout();
    assert!(world.set_block(bc(2, 10, 2), 4));
    assert_eq!(world.get_block(bc(2, 10, 2)), 4);
    assert_eq!(world.get_block(bc(3, 10, 2)), 0);
}

#[test]
fn set_block_absent_column_is_refused() {
    let mut world = WorldBlocks::test_layout();
    assert!(!world.set_block(bc(-5, 1, 5), 9));
    assert_eq!(world.get_block(bc(-5, 1, 5)), 0);
    assert!(world.get_stack_at(bc(-5, 1, 5)).is_none());
}

#[test]
fn subset_holds_centre_block() {
    let mut world = WorldBlocks::test_layout();
    world.set_block(bc(10, 1, 10), 5);
    let region = world.get_subset(Vec3 { x: 10500, y: 1500, z: 10500 }, Vec3 { x: 1000, y: 2000, z: 1000 });
    assert_eq!(region.get(bc(10, 1, 10)), Some(5));
    assert_eq!(region.get(bc(11, 0, 9)), Some(0));
    // a level that is not present is not fetched
    assert_eq!(region.get(bc(10, 3, 10)), None);
}

#[test]
fn subset_straddling_columns_holds_both_sides() {
    let mut world = WorldBlocks::test_layout();
    world.set_block(bc(15, 0, 16), 2);
    world.set_block(bc(16, 0, 15), 3);
    let region = world.get_subset(Vec3 { x: 16000, y: 500, z: 16000 }, Vec3 { x: 500, y: 500, z: 500 });
    assert_eq!(region.get(bc(15, 0, 16)), Some(2));
    assert_eq!(region.get(bc(16, 0, 15)), Some(3));
    assert_eq!(region.get(bc(15, 0, 15)), Some(0));
}

#[test]
fn subset_of_ungenerated_space_is_empty() {
    let world = WorldBlocks::test_layout();
    let region = world.get_subset(Vec3 { x: -50000, y: 1000, z: -50000 }, Vec3 { x: 1000, y: 1000, z: 1000 });
    assert_eq!(region.get(bc(-50, 1, -50)), None);
}

#[test]
fn renderable_blocks_skip_air() {
    let world = WorldBlocks::test_layout();
    assert!(world.get_renderable_blocks(Vec3 { x: 10000, y: 20000, z: 10000 }).is_empty());
}

#[test]
fn renderable_blocks_hold_solid_blocks() {
    let mut world = WorldBlocks::test_layout();
    world.set_block(bc(20, 2, 3), 4);
    world.set_block(bc(40, 0, 40), 1);
    let cubes = world.get_renderable_blocks(Vec3 { x: 10000, y: 20000, z: 10000 });
    assert_eq!(cubes.len(), 2);
    assert!(cubes.contains(&CubeInstance { tex_index: 3, position: bc(20, 2, 3) }));
    assert!(cubes.contains(&CubeInstance { tex_index: 0, position: bc(40, 0, 40) }));
}

#[test]
fn renderable_blocks_outside_square_are_left_out() {
    let mut world = WorldBlocks::test_layout();
    world.insert_stack(StackCoords { x: 10, z: 0 }, Stack::test_layout());
    world.set_block(bc(165, 0, 5), 2);
    let cubes = world.get_renderable_blocks(Vec3 { x: 1000, y: 0, z: 1000 });
    assert!(cubes.is_empty());
    let near = world.get_renderable_blocks(Vec3 { x: 165000, y: 0, z: 1000 });
    assert_eq!(near, vec![CubeInstance { tex_index: 1, position: bc(165, 0, 5) }]);
}

#[test]
fn slice_new_get_set() {
    let mut s = Slice::new(2);
    assert_eq!(s.get(bc(15, 0, 15)), 2);
    s.set_block(bc(3, 0, 4), 9);
    assert_eq!(s.get(bc(3, 0, 4)), 9);
    assert_eq!(s.get(bc(4, 0, 3)), 2);
    assert_eq!(Slice::coords_to_array_pos(bc(3, 0, 4)), 67);
    assert_eq!(Slice::coords_to_array_pos(bc(15, 0, 15)), 255);
}

#[test]
fn slice_get_all_in_x_then_z_order() {
    let mut s = Slice::new(0);
    s.set_block(bc(1, 0, 0), 5);
    s.set_block(bc(0, 0, 1), 6);
    let mut out = Vec::new();
    s.get_all(&mut out, bc(32, 7, -16));
    assert_eq!(
        out,
        vec![
            CubeInstance { tex_index: 4, position: bc(33, 7, -16) },
            CubeInstance { tex_index: 5, position: bc(32, 7, -15) },
        ]
    );
}

#[test]
fn stack_layout_and_coords() {
    let mut st = Stack::test_layout();
    assert_eq!(st.get(bc(0, 0, 0)), 0);
    st.set_block(bc(4, 1, 5), 8);
    assert_eq!(st.get(bc(4, 1, 5)), 8);
    let mut out = Vec::new();
    st.all_blocks(&mut out, StackCoords { x: -1, z: 2 });
    assert_eq!(out, vec![CubeInstance { tex_index: 7, position: bc(-12, 1, 37) }]);
    assert_eq!(Stack::to_stack_coords(&Vec3 { x: -1, y: 0, z: 16000 }), StackCoords { x: -1, z: 1 });
    assert_eq!(Stack::from_stack_coords(&StackCoords { x: -2, z: 3 }), (-32, 48));
}

#[test]
fn block_coords_floor_negative() {
    assert_eq!(to_block_coord(Vec3 { x: -1, y: 999, z: -1000 }), bc(-1, 0, -1));
    assert_eq!(to_block_coord(Vec3 { x: -1001, y: 1000, z: 0 }), bc(-2, 1, 0));
    assert_eq!(floor_div(-7, 2), -4);
    assert_eq!(floor_div(7, 2), 3);
}

#[test]
fn range3d_covers_box() {
    let r = range3d((0, 2), (-1, 1), (5, 8));
    assert_eq!(r.len(), 12);
    assert_eq!(r[0], bc(0, -1, 5));
    assert!(r.contains(&bc(1, 0, 7)));
    assert!(range3d((3, 3), (0, 1), (0, 1)).is_empty());
}

#[test]
fn chunk_starts_as_air() {
    let c = Chunk::new();
    assert_eq!(c.get(&BlockLoc { x: 15, y: 127, z: 15 }), 0);
    assert_eq!(c.get(&BlockLoc { x: 0, y: 0, z: 0 }), 0);
}
