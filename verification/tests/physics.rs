use voxel_core::grid::{Axis, Direction};
use voxel_core::march::{RayWalk, MAX_RAY_STEPS};
use voxel_core::physics::is_colliding_at;
use voxel_core::world::{init_world, Svo};

#[test]
fn box_in_the_air_does_not_collide() {
    let world = Some(init_world());
    assert!(!is_colliding_at(&world, 4, 4, 1, 3, 4, 4));
    assert!(!is_colliding_at(&world, 1, 9, 1, 8, 1, 9));
}

#[test]
fn box_touching_a_block_collides() {
    let world = Some(init_world());
    assert!(is_colliding_at(&world, 4, 4, 0, 2, 4, 4));
    assert!(is_colliding_at(&world, 4, 10, 3, 4, 4, 10));
    assert!(is_colliding_at(&world, 0, 0, 1, 1, 5, 5));
    assert!(!is_colliding_at(&world, 11, 12, 1, 4, 10, 12));
}

#[test]
fn empty_box_does_not_collide() {
    let world = Some(init_world());
    assert!(!is_colliding_at(&world, 5, 4, 0, 0, 0, 0));
    assert!(!is_colliding_at(&world, 0, 0, 1, 0, 0, 0));
    assert!(!is_colliding_at(&world, 0, 0, 0, 0, 3, 2));
}

#[test]
fn nothing_collides_without_a_world() {
    assert!(!is_colliding_at(&None, 0, 31, 0, 4, 0, 31));
}

#[test]
fn box_outside_the_world_does_not_collide() {
    let world = Some(init_world());
    assert!(!is_colliding_at(&world, -5, -1, -5, -1, -5, -1));
    assert!(!is_colliding_at(&world, i32::MAX - 1, i32::MAX, 0, 0, 0, 0));
    assert!(is_colliding_at(&world, -1, 0, -1, 0, -1, 0));
}

#[test]
fn axis_numbers() {
    assert_eq!((Axis::X.index(), Axis::Y.index(), Axis::Z.index()), (0, 1, 2));
    assert_eq!(Direction::along(Axis::Y, false), Direction::NegY);
    assert_eq!(Direction::along(Axis::Z, true), Direction::PosZ);
    assert_eq!(Direction::NegX.axis(), Axis::X);
    assert_eq!(Direction::PosZ.axis(), Axis::Z);
}

#[test]
fn walk_moves_one_cell_and_reads_the_world() {
    let world = Some(init_world());
    let mut walk = RayWalk::new(10, 6, 10, 1, -1, 0);
    assert!(walk.has_budget());
    assert_eq!(walk.advance(&world, Axis::Y), 0);
    assert_eq!((walk.x, walk.y, walk.z, walk.steps), (10, 5, 10, 1));
    assert_eq!(walk.advance(&world, Axis::Y), 3);
    assert_eq!((walk.x, walk.y, walk.z, walk.steps), (10, 4, 10, 2));
    assert_eq!(walk.advance(&world, Axis::X), 0);
    assert_eq!((walk.x, walk.y, walk.z, walk.steps), (11, 4, 10, 3));
    assert_eq!(walk.advance(&world, Axis::Z), 0);
    assert_eq!((walk.x, walk.y, walk.z, walk.steps), (11, 4, 10, 4));
}

#[test]
fn walk_runs_out_of_budget() {
    assert_eq!(MAX_RAY_STEPS, 128);
    let mut walk = RayWalk::new(0, 100, 0, 1, 0, 0);
    let mut steps = 0;
    while walk.has_budget() {
        assert_eq!(walk.advance(&None, Axis::X), 0);
        steps += 1;
    }
    assert_eq!(steps, 128);
    assert_eq!(walk.x, 128);
}

#[test]
fn walk_wraps_at_the_end_of_the_range() {
    let mut world = Svo::new();
    world.insert(0, 0, 0, 5);
    let world = Some(world);
    let mut walk = RayWalk::new(i32::MAX, 0, i32::MIN, 1, 0, -1);
    assert_eq!(walk.advance(&world, Axis::X), 0);
    assert_eq!(walk.x, i32::MIN);
    assert_eq!(walk.advance(&world, Axis::Z), 0);
    assert_eq!(walk.z, i32::MAX);
}
