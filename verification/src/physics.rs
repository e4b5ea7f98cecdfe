//! Collision of an axis-aligned box of voxels with the world.

use vstd::prelude::*;
use crate::world::{get_block, Svo};

verus! {

/// The block of a world that may not have been built yet.
pub open spec fn world_block(world: Option<Svo>, x: int, y: int, z: int) -> u8 {
    match world {
        Some(svo) => svo.block_at(x, y, z),
        None => 0,
    }
}

/// Some voxel of the box `[min, max]`, both ends included, is not air.
pub open spec fn box_has_block(
    world: Option<Svo>,
    min_x: int,
    max_x: int,
    min_y: int,
    max_y: int,
    min_z: int,
    max_z: int,
) -> bool {
    exists|x: int, y: int, z: int|
        min_x <= x <= max_x && min_y <= y <= max_y && min_z <= z <= max_z && #[trigger] world_block(
            world,
            x,
            y,
            z,
        ) != 0
}

/// The voxel comes before `(bx, by, bz)` in the order of the scan: layers by
/// `y`, then rows by `z`, then `x`.
spec fn scanned(x: int, y: int, z: int, bx: int, by: int, bz: int) -> bool {
    y < by || (y == by && (z < bz || (z == bz && x < bx)))
}

/// Whether a body that fills the voxels `[min, max]` on each axis, both ends
/// included, touches a block.
pub fn is_colliding_at(
    world: &Option<Svo>,
    min_x: i32,
    max_x: i32,
    min_y: i32,
    max_y: i32,
    min_z: i32,
    max_z: i32,
) -> (colliding: bool)
    requires
        world matches Some(svo) ==> svo.wf(),
    ensures
        colliding == box_has_block(
            *world,
            min_x as int,
            max_x as int,
            min_y as int,
            max_y as int,
            min_z as int,
            max_z as int,
        ),
{
    let mut by: i64 = min_y as i64;
    while by <= max_y as i64
        invariant
            world matches Some(svo) ==> svo.wf(),
            min_y <= by,
            by <= max_y + 1 || by == min_y,
            forall|x: int, y: int, z: int|
                min_x <= x <= max_x && min_y <= y < by && min_z <= z <= max_z
                    ==> #[trigger] world_block(*world, x, y, z) == 0,
        decreases max_y - by + 1,
    {
        let mut bz: i64 = min_z as i64;
        while bz <= max_z as i64
            invariant
                world matches Some(svo) ==> svo.wf(),
                min_y <= by <= max_y,
                min_z <= bz,
                bz <= max_z + 1 || bz == min_z,
                forall|x: int, y: int, z: int|
                    min_x <= x <= max_x && min_y <= y <= max_y && min_z <= z <= max_z && scanned(
                        x,
                        y,
                        z,
                        min_x as int,
                        by as int,
                        bz as int,
                    ) ==> #[trigger] world_block(*world, x, y, z) == 0,
            decreases max_z - bz + 1,
        {
            let mut bx: i64 = min_x as i64;
            while bx <= max_x as i64
                invariant
                    world matches Some(svo) ==> svo.wf(),
                    min_y <= by <= max_y,
                    min_z <= bz <= max_z,
                    min_x <= bx,
                    bx <= max_x + 1 || bx == min_x,
                    forall|x: int, y: int, z: int|
                        min_x <= x <= max_x && min_y <= y <= max_y && min_z <= z <= max_z
                            && scanned(x, y, z, bx as int, by as int, bz as int)
                            ==> #[trigger] world_block(*world, x, y, z) == 0,
                decreases max_x - bx + 1,
            {
                if get_block(world, bx as i32, by as i32, bz as i32) > 0 {
                    assert(world_block(*world, bx as int, by as int, bz as int) != 0);
                    return true;
                }
                bx = bx + 1;
            }
            bz = bz + 1;
        }
        by = by + 1;
    }
    false
}

} // verus!
