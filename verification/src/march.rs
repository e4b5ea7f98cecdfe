//! The voxel walk of a ray: the cell a ray is in, moved one cell boundary at a
//! time along the axis that the caller's distance bookkeeping picks, with a
//! look into the world after every move.

use vstd::prelude::*;
use crate::grid::Axis;
use crate::physics::world_block;
use crate::world::{get_block, Svo};

verus! {

/// Most cells a ray visits before it is given up as a miss.
pub const MAX_RAY_STEPS: u32 = 128;

/// A ray's walk through the grid.
#[derive(Clone, Copy, Debug)]
pub struct RayWalk {
    pub x: i32,
    pub y: i32,
    pub z: i32,
    /// Direction of travel on each axis: -1, 0 or 1.
    pub step_x: i32,
    pub step_y: i32,
    pub step_z: i32,
    /// Moves made so far.
    pub steps: u32,
}

/// The walk after one move along `axis`.
pub open spec fn moved(walk: RayWalk, axis: Axis) -> RayWalk {
    match axis {
        Axis::X => RayWalk {
            x: walk.x.wrapping_add(walk.step_x),
            steps: (walk.steps + 1) as u32,
            ..walk
        },
        Axis::Y => RayWalk {
            y: walk.y.wrapping_add(walk.step_y),
            steps: (walk.steps + 1) as u32,
            ..walk
        },
        Axis::Z => RayWalk {
            z: walk.z.wrapping_add(walk.step_z),
            steps: (walk.steps + 1) as u32,
            ..walk
        },
    }
}

impl RayWalk {
    /// A walk that starts in cell `(x, y, z)` and travels by `step` on each axis.
    pub fn new(x: i32, y: i32, z: i32, step_x: i32, step_y: i32, step_z: i32) -> (walk: Self)
        ensures
            walk == (RayWalk { x, y, z, step_x, step_y, step_z, steps: 0 }),
    {
        RayWalk { x, y, z, step_x, step_y, step_z, steps: 0 }
    }

    /// Whether the walk may move on.
    pub fn has_budget(&self) -> (more: bool)
        ensures
            more == (self.steps < MAX_RAY_STEPS),
    {
        self.steps < MAX_RAY_STEPS
    }

    /// Moves into the next cell along `axis` and returns the block found there.
    /// A coordinate that leaves the range of `i32` wraps around; such a cell
    /// is outside the world and reads as air.
    pub fn advance(&mut self, world: &Option<Svo>, axis: Axis) -> (block: u8)
        requires
            old(self).steps < MAX_RAY_STEPS,
            world matches Some(svo) ==> svo.wf(),
        ensures
            *final(self) == moved(*old(self), axis),
            block == world_block(
                *world,
                final(self).x as int,
                final(self).y as int,
                final(self).z as int,
            ),
    {
        match axis {
            Axis::X => {
                self.x = self.x.wrapping_add(self.step_x);
            },
            Axis::Y => {
                self.y = self.y.wrapping_add(self.step_y);
            },
            Axis::Z => {
                self.z = self.z.wrapping_add(self.step_z);
            },
        }
        self.steps = self.steps + 1;
        get_block(world, self.x, self.y, self.z)
    }
}

} // verus!
