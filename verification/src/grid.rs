//! Axes and directions of the voxel grid.

use vstd::prelude::*;

verus! {

/// An axis of the grid.
#[derive(Clone, Copy, Debug, PartialEq, Eq, Structural)]
pub enum Axis {
    X,
    Y,
    Z,
}

/// One of the six directions along the axes: where the outside of a face is.
#[derive(Clone, Copy, Debug, PartialEq, Eq, Structural)]
pub enum Direction {
    PosX,
    NegX,
    PosY,
    NegY,
    PosZ,
    NegZ,
}

/// The direction along `axis`, towards larger coordinates if `positive`.
pub open spec fn direction_of(axis: Axis, positive: bool) -> Direction {
    match axis {
        Axis::X => if positive {
            Direction::PosX
        } else {
            Direction::NegX
        },
        Axis::Y => if positive {
            Direction::PosY
        } else {
            Direction::NegY
        },
        Axis::Z => if positive {
            Direction::PosZ
        } else {
            Direction::NegZ
        },
    }
}

/// Number of an axis: 0 for x, 1 for y, 2 for z.
pub open spec fn axis_index(axis: Axis) -> int {
    match axis {
        Axis::X => 0,
        Axis::Y => 1,
        Axis::Z => 2,
    }
}

impl Axis {
    /// Number of the axis: 0 for x, 1 for y, 2 for z.
    pub fn index(self) -> (side: u8)
        ensures
            side == axis_index(self),
    {
        match self {
            Axis::X => 0,
            Axis::Y => 1,
            Axis::Z => 2,
        }
    }
}

impl Direction {
    /// The direction along `axis`, towards larger coordinates if `positive`.
    pub fn along(axis: Axis, positive: bool) -> (direction: Direction)
        ensures
            direction == direction_of(axis, positive),
    {
        match axis {
            Axis::X => if positive {
                Direction::PosX
            } else {
                Direction::NegX
            },
            Axis::Y => if positive {
                Direction::PosY
            } else {
                Direction::NegY
            },
            Axis::Z => if positive {
                Direction::PosZ
            } else {
                Direction::NegZ
            },
        }
    }

    /// The axis of the direction.
    pub fn axis(self) -> (axis: Axis)
        ensures
            exists|positive: bool| self == direction_of(axis, positive),
            axis == (match self {
                Direction::PosX | Direction::NegX => Axis::X,
                Direction::PosY | Direction::NegY => Axis::Y,
                Direction::PosZ | Direction::NegZ => Axis::Z,
            }),
    {
        let axis = match self {
            Direction::PosX | Direction::NegX => Axis::X,
            Direction::PosY | Direction::NegY => Axis::Y,
            Direction::PosZ | Direction::NegZ => Axis::Z,
        };
        proof {
            let positive = self == Direction::PosX || self == Direction::PosY || self
                == Direction::PosZ;
            assert(self == direction_of(axis, positive));
        }
        axis
    }
}

} // verus!
