use vstd::prelude::*;

use crate::vector::Vec3;

verus! {

/// One inertial reading: linear acceleration and angular velocity.
#[derive(Debug, Clone, Copy, PartialEq, Eq, Structural)]
pub struct ImuData {
    pub lin_acc: Vec3,
    pub ang_vel: Vec3,
}

/// One magnetometer reading.
#[derive(Debug, Clone, Copy, PartialEq, Eq, Structural)]
pub struct MagData {
    pub field: Vec3,
}

/// Handle of the data source that subscribes to the robot's IMU and
/// magnetometer topics.
#[derive(Debug, Clone, Copy, PartialEq, Eq, Structural)]
pub struct Node {}

} // verus!
