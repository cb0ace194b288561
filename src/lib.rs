//! Calibration of inertial sensors: gyroscope offset, accelerometer offset and
//! scale from six static orientations, magnetometer soft-iron/hard-iron
//! correction, and a coverage score of magnetometer samples over the sphere.
//!
//! All quantities are fixed point: a sample component counts millionths of its
//! unit (rad/s, m/s², field units), scale factors and matrix entries count
//! millionths, and error scores count millionths.

use vstd::prelude::*;

pub mod cal;
pub mod provider;
pub mod quality;
pub mod rate;
pub mod serial;
pub mod vector;

verus! {

} // verus!
