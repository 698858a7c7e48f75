//! The scanbox: the world-space top-left origin of the visible rectangle.
//! It moves by a fixed step per held directional input and is never bounds
//! checked — panning into negative coordinates is exactly what triggers a
//! leftward/downward grid growth.
use vstd::prelude::*;

use crate::units::V2;

verus! {

/// A direction the viewport can pan in.
#[derive(Clone, Copy, Debug, PartialEq, Eq, Structural)]
pub enum PanDirection {
    Up,
    Down,
    Left,
    Right,
}

/// Where one pan step moves the scanbox origin: up adds the step to y,
/// down subtracts it, left subtracts it from x, right adds it.
pub open spec fn pan_spec(origin: V2, d: PanDirection, step: int) -> (int, int) {
    match d {
        PanDirection::Up => (origin.0 as int, origin.1 + step),
        PanDirection::Down => (origin.0 as int, origin.1 - step),
        PanDirection::Left => (origin.0 - step, origin.1 as int),
        PanDirection::Right => (origin.0 + step, origin.1 as int),
    }
}

/// Move the scanbox origin one step in direction `d`.
pub fn pan(origin: V2, d: PanDirection, step: i64) -> (r: V2)
    requires
        step >= 0,
        origin.0 - step >= i64::MIN,
        origin.0 + step <= i64::MAX,
        origin.1 - step >= i64::MIN,
        origin.1 + step <= i64::MAX,
    ensures
        (r.0 as int, r.1 as int) == pan_spec(origin, d, step as int),
{
    match d {
        PanDirection::Up => V2(origin.0, origin.1 + step),
        PanDirection::Down => V2(origin.0, origin.1 - step),
        PanDirection::Left => V2(origin.0 - step, origin.1),
        PanDirection::Right => V2(origin.0 + step, origin.1),
    }
}

} // verus!
