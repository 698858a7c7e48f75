//! Plane coordinates and colors for the canvas engine.
use vstd::prelude::*;

verus! {

/// A color as its raw channel bytes, with or without an alpha channel.
#[derive(Clone, Copy, Debug, PartialEq, Eq, Structural)]
pub enum Color {
    RGB(u8, u8, u8),
    RGBA(u8, u8, u8, u8),
}

/// A world-space coordinate: a pair of signed integers, components may be
/// negative. Panning into negative coordinates is what triggers leftward or
/// downward grid growth.
#[derive(Clone, Copy, Debug, PartialEq, Eq, Structural)]
pub struct V2(pub i64, pub i64);

impl V2 {
    /// Component-wise vector addition.
    pub fn add(self, rhs: V2) -> (r: V2)
        requires
            i64::MIN <= self.0 + rhs.0 <= i64::MAX,
            i64::MIN <= self.1 + rhs.1 <= i64::MAX,
        ensures
            r.0 == self.0 + rhs.0,
            r.1 == self.1 + rhs.1,
    {
        V2(self.0 + rhs.0, self.1 + rhs.1)
    }

    /// Component-wise vector subtraction.
    pub fn sub(self, rhs: V2) -> (r: V2)
        requires
            i64::MIN <= self.0 - rhs.0 <= i64::MAX,
            i64::MIN <= self.1 - rhs.1 <= i64::MAX,
        ensures
            r.0 == self.0 - rhs.0,
            r.1 == self.1 - rhs.1,
    {
        V2(self.0 - rhs.0, self.1 - rhs.1)
    }
}

} // verus!
