use vstd::prelude::*;

verus! {

/// Turn direction of an ordered triple of points `a`, `b`, `c`: the side of the
/// directed line from `a` to `b` on which `c` lies.
#[derive(Clone, Copy, Debug, PartialEq, Eq, Structural)]
pub enum Orientation2D {
    Clockwise,
    CounterClockwise,
    Collinear,
}

/// Outcome of comparing two magnitudes.
#[derive(Clone, Copy, Debug, PartialEq, Eq, Structural)]
pub enum Comparison {
    Less,
    Equal,
    Greater,
}

impl Orientation2D {
    /// The orientation of the same triple with its first two points swapped.
    pub open spec fn flipped(self) -> Orientation2D {
        match self {
            Orientation2D::Clockwise => Orientation2D::CounterClockwise,
            Orientation2D::CounterClockwise => Orientation2D::Clockwise,
            Orientation2D::Collinear => Orientation2D::Collinear,
        }
    }

    /// Swaps clockwise and counter-clockwise.
    pub fn reverse(self) -> (r: Orientation2D)
        ensures
            r == self.flipped(),
    {
        match self {
            Orientation2D::Clockwise => Orientation2D::CounterClockwise,
            Orientation2D::CounterClockwise => Orientation2D::Clockwise,
            Orientation2D::Collinear => Orientation2D::Collinear,
        }
    }
}

impl Comparison {
    /// The comparison of the same two magnitudes in the other order.
    pub open spec fn flipped(self) -> Comparison {
        match self {
            Comparison::Less => Comparison::Greater,
            Comparison::Equal => Comparison::Equal,
            Comparison::Greater => Comparison::Less,
        }
    }

    /// Swaps `Less` and `Greater`.
    pub fn reverse(self) -> (r: Comparison)
        ensures
            r == self.flipped(),
    {
        match self {
            Comparison::Less => Comparison::Greater,
            Comparison::Equal => Comparison::Equal,
            Comparison::Greater => Comparison::Less,
        }
    }
}

} // verus!
