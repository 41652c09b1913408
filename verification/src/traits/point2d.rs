use vstd::prelude::*;

verus! {

/// A point of the plane that can hand out its two coordinates.
pub trait Point2D: Clone {
    type Scalar;

    /// The first coordinate.
    spec fn x_value(self) -> Self::Scalar;

    /// The second coordinate.
    spec fn y_value(self) -> Self::Scalar;

    fn x(&self) -> (r: Self::Scalar)
        ensures
            r == self.x_value(),
    ;

    fn y(&self) -> (r: Self::Scalar)
        ensures
            r == self.y_value(),
    ;
}

} // verus!
