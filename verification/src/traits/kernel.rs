use vstd::prelude::*;
use crate::common::orientation::Comparison;
use crate::common::orientation::Orientation2D;
use crate::common::plane::Position;
use crate::common::plane::closer_of;
use crate::common::plane::length_sqr_of;
use crate::common::plane::order_of;
use crate::common::plane::turn_of;
use crate::traits::number::RealFieldNumber;

verus! {

/// The point type and the scalar type that a family of geometric operations
/// works on.
pub trait Kernel2D {
    type Point;

    type Field;
}

/// Exact geometric predicates.
///
/// An implementation places every point on the integer grid (`position`) and
/// answers each predicate as it holds of those positions, with no rounding.
/// Arithmetic that rounds cannot implement this trait: the hull construction
/// relies on the predicates to agree with one another, and reports an error
/// where it finds that they do not.
pub trait ExactPredicates2D: Kernel2D {
    /// Where the point lies.
    spec fn position(p: Self::Point) -> Position;

    /// Whether `a` and `b` lie at the same position.
    fn is_same_point(a: &Self::Point, b: &Self::Point) -> (same: bool)
        ensures
            same == (Self::position(*a) == Self::position(*b)),
    ;

    /// Which of `a` and `b` is closer to `to`: `Less` when `a` is.
    fn compare_distance(a: &Self::Point, b: &Self::Point, to: &Self::Point) -> (order: Comparison)
        ensures
            order == closer_of(Self::position(*a), Self::position(*b), Self::position(*to)),
    ;

    /// Which of `a` and `b` is closer to the origin: `Less` when `a` is.
    fn compare_length(a: &Self::Point, b: &Self::Point) -> (order: Comparison)
        ensures
            order == order_of(
                length_sqr_of(Self::position(*a)),
                length_sqr_of(Self::position(*b)),
            ),
    ;

    /// The turn that the triple `a`, `b`, `c` makes.
    fn orientation(a: &Self::Point, b: &Self::Point, c: &Self::Point) -> (turn: Orientation2D)
        ensures
            turn == turn_of(Self::position(*a), Self::position(*b), Self::position(*c)),
    ;
}

/// The algebraic primitives of the plane, computed in the kernel's scalar.
///
/// Each operation is a function of its arguments alone, named by the
/// specification function beside it; how closely it follows planar vector
/// algebra is up to the scalar.
pub trait Operations2D: Kernel2D {
    /// What `length_sqr` returns.
    spec fn length_sqr_value(a: Self::Point) -> Self::Field;

    /// What `distance_sqr` returns.
    spec fn distance_sqr_value(a: Self::Point, b: Self::Point) -> Self::Field;

    /// What `dot` returns.
    spec fn dot_value(a: Self::Point, b: Self::Point) -> Self::Field;

    /// What `dot_with_origin` returns.
    spec fn dot_with_origin_value(
        a: Self::Point,
        b: Self::Point,
        origin: Self::Point,
    ) -> Self::Field;

    /// What `cross` returns.
    spec fn cross_value(a: Self::Point, b: Self::Point) -> Self::Field;

    /// What `cross_with_origin` returns.
    spec fn cross_with_origin_value(
        a: Self::Point,
        b: Self::Point,
        origin: Self::Point,
    ) -> Self::Field;

    /// Squared distance of `a` from the origin.
    fn length_sqr(a: &Self::Point) -> (r: Self::Field)
        ensures
            r == Self::length_sqr_value(*a),
    ;

    /// Squared distance between `a` and `b`.
    fn distance_sqr(a: &Self::Point, b: &Self::Point) -> (r: Self::Field)
        ensures
            r == Self::distance_sqr_value(*a, *b),
    ;

    /// Dot product of `a` and `b` as vectors.
    fn dot(a: &Self::Point, b: &Self::Point) -> (r: Self::Field)
        ensures
            r == Self::dot_value(*a, *b),
    ;

    /// Dot product of `a - origin` and `b - origin`.
    fn dot_with_origin(a: &Self::Point, b: &Self::Point, origin: &Self::Point) -> (r: Self::Field)
        ensures
            r == Self::dot_with_origin_value(*a, *b, *origin),
    ;

    /// Cross product of `a` and `b` as vectors.
    fn cross(a: &Self::Point, b: &Self::Point) -> (r: Self::Field)
        ensures
            r == Self::cross_value(*a, *b),
    ;

    /// Cross product of `a - origin` and `b - origin`.
    fn cross_with_origin(a: &Self::Point, b: &Self::Point, origin: &Self::Point) -> (r:
        Self::Field)
        ensures
            r == Self::cross_with_origin_value(*a, *b, *origin),
    ;
}

/// Lengths and distances in a scalar that has square roots, and the way from
/// the kernel's scalar into it.
pub trait RealOperations2D: Operations2D {
    type RealField: RealFieldNumber;

    /// What `to_real` returns.
    spec fn real_value(v: Self::Field) -> Self::RealField;

    /// What `length` returns.
    spec fn length_value(a: Self::Point) -> Self::RealField;

    /// What `distance` returns.
    spec fn distance_value(a: Self::Point, b: Self::Point) -> Self::RealField;

    /// The kernel's scalar as a real.
    fn to_real(v: Self::Field) -> (r: Self::RealField)
        ensures
            r == Self::real_value(v),
    ;

    /// Distance of `a` from the origin.
    fn length(a: &Self::Point) -> (r: Self::RealField)
        ensures
            r == Self::length_value(*a),
    ;

    /// Distance between `a` and `b`.
    fn distance(a: &Self::Point, b: &Self::Point) -> (r: Self::RealField)
        ensures
            r == Self::distance_value(*a, *b),
    ;
}

/// A point type that knows the kernel to use for it when none is named.
pub trait DefaultKernel: Sized {
    type Kernel: Kernel2D<Point = Self>;
}

/// A point type that knows the exact kernel to use for it when none is named.
pub trait DefaultExactKernel: Sized {
    type Kernel: ExactPredicates2D<Point = Self>;
}

} // verus!
