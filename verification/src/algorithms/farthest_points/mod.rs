pub mod farthest_points_impl;

use vstd::prelude::*;
use crate::algorithms::convex_hull::approximate_model::all_valid;
use crate::algorithms::convex_hull::approximate_model::approximate_hull;
use crate::algorithms::farthest_points::farthest_points_impl::farthest_pair;
use crate::common::error::GeometryError;
use crate::traits::kernel::RealOperations2D;
use crate::traits::number::FieldNumber;
use crate::traits::point2d::Point2D;

verus! {

/// The indices of two points that are farthest from one another, found by
/// walking around the approximate hull of the points.
///
/// Fails as the hull construction does, and with too few points where the
/// hull is a single point.
pub fn farthest_points<K: RealOperations2D>(points: &[K::Point]) -> (r: Result<
    (usize, usize),
    GeometryError,
>) where K::Field: FieldNumber, K::Point: Point2D<Scalar = K::Field> + Clone
    ensures
        points.len() == 0 ==> (r matches Err(e) && e is InputIsEmpty),
        points.len() > 0 && !all_valid(points@) ==> (r matches Err(e)
            && e is InputValueInvalidForField),
        points.len() > 0 && all_valid(points@) && approximate_hull::<K>(points@).len() < 2 ==> (
        r matches Err(e) && e is InputHasTooFewPoints),
        points.len() > 0 && all_valid(points@) && approximate_hull::<K>(points@).len() >= 2 ==> (
        r matches Ok(pair) && pair == farthest_pair::<K>(points@, approximate_hull::<K>(points@))),
{
    farthest_points_impl::farthest_points_impl::<K>(points)
}

} // verus!
