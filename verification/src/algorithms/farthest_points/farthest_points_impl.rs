use vstd::prelude::*;
use crate::algorithms::convex_hull::approximate_model::all_valid;
use crate::algorithms::convex_hull::approximate_model::approximate_hull;
use crate::algorithms::convex_hull::hull::ConvexHull2D;
use crate::common::error::GeometryError;
use crate::traits::kernel::Operations2D;
use crate::traits::kernel::RealOperations2D;
use crate::traits::number::FieldNumber;
use crate::traits::point2d::Point2D;

verus! {

/// The place after `pointer` on a closed walk over `n` places.
pub open spec fn next_place(pointer: int, n: int) -> int {
    if pointer + 1 < n {
        pointer + 1
    } else {
        0
    }
}

/// The squared distance between the points at two places of the hull.
pub open spec fn corner_distance<K: Operations2D>(
    points: Seq<K::Point>,
    hull: Seq<usize>,
    i: int,
    j: int,
) -> K::Field {
    K::distance_sqr_value(points[hull[i] as int], points[hull[j] as int])
}

/// The place at which the pointer comes to rest for the corner at place `i`:
/// it moves on to the next place as long as that one is not closer to the
/// corner, for `budget` moves at most.
pub open spec fn rested<K: Operations2D>(
    points: Seq<K::Point>,
    hull: Seq<usize>,
    i: int,
    pointer: int,
    budget: nat,
) -> int where K::Field: FieldNumber
    decreases budget,
{
    let next = next_place(pointer, hull.len() as int);
    if budget == 0 || corner_distance::<K>(points, hull, i, next).below(
        corner_distance::<K>(points, hull, i, pointer),
    ) {
        pointer
    } else {
        rested::<K>(points, hull, i, next, (budget - 1) as nat)
    }
}

/// The state of the walk after the corners at the first `m` places: where the
/// pointer rests, and the two places of the farthest pair found. The walk
/// starts with the pointer at the first place and the pair of the first two.
pub open spec fn walked<K: Operations2D>(points: Seq<K::Point>, hull: Seq<usize>, m: int) -> (
    int,
    int,
    int,
) where K::Field: FieldNumber
    decreases m,
{
    if m <= 0 {
        (0, 0, 1)
    } else {
        let before = walked::<K>(points, hull, m - 1);
        let pointer = rested::<K>(points, hull, m - 1, before.0, hull.len());
        if corner_distance::<K>(points, hull, before.1, before.2).below(
            corner_distance::<K>(points, hull, m - 1, pointer),
        ) {
            (pointer, m - 1, pointer)
        } else {
            (pointer, before.1, before.2)
        }
    }
}

/// The farthest pair that the walk around the hull finds, as indices of
/// points.
pub open spec fn farthest_pair<K: Operations2D>(points: Seq<K::Point>, hull: Seq<usize>) -> (
    usize,
    usize,
) where K::Field: FieldNumber {
    let end = walked::<K>(points, hull, hull.len() as int);
    (hull[end.1], hull[end.2])
}

/// The indices of two points on the hull that are farthest from one another,
/// found by a walk around the hull with a pointer that runs ahead of the
/// corner looked at.
pub fn farthest_pair_on_hull<K: Operations2D>(points: &[K::Point], indices: &Vec<usize>) -> (pair: (
    usize,
    usize,
)) where K::Field: FieldNumber
    requires
        indices.len() >= 2,
        forall|k: int| 0 <= k < indices.len() ==> #[trigger] indices[k] < points.len(),
    ensures
        pair == farthest_pair::<K>(points@, indices@),
{
    let n = indices.len();
    let mut pointer: usize = 0;
    let mut max_distance = K::distance_sqr(&points[indices[0]], &points[indices[1]]);
    let mut first: usize = 0;
    let mut second: usize = 1;
    let mut i: usize = 0;
    while i < n
        invariant
            i <= n,
            n == indices.len(),
            n >= 2,
            forall|k: int| 0 <= k < indices.len() ==> #[trigger] indices[k] < points.len(),
            pointer < n,
            first < n,
            second < n,
            (pointer as int, first as int, second as int) == walked::<K>(
                points@,
                indices@,
                i as int,
            ),
            max_distance == corner_distance::<K>(points@, indices@, first as int, second as int),
        decreases n - i,
    {
        let ghost target = rested::<K>(points@, indices@, i as int, pointer as int, n as nat);
        let mut distance = K::distance_sqr(&points[indices[i]], &points[indices[pointer]]);
        let mut moving = true;
        let mut steps: usize = 0;
        while moving && steps < n
            invariant
                steps <= n,
                i < n,
                n == indices.len(),
                forall|k: int| 0 <= k < indices.len() ==> #[trigger] indices[k] < points.len(),
                pointer < n,
                distance == corner_distance::<K>(points@, indices@, i as int, pointer as int),
                moving ==> rested::<K>(
                    points@,
                    indices@,
                    i as int,
                    pointer as int,
                    (n - steps) as nat,
                ) == target,
                !moving ==> pointer == target,
            decreases n - steps + if moving { 1int } else { 0int },
        {
            let next = if pointer + 1 < n {
                pointer + 1
            } else {
                0
            };
            let next_distance = K::distance_sqr(&points[indices[i]], &points[indices[next]]);
            if next_distance.less_than(&distance) {
                moving = false;
            } else {
                distance = next_distance;
                pointer = next;
                steps = steps + 1;
            }
        }
        if max_distance.less_than(&distance) {
            max_distance = distance;
            first = i;
            second = pointer;
        }
        i = i + 1;
    }
    (indices[first], indices[second])
}

/// The indices of two points that are farthest from one another, found by
/// walking around the approximate hull of the points.
pub fn farthest_points_impl<K: RealOperations2D>(points: &[K::Point]) -> (r: Result<
    (usize, usize),
    GeometryError,
>) where K::Field: FieldNumber, K::Point: Point2D<Scalar = K::Field> + Clone
    ensures
        points.len() == 0 ==> (r matches Err(e) && e is InputIsEmpty),
        points.len() > 0 && !all_valid(points@) ==> (r matches Err(e)
            && e is InputValueInvalidForField),
        points.len() > 0 && all_valid(points@) && approximate_hull::<K>(points@).len() < 2 ==> (
        r matches Err(e) && e is InputHasTooFewPoints),
        points.len() > 0 && all_valid(points@) && approximate_hull::<K>(points@).len() >= 2 ==> (
        r matches Ok(pair) && pair == farthest_pair::<K>(points@, approximate_hull::<K>(points@))),
{
    let hull = match ConvexHull2D::<K>::from_points(points) {
        Ok(hull) => hull,
        Err(e) => {
            return Err(e);
        },
    };
    let indices = hull.hull_indices();
    if indices.len() < 2 {
        return Err(GeometryError::InputHasTooFewPoints);
    }
    Ok(farthest_pair_on_hull::<K>(points, indices))
}

} // verus!
