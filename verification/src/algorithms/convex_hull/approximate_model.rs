use vstd::prelude::*;
use crate::algorithms::convex_hull::hull_shape::is_index_list;
use crate::common::error::GeometryError;
use crate::traits::kernel::Operations2D;
use crate::traits::kernel::RealOperations2D;
use crate::traits::number::FieldNumber;
use crate::traits::number::RealFieldNumber;
use crate::traits::number::three;
use crate::traits::number::two;
use crate::traits::point2d::Point2D;

verus! {

/// Both coordinates of the point pass the validity check of the scalar.
pub open spec fn is_valid_point<P: Point2D>(p: P) -> bool where P::Scalar: FieldNumber {
    p.x_value().valid() && p.y_value().valid()
}

/// Every point has valid coordinates.
pub open spec fn all_valid<P: Point2D>(points: Seq<P>) -> bool where P::Scalar: FieldNumber {
    forall|i: int| 0 <= i < points.len() ==> is_valid_point(#[trigger] points[i])
}

/// The first index, among the first `n`, of a point than which none of them
/// is found farther from the origin.
pub open spec fn farthest_from_origin<K: Operations2D>(points: Seq<K::Point>, n: int) -> int where
    K::Field: FieldNumber,

    decreases n,
{
    if n <= 1 {
        0
    } else {
        let far = farthest_from_origin::<K>(points, n - 1);
        if K::length_sqr_value(points[far]).below(K::length_sqr_value(points[n - 1])) {
            n - 1
        } else {
            far
        }
    }
}

/// The first index, among the first `n`, of a point than which none of them
/// is found farther from `from`.
pub open spec fn farthest_from_point<K: Operations2D>(
    points: Seq<K::Point>,
    from: K::Point,
    n: int,
) -> int where K::Field: FieldNumber
    decreases n,
{
    if n <= 1 {
        0
    } else {
        let far = farthest_from_point::<K>(points, from, n - 1);
        if K::distance_sqr_value(from, points[far]).below(
            K::distance_sqr_value(from, points[n - 1]),
        ) {
            n - 1
        } else {
            far
        }
    }
}

/// The first anchor: the point farthest from the origin.
pub open spec fn first_anchor<K: Operations2D>(points: Seq<K::Point>) -> int where
    K::Field: FieldNumber,
 {
    farthest_from_origin::<K>(points, points.len() as int)
}

/// The second anchor: the point farthest from the first anchor.
pub open spec fn second_anchor<K: Operations2D>(points: Seq<K::Point>) -> int where
    K::Field: FieldNumber,
 {
    farthest_from_point::<K>(points, points[first_anchor::<K>(points)], points.len() as int)
}

/// The tolerance for a set of points with the anchors `first` and `second`:
/// the greater of the distance between the anchors times the square root of
/// three and the distance of the first anchor from the origin, times the
/// machine epsilon, times two.
pub open spec fn hull_epsilon<K: RealOperations2D>(
    points: Seq<K::Point>,
    first: int,
    second: int,
) -> K::RealField {
    let distance = K::distance_value(points[first], points[second]);
    let magnitude = distance.product(three::<K::RealField>().root()).larger(
        K::length_value(points[first]),
    );
    magnitude.product(K::RealField::epsilon_value()).product(two::<K::RealField>())
}

/// The anchors are closer to one another than twice the tolerance.
pub open spec fn anchors_coincide<K: RealOperations2D>(
    points: Seq<K::Point>,
    first: int,
    second: int,
) -> bool {
    K::distance_value(points[first], points[second]).below(
        hull_epsilon::<K>(points, first, second).product(two::<K::RealField>()),
    )
}

/// The cross product `(a - c) x (b - c)` of three of the points, as a real.
pub open spec fn real_cross<K: RealOperations2D>(
    points: Seq<K::Point>,
    a: int,
    b: int,
    c: int,
) -> K::RealField {
    K::real_value(K::cross_with_origin_value(points[a], points[b], points[c]))
}

/// The dot product `(a - c) . (b - c)` of three of the points, as a real.
pub open spec fn real_dot<K: RealOperations2D>(
    points: Seq<K::Point>,
    a: int,
    b: int,
    c: int,
) -> K::RealField {
    K::real_value(K::dot_with_origin_value(points[a], points[b], points[c]))
}

/// The point at `i` is neither anchor and lies farther than twice the
/// tolerance from the line through the anchors.
pub open spec fn is_off_line<K: RealOperations2D>(
    points: Seq<K::Point>,
    first: int,
    second: int,
    i: int,
) -> bool {
    i != first && i != second && hull_epsilon::<K>(points, first, second).product(
        two::<K::RealField>(),
    ).below(
        real_cross::<K>(points, second, i, first).magnitude().quotient(
            K::distance_value(points[first], points[second]),
        ),
    )
}

/// The point at `i` is off the line through the anchors, to its left.
pub open spec fn is_left_of_anchors<K: RealOperations2D>(
    points: Seq<K::Point>,
    first: int,
    second: int,
    i: int,
) -> bool {
    is_off_line::<K>(points, first, second, i) && K::RealField::zero_value().below(
        real_cross::<K>(points, second, i, first),
    )
}

/// The indices below `n`, in increasing order, of the points off the line
/// through the anchors, to its left (`left`) or not to its left.
pub open spec fn side_candidates<K: RealOperations2D>(
    points: Seq<K::Point>,
    first: int,
    second: int,
    left: bool,
    n: int,
) -> Seq<usize>
    decreases n,
{
    if n <= 0 {
        Seq::empty()
    } else {
        let rest = side_candidates::<K>(points, first, second, left, n - 1);
        if is_off_line::<K>(points, first, second, n - 1) && is_left_of_anchors::<K>(
            points,
            first,
            second,
            n - 1,
        ) == left {
            rest.push((n - 1) as usize)
        } else {
            rest
        }
    }
}

/// The state of the search for the candidate farthest from the edge from
/// `left` to `right`, after the first `n` candidates: the candidate found and
/// its cross product. A candidate replaces the one found when its cross
/// product is greater; the search starts at the first candidate with zero.
pub open spec fn farthest_by_cross<K: RealOperations2D>(
    points: Seq<K::Point>,
    right: int,
    left: int,
    candidates: Seq<usize>,
    n: int,
) -> (usize, K::RealField)
    decreases n,
{
    if n <= 0 {
        (candidates[0], K::RealField::zero_value())
    } else {
        let found = farthest_by_cross::<K>(points, right, left, candidates, n - 1);
        let cross = real_cross::<K>(points, right, candidates[n - 1] as int, left);
        if found.1.below(cross) {
            (candidates[n - 1], cross)
        } else {
            found
        }
    }
}

/// The state of the search, among the candidates whose cross product is
/// above `threshold`, for the one that lies farthest along the edge, after
/// the first `n` candidates: the candidate found and its dot product.
pub open spec fn farthest_by_dot<K: RealOperations2D>(
    points: Seq<K::Point>,
    right: int,
    left: int,
    candidates: Seq<usize>,
    threshold: K::RealField,
    start: usize,
    n: int,
) -> (usize, K::RealField)
    decreases n,
{
    if n <= 0 {
        (start, real_dot::<K>(points, right, start as int, left))
    } else {
        let found = farthest_by_dot::<K>(points, right, left, candidates, threshold, start, n - 1);
        let c = candidates[n - 1];
        let dot = real_dot::<K>(points, right, c as int, left);
        if threshold.below(real_cross::<K>(points, right, c as int, left)) && found.1.below(dot) {
            (c, dot)
        } else {
            found
        }
    }
}

/// The candidate that becomes the next corner of the hull outside the edge
/// from `left` to `right`: the one farthest from the edge, where candidates
/// within the tolerance of the farthest are told apart by how far along the
/// edge they lie.
pub open spec fn farthest_candidate<K: RealOperations2D>(
    points: Seq<K::Point>,
    right: int,
    left: int,
    candidates: Seq<usize>,
    epsilon: K::RealField,
) -> usize {
    let by_cross = farthest_by_cross::<K>(points, right, left, candidates, candidates.len() as int);
    let band = epsilon.product(K::distance_value(points[right], points[left]));
    farthest_by_dot::<K>(
        points,
        right,
        left,
        candidates,
        by_cross.1.difference(band),
        by_cross.0,
        candidates.len() as int,
    ).0
}

/// The tolerance for the two edges that meet at the new corner `far`.
pub open spec fn edge_epsilon<K: RealOperations2D>(
    points: Seq<K::Point>,
    right: int,
    far: usize,
    epsilon: K::RealField,
) -> K::RealField {
    K::distance_value(points[right], points[far as int]).product(epsilon)
}

/// Candidate `c` lies outside the edge from `far` to `right`.
pub open spec fn is_outside_right<K: RealOperations2D>(
    points: Seq<K::Point>,
    right: int,
    far: usize,
    epsilon: K::RealField,
    c: usize,
) -> bool {
    c != far && edge_epsilon::<K>(points, right, far, epsilon).below(
        real_cross::<K>(points, c as int, far as int, right),
    )
}

/// Candidate `c` does not lie outside the edge from `far` to `right`, and
/// lies outside the edge from `left` to `far`.
pub open spec fn is_outside_left<K: RealOperations2D>(
    points: Seq<K::Point>,
    right: int,
    left: int,
    far: usize,
    epsilon: K::RealField,
    c: usize,
) -> bool {
    c != far && !is_outside_right::<K>(points, right, far, epsilon, c) && edge_epsilon::<K>(
        points,
        right,
        far,
        epsilon,
    ).below(real_cross::<K>(points, c as int, left, far as int))
}

/// The candidates outside the edge from `far` to `right`, in their order.
pub open spec fn right_part<K: RealOperations2D>(
    points: Seq<K::Point>,
    right: int,
    far: usize,
    epsilon: K::RealField,
    candidates: Seq<usize>,
) -> Seq<usize>
    decreases candidates.len(),
{
    if candidates.len() == 0 {
        Seq::empty()
    } else {
        let rest = right_part::<K>(points, right, far, epsilon, candidates.drop_last());
        if is_outside_right::<K>(points, right, far, epsilon, candidates.last()) {
            rest.push(candidates.last())
        } else {
            rest
        }
    }
}

/// The remaining candidates outside the edge from `left` to `far`, in their
/// order.
pub open spec fn left_part<K: RealOperations2D>(
    points: Seq<K::Point>,
    right: int,
    left: int,
    far: usize,
    epsilon: K::RealField,
    candidates: Seq<usize>,
) -> Seq<usize>
    decreases candidates.len(),
{
    if candidates.len() == 0 {
        Seq::empty()
    } else {
        let rest = left_part::<K>(points, right, left, far, epsilon, candidates.drop_last());
        if is_outside_left::<K>(points, right, left, far, epsilon, candidates.last()) {
            rest.push(candidates.last())
        } else {
            rest
        }
    }
}

/// The two searches for the farthest candidate end at one of the candidates.
pub proof fn lemma_farthest_is_candidate<K: RealOperations2D>(
    points: Seq<K::Point>,
    right: int,
    left: int,
    candidates: Seq<usize>,
    epsilon: K::RealField,
)
    requires
        candidates.len() > 0,
    ensures
        candidates.contains(farthest_candidate::<K>(points, right, left, candidates, epsilon)),
{
    let n = candidates.len() as int;
    lemma_by_cross_is_candidate::<K>(points, right, left, candidates, n);
    let by_cross = farthest_by_cross::<K>(points, right, left, candidates, n);
    let band = epsilon.product(K::distance_value(points[right], points[left]));
    lemma_by_dot_is_candidate::<K>(
        points,
        right,
        left,
        candidates,
        by_cross.1.difference(band),
        by_cross.0,
        n,
    );
}

/// The search by cross product ends at one of the candidates.
pub proof fn lemma_by_cross_is_candidate<K: RealOperations2D>(
    points: Seq<K::Point>,
    right: int,
    left: int,
    candidates: Seq<usize>,
    n: int,
)
    requires
        candidates.len() > 0,
        0 <= n <= candidates.len(),
    ensures
        candidates.contains(farthest_by_cross::<K>(points, right, left, candidates, n).0),
    decreases n,
{
    if n <= 0 {
        assert(candidates[0] == farthest_by_cross::<K>(points, right, left, candidates, n).0);
    } else {
        lemma_by_cross_is_candidate::<K>(points, right, left, candidates, n - 1);
        assert(candidates[n - 1] == candidates[n - 1]);
    }
}

/// The search by dot product ends at one of the candidates if it starts at
/// one.
pub proof fn lemma_by_dot_is_candidate<K: RealOperations2D>(
    points: Seq<K::Point>,
    right: int,
    left: int,
    candidates: Seq<usize>,
    threshold: K::RealField,
    start: usize,
    n: int,
)
    requires
        candidates.contains(start),
        0 <= n <= candidates.len(),
    ensures
        candidates.contains(
            farthest_by_dot::<K>(points, right, left, candidates, threshold, start, n).0,
        ),
    decreases n,
{
    if n > 0 {
        lemma_by_dot_is_candidate::<K>(points, right, left, candidates, threshold, start, n - 1);
        assert(candidates[n - 1] == candidates[n - 1]);
    }
}

/// The two parts hold no more candidates than there are, and fewer if the
/// new corner is among the candidates; each entry of a part is one of the
/// candidates and is not the new corner.
pub proof fn lemma_parts<K: RealOperations2D>(
    points: Seq<K::Point>,
    right: int,
    left: int,
    far: usize,
    epsilon: K::RealField,
    candidates: Seq<usize>,
)
    ensures
        right_part::<K>(points, right, far, epsilon, candidates).len() + left_part::<K>(
            points,
            right,
            left,
            far,
            epsilon,
            candidates,
        ).len() <= candidates.len(),
        candidates.contains(far) ==> right_part::<K>(
            points,
            right,
            far,
            epsilon,
            candidates,
        ).len() + left_part::<K>(points, right, left, far, epsilon, candidates).len()
            < candidates.len(),
    decreases candidates.len(),
{
    if candidates.len() > 0 {
        let front = candidates.drop_last();
        lemma_parts::<K>(points, right, left, far, epsilon, front);
        if candidates.contains(far) && candidates.last() != far {
            let at = choose|at: int| 0 <= at < candidates.len() && candidates[at] == far;
            assert(front[at] == far);
        }
    }
}

/// The corners of the hull outside the edge from `left` to `right`, from
/// `right` up to but without `left`, given the candidates outside that edge.
pub open spec fn quickhull_corners<K: RealOperations2D>(
    points: Seq<K::Point>,
    right: int,
    left: int,
    candidates: Seq<usize>,
    epsilon: K::RealField,
) -> Seq<usize>
    decreases candidates.len(),
{
    if candidates.len() == 0 {
        seq![right as usize]
    } else {
        let far = farthest_candidate::<K>(points, right, left, candidates, epsilon);
        proof {
            lemma_farthest_is_candidate::<K>(points, right, left, candidates, epsilon);
            lemma_parts::<K>(points, right, left, far, epsilon, candidates);
        }
        quickhull_corners::<K>(
            points,
            right,
            far as int,
            right_part::<K>(points, right, far, epsilon, candidates),
            epsilon,
        ) + quickhull_corners::<K>(
            points,
            far as int,
            left,
            left_part::<K>(points, right, left, far, epsilon, candidates),
            epsilon,
        )
    }
}

/// The approximate hull of at least two valid points: the first anchor alone
/// if the anchors are one point or closer than twice the tolerance, else the
/// corners on the right of the line from the first anchor to the second
/// followed by those on its left.
pub open spec fn approximate_hull<K: RealOperations2D>(points: Seq<K::Point>) -> Seq<usize> where
    K::Field: FieldNumber,
 {
    let first = first_anchor::<K>(points);
    let second = second_anchor::<K>(points);
    if points.len() == 1 {
        seq![0usize]
    } else if first == second || anchors_coincide::<K>(points, first, second) {
        seq![first as usize]
    } else {
        let epsilon = hull_epsilon::<K>(points, first, second);
        quickhull_corners::<K>(
            points,
            first,
            second,
            side_candidates::<K>(points, first, second, false, points.len() as int),
            epsilon,
        ) + quickhull_corners::<K>(
            points,
            second,
            first,
            side_candidates::<K>(points, first, second, true, points.len() as int),
            epsilon,
        )
    }
}

/// Whether the approximate hull is degenerate: a single point, or no point
/// off the line through the anchors.
pub open spec fn approximate_degenerate<K: RealOperations2D>(points: Seq<K::Point>) -> bool where
    K::Field: FieldNumber,
 {
    let first = first_anchor::<K>(points);
    let second = second_anchor::<K>(points);
    points.len() == 1 || first == second || anchors_coincide::<K>(points, first, second) || (
    side_candidates::<K>(points, first, second, false, points.len() as int).len() == 0
        && side_candidates::<K>(points, first, second, true, points.len() as int).len() == 0)
}

/// What the approximate hull construction returns for these points: an
/// error for no points or for a coordinate that is not valid, and else the
/// hull, a list of indices of points, none twice, that starts with the point
/// farthest from the origin, with the mark of a degenerate one, which is set
/// exactly if the hull has less than three corners.
pub open spec fn is_approximate_hull_result<K: RealOperations2D>(
    points: Seq<K::Point>,
    r: Result<(Vec<usize>, bool), GeometryError>,
) -> bool where K::Field: FieldNumber, K::Point: Point2D<Scalar = K::Field> {
    if points.len() == 0 {
        r matches Err(e) && e is InputIsEmpty
    } else if !all_valid(points) {
        r matches Err(e) && e is InputValueInvalidForField
    } else {
        r matches Ok(hull) && hull.0@ == approximate_hull::<K>(points) && hull.1
            == approximate_degenerate::<K>(points) && is_index_list(hull.0@, points.len() as int)
            && hull.1 == (hull.0@.len() < 3) && hull.0@[0] == first_anchor::<K>(points)
    }
}

} // verus!
