use vstd::prelude::*;
use crate::algorithms::convex_hull::approximate_model::all_valid;
use crate::algorithms::convex_hull::approximate_model::approximate_degenerate;
use crate::algorithms::convex_hull::approximate_model::approximate_hull;
use crate::algorithms::convex_hull::approximate_model::farthest_by_cross;
use crate::algorithms::convex_hull::approximate_model::farthest_by_dot;
use crate::algorithms::convex_hull::approximate_model::farthest_candidate;
use crate::algorithms::convex_hull::approximate_model::farthest_from_origin;
use crate::algorithms::convex_hull::approximate_model::farthest_from_point;
use crate::algorithms::convex_hull::approximate_model::hull_epsilon;
use crate::algorithms::convex_hull::approximate_model::is_approximate_hull_result;
use crate::algorithms::convex_hull::approximate_model::is_valid_point;
use crate::algorithms::convex_hull::approximate_model::left_part;
use crate::algorithms::convex_hull::approximate_model::lemma_farthest_is_candidate;
use crate::algorithms::convex_hull::approximate_model::lemma_parts;
use crate::algorithms::convex_hull::approximate_model::quickhull_corners;
use crate::algorithms::convex_hull::approximate_model::real_cross;
use crate::algorithms::convex_hull::approximate_model::real_dot;
use crate::algorithms::convex_hull::approximate_model::right_part;
use crate::algorithms::convex_hull::approximate_model::side_candidates;
use crate::algorithms::convex_hull::approximate_shape::lemma_approximate_degenerate_is_small;
use crate::algorithms::convex_hull::approximate_shape::lemma_approximate_hull_indices;
use crate::common::error::GeometryError;
use crate::traits::kernel::Operations2D;
use crate::traits::kernel::RealOperations2D;
use crate::traits::number::FieldNumber;
use crate::traits::number::RealFieldNumber;
use crate::traits::number::two;
use crate::traits::point2d::Point2D;

verus! {

/// The index of the first point than which none is found farther from
/// `from_point`, or from the origin where no point is given.
pub fn farthest_point<K: Operations2D>(points: &[K::Point], from_point: Option<&K::Point>) -> (far:
    usize) where K::Field: FieldNumber
    ensures
        points.len() > 0 ==> far < points.len(),
        match from_point {
            Some(from) => far == farthest_from_point::<K>(points@, *from, points.len() as int),
            None => far == farthest_from_origin::<K>(points@, points.len() as int),
        },
{
    let mut far: usize = 0;
    let mut i: usize = 1;
    match from_point {
        Some(from) => {
            while i < points.len()
                invariant
                    1 <= i,
                    points.len() > 0 ==> i <= points.len() && far < i,
                    points.len() == 0 ==> far == 0,
                    far == farthest_from_point::<K>(points@, *from, i as int),
                decreases points.len() - i,
            {
                if K::distance_sqr(from, &points[far]).less_than(&K::distance_sqr(from, &points[i])) {
                    far = i;
                }
                i = i + 1;
            }
        },
        None => {
            while i < points.len()
                invariant
                    1 <= i,
                    points.len() > 0 ==> i <= points.len() && far < i,
                    points.len() == 0 ==> far == 0,
                    far == farthest_from_origin::<K>(points@, i as int),
                decreases points.len() - i,
            {
                if K::length_sqr(&points[far]).less_than(&K::length_sqr(&points[i])) {
                    far = i;
                }
                i = i + 1;
            }
        },
    }
    proof {
        if let Some(from) = from_point {
            assert(farthest_from_point::<K>(points@, *from, 0) == 0);
        }
        assert(farthest_from_origin::<K>(points@, 0) == 0);
    }
    far
}

/// The cross product `(a - c) x (b - c)` of three of the points, as a real.
fn cross_real<K: RealOperations2D>(points: &[K::Point], a: usize, b: usize, c: usize) -> (r:
    K::RealField)
    requires
        a < points.len(),
        b < points.len(),
        c < points.len(),
    ensures
        r == real_cross::<K>(points@, a as int, b as int, c as int),
{
    K::to_real(K::cross_with_origin(&points[a], &points[b], &points[c]))
}

/// The dot product `(a - c) . (b - c)` of three of the points, as a real.
fn dot_real<K: RealOperations2D>(points: &[K::Point], a: usize, b: usize, c: usize) -> (r:
    K::RealField)
    requires
        a < points.len(),
        b < points.len(),
        c < points.len(),
    ensures
        r == real_dot::<K>(points@, a as int, b as int, c as int),
{
    K::to_real(K::dot_with_origin(&points[a], &points[b], &points[c]))
}

/// The new corner outside the edge from `left_point` to `right_point`, and
/// the candidates outside the two edges that meet at it: first those outside
/// the edge to `right_point`, then those outside the edge from `left_point`.
#[verifier::rlimit(50)]
fn split_candidates<K: RealOperations2D>(
    points: &[K::Point],
    right_point: usize,
    left_point: usize,
    candidates: &Vec<usize>,
    epsilon: &K::RealField,
) -> (r: (usize, Vec<usize>, Vec<usize>))
    requires
        right_point < points.len(),
        left_point < points.len(),
        candidates.len() > 0,
        forall|k: int| 0 <= k < candidates.len() ==> #[trigger] candidates[k] < points.len(),
    ensures
        r.0 < points.len(),
        r.0 == farthest_candidate::<K>(
            points@,
            right_point as int,
            left_point as int,
            candidates@,
            *epsilon,
        ),
        r.1@ == right_part::<K>(points@, right_point as int, r.0, *epsilon, candidates@),
        r.2@ == left_part::<K>(
            points@,
            right_point as int,
            left_point as int,
            r.0,
            *epsilon,
            candidates@,
        ),
        forall|k: int| 0 <= k < r.1.len() ==> #[trigger] r.1[k] < points.len(),
        forall|k: int| 0 <= k < r.2.len() ==> #[trigger] r.2[k] < points.len(),
        r.1.len() + r.2.len() < candidates.len(),
{
    let ghost right = right_point as int;
    let ghost left = left_point as int;
    let mut cross_max = K::RealField::zero();
    let mut farthest = candidates[0];
    let mut i: usize = 0;
    while i < candidates.len()
        invariant
            i <= candidates.len(),
            candidates.len() > 0,
            right_point < points.len(),
            left_point < points.len(),
            farthest < points.len(),
            forall|k: int| 0 <= k < candidates.len() ==> #[trigger] candidates[k] < points.len(),
            (farthest, cross_max) == farthest_by_cross::<K>(
                points@,
                right_point as int,
                left_point as int,
                candidates@,
                i as int,
            ),
        decreases candidates.len() - i,
    {
        let c = candidates[i];
        let cross = cross_real::<K>(points, right_point, c, left_point);
        if cross_max.less_than(&cross) {
            cross_max = cross;
            farthest = c;
        }
        i = i + 1;
    }
    let cross_epsilon = epsilon.times(&K::distance(&points[right_point], &points[left_point]));
    let threshold = cross_max.minus(&cross_epsilon);
    let ghost start = farthest;
    let mut dot_max = dot_real::<K>(points, right_point, farthest, left_point);
    let mut i: usize = 0;
    while i < candidates.len()
        invariant
            i <= candidates.len(),
            right_point < points.len(),
            left_point < points.len(),
            farthest < points.len(),
            forall|k: int| 0 <= k < candidates.len() ==> #[trigger] candidates[k] < points.len(),
            (farthest, dot_max) == farthest_by_dot::<K>(
                points@,
                right_point as int,
                left_point as int,
                candidates@,
                threshold,
                start,
                i as int,
            ),
        decreases candidates.len() - i,
    {
        let c = candidates[i];
        if threshold.less_than(&cross_real::<K>(points, right_point, c, left_point)) {
            let dot = dot_real::<K>(points, right_point, c, left_point);
            if dot_max.less_than(&dot) {
                dot_max = dot;
                farthest = c;
            }
        }
        i = i + 1;
    }
    assert(farthest == farthest_candidate::<K>(points@, right, left, candidates@, *epsilon));
    let mut right_candidates: Vec<usize> = Vec::new();
    let mut left_candidates: Vec<usize> = Vec::new();
    let cross_right_epsilon = K::distance(&points[right_point], &points[farthest]).times(epsilon);
    let cross_left_epsilon = K::distance(&points[right_point], &points[farthest]).times(epsilon);
    let mut i: usize = 0;
    while i < candidates.len()
        invariant
            i <= candidates.len(),
            right_point < points.len(),
            left_point < points.len(),
            farthest < points.len(),
            forall|k: int| 0 <= k < candidates.len() ==> #[trigger] candidates[k] < points.len(),
            forall|k: int|
                0 <= k < right_candidates.len() ==> #[trigger] right_candidates[k] < points.len(),
            forall|k: int|
                0 <= k < left_candidates.len() ==> #[trigger] left_candidates[k] < points.len(),
            cross_right_epsilon == K::distance_value(
                points@[right_point as int],
                points@[farthest as int],
            ).product(*epsilon),
            cross_left_epsilon == cross_right_epsilon,
            right_candidates@ == right_part::<K>(
                points@,
                right_point as int,
                farthest,
                *epsilon,
                candidates@.take(i as int),
            ),
            left_candidates@ == left_part::<K>(
                points@,
                right_point as int,
                left_point as int,
                farthest,
                *epsilon,
                candidates@.take(i as int),
            ),
        decreases candidates.len() - i,
    {
        let c = candidates[i];
        proof {
            assert(candidates@.take(i + 1).drop_last() =~= candidates@.take(i as int));
        }
        if c != farthest {
            if cross_right_epsilon.less_than(&cross_real::<K>(points, c, farthest, right_point)) {
                right_candidates.push(c);
            } else if cross_left_epsilon.less_than(
                &cross_real::<K>(points, c, left_point, farthest),
            ) {
                left_candidates.push(c);
            }
        }
        i = i + 1;
    }
    proof {
        assert(candidates@.take(candidates.len() as int) =~= candidates@);
        lemma_farthest_is_candidate::<K>(points@, right, left, candidates@, *epsilon);
        lemma_parts::<K>(points@, right, left, farthest, *epsilon, candidates@);
    }
    (farthest, right_candidates, left_candidates)
}

/// An edge of the hull under construction that is still to be looked at:
/// its two ends and the candidates outside it.
pub struct PendingEdge {
    pub right: usize,
    pub left: usize,
    pub candidates: Vec<usize>,
}

/// The corners that the pending edges will give, the last edge first.
pub open spec fn pending_corners<K: RealOperations2D>(
    points: Seq<K::Point>,
    edges: Seq<PendingEdge>,
    epsilon: K::RealField,
) -> Seq<usize>
    decreases edges.len(),
{
    if edges.len() == 0 {
        Seq::empty()
    } else {
        quickhull_corners::<K>(
            points,
            edges.last().right as int,
            edges.last().left as int,
            edges.last().candidates@,
            epsilon,
        ) + pending_corners::<K>(points, edges.drop_last(), epsilon)
    }
}

/// The work that the pending edges stand for: one for each edge and two for
/// each of its candidates.
pub open spec fn pending_work(edges: Seq<PendingEdge>) -> nat
    decreases edges.len(),
{
    if edges.len() == 0 {
        0
    } else {
        2 * edges.last().candidates@.len() + 1 + pending_work(edges.drop_last())
    }
}

/// The ends and the candidates of every pending edge are indices below `n`.
pub open spec fn edges_in_range(edges: Seq<PendingEdge>, n: int) -> bool {
    forall|i: int|
        0 <= i < edges.len() ==> (#[trigger] edges[i]).right < n && edges[i].left < n && forall|
            k: int,
        |
            0 <= k < edges[i].candidates@.len() ==> #[trigger] edges[i].candidates@[k] < n
}

/// Appends to `result` the corners of the hull outside the edge from
/// `left_point` to `right_point`, from `right_point` up to but without
/// `left_point`, given the candidates outside that edge.
///
/// The edges that come up are kept on a stack of pending edges, so that a
/// deep subdivision costs no depth of calls.
#[verifier::rlimit(50)]
pub fn quickhull_recursive<K: RealOperations2D>(
    points: &[K::Point],
    right_point: usize,
    left_point: usize,
    candidates: Vec<usize>,
    epsilon: &K::RealField,
    result: &mut Vec<usize>,
)
    requires
        right_point < points.len(),
        left_point < points.len(),
        forall|k: int| 0 <= k < candidates.len() ==> #[trigger] candidates[k] < points.len(),
    ensures
        final(result)@ == old(result)@ + quickhull_corners::<K>(
            points@,
            right_point as int,
            left_point as int,
            candidates@,
            *epsilon,
        ),
{
    let ghost goal = old(result)@ + quickhull_corners::<K>(
        points@,
        right_point as int,
        left_point as int,
        candidates@,
        *epsilon,
    );
    let mut edges: Vec<PendingEdge> = Vec::new();
    edges.push(PendingEdge { right: right_point, left: left_point, candidates });
    proof {
        assert(edges@.drop_last() =~= Seq::<PendingEdge>::empty());
        assert(pending_corners::<K>(points@, edges@.drop_last(), *epsilon) =~= Seq::<
            usize,
        >::empty());
        assert(result@ + pending_corners::<K>(points@, edges@, *epsilon) =~= goal);
    }
    while edges.len() > 0
        invariant
            edges_in_range(edges@, points.len() as int),
            result@ + pending_corners::<K>(points@, edges@, *epsilon) == goal,
        decreases pending_work(edges@),
    {
        let ghost pending = edges@;
        let ghost found = result@;
        let edge = match edges.pop() {
            Some(edge) => edge,
            None => {
                return ;
            },
        };
        proof {
            assert(edges@ =~= pending.drop_last());
            assert(edge == pending.last());
            assert(pending[pending.len() - 1].right < points.len());
            assert forall|i: int| 0 <= i < edges@.len() implies (#[trigger] edges@[i]).right
                < points.len() && edges@[i].left < points.len() && forall|k: int|
                0 <= k < edges@[i].candidates@.len() ==> #[trigger] edges@[i].candidates@[k]
                    < points.len() by {
                assert(edges@[i] == pending[i]);
            }
        }
        if edge.candidates.len() == 0 {
            result.push(edge.right);
            proof {
                assert(result@ + pending_corners::<K>(points@, edges@, *epsilon) =~= found + (
                seq![edge.right] + pending_corners::<K>(points@, edges@, *epsilon)));
            }
        } else {
            let (farthest, right_candidates, left_candidates) = split_candidates::<K>(
                points,
                edge.right,
                edge.left,
                &edge.candidates,
                epsilon,
            );
            let ghost rest = edges@;
            let second = PendingEdge {
                right: farthest,
                left: edge.left,
                candidates: left_candidates,
            };
            let first = PendingEdge {
                right: edge.right,
                left: farthest,
                candidates: right_candidates,
            };
            edges.push(second);
            edges.push(first);
            proof {
                let one = rest.push(second);
                assert(edges@ == one.push(first));
                assert(edges@.drop_last() =~= one);
                assert(one.drop_last() =~= rest);
                assert(edges@.last() == first);
                assert(one.last() == second);
                let first_part = quickhull_corners::<K>(
                    points@,
                    edge.right as int,
                    farthest as int,
                    first.candidates@,
                    *epsilon,
                );
                let second_part = quickhull_corners::<K>(
                    points@,
                    farthest as int,
                    edge.left as int,
                    second.candidates@,
                    *epsilon,
                );
                let later = pending_corners::<K>(points@, rest, *epsilon);
                assert(pending_corners::<K>(points@, one, *epsilon) == second_part + later);
                assert(pending_corners::<K>(points@, edges@, *epsilon) == first_part + (second_part
                    + later));
                assert(found + (first_part + (second_part + later)) =~= found + ((first_part
                    + second_part) + later));
                assert(pending_work(one) == 2 * second.candidates@.len() + 1 + pending_work(rest));
                assert(pending_work(edges@) == 2 * first.candidates@.len() + 1 + pending_work(one));
                assert forall|i: int| 0 <= i < edges@.len() implies (#[trigger] edges@[i]).right
                    < points.len() && edges@[i].left < points.len() && forall|k: int|
                    0 <= k < edges@[i].candidates@.len() ==> #[trigger] edges@[i].candidates@[k]
                        < points.len() by {
                    if i < rest.len() {
                        assert(edges@[i] == rest[i]);
                    }
                }
            }
        }
    }
    proof {
        assert(pending_corners::<K>(points@, edges@, *epsilon) =~= Seq::<usize>::empty());
        assert(result@ + Seq::<usize>::empty() =~= result@);
    }
}

/// The tolerance for a set of points with the anchors at `first_point` and
/// `second_point`: the greater of the distance between the anchors times the
/// square root of three and the distance of the first anchor from the
/// origin, times the machine epsilon, times two.
pub fn hull_tolerance<K: RealOperations2D>(
    points: &[K::Point],
    first_point: usize,
    second_point: usize,
) -> (epsilon: K::RealField)
    requires
        first_point < points.len(),
        second_point < points.len(),
    ensures
        epsilon == hull_epsilon::<K>(points@, first_point as int, second_point as int),
{
    let distance = K::distance(&points[first_point], &points[second_point]);
    let one = K::RealField::one();
    let twice = one.plus(&one);
    let thrice = twice.plus(&one);
    let max_magnitude = distance.times(&thrice.sqrt()).max(&K::length(&points[first_point]));
    max_magnitude.times(&K::RealField::epsilon()).times(&twice)
}

/// The approximate hull of `points` and its mark, or the error for no points
/// or for a coordinate that is not valid.
#[verifier::rlimit(50)]
fn approximate_hull_of<K: RealOperations2D>(points: &[K::Point]) -> (r: Result<
    (Vec<usize>, bool),
    GeometryError,
>) where K::Field: FieldNumber, K::Point: Point2D<Scalar = K::Field>
    ensures
        points.len() == 0 ==> (r matches Err(e) && e is InputIsEmpty),
        points.len() > 0 && !all_valid(points@) ==> (r matches Err(e)
            && e is InputValueInvalidForField),
        points.len() > 0 && all_valid(points@) ==> (r matches Ok(hull) && hull.0@
            == approximate_hull::<K>(points@) && hull.1 == approximate_degenerate::<K>(points@)),
{
    if points.len() == 0 {
        return Err(GeometryError::InputIsEmpty);
    }
    let mut i: usize = 0;
    while i < points.len()
        invariant
            i <= points.len(),
            forall|j: int| 0 <= j < i ==> is_valid_point(#[trigger] points@[j]),
        decreases points.len() - i,
    {
        if !points[i].x().is_valid() || !points[i].y().is_valid() {
            return Err(GeometryError::InputValueInvalidForField);
        }
        i = i + 1;
    }
    if points.len() == 1 {
        let mut hull: Vec<usize> = Vec::new();
        hull.push(0);
        proof {
            assert(hull@ =~= seq![0usize]);
        }
        return Ok((hull, true));
    }
    let first_point = farthest_point::<K>(points, None);
    let second_point = farthest_point::<K>(points, Some(&points[first_point]));
    let distance = K::distance(&points[first_point], &points[second_point]);
    let one = K::RealField::one();
    let twice = one.plus(&one);
    let epsilon = hull_tolerance::<K>(points, first_point, second_point);
    let threshold = epsilon.times(&twice);
    if first_point == second_point || distance.less_than(&threshold) {
        let mut hull: Vec<usize> = Vec::new();
        hull.push(first_point);
        proof {
            assert(hull@ =~= seq![first_point]);
        }
        return Ok((hull, true));
    }
    let zero = K::RealField::zero();
    let mut candidates_left: Vec<usize> = Vec::new();
    let mut candidates_right: Vec<usize> = Vec::new();
    let mut i: usize = 0;
    while i < points.len()
        invariant
            i <= points.len(),
            first_point < points.len(),
            second_point < points.len(),
            zero == K::RealField::zero_value(),
            distance == K::distance_value(points@[first_point as int], points@[second_point as int]),
            epsilon == hull_epsilon::<K>(points@, first_point as int, second_point as int),
            threshold == epsilon.product(two::<K::RealField>()),
            forall|k: int|
                0 <= k < candidates_left.len() ==> #[trigger] candidates_left[k] < points.len(),
            forall|k: int|
                0 <= k < candidates_right.len() ==> #[trigger] candidates_right[k] < points.len(),
            candidates_left@ == side_candidates::<K>(
                points@,
                first_point as int,
                second_point as int,
                true,
                i as int,
            ),
            candidates_right@ == side_candidates::<K>(
                points@,
                first_point as int,
                second_point as int,
                false,
                i as int,
            ),
        decreases points.len() - i,
    {
        if i != first_point && i != second_point {
            let signed_area = cross_real::<K>(points, second_point, i, first_point);
            if threshold.less_than(&signed_area.abs().over(&distance)) {
                if zero.less_than(&signed_area) {
                    candidates_left.push(i);
                } else {
                    candidates_right.push(i);
                }
            }
        }
        i = i + 1;
    }
    let mut result: Vec<usize> = Vec::new();
    let degenerate = candidates_left.len() == 0 && candidates_right.len() == 0;
    quickhull_recursive::<K>(
        points,
        first_point,
        second_point,
        candidates_right,
        &epsilon,
        &mut result,
    );
    quickhull_recursive::<K>(
        points,
        second_point,
        first_point,
        candidates_left,
        &epsilon,
        &mut result,
    );
    Ok((result, degenerate))
}

/// The approximate hull of `points`, as indices into `points`,
/// counter-clockwise from the point farthest from the origin, and whether the
/// hull is degenerate: whether no point was found off the line through the
/// two anchors.
///
/// The anchors are the point farthest from the origin and the point farthest
/// from that one. A tolerance is derived from them; it decides which points
/// count as lying on a line.
pub fn convex_hull_impl<K: RealOperations2D>(points: &[K::Point]) -> (r: Result<
    (Vec<usize>, bool),
    GeometryError,
>) where K::Field: FieldNumber, K::Point: Point2D<Scalar = K::Field>
    ensures
        is_approximate_hull_result::<K>(points@, r),
{
    let count = points.len();
    let r = approximate_hull_of::<K>(points);
    proof {
        if count > 0 {
            lemma_approximate_hull_indices::<K>(points@);
            lemma_approximate_degenerate_is_small::<K>(points@);
        }
    }
    r
}

} // verus!
