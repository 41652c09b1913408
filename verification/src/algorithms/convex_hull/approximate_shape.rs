use vstd::prelude::*;
use crate::algorithms::convex_hull::approximate_model::anchors_coincide;
use crate::algorithms::convex_hull::approximate_model::approximate_degenerate;
use crate::algorithms::convex_hull::approximate_model::approximate_hull;
use crate::algorithms::convex_hull::approximate_model::farthest_candidate;
use crate::algorithms::convex_hull::approximate_model::farthest_from_origin;
use crate::algorithms::convex_hull::approximate_model::farthest_from_point;
use crate::algorithms::convex_hull::approximate_model::first_anchor;
use crate::algorithms::convex_hull::approximate_model::hull_epsilon;
use crate::algorithms::convex_hull::approximate_model::is_left_of_anchors;
use crate::algorithms::convex_hull::approximate_model::is_outside_right;
use crate::algorithms::convex_hull::approximate_model::left_part;
use crate::algorithms::convex_hull::approximate_model::lemma_farthest_is_candidate;
use crate::algorithms::convex_hull::approximate_model::lemma_parts;
use crate::algorithms::convex_hull::approximate_model::quickhull_corners;
use crate::algorithms::convex_hull::approximate_model::right_part;
use crate::algorithms::convex_hull::approximate_model::second_anchor;
use crate::algorithms::convex_hull::approximate_model::side_candidates;
use crate::algorithms::convex_hull::hull_shape::is_index_list;
use crate::traits::kernel::Operations2D;
use crate::traits::kernel::RealOperations2D;
use crate::traits::number::FieldNumber;

verus! {

/// The searches for the anchors stay in range.
pub proof fn lemma_anchor_in_range<K: Operations2D>(points: Seq<K::Point>, from: K::Point, n: int) where
    K::Field: FieldNumber,

    requires
        1 <= n,
    ensures
        0 <= farthest_from_origin::<K>(points, n) < n,
        0 <= farthest_from_point::<K>(points, from, n) < n,
    decreases n,
{
    if n > 1 {
        lemma_anchor_in_range::<K>(points, from, n - 1);
    }
}

/// The candidates on one side of the line through the anchors are indices
/// below `n`, in increasing order, of points that are neither anchor and lie
/// on that side.
pub proof fn lemma_side_candidates<K: RealOperations2D>(
    points: Seq<K::Point>,
    first: int,
    second: int,
    left: bool,
    n: int,
)
    requires
        0 <= n <= usize::MAX,
    ensures
        forall|k: int|
            0 <= k < side_candidates::<K>(points, first, second, left, n).len() ==> {
                let c = #[trigger] side_candidates::<K>(points, first, second, left, n)[k];
                c < n && c != first && c != second && is_left_of_anchors::<K>(
                    points,
                    first,
                    second,
                    c as int,
                ) == left
            },
        forall|i: int, j: int|
            0 <= i < j < side_candidates::<K>(points, first, second, left, n).len()
                ==> #[trigger] side_candidates::<K>(points, first, second, left, n)[i]
                < #[trigger] side_candidates::<K>(points, first, second, left, n)[j],
    decreases n,
{
    if n > 0 {
        lemma_side_candidates::<K>(points, first, second, left, n - 1);
        let rest = side_candidates::<K>(points, first, second, left, n - 1);
        let all = side_candidates::<K>(points, first, second, left, n);
        assert forall|k: int| 0 <= k < all.len() implies {
            let c = #[trigger] all[k];
            c < n && c != first && c != second && is_left_of_anchors::<K>(
                points,
                first,
                second,
                c as int,
            ) == left
        } by {
            if k < rest.len() {
                assert(all[k] == rest[k]);
            }
        }
        assert forall|i: int, j: int| 0 <= i < j < all.len() implies #[trigger] all[i]
            < #[trigger] all[j] by {
            assert(all[i] == rest[i]);
            if j < rest.len() {
                assert(all[j] == rest[j]);
            }
        }
    }
}

/// The entries of the right part are candidates outside the right edge, and
/// none occurs twice if no candidate does.
pub proof fn lemma_right_part<K: RealOperations2D>(
    points: Seq<K::Point>,
    right: int,
    far: usize,
    epsilon: K::RealField,
    candidates: Seq<usize>,
)
    requires
        candidates.no_duplicates(),
    ensures
        forall|k: int|
            0 <= k < right_part::<K>(points, right, far, epsilon, candidates).len() ==> {
                let c = #[trigger] right_part::<K>(points, right, far, epsilon, candidates)[k];
                candidates.contains(c) && c != far && is_outside_right::<K>(
                    points,
                    right,
                    far,
                    epsilon,
                    c,
                )
            },
        right_part::<K>(points, right, far, epsilon, candidates).no_duplicates(),
    decreases candidates.len(),
{
    if candidates.len() > 0 {
        let front = candidates.drop_last();
        let last = candidates.last();
        lemma_right_part::<K>(points, right, far, epsilon, front);
        let rest = right_part::<K>(points, right, far, epsilon, front);
        let part = right_part::<K>(points, right, far, epsilon, candidates);
        assert forall|k: int| 0 <= k < rest.len() implies candidates.contains(#[trigger] rest[k])
            && rest[k] != last by {
            let at = choose|at: int| 0 <= at < front.len() && front[at] == rest[k];
            assert(candidates[at] == rest[k]);
        }
        assert(candidates[candidates.len() - 1] == last);
        assert forall|k: int| 0 <= k < part.len() implies {
            let c = #[trigger] part[k];
            candidates.contains(c) && c != far && is_outside_right::<K>(
                points,
                right,
                far,
                epsilon,
                c,
            )
        } by {
            if k < rest.len() {
                assert(part[k] == rest[k]);
            }
        }
    }
}

/// The entries of the left part are candidates that are not outside the
/// right edge, and none occurs twice if no candidate does.
pub proof fn lemma_left_part<K: RealOperations2D>(
    points: Seq<K::Point>,
    right: int,
    left: int,
    far: usize,
    epsilon: K::RealField,
    candidates: Seq<usize>,
)
    requires
        candidates.no_duplicates(),
    ensures
        forall|k: int|
            0 <= k < left_part::<K>(points, right, left, far, epsilon, candidates).len() ==> {
                let c = #[trigger] left_part::<K>(points, right, left, far, epsilon, candidates)[k];
                candidates.contains(c) && c != far && !is_outside_right::<K>(
                    points,
                    right,
                    far,
                    epsilon,
                    c,
                )
            },
        left_part::<K>(points, right, left, far, epsilon, candidates).no_duplicates(),
    decreases candidates.len(),
{
    if candidates.len() > 0 {
        let front = candidates.drop_last();
        let last = candidates.last();
        lemma_left_part::<K>(points, right, left, far, epsilon, front);
        let rest = left_part::<K>(points, right, left, far, epsilon, front);
        let part = left_part::<K>(points, right, left, far, epsilon, candidates);
        assert forall|k: int| 0 <= k < rest.len() implies candidates.contains(#[trigger] rest[k])
            && rest[k] != last by {
            let at = choose|at: int| 0 <= at < front.len() && front[at] == rest[k];
            assert(candidates[at] == rest[k]);
        }
        assert(candidates[candidates.len() - 1] == last);
        assert forall|k: int| 0 <= k < part.len() implies {
            let c = #[trigger] part[k];
            candidates.contains(c) && c != far && !is_outside_right::<K>(
                points,
                right,
                far,
                epsilon,
                c,
            )
        } by {
            if k < rest.len() {
                assert(part[k] == rest[k]);
            }
        }
    }
}

/// The corners outside an edge start with its right end; the others are
/// candidates, and none occurs twice.
#[verifier::rlimit(50)]
pub proof fn lemma_corners<K: RealOperations2D>(
    points: Seq<K::Point>,
    right: int,
    left: int,
    candidates: Seq<usize>,
    epsilon: K::RealField,
)
    requires
        0 <= right <= usize::MAX,
        candidates.no_duplicates(),
        !candidates.contains(right as usize),
    ensures
        quickhull_corners::<K>(points, right, left, candidates, epsilon).len() >= 1,
        quickhull_corners::<K>(points, right, left, candidates, epsilon)[0] == right,
        forall|k: int|
            1 <= k < quickhull_corners::<K>(points, right, left, candidates, epsilon).len()
                ==> candidates.contains(
                #[trigger] quickhull_corners::<K>(points, right, left, candidates, epsilon)[k],
            ),
        quickhull_corners::<K>(points, right, left, candidates, epsilon).no_duplicates(),
    decreases candidates.len(),
{
    if candidates.len() > 0 {
        let far = farthest_candidate::<K>(points, right, left, candidates, epsilon);
        lemma_farthest_is_candidate::<K>(points, right, left, candidates, epsilon);
        lemma_parts::<K>(points, right, left, far, epsilon, candidates);
        lemma_right_part::<K>(points, right, far, epsilon, candidates);
        lemma_left_part::<K>(points, right, left, far, epsilon, candidates);
        let r = right_part::<K>(points, right, far, epsilon, candidates);
        let l = left_part::<K>(points, right, left, far, epsilon, candidates);
        assert(!r.contains(right as usize)) by {
            if r.contains(right as usize) {
                let at = choose|at: int| 0 <= at < r.len() && r[at] == right as usize;
                assert(candidates.contains(r[at]));
            }
        }
        assert(!l.contains(far)) by {
            if l.contains(far) {
                let at = choose|at: int| 0 <= at < l.len() && l[at] == far;
            }
        }
        lemma_corners::<K>(points, right, far as int, r, epsilon);
        lemma_corners::<K>(points, far as int, left, l, epsilon);
        let a = quickhull_corners::<K>(points, right, far as int, r, epsilon);
        let b = quickhull_corners::<K>(points, far as int, left, l, epsilon);
        let all = a + b;
        assert forall|k: int| 1 <= k < all.len() implies candidates.contains(
            #[trigger] all[k],
        ) by {
            if k < a.len() {
                assert(all[k] == a[k]);
                let at = choose|at: int| 0 <= at < r.len() && r[at] == a[k];
            } else if k == a.len() {
                assert(all[k] == b[0]);
            } else {
                assert(all[k] == b[k - a.len()]);
                let at = choose|at: int| 0 <= at < l.len() && l[at] == b[k - a.len()];
            }
        }
        assert forall|i: int, j: int| 0 <= i < all.len() && 0 <= j < all.len() && i != j implies all[i]
            != all[j] by {
            if i < a.len() && j < a.len() {
            } else if i >= a.len() && j >= a.len() {
                assert(all[i] == b[i - a.len()]);
                assert(all[j] == b[j - a.len()]);
            } else {
                let (x, y) = if i < a.len() {
                    (i, j - a.len())
                } else {
                    (j, i - a.len())
                };
                assert(a[x] != b[y]) by {
                    if x >= 1 {
                        let at = choose|at: int| 0 <= at < r.len() && r[at] == a[x];
                        assert(is_outside_right::<K>(points, right, far, epsilon, r[at]));
                    }
                    if y >= 1 {
                        let at = choose|at: int| 0 <= at < l.len() && l[at] == b[y];
                        assert(!is_outside_right::<K>(points, right, far, epsilon, l[at]));
                        assert(candidates.contains(l[at]));
                    }
                }
            }
        }
    }
}

/// The approximate hull of a non-empty sequence of points is a list of
/// indices into it, without repetition, that starts with the first anchor.
#[verifier::rlimit(50)]
pub proof fn lemma_approximate_hull_indices<K: RealOperations2D>(points: Seq<K::Point>) where
    K::Field: FieldNumber,

    requires
        1 <= points.len() <= usize::MAX,
    ensures
        is_index_list(approximate_hull::<K>(points), points.len() as int),
        approximate_hull::<K>(points)[0] == first_anchor::<K>(points),
{
    let n = points.len() as int;
    lemma_anchor_in_range::<K>(points, points[0], n);
    let first = first_anchor::<K>(points);
    lemma_anchor_in_range::<K>(points, points[first], n);
    let second = second_anchor::<K>(points);
    let hull = approximate_hull::<K>(points);
    if n > 1 && first != second && !anchors_coincide::<K>(points, first, second) {
        let epsilon = hull_epsilon::<K>(points, first, second);
        let r = side_candidates::<K>(points, first, second, false, n);
        let l = side_candidates::<K>(points, first, second, true, n);
        lemma_side_candidates::<K>(points, first, second, false, n);
        lemma_side_candidates::<K>(points, first, second, true, n);
        assert(!r.contains(first as usize)) by {
            if r.contains(first as usize) {
                let at = choose|at: int| 0 <= at < r.len() && r[at] == first as usize;
            }
        }
        assert(!l.contains(second as usize)) by {
            if l.contains(second as usize) {
                let at = choose|at: int| 0 <= at < l.len() && l[at] == second as usize;
            }
        }
        lemma_corners::<K>(points, first, second, r, epsilon);
        lemma_corners::<K>(points, second, first, l, epsilon);
        let a = quickhull_corners::<K>(points, first, second, r, epsilon);
        let b = quickhull_corners::<K>(points, second, first, l, epsilon);
        assert(hull == a + b);
        assert forall|i: int| 0 <= i < hull.len() implies #[trigger] hull[i] < n by {
            if 1 <= i < a.len() {
                let at = choose|at: int| 0 <= at < r.len() && r[at] == a[i];
            } else if i > a.len() {
                assert(hull[i] == b[i - a.len()]);
                let at = choose|at: int| 0 <= at < l.len() && l[at] == b[i - a.len()];
            } else if i == a.len() {
                assert(hull[i] == b[0]);
            }
        }
        assert forall|i: int, j: int| 0 <= i < hull.len() && 0 <= j < hull.len() && i != j implies hull[i]
            != hull[j] by {
            if i < a.len() && j < a.len() {
            } else if i >= a.len() && j >= a.len() {
                assert(hull[i] == b[i - a.len()]);
                assert(hull[j] == b[j - a.len()]);
            } else {
                let (x, y) = if i < a.len() {
                    (i, j - a.len())
                } else {
                    (j, i - a.len())
                };
                assert(a[x] != b[y]) by {
                    if x >= 1 {
                        let at = choose|at: int| 0 <= at < r.len() && r[at] == a[x];
                        assert(!is_left_of_anchors::<K>(points, first, second, r[at] as int));
                    }
                    if y >= 1 {
                        let at = choose|at: int| 0 <= at < l.len() && l[at] == b[y];
                        assert(is_left_of_anchors::<K>(points, first, second, l[at] as int));
                    }
                }
            }
        }
    }
}

/// The corners outside an edge are one if no candidate lies outside it, and
/// two or more else.
pub proof fn lemma_corners_count<K: RealOperations2D>(
    points: Seq<K::Point>,
    right: int,
    left: int,
    candidates: Seq<usize>,
    epsilon: K::RealField,
)
    ensures
        quickhull_corners::<K>(points, right, left, candidates, epsilon).len() >= 1,
        candidates.len() > 0 ==> quickhull_corners::<K>(
            points,
            right,
            left,
            candidates,
            epsilon,
        ).len() >= 2,
        candidates.len() == 0 ==> quickhull_corners::<K>(
            points,
            right,
            left,
            candidates,
            epsilon,
        ).len() == 1,
    decreases candidates.len(),
{
    if candidates.len() > 0 {
        let far = farthest_candidate::<K>(points, right, left, candidates, epsilon);
        lemma_farthest_is_candidate::<K>(points, right, left, candidates, epsilon);
        lemma_parts::<K>(points, right, left, far, epsilon, candidates);
        lemma_corners_count::<K>(
            points,
            right,
            far as int,
            right_part::<K>(points, right, far, epsilon, candidates),
            epsilon,
        );
        lemma_corners_count::<K>(
            points,
            far as int,
            left,
            left_part::<K>(points, right, left, far, epsilon, candidates),
            epsilon,
        );
    }
}

/// The approximate hull is degenerate exactly if it has less than three
/// corners.
pub proof fn lemma_approximate_degenerate_is_small<K: RealOperations2D>(points: Seq<K::Point>) where
    K::Field: FieldNumber,

    requires
        1 <= points.len(),
    ensures
        approximate_degenerate::<K>(points) <==> approximate_hull::<K>(points).len() < 3,
{
    let n = points.len() as int;
    let first = first_anchor::<K>(points);
    let second = second_anchor::<K>(points);
    if n > 1 && first != second && !anchors_coincide::<K>(points, first, second) {
        let epsilon = hull_epsilon::<K>(points, first, second);
        let r = side_candidates::<K>(points, first, second, false, n);
        let l = side_candidates::<K>(points, first, second, true, n);
        lemma_corners_count::<K>(points, first, second, r, epsilon);
        lemma_corners_count::<K>(points, second, first, l, epsilon);
    }
}

} // verus!
