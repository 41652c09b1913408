use vstd::prelude::*;
use crate::algorithms::convex_hull::approximate_model::anchors_coincide;
use crate::algorithms::convex_hull::approximate_model::approximate_degenerate;
use crate::algorithms::convex_hull::approximate_model::approximate_hull;
use crate::algorithms::convex_hull::approximate_model::first_anchor;
use crate::algorithms::convex_hull::approximate_model::hull_epsilon;
use crate::algorithms::convex_hull::approximate_model::is_approximate_hull_result;
use crate::algorithms::convex_hull::approximate_model::is_off_line;
use crate::algorithms::convex_hull::approximate_model::quickhull_corners;
use crate::algorithms::convex_hull::approximate_model::second_anchor;
use crate::algorithms::convex_hull::approximate_model::side_candidates;
use crate::algorithms::convex_hull::convexity::encloses;
use crate::algorithms::convex_hull::convexity::next_corner;
use crate::algorithms::convex_hull::convexity::on_the_left;
use crate::algorithms::convex_hull::exact_model::all_collinear;
use crate::algorithms::convex_hull::exact_model::exact_hull;
use crate::algorithms::convex_hull::exact_model::is_exact_hull_result;
use crate::algorithms::convex_hull::hull::inside_upto;
use crate::algorithms::convex_hull::hull_shape::is_index_list;
use crate::common::cycle::is_rotation;
use crate::common::cycle::lemma_rotated_index;
use crate::common::cycle::lemma_rotation_entries;
use crate::common::cycle::lemma_rotation_no_duplicates;
use crate::common::cycle::rotated;
use crate::common::error::GeometryError;
use crate::common::plane::Position;
use crate::common::plane::lemma_cross_trivial;
use crate::traits::kernel::ExactPredicates2D;
use crate::traits::kernel::RealOperations2D;
use crate::traits::number::FieldNumber;
use crate::traits::point2d::Point2D;

verus! {

/// The exact hull of a single point is that point, and it is degenerate.
pub proof fn lemma_exact_hull_of_one_point(pos: Seq<Position>, include_collinear: bool)
    requires
        pos.len() == 1,
    ensures
        exact_hull(pos, include_collinear) == seq![0usize],
        all_collinear(pos),
{
    lemma_cross_trivial(pos[0], pos[0]);
}

/// The approximate hull of a single point is that point, and it is
/// degenerate.
pub proof fn lemma_approximate_hull_of_one_point<K: RealOperations2D>(points: Seq<K::Point>) where
    K::Field: FieldNumber,

    requires
        points.len() == 1,
    ensures
        approximate_hull::<K>(points) == seq![0usize],
        approximate_degenerate::<K>(points),
{
}

/// The approximate hull of points of which none is found off the line
/// through the two anchors is the two anchors, and it is degenerate.
pub proof fn lemma_approximate_hull_on_a_line<K: RealOperations2D>(points: Seq<K::Point>) where
    K::Field: FieldNumber,

    requires
        2 <= points.len(),
        first_anchor::<K>(points) != second_anchor::<K>(points),
        !anchors_coincide::<K>(points, first_anchor::<K>(points), second_anchor::<K>(points)),
        forall|i: int|
            0 <= i < points.len() ==> !is_off_line::<K>(
                points,
                first_anchor::<K>(points),
                second_anchor::<K>(points),
                i,
            ),
    ensures
        approximate_hull::<K>(points) == seq![
            first_anchor::<K>(points) as usize,
            second_anchor::<K>(points) as usize,
        ],
        approximate_degenerate::<K>(points),
{
    let first = first_anchor::<K>(points);
    let second = second_anchor::<K>(points);
    lemma_no_side_candidates::<K>(points, first, second, true, points.len() as int);
    lemma_no_side_candidates::<K>(points, first, second, false, points.len() as int);
    let epsilon = hull_epsilon::<K>(points, first, second);
    let empty = Seq::<usize>::empty();
    assert(quickhull_corners::<K>(points, first, second, empty, epsilon) == seq![first as usize]);
    assert(quickhull_corners::<K>(points, second, first, empty, epsilon) == seq![second as usize]);
    assert(seq![first as usize] + seq![second as usize] =~= seq![first as usize, second as usize]);
}

/// Where no point is off the line through the anchors, neither side has a
/// candidate.
proof fn lemma_no_side_candidates<K: RealOperations2D>(
    points: Seq<K::Point>,
    first: int,
    second: int,
    left: bool,
    n: int,
)
    requires
        0 <= n <= points.len(),
        forall|i: int| 0 <= i < points.len() ==> !is_off_line::<K>(points, first, second, i),
    ensures
        side_candidates::<K>(points, first, second, left, n) == Seq::<usize>::empty(),
    decreases n,
{
    if n > 0 {
        lemma_no_side_candidates::<K>(points, first, second, left, n - 1);
    }
}

/// Two runs of the exact hull construction on the same points agree: both
/// fail for want of points, or both give the same indices in the same order
/// and the same mark.
pub proof fn lemma_exact_hull_repeats<K: ExactPredicates2D>(
    points: Seq<K::Point>,
    include_collinear: bool,
    first: Result<(Vec<usize>, bool), GeometryError>,
    second: Result<(Vec<usize>, bool), GeometryError>,
)
    requires
        is_exact_hull_result::<K>(points, include_collinear, first),
        is_exact_hull_result::<K>(points, include_collinear, second),
    ensures
        match (first, second) {
            (Ok(a), Ok(b)) => a.0@ == b.0@ && a.1 == b.1,
            (Err(a), Err(b)) => a is InputIsEmpty && b is InputIsEmpty,
            _ => false,
        },
{
}

/// Two runs of the approximate hull construction on the same points agree:
/// both fail in the same way, or both give the same indices in the same
/// order and the same mark.
pub proof fn lemma_approximate_hull_repeats<K: RealOperations2D>(
    points: Seq<K::Point>,
    first: Result<(Vec<usize>, bool), GeometryError>,
    second: Result<(Vec<usize>, bool), GeometryError>,
) where K::Field: FieldNumber, K::Point: Point2D<Scalar = K::Field>
    requires
        is_approximate_hull_result::<K>(points, first),
        is_approximate_hull_result::<K>(points, second),
    ensures
        match (first, second) {
            (Ok(a), Ok(b)) => a.0@ == b.0@ && a.1 == b.1,
            (Err(a), Err(b)) => (a is InputIsEmpty && b is InputIsEmpty) || (
            a is InputValueInvalidForField && b is InputValueInvalidForField),
            _ => false,
        },
{
}

/// A hull read from another starting corner is the same hull: it is a list
/// of the same indices without repetition, it leaves the same points inside,
/// and it encloses the points if the hull does.
pub proof fn lemma_hull_from_any_corner(pos: Seq<Position>, hull: Seq<usize>, other: Seq<usize>)
    requires
        is_rotation(hull, other),
        pos.len() <= usize::MAX,
    ensures
        is_index_list(hull, pos.len() as int) ==> is_index_list(other, pos.len() as int),
        inside_upto(hull, pos.len() as int) == inside_upto(other, pos.len() as int),
        encloses(pos, hull) ==> encloses(pos, other),
{
    let n = pos.len() as int;
    if hull.len() > 0 {
        let m = hull.len() as int;
        let k = choose|k: int| 0 <= k < hull.len() && #[trigger] rotated(hull, k) == other;
        if is_index_list(hull, n) {
            lemma_rotation_no_duplicates(hull, other);
            assert forall|i: int| 0 <= i < other.len() implies #[trigger] other[i] < n by {
                lemma_rotated_index(hull, k, i);
            }
        }
        if encloses(pos, hull) {
            assert forall|i: int, q: int| 0 <= i < other.len() && 0 <= q < pos.len() implies #[trigger] on_the_left(
                pos,
                other,
                i,
                q,
            ) by {
                let from = if k + i < m {
                    k + i
                } else {
                    k + i - m
                };
                assert(other[i] == hull[from]);
                assert(other[next_corner(i, m)] == hull[next_corner(from, m)]);
                assert(on_the_left(pos, hull, from, q));
            }
        }
    } else {
        assert(other =~= hull);
    }
    lemma_same_inside(hull, other, n);
}

/// The indices left inside depend only on which indices the hull holds.
proof fn lemma_same_inside(hull: Seq<usize>, other: Seq<usize>, n: int)
    requires
        is_rotation(hull, other),
    ensures
        inside_upto(hull, n) == inside_upto(other, n),
    decreases n,
{
    if n > 0 {
        lemma_same_inside(hull, other, n - 1);
        lemma_rotation_entries(hull, other, (n - 1) as usize);
    }
}

} // verus!
