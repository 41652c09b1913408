use vstd::prelude::*;
use crate::algorithms::convex_hull::boundary::holds_all_points;
use crate::algorithms::convex_hull::closing::no_corner_between;
use crate::algorithms::convex_hull::closing::turns_left;
use crate::algorithms::convex_hull::convexity::encloses;
use crate::algorithms::convex_hull::convexity::places_differ;
use crate::algorithms::convex_hull::convexity::runs_around;
use crate::algorithms::convex_hull::hull_shape::is_index_list;
use crate::algorithms::convex_hull::kept_boundary::holds_boundary;
use crate::common::error::GeometryError;
use crate::common::orientation::Comparison;
use crate::common::orientation::Orientation2D;
use crate::common::plane::Position;
use crate::common::plane::closer_of;
use crate::common::plane::cross_of;
use crate::common::plane::dist_sqr_of;
use crate::common::plane::turn_of;
use crate::traits::kernel::ExactPredicates2D;

verus! {

/// The positions of a sequence of points, in the same order.
pub open spec fn positions<K: ExactPredicates2D>(points: Seq<K::Point>) -> Seq<Position> {
    Seq::new(points.len(), |i: int| K::position(points[i]))
}

/// `far` is the first index whose point is at the greatest distance from the
/// point at `from`.
pub open spec fn is_farthest_from(pos: Seq<Position>, from: int, far: int) -> bool {
    &&& 0 <= far < pos.len()
    &&& forall|j: int|
        0 <= j < pos.len() ==> dist_sqr_of(#[trigger] pos[j], pos[from]) <= dist_sqr_of(
            pos[far],
            pos[from],
        )
    &&& forall|j: int|
        0 <= j < far ==> dist_sqr_of(#[trigger] pos[j], pos[from]) < dist_sqr_of(
            pos[far],
            pos[from],
        )
}

/// The first index, among the first `n`, whose point is at the greatest
/// distance from the point at `from`.
pub open spec fn farthest_upto(pos: Seq<Position>, from: int, n: int) -> int
    decreases n,
{
    if n <= 1 {
        0
    } else {
        let far = farthest_upto(pos, from, n - 1);
        if dist_sqr_of(pos[far], pos[from]) < dist_sqr_of(pos[n - 1], pos[from]) {
            n - 1
        } else {
            far
        }
    }
}

/// The first index whose point is at the greatest distance from the point at
/// `from`.
pub open spec fn farthest_from(pos: Seq<Position>, from: int) -> int {
    farthest_upto(pos, from, pos.len() as int)
}

/// Whether a scan for the extreme point moves on from a point to the next,
/// given the turn that the two make with the point looked from.
pub open spec fn moves_extreme(turn: Orientation2D, rightmost: bool) -> bool {
    (turn == Orientation2D::Clockwise && rightmost) || (turn == Orientation2D::CounterClockwise
        && !rightmost)
}

/// The index that a scan of the first `n` points for the extreme one, seen
/// from the point at `from`, ends with: it starts at index 0 and moves on
/// whenever the next point lies strictly to the right of the current one
/// (`rightmost`) or strictly to the left.
pub open spec fn extreme_upto(pos: Seq<Position>, from: int, rightmost: bool, n: int) -> int
    decreases n,
{
    if n <= 1 {
        0
    } else {
        let e = extreme_upto(pos, from, rightmost, n - 1);
        if moves_extreme(turn_of(pos[e], pos[n - 1], pos[from]), rightmost) {
            n - 1
        } else {
            e
        }
    }
}

/// The extreme point seen from the point at `from`.
pub open spec fn extreme_from(pos: Seq<Position>, from: int, rightmost: bool) -> int {
    extreme_upto(pos, from, rightmost, pos.len() as int)
}

/// The indices below `n`, in increasing order, of the points that do not lie
/// where the pivot lies.
pub open spec fn candidates_upto(pos: Seq<Position>, pivot: int, n: int) -> Seq<usize>
    decreases n,
{
    if n <= 0 {
        Seq::empty()
    } else {
        let rest = candidates_upto(pos, pivot, n - 1);
        if pos[n - 1] != pos[pivot] {
            rest.push((n - 1) as usize)
        } else {
            rest
        }
    }
}

/// The indices, in increasing order, of the points that do not lie where the
/// pivot lies.
pub open spec fn candidates_of(pos: Seq<Position>, pivot: int) -> Seq<usize> {
    candidates_upto(pos, pivot, pos.len() as int)
}

/// The order of two candidates around the pivot: counter-clockwise by angle;
/// on one ray from the pivot by distance, nearer first on the ray of the
/// rightmost point and farther first on every other ray.
pub open spec fn candidate_order(
    pos: Seq<Position>,
    pivot: int,
    rightmost: int,
    a: int,
    b: int,
) -> Comparison {
    match turn_of(pos[a], pos[b], pos[pivot]) {
        Orientation2D::CounterClockwise => Comparison::Less,
        Orientation2D::Clockwise => Comparison::Greater,
        Orientation2D::Collinear => {
            if turn_of(pos[a], pos[rightmost], pos[pivot]) == Orientation2D::Collinear {
                closer_of(pos[a], pos[b], pos[pivot])
            } else {
                closer_of(pos[b], pos[a], pos[pivot])
            }
        },
    }
}

/// The stable merge of two sequences of candidates by `candidate_order`.
pub open spec fn merged(
    pos: Seq<Position>,
    pivot: int,
    rightmost: int,
    left: Seq<usize>,
    right: Seq<usize>,
) -> Seq<usize>
    decreases left.len() + right.len(),
{
    if left.len() == 0 {
        right
    } else if right.len() == 0 {
        left
    } else if candidate_order(pos, pivot, rightmost, right[0] as int, left[0] as int)
        == Comparison::Less {
        seq![right[0]] + merged(pos, pivot, rightmost, left, right.drop_first())
    } else {
        seq![left[0]] + merged(pos, pivot, rightmost, left.drop_first(), right)
    }
}

/// The candidates in `candidate_order`, those that compare equal in the order
/// in which they came.
pub open spec fn sorted_candidates(
    pos: Seq<Position>,
    pivot: int,
    rightmost: int,
    candidates: Seq<usize>,
) -> Seq<usize>
    decreases candidates.len(),
{
    if candidates.len() <= 1 {
        candidates
    } else {
        let mid = candidates.len() as int / 2;
        merged(
            pos,
            pivot,
            rightmost,
            sorted_candidates(pos, pivot, rightmost, candidates.subrange(0, mid)),
            sorted_candidates(
                pos,
                pivot,
                rightmost,
                candidates.subrange(mid, candidates.len() as int),
            ),
        )
    }
}

/// Whether the scan keeps the top of the stack when the next candidate makes
/// this turn with the two topmost entries.
pub open spec fn keeps_top(turn: Orientation2D, include_collinear: bool) -> bool {
    turn == Orientation2D::CounterClockwise || (turn == Orientation2D::Collinear
        && include_collinear)
}

/// The stack after candidate `c` has been pushed: entries are taken off the
/// top while the two topmost do not turn counter-clockwise towards `c` (or, if
/// collinear points are to stay, turn clockwise), but never the first one.
pub open spec fn scan_push(
    pos: Seq<Position>,
    stack: Seq<usize>,
    c: usize,
    include_collinear: bool,
) -> Seq<usize>
    decreases stack.len(),
{
    if stack.len() < 2 {
        stack.push(c)
    } else {
        let last = stack[stack.len() - 1];
        let prev = stack[stack.len() - 2];
        if keeps_top(turn_of(pos[last as int], pos[c as int], pos[prev as int]), include_collinear) {
            stack.push(c)
        } else {
            scan_push(pos, stack.drop_last(), c, include_collinear)
        }
    }
}

/// The stack after candidate `c` has been looked at: a candidate that lies
/// where the top of the stack lies is passed over.
pub open spec fn scan_step(
    pos: Seq<Position>,
    stack: Seq<usize>,
    c: usize,
    include_collinear: bool,
) -> Seq<usize> {
    if pos[c as int] == pos[stack.last() as int] {
        stack
    } else {
        scan_push(pos, stack, c, include_collinear)
    }
}

/// The stack after the first `n` candidates of `order` have been looked at,
/// starting from the pivot and the first candidate.
pub open spec fn scan_upto(
    pos: Seq<Position>,
    pivot: int,
    order: Seq<usize>,
    include_collinear: bool,
    n: int,
) -> Seq<usize>
    decreases n,
{
    if n <= 0 {
        seq![pivot as usize, order[0]]
    } else {
        scan_step(
            pos,
            scan_upto(pos, pivot, order, include_collinear, n - 1),
            order[n - 1],
            include_collinear,
        )
    }
}

/// Every three of the points lie on one line.
pub open spec fn all_collinear(pos: Seq<Position>) -> bool {
    forall|i: int, j: int, k: int|
        0 <= i < pos.len() && 0 <= j < pos.len() && 0 <= k < pos.len() ==> #[trigger] cross_of(
            pos[i],
            pos[j],
            pos[k],
        ) == 0
}

/// The stack that the scan of a non-empty sequence of positions ends with.
///
/// The pivot is the point farthest from the first point. If every point lies
/// where the pivot lies, it is all there is. Otherwise the other points are
/// ordered around the pivot by `candidate_order` and scanned with a stack.
pub open spec fn scanned_hull(pos: Seq<Position>, include_collinear: bool) -> Seq<usize> {
    if pos.len() == 1 {
        seq![0usize]
    } else {
        let pivot = farthest_from(pos, 0);
        let second = farthest_from(pos, pivot);
        if pos[pivot] == pos[second] {
            seq![pivot as usize]
        } else {
            let rightmost = extreme_from(pos, pivot, true);
            let order = sorted_candidates(pos, pivot, rightmost, candidates_of(pos, pivot));
            scan_upto(pos, pivot, order, include_collinear, order.len() as int)
        }
    }
}

/// The stack without the entries at its top that lie on the line from the
/// entry below them to the first entry: they lie on the edge that closes the
/// walk, and are no corners. Three entries stay at least, if there are as
/// many.
pub open spec fn close_up(pos: Seq<Position>, stack: Seq<usize>) -> Seq<usize>
    decreases stack.len(),
{
    if stack.len() >= 3 && turn_of(
        pos[stack[stack.len() - 2] as int],
        pos[stack[stack.len() - 1] as int],
        pos[stack[0] as int],
    ) == Orientation2D::Collinear {
        close_up(pos, stack.drop_last())
    } else {
        stack
    }
}

/// The boundary of the convex hull of a non-empty sequence of positions, as
/// indices into it, counter-clockwise from the pivot: what the scan ends
/// with, closed up unless collinear points are to stay.
pub open spec fn exact_hull(pos: Seq<Position>, include_collinear: bool) -> Seq<usize> {
    if include_collinear {
        scanned_hull(pos, true)
    } else {
        close_up(pos, scanned_hull(pos, false))
    }
}

/// The hull is the exact hull of the positions, marked as it should be:
///
/// - it is what the scan of the ordered candidates gives, closed up unless
///   collinear points are kept;
/// - it is marked degenerate exactly if all points lie on one line;
/// - it is a list of indices of points, none twice, and no two of its
///   corners lie at one place;
/// - seen from its first corner, the other corners follow one another
///   counter-clockwise;
/// - no point lies outside it;
/// - unless it is degenerate, it has three corners or more, every point lies
///   on its boundary or strictly inside it, and at every corner, the first
///   and the last among them, it turns counter-clockwise, or goes straight on
///   if collinear points are kept;
/// - if it is degenerate and collinear points are not kept, it has two
///   corners at most; if it is not degenerate and collinear points are not
///   kept, none of its corners lies on the segment between two others;
/// - if collinear points are kept, every point on its boundary lies where a
///   corner lies.
pub open spec fn is_exact_hull_of(
    pos: Seq<Position>,
    include_collinear: bool,
    hull: Seq<usize>,
    degenerate: bool,
) -> bool {
    &&& hull == exact_hull(pos, include_collinear)
    &&& degenerate == all_collinear(pos)
    &&& is_index_list(hull, pos.len() as int)
    &&& places_differ(pos, hull)
    &&& runs_around(pos, hull)
    &&& encloses(pos, hull)
    &&& (degenerate || (hull.len() >= 3 && holds_all_points(pos, hull) && turns_left(
        pos,
        hull,
        include_collinear,
    )))
    &&& (degenerate && !include_collinear ==> hull.len() <= 2)
    &&& (!degenerate && !include_collinear ==> no_corner_between(pos, hull))
    &&& (include_collinear ==> holds_boundary(pos, hull))
}

/// What the exact hull construction returns for these points: an error for
/// no points, and else their exact hull with its mark.
pub open spec fn is_exact_hull_result<K: ExactPredicates2D>(
    points: Seq<K::Point>,
    include_collinear: bool,
    r: Result<(Vec<usize>, bool), GeometryError>,
) -> bool {
    if points.len() == 0 {
        r matches Err(e) && e is InputIsEmpty
    } else {
        r matches Ok(hull) && is_exact_hull_of(
            positions::<K>(points),
            include_collinear,
            hull.0@,
            hull.1,
        )
    }
}

} // verus!
