use vstd::prelude::*;
use crate::algorithms::convex_hull::boundary::holds_all_points;
use crate::algorithms::convex_hull::boundary::is_proper_hull;
use crate::algorithms::convex_hull::boundary::lemma_corner_opens;
use crate::algorithms::convex_hull::boundary::lemma_inside_or_on_boundary;
use crate::algorithms::convex_hull::boundary::on_boundary;
use crate::algorithms::convex_hull::boundary::prev_corner;
use crate::algorithms::convex_hull::boundary::strictly_inside;
use crate::algorithms::convex_hull::collinear_hull::holds_position;
use crate::algorithms::convex_hull::collinear_hull::lemma_scanned_hull_on_a_line;
use crate::algorithms::convex_hull::collinear_hull::lemma_scanned_line_is_small;
use crate::algorithms::convex_hull::convexity::encloses;
use crate::algorithms::convex_hull::convexity::lemma_scanned_hull_encloses;
use crate::algorithms::convex_hull::convexity::lemma_scanned_hull_places_differ;
use crate::algorithms::convex_hull::convexity::lemma_scanned_hull_runs_around;
use crate::algorithms::convex_hull::convexity::next_corner;
use crate::algorithms::convex_hull::convexity::on_the_left;
use crate::algorithms::convex_hull::convexity::places_differ;
use crate::algorithms::convex_hull::convexity::runs_around;
use crate::algorithms::convex_hull::exact_model::all_collinear;
use crate::algorithms::convex_hull::exact_model::close_up;
use crate::algorithms::convex_hull::exact_model::exact_hull;
use crate::algorithms::convex_hull::exact_model::farthest_from;
use crate::algorithms::convex_hull::exact_model::keeps_top;
use crate::algorithms::convex_hull::exact_model::scanned_hull;
use crate::algorithms::convex_hull::hull_shape::corner_turn;
use crate::algorithms::convex_hull::hull_shape::is_index_list;
use crate::algorithms::convex_hull::hull_shape::lemma_scanned_hull_indices;
use crate::algorithms::convex_hull::hull_shape::lemma_scanned_hull_turns;
use crate::algorithms::convex_hull::kept_boundary::holds_boundary;
use crate::algorithms::convex_hull::kept_boundary::lemma_scanned_hull_holds_boundary;
use crate::algorithms::convex_hull::wedge::all_coincide;
use crate::algorithms::convex_hull::wedge::lemma_farthest_upto;
use crate::algorithms::convex_hull::wedge::lemma_line_through;
use crate::algorithms::convex_hull::wedge::lemma_pivot_faces;
use crate::common::orientation::Orientation2D;
use crate::common::plane::Position;
use crate::common::plane::cross_of;
use crate::common::plane::dot_of;
use crate::common::plane::is_between;
use crate::common::plane::lemma_between_left;
use crate::common::plane::lemma_between_symmetric;
use crate::common::plane::lemma_cross_rotate;
use crate::common::plane::lemma_cross_swap;
use crate::common::plane::lemma_dot_self;
use crate::common::plane::lemma_lines_meet;
use crate::common::plane::lemma_same_ray;
use crate::common::plane::turn_of;

verus! {

/// The turn at corner `i` of the hull, taken as a closed walk: the turn that
/// the corner before it, the corner itself and the corner after it make.
pub open spec fn closed_turn(pos: Seq<Position>, hull: Seq<usize>, i: int) -> Orientation2D {
    turn_of(
        pos[hull[prev_corner(i, hull.len() as int)] as int],
        pos[hull[i] as int],
        pos[hull[next_corner(i, hull.len() as int)] as int],
    )
}

/// At every corner of the hull, taken as a closed walk, the hull turns
/// counter-clockwise, or, if collinear points are kept, goes straight on.
pub open spec fn turns_left(pos: Seq<Position>, hull: Seq<usize>, include_collinear: bool) -> bool {
    forall|i: int|
        0 <= i < hull.len() ==> keeps_top(#[trigger] closed_turn(pos, hull, i), include_collinear)
}

/// Closing up leaves a part of the stack, from the bottom up: all of a stack
/// of less than three entries, and two entries at least, and three at least
/// only if the top of them is no longer in line with the entry below it and
/// the first.
pub proof fn lemma_close_up_shape(pos: Seq<Position>, stack: Seq<usize>) -> (kept: int)
    requires
        stack.len() >= 1,
    ensures
        1 <= kept <= stack.len(),
        close_up(pos, stack) == stack.take(kept),
        stack.len() >= 2 ==> kept >= 2,
        stack.len() < 3 ==> kept == stack.len(),
        kept >= 3 ==> turn_of(
            pos[stack[kept - 2] as int],
            pos[stack[kept - 1] as int],
            pos[stack[0] as int],
        ) != Orientation2D::Collinear,
    decreases stack.len(),
{
    if stack.len() >= 3 && turn_of(
        pos[stack[stack.len() - 2] as int],
        pos[stack[stack.len() - 1] as int],
        pos[stack[0] as int],
    ) == Orientation2D::Collinear {
        let kept = lemma_close_up_shape(pos, stack.drop_last());
        assert(stack.drop_last().take(kept) =~= stack.take(kept));
        kept
    } else {
        assert(stack.take(stack.len() as int) =~= stack);
        stack.len() as int
    }
}

/// Taking the top off a proper hull, where the top lies in line with the
/// entry below it and the first, leaves a proper hull.
#[verifier::rlimit(50)]
proof fn lemma_top_off(pos: Seq<Position>, stack: Seq<usize>)
    requires
        is_proper_hull(pos, stack),
        stack.len() >= 3,
        cross_of(
            pos[stack[stack.len() - 2] as int],
            pos[stack[stack.len() - 1] as int],
            pos[stack[0] as int],
        ) == 0,
    ensures
        is_proper_hull(pos, stack.drop_last()),
{
    let m = stack.len() as int;
    let shorter = stack.drop_last();
    let b = pos[stack[m - 2] as int];
    let t = pos[stack[m - 1] as int];
    let p = pos[stack[0] as int];
    lemma_corner_opens(pos, stack, m - 2);
    assert(pos[stack[m - 2] as int] != pos[stack[next_corner(m - 2, m)] as int]);
    assert(pos[stack[m - 1] as int] != pos[stack[next_corner(m - 1, m)] as int]);
    // the top lies between the entry below it and the first
    lemma_cross_rotate(b, t, p);
    lemma_cross_rotate(t, p, b);
    lemma_cross_swap(p, b, t);
    assert(dot_of(p, b, t) == dot_of(b, p, t)) by (nonlinear_arith)
        requires
            dot_of(p, b, t) == (p.x - t.x) * (b.x - t.x) + (p.y - t.y) * (b.y - t.y),
            dot_of(b, p, t) == (b.x - t.x) * (p.x - t.x) + (b.y - t.y) * (p.y - t.y),
    ;
    assert(is_between(p, b, t));
    if b == p {
        lemma_dot_self(p, t);
    }
    assert forall|i: int| 0 <= i < shorter.len() implies pos[#[trigger] shorter[i] as int] != pos[shorter[next_corner(
        i,
        shorter.len() as int,
    )] as int] by {
        assert(shorter[i] == stack[i]);
        if i < m - 2 {
            assert(pos[stack[i] as int] != pos[stack[next_corner(i, m)] as int]);
        }
    }
    assert forall|i: int, q: int|
        0 <= i < shorter.len() && 0 <= q < pos.len() implies #[trigger] on_the_left(
        pos,
        shorter,
        i,
        q,
    ) by {
        assert(on_the_left(pos, stack, i, q));
        if i == m - 2 {
            lemma_between_left(p, b, t, pos[q]);
            lemma_cross_rotate(b, t, pos[q]);
            lemma_cross_swap(t, pos[q], b);
            lemma_cross_swap(p, pos[q], b);
            lemma_cross_rotate(b, p, pos[q]);
        }
    }
    assert forall|i: int| 0 <= i < shorter.len() implies #[trigger] shorter[i] < pos.len() by {
        assert(shorter[i] == stack[i]);
    }
}

/// Closing up a proper hull leaves a proper hull.
pub proof fn lemma_close_up_proper(pos: Seq<Position>, stack: Seq<usize>)
    requires
        is_proper_hull(pos, stack),
    ensures
        is_proper_hull(pos, close_up(pos, stack)),
    decreases stack.len(),
{
    if stack.len() >= 3 && turn_of(
        pos[stack[stack.len() - 2] as int],
        pos[stack[stack.len() - 1] as int],
        pos[stack[0] as int],
    ) == Orientation2D::Collinear {
        lemma_top_off(pos, stack);
        lemma_close_up_proper(pos, stack.drop_last());
    }
}

/// The exact hull is the part of the stack of the scan that closing up
/// leaves: all of it where collinear points are kept.
pub proof fn lemma_exact_hull_shape(pos: Seq<Position>, include_collinear: bool) -> (kept: int)
    requires
        1 <= pos.len() <= usize::MAX,
    ensures
        1 <= kept <= scanned_hull(pos, include_collinear).len(),
        exact_hull(pos, include_collinear) == scanned_hull(pos, include_collinear).take(kept),
        scanned_hull(pos, include_collinear).len() >= 2 ==> kept >= 2,
        include_collinear || scanned_hull(pos, include_collinear).len() < 3 ==> kept
            == scanned_hull(pos, include_collinear).len(),
        kept >= 3 && !include_collinear ==> turn_of(
            pos[exact_hull(pos, include_collinear)[kept - 2] as int],
            pos[exact_hull(pos, include_collinear)[kept - 1] as int],
            pos[exact_hull(pos, include_collinear)[0] as int],
        ) != Orientation2D::Collinear,
{
    let scanned = scanned_hull(pos, include_collinear);
    lemma_scanned_hull_indices(pos, include_collinear);
    if include_collinear {
        assert(scanned.take(scanned.len() as int) =~= scanned);
        scanned.len() as int
    } else {
        lemma_close_up_shape(pos, scanned)
    }
}

/// The exact hull of a non-empty sequence of positions is a list of indices
/// into it, without repetition, that starts with the pivot.
pub proof fn lemma_exact_hull_indices(pos: Seq<Position>, include_collinear: bool)
    requires
        1 <= pos.len() <= usize::MAX,
    ensures
        is_index_list(exact_hull(pos, include_collinear), pos.len() as int),
        exact_hull(pos, include_collinear)[0] == farthest_from(pos, 0),
{
    lemma_scanned_hull_indices(pos, include_collinear);
    let kept = lemma_exact_hull_shape(pos, include_collinear);
}

/// Seen from the pivot, the corners of the exact hull follow one another
/// counter-clockwise.
pub proof fn lemma_exact_hull_runs_around(pos: Seq<Position>, include_collinear: bool)
    requires
        1 <= pos.len() <= usize::MAX,
    ensures
        runs_around(pos, exact_hull(pos, include_collinear)),
{
    lemma_scanned_hull_runs_around(pos, include_collinear);
    let kept = lemma_exact_hull_shape(pos, include_collinear);
    let scanned = scanned_hull(pos, include_collinear);
    let hull = exact_hull(pos, include_collinear);
    assert forall|i: int, j: int| 1 <= i < j < hull.len() implies cross_of(
        pos[#[trigger] hull[i] as int],
        pos[#[trigger] hull[j] as int],
        pos[hull[0] as int],
    ) >= 0 by {
        assert(hull[i] == scanned[i]);
        assert(hull[j] == scanned[j]);
    }
}

/// A hull of two corners at different places that leaves no point outside
/// is the hull of points on one line.
proof fn lemma_two_corners(pos: Seq<Position>, hull: Seq<usize>)
    requires
        hull.len() == 2,
        hull[0] < pos.len(),
        hull[1] < pos.len(),
        pos[hull[0] as int] != pos[hull[1] as int],
        encloses(pos, hull),
    ensures
        all_collinear(pos),
{
    let p = pos[hull[0] as int];
    let h1 = hull[1] as int;
    assert forall|i: int| 0 <= i < pos.len() implies cross_of(pos[h1], #[trigger] pos[i], p)
        == 0 by {
        assert(on_the_left(pos, hull, 0, i));
        assert(on_the_left(pos, hull, 1, i));
        lemma_cross_swap(p, pos[h1], pos[i]);
        lemma_cross_rotate(p, pos[h1], pos[i]);
    }
    lemma_line_through(pos, hull[0] as int, h1);
}

/// No point lies outside the exact hull. Where the points do not all lie on
/// one line, the hull is a proper one of three corners or more.
pub proof fn lemma_exact_hull_encloses(pos: Seq<Position>, include_collinear: bool)
    requires
        1 <= pos.len() <= usize::MAX,
    ensures
        encloses(pos, exact_hull(pos, include_collinear)),
        !all_collinear(pos) ==> exact_hull(pos, include_collinear).len() >= 3 && is_proper_hull(
            pos,
            exact_hull(pos, include_collinear),
        ),
{
    let scanned = scanned_hull(pos, include_collinear);
    let hull = exact_hull(pos, include_collinear);
    lemma_scanned_hull_encloses(pos, include_collinear);
    lemma_scanned_hull_indices(pos, include_collinear);
    let kept = lemma_exact_hull_shape(pos, include_collinear);
    if all_collinear(pos) {
        if !include_collinear {
            lemma_scanned_line_is_small(pos);
        }
        assert(hull =~= scanned);
    } else {
        assert(is_proper_hull(pos, scanned));
        if !include_collinear {
            lemma_close_up_proper(pos, scanned);
        } else {
            assert(hull =~= scanned);
        }
        if hull.len() == 2 {
            assert(pos[hull[0] as int] != pos[hull[next_corner(0, 2)] as int]);
            lemma_two_corners(pos, hull);
        }
    }
}

/// Every point that does not lie on the boundary of the exact hull lies
/// strictly inside it, where the points do not all lie on one line.
pub proof fn lemma_exact_hull_holds_all_points(pos: Seq<Position>, include_collinear: bool)
    requires
        1 <= pos.len() <= usize::MAX,
        !all_collinear(pos),
    ensures
        holds_all_points(pos, exact_hull(pos, include_collinear)),
{
    lemma_exact_hull_encloses(pos, include_collinear);
    let hull = exact_hull(pos, include_collinear);
    assert forall|q: int| 0 <= q < pos.len() implies #[trigger] on_boundary(pos, hull, q)
        || strictly_inside(pos, hull, q) by {
        lemma_inside_or_on_boundary(pos, hull, q);
    }
}

/// At every corner of the exact hull of points that do not all lie on one
/// line, the hull turns counter-clockwise, or, if collinear points are kept,
/// goes straight on.
#[verifier::rlimit(50)]
pub proof fn lemma_exact_hull_turns(pos: Seq<Position>, include_collinear: bool)
    requires
        1 <= pos.len() <= usize::MAX,
        !all_collinear(pos),
    ensures
        turns_left(pos, exact_hull(pos, include_collinear), include_collinear),
{
    let scanned = scanned_hull(pos, include_collinear);
    let hull = exact_hull(pos, include_collinear);
    let m = hull.len() as int;
    lemma_exact_hull_encloses(pos, include_collinear);
    lemma_exact_hull_indices(pos, include_collinear);
    lemma_scanned_hull_turns(pos, include_collinear);
    let kept = lemma_exact_hull_shape(pos, include_collinear);
    lemma_farthest_upto(pos, 0, pos.len() as int);
    let pivot = farthest_from(pos, 0);
    lemma_pivot_faces(pos, 0, pivot);
    let p = pos[pivot];
    let d = pos[0];
    assert forall|i: int| 0 <= i < hull.len() implies keeps_top(
        #[trigger] closed_turn(pos, hull, i),
        include_collinear,
    ) by {
        let before = prev_corner(i, m);
        let after = next_corner(i, m);
        assert(next_corner(before, m) == i);
        assert(on_the_left(pos, hull, before, hull[after] as int));
        if !include_collinear {
            if 1 <= i < m - 1 {
                assert(hull[i - 1] == scanned[i - 1]);
                assert(hull[i] == scanned[i]);
                assert(hull[i + 1] == scanned[i + 1]);
                assert(keeps_top(corner_turn(pos, scanned, i), include_collinear));
            } else if i == 0 {
                let top = pos[hull[m - 1] as int];
                let h1 = pos[hull[1] as int];
                assert(pos[hull[0] as int] != pos[hull[next_corner(0, m)] as int]);
                assert(pos[hull[m - 1] as int] != pos[hull[next_corner(m - 1, m)] as int]);
                if cross_of(top, p, h1) == 0 {
                    lemma_corner_opens(pos, hull, m - 1);
                    lemma_cross_rotate(top, p, h1);
                    lemma_cross_rotate(p, h1, top);
                    lemma_same_ray(h1, top, d, p);
                }
            }
        }
    }
}

/// The exact hull of points that all lie on one line, but not all in one
/// place: without collinear points it is the two ends, between which every
/// point lies; with collinear points it holds a point at every place at which
/// a point lies.
pub proof fn lemma_exact_hull_on_a_line(pos: Seq<Position>, include_collinear: bool)
    requires
        2 <= pos.len() <= usize::MAX,
        all_collinear(pos),
        !all_coincide(pos, 0),
    ensures
        !include_collinear ==> exact_hull(pos, include_collinear).len() == 2 && forall|q: int|
            0 <= q < pos.len() ==> is_between(
                pos[exact_hull(pos, include_collinear)[0] as int],
                pos[exact_hull(pos, include_collinear)[1] as int],
                #[trigger] pos[q],
            ),
        include_collinear ==> forall|q: int|
            0 <= q < pos.len() ==> holds_position(
                pos,
                exact_hull(pos, include_collinear),
                #[trigger] pos[q],
            ),
{
    lemma_scanned_hull_on_a_line(pos, include_collinear);
    let kept = lemma_exact_hull_shape(pos, include_collinear);
    assert(exact_hull(pos, include_collinear) =~= scanned_hull(pos, include_collinear));
}

/// The exact hull, without collinear points, of points that all lie on one
/// line has one corner where all points lie in one place, and two else.
pub proof fn lemma_degenerate_hull_is_small(pos: Seq<Position>)
    requires
        1 <= pos.len() <= usize::MAX,
        all_collinear(pos),
    ensures
        exact_hull(pos, false).len() <= 2,
        exact_hull(pos, false).len() == 1 <==> all_coincide(pos, 0),
{
    lemma_scanned_line_is_small(pos);
    let kept = lemma_exact_hull_shape(pos, false);
    assert(exact_hull(pos, false) =~= scanned_hull(pos, false));
}

/// With collinear points kept, every point on the boundary of the exact hull
/// lies where a corner of the hull lies.
pub proof fn lemma_exact_hull_holds_boundary(pos: Seq<Position>)
    requires
        1 <= pos.len() <= usize::MAX,
    ensures
        holds_boundary(pos, exact_hull(pos, true)),
{
    lemma_scanned_hull_holds_boundary(pos);
}

/// No two corners of the exact hull lie at one place.
pub proof fn lemma_exact_hull_places_differ(pos: Seq<Position>, include_collinear: bool)
    requires
        1 <= pos.len() <= usize::MAX,
    ensures
        places_differ(pos, exact_hull(pos, include_collinear)),
{
    lemma_scanned_hull_places_differ(pos, include_collinear);
    let kept = lemma_exact_hull_shape(pos, include_collinear);
    let scanned = scanned_hull(pos, include_collinear);
    let hull = exact_hull(pos, include_collinear);
    assert forall|i: int, j: int| 0 <= i < j < hull.len() implies pos[#[trigger] hull[i] as int]
        != pos[#[trigger] hull[j] as int] by {
        assert(hull[i] == scanned[i]);
        assert(hull[j] == scanned[j]);
    }
}

/// No corner of the hull lies on the segment between two other corners.
pub open spec fn no_corner_between(pos: Seq<Position>, hull: Seq<usize>) -> bool {
    forall|i: int, j: int, k: int|
        0 <= i < hull.len() && 0 <= j < hull.len() && 0 <= k < hull.len() && i != k && j != k
            ==> !#[trigger] is_between(
            pos[hull[i] as int],
            pos[hull[j] as int],
            pos[hull[k] as int],
        )
}

/// A point of which a corner lies between it and another point, where the
/// hull turns at the corner and both points lie left of the two edges that
/// meet there, lies where the corner lies.
#[verifier::rlimit(50)]
proof fn lemma_corner_not_between(
    a: Position,
    k: Position,
    c: Position,
    i: Position,
    j: Position,
)
    requires
        cross_of(a, k, c) > 0,
        cross_of(a, k, i) >= 0,
        cross_of(a, k, j) >= 0,
        cross_of(k, c, i) >= 0,
        cross_of(k, c, j) >= 0,
        is_between(i, j, k),
        j != k,
    ensures
        i == k,
{
    if i != k {
        if i == j {
            lemma_dot_self(i, k);
        }
        lemma_between_symmetric(i, j, k);
        // seen from i, the corner lies the way of j, and seen from j, the way of i
        lemma_between_left(j, i, k, a);
        lemma_between_left(i, j, k, a);
        lemma_between_left(j, i, k, c);
        lemma_between_left(i, j, k, c);
        lemma_cross_swap(a, j, i);
        lemma_cross_rotate(a, j, i);
        lemma_cross_rotate(j, i, a);
        lemma_cross_swap(c, j, i);
        lemma_cross_rotate(c, j, i);
        lemma_cross_rotate(j, i, c);
        lemma_cross_rotate(k, c, i);
        lemma_cross_rotate(c, i, k);
        lemma_cross_swap(c, k, i);
        lemma_cross_rotate(k, c, j);
        lemma_cross_rotate(c, j, k);
        lemma_cross_swap(c, k, j);
        assert(cross_of(a, k, i) == 0);
        assert(cross_of(c, k, i) == 0);
        lemma_lines_meet(a, c, k, i);
    }
}

/// Without collinear points, no corner of the exact hull of points that do
/// not all lie on one line lies on the segment between two other corners.
#[verifier::rlimit(50)]
pub proof fn lemma_exact_hull_has_no_corner_between(pos: Seq<Position>)
    requires
        1 <= pos.len() <= usize::MAX,
        !all_collinear(pos),
    ensures
        no_corner_between(pos, exact_hull(pos, false)),
{
    let hull = exact_hull(pos, false);
    let m = hull.len() as int;
    lemma_exact_hull_encloses(pos, false);
    lemma_exact_hull_turns(pos, false);
    lemma_exact_hull_places_differ(pos, false);
    assert forall|i: int, j: int, k: int|
        0 <= i < hull.len() && 0 <= j < hull.len() && 0 <= k < hull.len() && i != k && j
            != k implies !#[trigger] is_between(
        pos[hull[i] as int],
        pos[hull[j] as int],
        pos[hull[k] as int],
    ) by {
        let before = prev_corner(k, m);
        let after = next_corner(k, m);
        assert(next_corner(before, m) == k);
        assert(keeps_top(closed_turn(pos, hull, k), false));
        assert(on_the_left(pos, hull, before, hull[i] as int));
        assert(on_the_left(pos, hull, before, hull[j] as int));
        assert(on_the_left(pos, hull, k, hull[i] as int));
        assert(on_the_left(pos, hull, k, hull[j] as int));
        assert(pos[hull[i] as int] != pos[hull[k] as int]) by {
            if i < k {
                assert(pos[hull[i] as int] != pos[hull[k] as int]);
            } else {
                assert(pos[hull[k] as int] != pos[hull[i] as int]);
            }
        }
        assert(pos[hull[j] as int] != pos[hull[k] as int]) by {
            if j < k {
                assert(pos[hull[j] as int] != pos[hull[k] as int]);
            } else {
                assert(pos[hull[k] as int] != pos[hull[j] as int]);
            }
        }
        if is_between(pos[hull[i] as int], pos[hull[j] as int], pos[hull[k] as int]) {
            lemma_corner_not_between(
                pos[hull[before] as int],
                pos[hull[k] as int],
                pos[hull[after] as int],
                pos[hull[i] as int],
                pos[hull[j] as int],
            );
        }
    }
}

} // verus!
