use vstd::prelude::*;
use crate::algorithms::convex_hull::convexity::corners_apart;
use crate::algorithms::convex_hull::convexity::encloses;
use crate::algorithms::convex_hull::convexity::lemma_scanned_hull_encloses;
use crate::algorithms::convex_hull::convexity::next_corner;
use crate::algorithms::convex_hull::convexity::on_the_left;
use crate::algorithms::convex_hull::exact_model::all_collinear;
use crate::algorithms::convex_hull::exact_model::scanned_hull;
use crate::algorithms::convex_hull::hull_shape::lemma_scanned_hull_indices;
use crate::algorithms::convex_hull::wedge::lemma_line_through;
use crate::common::plane::Position;
use crate::common::plane::cross_of;
use crate::common::plane::dist_sqr_of;
use crate::common::plane::dot_of;
use crate::common::plane::is_between;
use crate::common::plane::lemma_before_step;
use crate::common::plane::lemma_beyond_step;
use crate::common::plane::lemma_cross_rotate;
use crate::common::plane::lemma_line_trichotomy;
use crate::common::plane::lemma_no_fold_back;

verus! {

/// The place before `i` on a closed walk over `m` places.
pub open spec fn prev_corner(i: int, m: int) -> int {
    if i > 0 {
        i - 1
    } else {
        m - 1
    }
}

/// The point at `q` lies on the edge of the hull that starts at its corner
/// `i`, the two ends of the edge included.
pub open spec fn on_edge(pos: Seq<Position>, hull: Seq<usize>, i: int, q: int) -> bool {
    is_between(
        pos[hull[i] as int],
        pos[hull[next_corner(i, hull.len() as int)] as int],
        pos[q],
    )
}

/// The point at `q` lies on the boundary of the hull.
pub open spec fn on_boundary(pos: Seq<Position>, hull: Seq<usize>, q: int) -> bool {
    exists|i: int| 0 <= i < hull.len() && #[trigger] on_edge(pos, hull, i, q)
}

/// The point at `q` lies strictly left of the line through the edge of the
/// hull that starts at its corner `i`.
pub open spec fn strictly_left(pos: Seq<Position>, hull: Seq<usize>, i: int, q: int) -> bool {
    cross_of(
        pos[hull[i] as int],
        pos[hull[next_corner(i, hull.len() as int)] as int],
        pos[q],
    ) > 0
}

/// The point at `q` lies strictly inside the hull: strictly left of the line
/// through each of its edges.
pub open spec fn strictly_inside(pos: Seq<Position>, hull: Seq<usize>, q: int) -> bool {
    forall|i: int| 0 <= i < hull.len() ==> #[trigger] strictly_left(pos, hull, i, q)
}

/// A hull of points that do not all lie on one line: its corners are points,
/// neighbouring corners lie at different places, and no point lies outside.
pub open spec fn is_proper_hull(pos: Seq<Position>, hull: Seq<usize>) -> bool {
    &&& hull.len() >= 2
    &&& forall|i: int| 0 <= i < hull.len() ==> #[trigger] hull[i] < pos.len()
    &&& encloses(pos, hull)
    &&& corners_apart(pos, hull)
    &&& !all_collinear(pos)
}

/// Two edges of a proper hull that meet do not run back along one line.
#[verifier::rlimit(50)]
pub proof fn lemma_corner_opens(pos: Seq<Position>, hull: Seq<usize>, i: int)
    requires
        is_proper_hull(pos, hull),
        0 <= i < hull.len(),
    ensures
        ({
            let j = next_corner(i, hull.len() as int);
            let k = next_corner(j, hull.len() as int);
            !(cross_of(pos[hull[i] as int], pos[hull[j] as int], pos[hull[k] as int]) == 0
                && dot_of(pos[hull[k] as int], pos[hull[i] as int], pos[hull[j] as int]) > 0)
        }),
{
    let m = hull.len() as int;
    let j = next_corner(i, m);
    let k = next_corner(j, m);
    let a = pos[hull[i] as int];
    let b = pos[hull[j] as int];
    let c = pos[hull[k] as int];
    if cross_of(a, b, c) == 0 && dot_of(c, a, b) > 0 {
        assert forall|x: int| 0 <= x < pos.len() implies cross_of(b, #[trigger] pos[x], a)
            == 0 by {
            assert(on_the_left(pos, hull, i, x));
            assert(on_the_left(pos, hull, j, x));
            lemma_no_fold_back(a, b, c, pos[x]);
            lemma_cross_rotate(a, b, pos[x]);
        }
        assert(pos[hull[i] as int] != pos[hull[next_corner(i, m)] as int]);
        lemma_line_through(pos, hull[i] as int, hull[j] as int);
    }
}

/// A point on the line of an edge of a proper hull, beyond the end of the
/// edge, lies on the boundary.
#[verifier::rlimit(50)]
proof fn lemma_walk_forward(pos: Seq<Position>, hull: Seq<usize>, i: int, q: int)
    requires
        is_proper_hull(pos, hull),
        0 <= i < hull.len(),
        0 <= q < pos.len(),
        cross_of(
            pos[hull[i] as int],
            pos[hull[next_corner(i, hull.len() as int)] as int],
            pos[q],
        ) == 0,
        dot_of(
            pos[hull[i] as int],
            pos[q],
            pos[hull[next_corner(i, hull.len() as int)] as int],
        ) < 0,
    ensures
        on_boundary(pos, hull, q),
    decreases dist_sqr_of(pos[q], pos[hull[next_corner(i, hull.len() as int)] as int]),
{
    let m = hull.len() as int;
    let j = next_corner(i, m);
    let k = next_corner(j, m);
    let a = pos[hull[i] as int];
    let b = pos[hull[j] as int];
    let c = pos[hull[k] as int];
    assert(on_the_left(pos, hull, i, hull[k] as int));
    assert(on_the_left(pos, hull, j, q));
    assert(pos[hull[i] as int] != pos[hull[next_corner(i, m)] as int]);
    assert(pos[hull[j] as int] != pos[hull[next_corner(j, m)] as int]);
    lemma_corner_opens(pos, hull, i);
    lemma_beyond_step(a, b, c, pos[q]);
    if is_between(b, c, pos[q]) {
        assert(on_edge(pos, hull, j, q));
    } else {
        assert(dist_sqr_of(pos[q], c) >= 0) by (nonlinear_arith)
            requires
                dist_sqr_of(pos[q], c) == (pos[q].x - c.x) * (pos[q].x - c.x) + (pos[q].y - c.y)
                    * (pos[q].y - c.y),
        ;
        lemma_walk_forward(pos, hull, j, q);
    }
}

/// A point on the line of an edge of a proper hull, before the start of the
/// edge, lies on the boundary.
#[verifier::rlimit(50)]
proof fn lemma_walk_backward(pos: Seq<Position>, hull: Seq<usize>, i: int, q: int)
    requires
        is_proper_hull(pos, hull),
        0 <= i < hull.len(),
        0 <= q < pos.len(),
        cross_of(
            pos[hull[i] as int],
            pos[hull[next_corner(i, hull.len() as int)] as int],
            pos[q],
        ) == 0,
        dot_of(
            pos[hull[next_corner(i, hull.len() as int)] as int],
            pos[q],
            pos[hull[i] as int],
        ) < 0,
    ensures
        on_boundary(pos, hull, q),
    decreases dist_sqr_of(pos[q], pos[hull[i] as int]),
{
    let m = hull.len() as int;
    let j = next_corner(i, m);
    let h = prev_corner(i, m);
    assert(next_corner(h, m) == i);
    let z = pos[hull[h] as int];
    let a = pos[hull[i] as int];
    let b = pos[hull[j] as int];
    assert(on_the_left(pos, hull, h, hull[j] as int));
    assert(on_the_left(pos, hull, h, q));
    assert(pos[hull[i] as int] != pos[hull[next_corner(i, m)] as int]);
    assert(pos[hull[h] as int] != pos[hull[next_corner(h, m)] as int]);
    lemma_corner_opens(pos, hull, h);
    lemma_before_step(z, a, b, pos[q]);
    if is_between(z, a, pos[q]) {
        assert(on_edge(pos, hull, h, q));
    } else {
        assert(dist_sqr_of(pos[q], z) >= 0) by (nonlinear_arith)
            requires
                dist_sqr_of(pos[q], z) == (pos[q].x - z.x) * (pos[q].x - z.x) + (pos[q].y - z.y)
                    * (pos[q].y - z.y),
        ;
        lemma_walk_backward(pos, hull, h, q);
    }
}

/// Every point lies on the boundary of a proper hull or strictly inside it.
#[verifier::rlimit(50)]
pub proof fn lemma_inside_or_on_boundary(pos: Seq<Position>, hull: Seq<usize>, q: int)
    requires
        is_proper_hull(pos, hull),
        0 <= q < pos.len(),
    ensures
        on_boundary(pos, hull, q) || strictly_inside(pos, hull, q),
{
    if !strictly_inside(pos, hull, q) {
        let m = hull.len() as int;
        let i = choose|i: int| 0 <= i < hull.len() && !#[trigger] strictly_left(pos, hull, i, q);
        let j = next_corner(i, m);
        let a = pos[hull[i] as int];
        let b = pos[hull[j] as int];
        assert(on_the_left(pos, hull, i, q));
        assert(pos[hull[i] as int] != pos[hull[next_corner(i, m)] as int]);
        lemma_line_trichotomy(a, b, pos[q]);
        if is_between(a, b, pos[q]) {
            assert(on_edge(pos, hull, i, q));
        } else if dot_of(a, pos[q], b) < 0 {
            lemma_walk_forward(pos, hull, i, q);
        } else {
            lemma_walk_backward(pos, hull, i, q);
        }
    }
}

/// Every point lies on the boundary of the hull or strictly inside it.
pub open spec fn holds_all_points(pos: Seq<Position>, hull: Seq<usize>) -> bool {
    forall|q: int|
        0 <= q < pos.len() ==> #[trigger] on_boundary(pos, hull, q) || strictly_inside(
            pos,
            hull,
            q,
        )
}

/// Every point that does not lie on the boundary of what the scan ends with
/// lies strictly inside it, where the points do not all lie on one line.
pub proof fn lemma_scanned_hull_holds_all_points(pos: Seq<Position>, include_collinear: bool)
    requires
        1 <= pos.len() <= usize::MAX,
        !all_collinear(pos),
    ensures
        holds_all_points(pos, scanned_hull(pos, include_collinear)),
{
    lemma_scanned_hull_encloses(pos, include_collinear);
    lemma_scanned_hull_indices(pos, include_collinear);
    let hull = scanned_hull(pos, include_collinear);
    assert forall|q: int| 0 <= q < pos.len() implies #[trigger] on_boundary(pos, hull, q)
        || strictly_inside(pos, hull, q) by {
        lemma_inside_or_on_boundary(pos, hull, q);
    }
}

} // verus!
