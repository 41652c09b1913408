use vstd::prelude::*;
use crate::algorithms::convex_hull::exact_model::all_collinear;
use crate::algorithms::convex_hull::exact_model::extreme_upto;
use crate::algorithms::convex_hull::exact_model::farthest_upto;
use crate::algorithms::convex_hull::exact_model::is_farthest_from;
use crate::algorithms::convex_hull::exact_model::moves_extreme;
use crate::common::plane::Position;
use crate::common::plane::cross_of;
use crate::common::plane::dist_sqr_of;
use crate::common::plane::dot_of;
use crate::common::plane::lemma_collinear_through;
use crate::common::plane::lemma_cross_swap;
use crate::common::plane::lemma_cross_trivial;
use crate::common::plane::lemma_dist_zero;
use crate::common::plane::lemma_dot_self;
use crate::common::plane::lemma_half_plane;
use crate::common::plane::lemma_wedge_transitive;
use crate::common::plane::turn_of;

verus! {

/// Every point that does not lie where the pivot lies is strictly on the side
/// of the pivot that faces `d`.
pub open spec fn faces(pos: Seq<Position>, pivot: int, d: Position) -> bool {
    forall|i: int|
        0 <= i < pos.len() && #[trigger] pos[i] != pos[pivot] ==> dot_of(pos[i], d, pos[pivot])
            > 0
}

/// The point at `e` does not lie where the pivot lies, and seen from the
/// pivot no point lies strictly clockwise of it (`rightmost`), or strictly
/// counter-clockwise of it.
pub open spec fn is_extreme(pos: Seq<Position>, pivot: int, e: int, rightmost: bool) -> bool {
    &&& 0 <= e < pos.len()
    &&& pos[e] != pos[pivot]
    &&& forall|i: int|
        0 <= i < pos.len() ==> if rightmost {
            cross_of(pos[e], #[trigger] pos[i], pos[pivot]) >= 0
        } else {
            cross_of(pos[e], #[trigger] pos[i], pos[pivot]) <= 0
        }
}

/// Every point lies where the point at `pivot` lies.
pub open spec fn all_coincide(pos: Seq<Position>, pivot: int) -> bool {
    forall|i: int| 0 <= i < pos.len() ==> #[trigger] pos[i] == pos[pivot]
}

/// The fold that finds the farthest point ends at the first index of
/// greatest distance.
pub proof fn lemma_farthest_upto(pos: Seq<Position>, from: int, n: int)
    requires
        1 <= n <= pos.len(),
    ensures
        0 <= farthest_upto(pos, from, n) < n,
        forall|j: int|
            0 <= j < n ==> dist_sqr_of(#[trigger] pos[j], pos[from]) <= dist_sqr_of(
                pos[farthest_upto(pos, from, n)],
                pos[from],
            ),
        forall|j: int|
            0 <= j < farthest_upto(pos, from, n) ==> dist_sqr_of(#[trigger] pos[j], pos[from])
                < dist_sqr_of(pos[farthest_upto(pos, from, n)], pos[from]),
    decreases n,
{
    if n > 1 {
        lemma_farthest_upto(pos, from, n - 1);
    }
}

/// Seen from the point that is farthest from the point at `from`, all other
/// points lie in the open half-plane that faces the point at `from`.
pub proof fn lemma_pivot_faces(pos: Seq<Position>, from: int, pivot: int)
    requires
        0 <= from < pos.len(),
        is_farthest_from(pos, from, pivot),
    ensures
        faces(pos, pivot, pos[from]),
{
    assert forall|i: int| 0 <= i < pos.len() && #[trigger] pos[i] != pos[pivot] implies dot_of(
        pos[i],
        pos[from],
        pos[pivot],
    ) > 0 by {
        lemma_half_plane(pos[i], pos[pivot], pos[from]);
    }
}

/// If the point farthest from the pivot lies where the pivot lies, every
/// point does.
pub proof fn lemma_farthest_coincides(pos: Seq<Position>, pivot: int, second: int)
    requires
        0 <= pivot < pos.len(),
        is_farthest_from(pos, pivot, second),
        pos[second] == pos[pivot],
    ensures
        all_coincide(pos, pivot),
{
    assert forall|i: int| 0 <= i < pos.len() implies #[trigger] pos[i] == pos[pivot] by {
        assert(dist_sqr_of(pos[second], pos[pivot]) == 0) by (nonlinear_arith)
            requires
                pos[second] == pos[pivot],
                dist_sqr_of(pos[second], pos[pivot]) == (pos[second].x - pos[pivot].x) * (
                pos[second].x - pos[pivot].x) + (pos[second].y - pos[pivot].y) * (pos[second].y
                    - pos[pivot].y),
        ;
        lemma_dist_zero(pos[i], pos[pivot]);
    }
}

/// If the pivot is farthest from the point at `from` and some point does not
/// lie where the pivot lies, then the point at `from` does not either.
pub proof fn lemma_start_differs(pos: Seq<Position>, from: int, pivot: int, other: int)
    requires
        0 <= from < pos.len(),
        0 <= other < pos.len(),
        is_farthest_from(pos, from, pivot),
        pos[other] != pos[pivot],
    ensures
        pos[from] != pos[pivot],
{
    if pos[from] == pos[pivot] {
        assert(dist_sqr_of(pos[pivot], pos[from]) == 0) by (nonlinear_arith)
            requires
                pos[from] == pos[pivot],
                dist_sqr_of(pos[pivot], pos[from]) == (pos[pivot].x - pos[from].x) * (pos[pivot].x
                    - pos[from].x) + (pos[pivot].y - pos[from].y) * (pos[pivot].y - pos[from].y),
        ;
        assert(dist_sqr_of(pos[other], pos[from]) <= 0);
        lemma_dist_zero(pos[other], pos[from]);
    }
}

/// The scan for the extreme point, run on points that face one way from the
/// pivot and started at a point that does not lie where the pivot lies, ends
/// at a point that no other point lies beyond.
pub proof fn lemma_extreme_upto(
    pos: Seq<Position>,
    pivot: int,
    d: Position,
    rightmost: bool,
    n: int,
)
    requires
        0 <= pivot < pos.len(),
        1 <= n <= pos.len(),
        faces(pos, pivot, d),
        pos[0] != pos[pivot],
    ensures
        0 <= extreme_upto(pos, pivot, rightmost, n) < n,
        pos[extreme_upto(pos, pivot, rightmost, n)] != pos[pivot],
        forall|i: int|
            0 <= i < n ==> if rightmost {
                cross_of(pos[extreme_upto(pos, pivot, rightmost, n)], #[trigger] pos[i], pos[pivot])
                    >= 0
            } else {
                cross_of(pos[extreme_upto(pos, pivot, rightmost, n)], #[trigger] pos[i], pos[pivot])
                    <= 0
            },
    decreases n,
{
    let p = pos[pivot];
    if n == 1 {
        lemma_cross_trivial(pos[0], p);
    } else {
        lemma_extreme_upto(pos, pivot, d, rightmost, n - 1);
        let e = extreme_upto(pos, pivot, rightmost, n - 1);
        let next = n - 1;
        let turn = turn_of(pos[e], pos[next], p);
        if moves_extreme(turn, rightmost) {
            lemma_cross_trivial(pos[next], p);
            lemma_cross_trivial(pos[e], p);
            assert(pos[next] != p);
            lemma_cross_swap(pos[e], pos[next], p);
            assert forall|i: int| 0 <= i < n implies if rightmost {
                cross_of(pos[next], #[trigger] pos[i], p) >= 0
            } else {
                cross_of(pos[next], #[trigger] pos[i], p) <= 0
            } by {
                if pos[i] == p {
                    lemma_cross_trivial(pos[next], p);
                } else if i == next {
                } else if rightmost {
                    lemma_wedge_transitive(pos[next], pos[e], pos[i], d, p);
                } else {
                    lemma_cross_swap(pos[e], pos[i], p);
                    lemma_wedge_transitive(pos[i], pos[e], pos[next], d, p);
                    lemma_cross_swap(pos[i], pos[next], p);
                }
            }
        } else {
            lemma_cross_swap(pos[e], pos[next], p);
        }
    }
}

/// Points that are all in line with the pivot and with one point away from
/// the pivot lie on one line.
pub proof fn lemma_line_through(pos: Seq<Position>, pivot: int, r: int)
    requires
        0 <= pivot < pos.len(),
        0 <= r < pos.len(),
        pos[r] != pos[pivot],
        forall|i: int| 0 <= i < pos.len() ==> cross_of(pos[r], #[trigger] pos[i], pos[pivot]) == 0,
    ensures
        all_collinear(pos),
{
    let p = pos[pivot];
    assert forall|i: int, j: int, k: int|
        0 <= i < pos.len() && 0 <= j < pos.len() && 0 <= k < pos.len() implies #[trigger] cross_of(
        pos[i],
        pos[j],
        pos[k],
    ) == 0 by {
        lemma_dot_self(pos[r], p);
        lemma_collinear_through(pos[r], pos[i], pos[j], pos[r], p);
        lemma_collinear_through(pos[r], pos[i], pos[k], pos[r], p);
        lemma_collinear_through(pos[r], pos[k], pos[j], pos[r], p);
        let ix = pos[i].x - p.x;
        let iy = pos[i].y - p.y;
        let jx = pos[j].x - p.x;
        let jy = pos[j].y - p.y;
        let kx = pos[k].x - p.x;
        let ky = pos[k].y - p.y;
        assert((ix - kx) * (jy - ky) - (iy - ky) * (jx - kx) == (ix * jy - iy * jx) - (ix * ky - iy
            * kx) - (kx * jy - ky * jx)) by (nonlinear_arith);
        assert(cross_of(pos[i], pos[j], pos[k]) == (ix - kx) * (jy - ky) - (iy - ky) * (jx - kx));
    }
}

/// With all points facing one way from the pivot, the two extreme points are
/// in line with the pivot exactly if all points lie on one line.
pub proof fn lemma_degenerate(pos: Seq<Position>, pivot: int, d: Position, l: int, r: int)
    requires
        0 <= pivot < pos.len(),
        faces(pos, pivot, d),
        is_extreme(pos, pivot, r, true),
        is_extreme(pos, pivot, l, false),
    ensures
        cross_of(pos[l], pos[r], pos[pivot]) == 0 <==> all_collinear(pos),
{
    let p = pos[pivot];
    if cross_of(pos[l], pos[r], p) == 0 {
        lemma_cross_swap(pos[l], pos[r], p);
        assert forall|i: int| 0 <= i < pos.len() implies cross_of(pos[r], #[trigger] pos[i], p)
            == 0 by {
            if pos[i] == p {
                lemma_cross_trivial(pos[r], p);
            } else {
                lemma_wedge_transitive(pos[l], pos[r], pos[i], d, p);
                lemma_collinear_through(pos[l], pos[r], pos[i], d, p);
            }
        }
        lemma_line_through(pos, pivot, r);
    }
}

} // verus!
