use vstd::prelude::*;
use crate::algorithms::convex_hull::candidate_sort::is_candidate;
use crate::algorithms::convex_hull::candidate_sort::lemma_candidates_upto;
use crate::algorithms::convex_hull::candidate_sort::lemma_entry_found;
use crate::algorithms::convex_hull::candidate_sort::lemma_sorted_candidates;
use crate::algorithms::convex_hull::candidate_sort::lemma_sorted_entries;
use crate::algorithms::convex_hull::candidate_sort::not_after;
use crate::algorithms::convex_hull::exact_model::all_collinear;
use crate::algorithms::convex_hull::exact_model::candidates_of;
use crate::algorithms::convex_hull::exact_model::extreme_from;
use crate::algorithms::convex_hull::exact_model::farthest_from;
use crate::algorithms::convex_hull::exact_model::keeps_top;
use crate::algorithms::convex_hull::exact_model::scan_push;
use crate::algorithms::convex_hull::exact_model::scan_upto;
use crate::algorithms::convex_hull::exact_model::scanned_hull;
use crate::algorithms::convex_hull::exact_model::sorted_candidates;
use crate::algorithms::convex_hull::wedge::all_coincide;
use crate::algorithms::convex_hull::wedge::lemma_extreme_upto;
use crate::algorithms::convex_hull::wedge::lemma_farthest_coincides;
use crate::algorithms::convex_hull::wedge::lemma_farthest_upto;
use crate::algorithms::convex_hull::wedge::lemma_pivot_faces;
use crate::algorithms::convex_hull::wedge::lemma_start_differs;
use crate::common::plane::Position;
use crate::common::plane::cross_of;
use crate::common::plane::dist_sqr_of;
use crate::common::plane::dot_of;
use crate::common::plane::is_between;
use crate::common::plane::lemma_between_on_ray;
use crate::common::plane::lemma_cross_trivial;
use crate::common::plane::lemma_same_ray;
use crate::common::plane::turn_of;

verus! {

/// Some entry of `s` is the index of a point that lies at `x`.
pub open spec fn holds_position(pos: Seq<Position>, s: Seq<usize>, x: Position) -> bool {
    exists|i: int| 0 <= i < s.len() && pos[#[trigger] s[i] as int] == x
}

/// On points of one line, the scan that drops collinear points keeps the
/// pivot and one more entry, which lies where the candidate last looked at
/// lies.
pub proof fn lemma_scan_on_a_line(pos: Seq<Position>, pivot: int, order: Seq<usize>, k: int)
    requires
        all_collinear(pos),
        0 <= pivot < pos.len() <= usize::MAX,
        order.len() >= 1,
        forall|i: int| 0 <= i < order.len() ==> #[trigger] order[i] < pos.len(),
        0 <= k <= order.len(),
    ensures
        scan_upto(pos, pivot, order, false, k).len() == 2,
        scan_upto(pos, pivot, order, false, k)[0] == pivot,
        scan_upto(pos, pivot, order, false, k)[1] < pos.len(),
        pos[scan_upto(pos, pivot, order, false, k)[1] as int] == pos[order[if k == 0 {
            0
        } else {
            k - 1
        }] as int],
    decreases k,
{
    if k > 0 {
        lemma_scan_on_a_line(pos, pivot, order, k - 1);
        let stack = scan_upto(pos, pivot, order, false, k - 1);
        let c = order[k - 1];
        if pos[c as int] != pos[stack.last() as int] {
            assert(cross_of(pos[stack[1] as int], pos[c as int], pos[stack[0] as int]) == 0);
            assert(!keeps_top(
                turn_of(pos[stack[1] as int], pos[c as int], pos[stack[0] as int]),
                false,
            ));
            assert(stack.drop_last().len() == 1);
            assert(scan_push(pos, stack, c, false) == scan_push(pos, stack.drop_last(), c, false));
            assert(scan_push(pos, stack.drop_last(), c, false) == stack.drop_last().push(c));
        }
    }
}

/// On points of one line, the scan that keeps collinear points holds, for
/// each candidate looked at, an entry that lies where the candidate lies.
pub proof fn lemma_scan_keeps_a_line(pos: Seq<Position>, pivot: int, order: Seq<usize>, k: int)
    requires
        all_collinear(pos),
        0 <= pivot < pos.len() <= usize::MAX,
        order.len() >= 1,
        forall|i: int| 0 <= i < order.len() ==> #[trigger] order[i] < pos.len(),
        0 <= k <= order.len(),
    ensures
        scan_upto(pos, pivot, order, true, k).len() >= 2,
        scan_upto(pos, pivot, order, true, k)[0] == pivot,
        forall|i: int|
            1 <= i < scan_upto(pos, pivot, order, true, k).len() ==> #[trigger] scan_upto(
                pos,
                pivot,
                order,
                true,
                k,
            )[i] < pos.len(),
        forall|j: int|
            0 <= j < k ==> holds_position(
                pos,
                scan_upto(pos, pivot, order, true, k),
                pos[#[trigger] order[j] as int],
            ),
    decreases k,
{
    if k > 0 {
        lemma_scan_keeps_a_line(pos, pivot, order, k - 1);
        let stack = scan_upto(pos, pivot, order, true, k - 1);
        let after = scan_upto(pos, pivot, order, true, k);
        let c = order[k - 1];
        if pos[c as int] != pos[stack.last() as int] {
            let last = stack[stack.len() - 1];
            let prev = stack[stack.len() - 2];
            assert(cross_of(pos[last as int], pos[c as int], pos[prev as int]) == 0);
            assert(after == stack.push(c));
            assert(pos[after[after.len() - 1] as int] == pos[c as int]);
        } else {
            assert(pos[after[after.len() - 1] as int] == pos[c as int]);
        }
        assert forall|j: int| 0 <= j < k implies holds_position(
            pos,
            after,
            pos[#[trigger] order[j] as int],
        ) by {
            if j < k - 1 {
                let i = choose|i: int|
                    0 <= i < stack.len() && pos[#[trigger] stack[i] as int] == pos[order[j] as int];
                assert(after[i] == stack[i]);
            }
        }
    }
}

/// What the scan ends with for points that all lie on one line, but not all
/// in one place: without collinear points it is the two ends, between which every
/// point lies; with collinear points it holds a point at every place at which
/// a point lies.
#[verifier::rlimit(50)]
pub proof fn lemma_scanned_hull_on_a_line(pos: Seq<Position>, include_collinear: bool)
    requires
        2 <= pos.len() <= usize::MAX,
        all_collinear(pos),
        !all_coincide(pos, 0),
    ensures
        !include_collinear ==> scanned_hull(pos, include_collinear).len() == 2 && forall|q: int|
            0 <= q < pos.len() ==> is_between(
                pos[scanned_hull(pos, include_collinear)[0] as int],
                pos[scanned_hull(pos, include_collinear)[1] as int],
                #[trigger] pos[q],
            ),
        include_collinear ==> forall|q: int|
            0 <= q < pos.len() ==> holds_position(
                pos,
                scanned_hull(pos, include_collinear),
                #[trigger] pos[q],
            ),
{
    let n = pos.len() as int;
    lemma_farthest_upto(pos, 0, n);
    let pivot = farthest_from(pos, 0);
    lemma_farthest_upto(pos, pivot, n);
    let second = farthest_from(pos, pivot);
    let p = pos[pivot];
    if pos[pivot] == pos[second] {
        lemma_farthest_coincides(pos, pivot, second);
        assert(all_coincide(pos, 0));
    }
    lemma_pivot_faces(pos, 0, pivot);
    lemma_start_differs(pos, 0, pivot, second);
    let d = pos[0];
    lemma_extreme_upto(pos, pivot, d, true, n);
    let rightmost = extreme_from(pos, pivot, true);
    let candidates = candidates_of(pos, pivot);
    lemma_candidates_upto(pos, pivot, n);
    let order = sorted_candidates(pos, pivot, rightmost, candidates);
    lemma_sorted_candidates(pos, pivot, d, rightmost, candidates);
    lemma_sorted_entries(pos, pivot, rightmost, candidates);
    assert(candidates.contains(second as usize));
    assert(order.len() >= 1);
    let hull = scanned_hull(pos, include_collinear);
    assert(hull == scan_upto(pos, pivot, order, include_collinear, order.len() as int));
    assert forall|i: int| 0 <= i < order.len() implies #[trigger] order[i] < pos.len() by {
        assert(is_candidate(pos, pivot, order[i] as int));
    }
    if include_collinear {
        lemma_scan_keeps_a_line(pos, pivot, order, order.len() as int);
        assert forall|q: int| 0 <= q < pos.len() implies holds_position(
            pos,
            hull,
            #[trigger] pos[q],
        ) by {
            if pos[q] == p {
                assert(pos[hull[0] as int] == pos[q]);
            } else {
                assert(candidates.contains(q as usize));
                let at = choose|at: int| 0 <= at < candidates.len() && candidates[at] == q as usize;
                let j = lemma_entry_found(candidates, order, at);
                assert(holds_position(pos, hull, pos[order[j] as int]));
            }
        }
    } else {
        lemma_scan_on_a_line(pos, pivot, order, order.len() as int);
        let x = hull[1] as int;
        let e = order[order.len() - 1] as int;
        assert(is_candidate(pos, pivot, e));
        assert forall|q: int| 0 <= q < pos.len() implies is_between(
            pos[hull[0] as int],
            pos[hull[1] as int],
            #[trigger] pos[q],
        ) by {
            if pos[q] == p {
                lemma_cross_trivial(pos[x], p);
                assert(dot_of(p, pos[x], p) == 0) by (nonlinear_arith)
                    requires
                        dot_of(p, pos[x], p) == (p.x - p.x) * (pos[x].x - p.x) + (p.y - p.y) * (
                        pos[x].y - p.y),
                ;
            } else {
                assert(candidates.contains(q as usize));
                let at = choose|at: int| 0 <= at < candidates.len() && candidates[at] == q as usize;
                let j = lemma_entry_found(candidates, order, at);
                assert(cross_of(pos[q], pos[e], p) == 0);
                assert(cross_of(pos[q], pos[rightmost], p) == 0);
                assert(dist_sqr_of(pos[q], p) <= dist_sqr_of(pos[e], p)) by {
                    if j < order.len() - 1 {
                        assert(not_after(pos, pivot, rightmost, order[j] as int, order[order.len() - 1] as int));
                    }
                }
                assert(cross_of(pos[q], pos[x], p) == 0);
                lemma_same_ray(pos[q], pos[x], d, p);
                lemma_between_on_ray(pos[q], pos[x], p);
            }
        }
    }
}

/// Without collinear points, the scan of points that all lie on one line
/// ends with one entry where all points lie in one place, and with two else.
pub proof fn lemma_scanned_line_is_small(pos: Seq<Position>)
    requires
        1 <= pos.len() <= usize::MAX,
        all_collinear(pos),
    ensures
        scanned_hull(pos, false).len() <= 2,
        scanned_hull(pos, false).len() == 1 <==> all_coincide(pos, 0),
{
    let n = pos.len() as int;
    if all_coincide(pos, 0) {
        lemma_farthest_upto(pos, 0, n);
        let pivot = farthest_from(pos, 0);
        lemma_farthest_upto(pos, pivot, n);
        let second = farthest_from(pos, pivot);
        assert(pos[pivot] == pos[0]);
        assert(pos[second] == pos[0]);
    } else {
        lemma_scanned_hull_on_a_line(pos, false);
    }
}

} // verus!
