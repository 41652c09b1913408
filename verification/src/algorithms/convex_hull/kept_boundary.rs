use vstd::prelude::*;
use crate::algorithms::convex_hull::boundary::on_boundary;
use crate::algorithms::convex_hull::boundary::on_edge;
use crate::algorithms::convex_hull::candidate_sort::is_candidate;
use crate::algorithms::convex_hull::candidate_sort::lemma_candidates_upto;
use crate::algorithms::convex_hull::candidate_sort::lemma_entry_found;
use crate::algorithms::convex_hull::candidate_sort::lemma_sorted_candidates;
use crate::algorithms::convex_hull::candidate_sort::lemma_sorted_entries;
use crate::algorithms::convex_hull::collinear_hull::holds_position;
use crate::algorithms::convex_hull::collinear_hull::lemma_scanned_hull_on_a_line;
use crate::algorithms::convex_hull::convexity::apart;
use crate::algorithms::convex_hull::convexity::left_of_edge;
use crate::algorithms::convex_hull::convexity::lemma_first_on_first_ray;
use crate::algorithms::convex_hull::convexity::lemma_order_facts;
use crate::algorithms::convex_hull::convexity::lemma_order_sandwich;
use crate::algorithms::convex_hull::convexity::lemma_places_ordered;
use crate::algorithms::convex_hull::convexity::lemma_push_keeps_invariant;
use crate::algorithms::convex_hull::convexity::lemma_skip_keeps_invariant;
use crate::algorithms::convex_hull::convexity::lemma_stack_entry;
use crate::algorithms::convex_hull::convexity::on_first_ray;
use crate::algorithms::convex_hull::convexity::scan_invariant;
use crate::algorithms::convex_hull::convexity::scan_setting;
use crate::algorithms::convex_hull::exact_model::all_collinear;
use crate::algorithms::convex_hull::exact_model::candidates_of;
use crate::algorithms::convex_hull::exact_model::extreme_from;
use crate::algorithms::convex_hull::exact_model::farthest_from;
use crate::algorithms::convex_hull::exact_model::scan_upto;
use crate::algorithms::convex_hull::exact_model::scanned_hull;
use crate::algorithms::convex_hull::exact_model::sorted_candidates;
use crate::algorithms::convex_hull::hull_shape::lemma_scan_push_shape;
use crate::algorithms::convex_hull::wedge::all_coincide;
use crate::algorithms::convex_hull::wedge::lemma_extreme_upto;
use crate::algorithms::convex_hull::wedge::lemma_farthest_coincides;
use crate::algorithms::convex_hull::wedge::lemma_farthest_upto;
use crate::algorithms::convex_hull::wedge::lemma_line_through;
use crate::algorithms::convex_hull::wedge::lemma_pivot_faces;
use crate::algorithms::convex_hull::wedge::lemma_start_differs;
use crate::common::plane::Position;
use crate::common::plane::cross_of;
use crate::common::plane::is_between;
use crate::common::plane::lemma_between_both;
use crate::common::plane::lemma_between_left;
use crate::common::plane::lemma_between_symmetric;
use crate::common::plane::lemma_between_transitive;
use crate::common::plane::lemma_cross_rotate;
use crate::common::plane::lemma_cross_swap;
use crate::common::plane::lemma_cross_trivial;
use crate::common::plane::lemma_lines_meet;
use crate::common::plane::lemma_squeezed;

verus! {

/// The candidate at place `l` of the order lies on the edge from entry `i`
/// of the stack to entry `i + 1` only where one of the two lies.
pub open spec fn only_at_ends(
    pos: Seq<Position>,
    stack: Seq<usize>,
    order: Seq<usize>,
    i: int,
    l: int,
) -> bool {
    is_between(pos[stack[i] as int], pos[stack[i + 1] as int], pos[order[l] as int]) ==> (
    pos[order[l] as int] == pos[stack[i] as int] || pos[order[l] as int] == pos[stack[i
        + 1] as int])
}

/// None of the first `k` candidates lies on an edge between neighbours on
/// the stack, except where one of the neighbours lies.
pub open spec fn edges_clear(
    pos: Seq<Position>,
    stack: Seq<usize>,
    order: Seq<usize>,
    k: int,
) -> bool {
    forall|i: int, l: int|
        0 <= i < stack.len() - 1 && 0 <= l < k ==> #[trigger] only_at_ends(pos, stack, order, i, l)
}

/// A candidate looked at after the top of the stack came to lie there lies
/// where the top lies.
proof fn lemma_later_at_top(
    pos: Seq<Position>,
    pivot: int,
    d: Position,
    rightmost: int,
    order: Seq<usize>,
    stack: Seq<usize>,
    places: Seq<int>,
    k: int,
    l: int,
)
    requires
        scan_setting(pos, pivot, d, rightmost, order),
        scan_invariant(pos, pivot, rightmost, order, stack, places, k),
        1 <= k <= order.len(),
        places.last() <= l < k,
    ensures
        pos[order[l] as int] == pos[stack.last() as int],
{
    let top = stack.last() as int;
    lemma_stack_entry(pos, pivot, order, stack, places, k, stack.len() - 1);
    assert(is_candidate(pos, pivot, order[l] as int));
    assert(is_candidate(pos, pivot, order[k - 1] as int));
    if places.last() < l < k - 1 {
        lemma_places_ordered(pos, pivot, rightmost, order, places.last(), l);
        lemma_places_ordered(pos, pivot, rightmost, order, l, k - 1);
        lemma_order_sandwich(pos, pivot, d, rightmost, top, order[l] as int, order[k - 1] as int);
    }
}

/// The new candidate lies on an edge of the stack only where the upper end
/// of the edge lies.
#[verifier::rlimit(50)]
proof fn lemma_new_point_on_old_edge(
    pos: Seq<Position>,
    pivot: int,
    d: Position,
    rightmost: int,
    order: Seq<usize>,
    stack: Seq<usize>,
    places: Seq<int>,
    k: int,
    i: int,
)
    requires
        scan_setting(pos, pivot, d, rightmost, order),
        scan_invariant(pos, pivot, rightmost, order, stack, places, k - 1),
        2 <= k <= order.len(),
        0 <= i < stack.len() - 1,
        is_between(pos[stack[i] as int], pos[stack[i + 1] as int], pos[order[k - 1] as int]),
    ensures
        pos[order[k - 1] as int] == pos[stack[i + 1] as int],
{
    let p = pos[pivot];
    let a = stack[i] as int;
    let b = stack[i + 1] as int;
    let c = order[k - 1] as int;
    assert(is_candidate(pos, pivot, c));
    lemma_stack_entry(pos, pivot, order, stack, places, k - 1, i + 1);
    lemma_places_ordered(pos, pivot, rightmost, order, places[i], k - 1);
    lemma_order_facts(pos, pivot, d, rightmost, b, c);
    assert(apart(pos, stack, i));
    if i == 0 {
        lemma_cross_trivial(pos[b], p);
        lemma_cross_swap(pos[rightmost], pos[b], p);
    } else {
        lemma_stack_entry(pos, pivot, order, stack, places, k - 1, i);
        lemma_places_ordered(pos, pivot, rightmost, order, places[i - 1], places[i]);
        lemma_order_facts(pos, pivot, d, rightmost, a, b);
    }
    // the pivot lies left of the edge, so the candidate cannot come after its upper end
    lemma_cross_rotate(pos[a], pos[b], p);
    lemma_cross_rotate(pos[b], p, pos[a]);
    lemma_between_left(pos[a], pos[b], pos[c], p);
    lemma_cross_rotate(pos[c], pos[b], p);
    lemma_cross_rotate(pos[b], p, pos[c]);
    lemma_cross_swap(pos[b], pos[c], p);
    assert(cross_of(pos[b], pos[c], p) == 0);
    if on_first_ray(pos, pivot, rightmost, b) {
        if i == 0 {
            lemma_between_both(p, pos[c], pos[b]);
        } else {
            lemma_between_transitive(p, pos[a], pos[b], pos[c]);
            lemma_between_both(p, pos[c], pos[b]);
        }
    } else {
        if cross_of(pos[a], pos[b], p) != 0 {
            lemma_cross_rotate(p, pos[b], pos[c]);
            lemma_cross_rotate(pos[b], pos[c], p);
            lemma_cross_swap(pos[c], p, pos[b]);
            lemma_lines_meet(pos[a], p, pos[b], pos[c]);
        } else {
            lemma_between_symmetric(p, pos[b], pos[c]);
            lemma_between_symmetric(pos[a], pos[b], pos[c]);
            lemma_squeezed(pos[b], p, pos[a], pos[c]);
        }
    }
}

/// A candidate looked at before lies on the edge from the entry on which the
/// new candidate comes to lie to the new candidate only where that entry
/// lies, if entries are taken off the stack by clockwise turns alone.
#[verifier::rlimit(50)]
proof fn lemma_old_point_on_new_edge(
    pos: Seq<Position>,
    pivot: int,
    d: Position,
    rightmost: int,
    order: Seq<usize>,
    stack: Seq<usize>,
    places: Seq<int>,
    k: int,
    kept: int,
    l: int,
)
    requires
        scan_setting(pos, pivot, d, rightmost, order),
        scan_invariant(pos, pivot, rightmost, order, stack, places, k - 1),
        2 <= k <= order.len(),
        2 <= kept <= stack.len(),
        pos[order[k - 1] as int] != pos[stack[kept - 1] as int],
        kept < stack.len() ==> cross_of(
            pos[stack[kept - 1] as int],
            pos[stack[kept] as int],
            pos[order[k - 1] as int],
        ) < 0,
        0 <= l < k - 1,
        is_between(pos[stack[kept - 1] as int], pos[order[k - 1] as int], pos[order[l] as int]),
    ensures
        pos[order[l] as int] == pos[stack[kept - 1] as int],
{
    let p = pos[pivot];
    let j = kept - 1;
    let s = stack[j] as int;
    let c = order[k - 1] as int;
    let q = order[l] as int;
    assert(is_candidate(pos, pivot, c));
    assert(is_candidate(pos, pivot, q));
    lemma_stack_entry(pos, pivot, order, stack, places, k - 1, j);
    let place = places[j - 1];
    lemma_between_symmetric(pos[s], pos[c], pos[q]);
    if kept < stack.len() {
        let f = stack[j + 1] as int;
        assert(left_of_edge(pos, stack, order, j, l));
        lemma_cross_rotate(pos[s], pos[f], pos[q]);
        lemma_cross_rotate(pos[s], pos[f], pos[c]);
        lemma_between_left(pos[c], pos[s], pos[q], pos[f]);
    } else if l >= place {
        lemma_later_at_top(pos, pivot, d, rightmost, order, stack, places, k - 1, l);
    } else {
        lemma_places_ordered(pos, pivot, rightmost, order, l, place);
        lemma_places_ordered(pos, pivot, rightmost, order, place, k - 1);
        lemma_order_facts(pos, pivot, d, rightmost, q, s);
        lemma_order_facts(pos, pivot, d, rightmost, s, c);
        lemma_cross_rotate(pos[c], pos[s], p);
        lemma_cross_rotate(pos[s], p, pos[c]);
        lemma_cross_swap(pos[s], pos[c], p);
        lemma_cross_rotate(pos[q], pos[s], p);
        lemma_cross_rotate(pos[s], p, pos[q]);
        lemma_between_left(pos[c], pos[s], pos[q], p);
        if pos[q] != pos[s] {
            assert(cross_of(pos[s], pos[c], p) == 0);
            if on_first_ray(pos, pivot, rightmost, q) {
                lemma_between_symmetric(p, pos[s], pos[q]);
                lemma_squeezed(pos[s], p, pos[c], pos[q]);
            } else {
                lemma_between_transitive(p, pos[c], pos[s], pos[q]);
                lemma_between_both(p, pos[q], pos[s]);
            }
        }
    }
}

/// With collinear points kept, what holds of the stack holds after every
/// number of candidates looked at, and no candidate looked at lies on an
/// edge of the stack except where one of its ends lies.
#[verifier::rlimit(50)]
pub proof fn lemma_clear_invariant(
    pos: Seq<Position>,
    pivot: int,
    d: Position,
    rightmost: int,
    order: Seq<usize>,
    k: int,
) -> (places: Seq<int>)
    requires
        scan_setting(pos, pivot, d, rightmost, order),
        1 <= k <= order.len(),
    ensures
        scan_invariant(pos, pivot, rightmost, order, scan_upto(pos, pivot, order, true, k), places, k),
        edges_clear(pos, scan_upto(pos, pivot, order, true, k), order, k),
    decreases k,
{
    let p = pos[pivot];
    if k == 1 {
        let places = crate::algorithms::convex_hull::convexity::lemma_scan_invariant(
            pos,
            pivot,
            d,
            rightmost,
            order,
            true,
            1,
        );
        let start = scan_upto(pos, pivot, order, true, 0);
        assert(start == seq![pivot as usize, order[0]]);
        assert(start.last() == order[0]);
        assert(scan_upto(pos, pivot, order, true, 1) == start);
        assert forall|i: int, l: int| 0 <= i < start.len() - 1 && 0 <= l < 1 implies #[trigger] only_at_ends(
            pos,
            start,
            order,
            i,
            l,
        ) by {}
        places
    } else {
        let before = lemma_clear_invariant(pos, pivot, d, rightmost, order, k - 1);
        let stack = scan_upto(pos, pivot, order, true, k - 1);
        let c = order[k - 1];
        assert(is_candidate(pos, pivot, c as int));
        if pos[c as int] == pos[stack.last() as int] {
            lemma_skip_keeps_invariant(pos, pivot, rightmost, order, stack, before, k);
            lemma_stack_entry(pos, pivot, order, stack, before, k - 1, stack.len() - 1);
            let place = before[stack.len() - 2];
            assert forall|i: int, l: int| 0 <= i < stack.len() - 1 && 0 <= l < k implies #[trigger] only_at_ends(
                pos,
                stack,
                order,
                i,
                l,
            ) by {
                if l == k - 1 {
                    assert(only_at_ends(pos, stack, order, i, place));
                } else {
                    assert(only_at_ends(pos, stack, order, i, l));
                }
            }
            before
        } else {
            let places = lemma_push_keeps_invariant(
                pos,
                pivot,
                d,
                rightmost,
                order,
                true,
                stack,
                before,
                k,
            );
            let kept = lemma_scan_push_shape(pos, stack, c, true);
            let after = stack.take(kept).push(c);
            assert(scan_upto(pos, pivot, order, true, k) == after);
            // with collinear points kept, only a clockwise turn takes an entry off
            if kept < stack.len() {
                lemma_cross_rotate(pos[stack[kept - 1] as int], pos[stack[kept] as int], pos[c as int]);
            }
            if kept == 1 {
                lemma_stack_entry(pos, pivot, order, stack, before, k - 1, 1);
                lemma_places_ordered(pos, pivot, rightmost, order, before[0], k - 1);
                lemma_order_facts(pos, pivot, d, rightmost, stack[1] as int, c as int);
                assert(false);
            }
            assert(pos[c as int] != pos[stack[kept - 1] as int]) by {
                if kept < stack.len() {
                    lemma_cross_trivial(pos[stack[kept] as int], pos[stack[kept - 1] as int]);
                }
            }
            assert forall|i: int, l: int| 0 <= i < after.len() - 1 && 0 <= l < k implies #[trigger] only_at_ends(
                pos,
                after,
                order,
                i,
                l,
            ) by {
                assert(after[i] == stack[i]);
                if i < kept - 1 {
                    assert(after[i + 1] == stack[i + 1]);
                    if l < k - 1 {
                        assert(only_at_ends(pos, stack, order, i, l));
                    } else if is_between(pos[stack[i] as int], pos[stack[i + 1] as int], pos[c as int]) {
                        lemma_new_point_on_old_edge(
                            pos,
                            pivot,
                            d,
                            rightmost,
                            order,
                            stack,
                            before,
                            k,
                            i,
                        );
                    }
                } else {
                    assert(after[i + 1] == c);
                    if l < k - 1 && is_between(
                        pos[stack[kept - 1] as int],
                        pos[c as int],
                        pos[order[l] as int],
                    ) {
                        lemma_old_point_on_new_edge(
                            pos,
                            pivot,
                            d,
                            rightmost,
                            order,
                            stack,
                            before,
                            k,
                            kept,
                            l,
                        );
                    }
                }
            }
            places
        }
    }
}

/// Every point on the boundary of the hull lies where a corner of the hull
/// lies.
pub open spec fn holds_boundary(pos: Seq<Position>, hull: Seq<usize>) -> bool {
    forall|q: int|
        0 <= q < pos.len() && #[trigger] on_boundary(pos, hull, q) ==> holds_position(
            pos,
            hull,
            pos[q],
        )
}

/// With collinear points kept, every point on the boundary of what the scan
/// ends with lies where an entry of it lies.
#[verifier::rlimit(50)]
pub proof fn lemma_scanned_hull_holds_boundary(pos: Seq<Position>)
    requires
        1 <= pos.len() <= usize::MAX,
    ensures
        holds_boundary(pos, scanned_hull(pos, true)),
{
    let n = pos.len() as int;
    let hull = scanned_hull(pos, true);
    lemma_farthest_upto(pos, 0, n);
    let pivot = farthest_from(pos, 0);
    lemma_farthest_upto(pos, pivot, n);
    let second = farthest_from(pos, pivot);
    let p = pos[pivot];
    if n == 1 || pos[pivot] == pos[second] {
        if n > 1 {
            lemma_farthest_coincides(pos, pivot, second);
        }
        assert forall|q: int| 0 <= q < pos.len() implies holds_position(pos, hull, pos[q]) by {
            assert(pos[q] == pos[pivot]);
            assert(pos[hull[0] as int] == pos[q]);
        }
    } else if all_collinear(pos) {
        assert(!all_coincide(pos, 0)) by {
            if all_coincide(pos, 0) {
                assert(pos[pivot] == pos[0]);
                assert(pos[second] == pos[0]);
            }
        }
        lemma_scanned_hull_on_a_line(pos, true);
    } else {
        lemma_pivot_faces(pos, 0, pivot);
        lemma_start_differs(pos, 0, pivot, second);
        let d = pos[0];
        lemma_extreme_upto(pos, pivot, d, true, n);
        let rightmost = extreme_from(pos, pivot, true);
        let candidates = candidates_of(pos, pivot);
        let order = sorted_candidates(pos, pivot, rightmost, candidates);
        lemma_candidates_upto(pos, pivot, n);
        lemma_sorted_candidates(pos, pivot, d, rightmost, candidates);
        lemma_sorted_entries(pos, pivot, rightmost, candidates);
        lemma_first_on_first_ray(pos, pivot, d, rightmost);
        let count = order.len() as int;
        let places = lemma_clear_invariant(pos, pivot, d, rightmost, order, count);
        let m = hull.len() as int;
        let top = hull[m - 1] as int;
        lemma_stack_entry(pos, pivot, order, hull, places, count, m - 1);
        // the top of the stack does not lie on the first ray, or all would lie on one line
        if on_first_ray(pos, pivot, rightmost, top) {
            assert forall|x: int| 0 <= x < pos.len() implies cross_of(
                pos[top],
                #[trigger] pos[x],
                p,
            ) == 0 by {
                if pos[x] == p {
                    lemma_cross_trivial(pos[top], p);
                } else {
                    let at = choose|at: int|
                        0 <= at < candidates.len() && candidates[at] == x as usize;
                    let l = lemma_entry_found(candidates, order, at);
                    assert(is_candidate(pos, pivot, order[count - 1] as int));
                    if l < count - 1 {
                        lemma_places_ordered(pos, pivot, rightmost, order, l, count - 1);
                        lemma_order_facts(pos, pivot, d, rightmost, x, order[count - 1] as int);
                    }
                    lemma_cross_trivial(pos[top], p);
                    lemma_cross_swap(pos[top], pos[x], p);
                }
            }
            lemma_line_through(pos, pivot, top);
        }
        assert forall|q: int|
            0 <= q < pos.len() && #[trigger] on_boundary(pos, hull, q) implies holds_position(
            pos,
            hull,
            pos[q],
        ) by {
            let i = choose|i: int| 0 <= i < hull.len() && #[trigger] on_edge(pos, hull, i, q);
            if pos[q] == p {
                assert(pos[hull[0] as int] == pos[q]);
            } else {
                let at = choose|at: int| 0 <= at < candidates.len() && candidates[at] == q as usize;
                let l = lemma_entry_found(candidates, order, at);
                assert(is_candidate(pos, pivot, q));
                if i < m - 1 {
                    assert(only_at_ends(pos, hull, order, i, l));
                    assert(pos[hull[i] as int] == pos[q] || pos[hull[i + 1] as int] == pos[q]);
                } else {
                    if l >= places.last() {
                        lemma_later_at_top(pos, pivot, d, rightmost, order, hull, places, count, l);
                    } else {
                        lemma_places_ordered(pos, pivot, rightmost, order, l, places.last());
                        lemma_order_facts(pos, pivot, d, rightmost, q, top);
                        lemma_cross_rotate(pos[top], p, pos[q]);
                        lemma_cross_rotate(p, pos[q], pos[top]);
                        lemma_between_symmetric(pos[top], p, pos[q]);
                        lemma_between_both(p, pos[q], pos[top]);
                    }
                    assert(pos[hull[m - 1] as int] == pos[q]);
                }
            }
        }
    }
}

} // verus!
