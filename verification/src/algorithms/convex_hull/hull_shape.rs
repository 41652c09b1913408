use vstd::prelude::*;
use crate::algorithms::convex_hull::candidate_sort::lemma_candidates_upto;
use crate::algorithms::convex_hull::candidate_sort::lemma_entry_found;
use crate::algorithms::convex_hull::candidate_sort::lemma_sorted_entries;
use crate::algorithms::convex_hull::exact_model::candidates_of;
use crate::algorithms::convex_hull::exact_model::candidates_upto;
use crate::algorithms::convex_hull::exact_model::extreme_from;
use crate::algorithms::convex_hull::exact_model::farthest_from;
use crate::algorithms::convex_hull::exact_model::keeps_top;
use crate::algorithms::convex_hull::exact_model::scan_push;
use crate::algorithms::convex_hull::exact_model::scan_upto;
use crate::algorithms::convex_hull::exact_model::scanned_hull;
use crate::algorithms::convex_hull::exact_model::sorted_candidates;
use crate::algorithms::convex_hull::wedge::lemma_farthest_upto;
use crate::common::orientation::Orientation2D;
use crate::common::plane::Position;
use crate::common::plane::lemma_cross_rotate;
use crate::common::plane::turn_of;

verus! {

/// A non-empty list of indices below `n` in which no index occurs twice.
pub open spec fn is_index_list(hull: Seq<usize>, n: int) -> bool {
    &&& hull.len() >= 1
    &&& forall|i: int| 0 <= i < hull.len() ==> #[trigger] hull[i] < n
    &&& hull.no_duplicates()
}

/// Pushing a candidate keeps a non-empty part of the stack, from the bottom
/// up, and puts the candidate on top of it. The topmost entry that stays made
/// a turn that keeps it; the one above it, if there was one, did not.
pub proof fn lemma_scan_push_shape(
    pos: Seq<Position>,
    stack: Seq<usize>,
    c: usize,
    include_collinear: bool,
) -> (kept: int)
    requires
        stack.len() >= 1,
    ensures
        1 <= kept <= stack.len(),
        scan_push(pos, stack, c, include_collinear) == stack.take(kept).push(c),
        kept >= 2 ==> keeps_top(
            turn_of(pos[stack[kept - 1] as int], pos[c as int], pos[stack[kept - 2] as int]),
            include_collinear,
        ),
        kept < stack.len() ==> !keeps_top(
            turn_of(pos[stack[kept] as int], pos[c as int], pos[stack[kept - 1] as int]),
            include_collinear,
        ),
    decreases stack.len(),
{
    if stack.len() < 2 {
        assert(stack.take(1) =~= stack);
        1
    } else {
        let last = stack[stack.len() - 1];
        let prev = stack[stack.len() - 2];
        if keeps_top(turn_of(pos[last as int], pos[c as int], pos[prev as int]), include_collinear) {
            assert(stack.take(stack.len() as int) =~= stack);
            stack.len() as int
        } else {
            let kept = lemma_scan_push_shape(pos, stack.drop_last(), c, include_collinear);
            assert(stack.drop_last().take(kept) =~= stack.take(kept));
            kept
        }
    }
}

/// The stack of the scan holds the pivot and, above it, candidates taken
/// from the order at increasing places.
#[verifier::rlimit(50)]
pub proof fn lemma_scan_places(
    pos: Seq<Position>,
    pivot: int,
    order: Seq<usize>,
    include_collinear: bool,
    n: int,
) -> (places: Seq<int>)
    requires
        order.len() >= 1,
        0 <= n <= order.len(),
        0 <= pivot <= usize::MAX,
    ensures
        scan_upto(pos, pivot, order, include_collinear, n).len() == places.len() + 1,
        places.len() >= 1,
        scan_upto(pos, pivot, order, include_collinear, n)[0] == pivot,
        forall|i: int|
            0 <= i < places.len() ==> 0 <= #[trigger] places[i] < order.len() && (places[i] < n
                || places[i] == 0) && scan_upto(pos, pivot, order, include_collinear, n)[i + 1]
                == order[places[i]],
        forall|i: int, j: int|
            0 <= i < j < places.len() ==> #[trigger] places[i] < #[trigger] places[j],
    decreases n,
{
    if n <= 0 {
        seq![0int]
    } else {
        let before = lemma_scan_places(pos, pivot, order, include_collinear, n - 1);
        let stack = scan_upto(pos, pivot, order, include_collinear, n - 1);
        let c = order[n - 1];
        if pos[c as int] == pos[stack.last() as int] {
            before
        } else {
            let kept = lemma_scan_push_shape(pos, stack, c, include_collinear);
            let places = before.take(kept - 1).push(n - 1);
            let after = scan_upto(pos, pivot, order, include_collinear, n);
            assert(after == stack.take(kept).push(c));
            assert(stack.last() == order[before[before.len() - 1]]);
            assert(before[before.len() - 1] != n - 1);
            assert forall|i: int| 0 <= i < places.len() implies 0 <= #[trigger] places[i]
                < order.len() && (places[i] < n || places[i] == 0) && after[i + 1]
                == order[places[i]] by {
                if i < kept - 1 {
                    assert(places[i] == before[i]);
                    assert(after[i + 1] == stack[i + 1]);
                }
            }
            assert forall|i: int, j: int| 0 <= i < j < places.len() implies #[trigger] places[i]
                < #[trigger] places[j] by {
                assert(places[i] == before[i]);
                if j < kept - 1 {
                    assert(places[j] == before[j]);
                } else {
                    assert(before[i] <= before[before.len() - 1]) by {
                        if i < before.len() - 1 {
                            assert(before[i] < before[before.len() - 1]);
                        }
                    }
                }
            }
            places
        }
    }
}

/// The candidates are listed in increasing order of index.
pub proof fn lemma_candidates_increasing(pos: Seq<Position>, pivot: int, n: int)
    requires
        0 <= pivot < pos.len(),
        0 <= n <= pos.len() <= usize::MAX,
    ensures
        forall|i: int, j: int|
            0 <= i < j < candidates_upto(pos, pivot, n).len() ==> #[trigger] candidates_upto(
                pos,
                pivot,
                n,
            )[i] < #[trigger] candidates_upto(pos, pivot, n)[j],
        candidates_upto(pos, pivot, n).no_duplicates(),
    decreases n,
{
    if n > 0 {
        lemma_candidates_increasing(pos, pivot, n - 1);
        lemma_candidates_upto(pos, pivot, n - 1);
    }
}

/// The hull of a non-empty sequence of positions is a list of indices into
/// it, without repetition, that starts with the pivot.
#[verifier::rlimit(50)]
pub proof fn lemma_scanned_hull_indices(pos: Seq<Position>, include_collinear: bool)
    requires
        1 <= pos.len() <= usize::MAX,
    ensures
        is_index_list(scanned_hull(pos, include_collinear), pos.len() as int),
        scanned_hull(pos, include_collinear)[0] == farthest_from(pos, 0),
{
    let hull = scanned_hull(pos, include_collinear);
    lemma_farthest_upto(pos, 0, pos.len() as int);
    let pivot = farthest_from(pos, 0);
    lemma_farthest_upto(pos, pivot, pos.len() as int);
    let second = farthest_from(pos, pivot);
    if pos.len() > 1 && pos[pivot] != pos[second] {
        let rightmost = extreme_from(pos, pivot, true);
        let candidates = candidates_of(pos, pivot);
        let order = sorted_candidates(pos, pivot, rightmost, candidates);
        lemma_candidates_upto(pos, pivot, pos.len() as int);
        lemma_candidates_increasing(pos, pivot, pos.len() as int);
        lemma_sorted_entries(pos, pivot, rightmost, candidates);
        assert(candidates.contains(second as usize));
        candidates.lemma_multiset_has_no_duplicates();
        order.lemma_multiset_has_no_duplicates_conv();
        let places = lemma_scan_places(pos, pivot, order, include_collinear, order.len() as int);
        assert forall|i: int| 0 <= i < hull.len() implies #[trigger] hull[i] < pos.len() by {
            if i > 0 {
                assert(hull[i] == order[places[i - 1]]);
                let j = lemma_entry_found(order, candidates, places[i - 1]);
            }
        }
        assert forall|i: int, j: int|
            0 <= i < hull.len() && 0 <= j < hull.len() && i != j implies hull[i] != hull[j] by {
            if i > 0 {
                assert(hull[i] == order[places[i - 1]]);
                let k = lemma_entry_found(order, candidates, places[i - 1]);
            }
            if j > 0 {
                assert(hull[j] == order[places[j - 1]]);
                let k = lemma_entry_found(order, candidates, places[j - 1]);
            }
            if i > 0 && j > 0 {
                if i < j {
                    assert(places[i - 1] < places[j - 1]);
                } else {
                    assert(places[j - 1] < places[i - 1]);
                }
            }
        }
    }
}

/// The turn at corner `i` of the hull: the turn that the corner before it,
/// the corner itself and the corner after it make.
pub open spec fn corner_turn(pos: Seq<Position>, hull: Seq<usize>, i: int) -> Orientation2D {
    turn_of(pos[hull[i - 1] as int], pos[hull[i] as int], pos[hull[i + 1] as int])
}

/// Each entry of the stack between the first and the last made, with its
/// neighbours, a turn that kept it on the stack.
pub proof fn lemma_scan_turns(
    pos: Seq<Position>,
    pivot: int,
    order: Seq<usize>,
    include_collinear: bool,
    n: int,
)
    requires
        order.len() >= 1,
        0 <= n <= order.len(),
    ensures
        scan_upto(pos, pivot, order, include_collinear, n).len() >= 2,
        forall|i: int|
            1 <= i < scan_upto(pos, pivot, order, include_collinear, n).len() - 1 ==> keeps_top(
                #[trigger] corner_turn(pos, scan_upto(pos, pivot, order, include_collinear, n), i),
                include_collinear,
            ),
    decreases n,
{
    if n > 0 {
        lemma_scan_turns(pos, pivot, order, include_collinear, n - 1);
        let stack = scan_upto(pos, pivot, order, include_collinear, n - 1);
        let after = scan_upto(pos, pivot, order, include_collinear, n);
        let c = order[n - 1];
        if pos[c as int] != pos[stack.last() as int] {
            let kept = lemma_scan_push_shape(pos, stack, c, include_collinear);
            assert(after == stack.take(kept).push(c));
            assert forall|i: int| 1 <= i < after.len() - 1 implies keeps_top(
                #[trigger] corner_turn(pos, after, i),
                include_collinear,
            ) by {
                assert(after[i - 1] == stack[i - 1]);
                assert(after[i] == stack[i]);
                if i < kept - 1 {
                    assert(after[i + 1] == stack[i + 1]);
                    assert(keeps_top(corner_turn(pos, stack, i), include_collinear));
                } else {
                    assert(after[i + 1] == c);
                    lemma_cross_rotate(pos[stack[i - 1] as int], pos[stack[i] as int], pos[c as int]);
                }
            }
        }
    }
}

/// At each entry of the stack between the first and the last, the walk
/// turns counter-clockwise, or, if collinear points are kept, goes straight
/// on.
pub open spec fn keeps_inner_corners(pos: Seq<Position>, hull: Seq<usize>, include_collinear: bool) -> bool {
    forall|i: int|
        1 <= i < hull.len() - 1 ==> keeps_top(
            #[trigger] corner_turn(pos, hull, i),
            include_collinear,
        )
}

/// At each entry of what the scan ends with, between the first and the last,
/// the walk turns counter-clockwise, or, if collinear points are kept, goes
/// straight on.
pub proof fn lemma_scanned_hull_turns(pos: Seq<Position>, include_collinear: bool)
    requires
        1 <= pos.len() <= usize::MAX,
    ensures
        keeps_inner_corners(pos, scanned_hull(pos, include_collinear), include_collinear),
{
    lemma_farthest_upto(pos, 0, pos.len() as int);
    let pivot = farthest_from(pos, 0);
    lemma_farthest_upto(pos, pivot, pos.len() as int);
    let second = farthest_from(pos, pivot);
    if pos.len() > 1 && pos[pivot] != pos[second] {
        let rightmost = extreme_from(pos, pivot, true);
        let candidates = candidates_of(pos, pivot);
        let order = sorted_candidates(pos, pivot, rightmost, candidates);
        lemma_candidates_upto(pos, pivot, pos.len() as int);
        lemma_sorted_entries(pos, pivot, rightmost, candidates);
        assert(candidates.contains(second as usize));
        lemma_scan_turns(pos, pivot, order, include_collinear, order.len() as int);
    }
}

} // verus!
