use vstd::prelude::*;
use crate::algorithms::convex_hull::candidate_sort::all_candidates;
use crate::algorithms::convex_hull::candidate_sort::is_candidate;
use crate::algorithms::convex_hull::candidate_sort::lemma_candidates_upto;
use crate::algorithms::convex_hull::candidate_sort::lemma_entry_found;
use crate::algorithms::convex_hull::candidate_sort::lemma_sorted_candidates;
use crate::algorithms::convex_hull::candidate_sort::lemma_sorted_entries;
use crate::algorithms::convex_hull::closing::lemma_degenerate_hull_is_small;
use crate::algorithms::convex_hull::closing::lemma_exact_hull_encloses;
use crate::algorithms::convex_hull::closing::lemma_exact_hull_has_no_corner_between;
use crate::algorithms::convex_hull::closing::lemma_exact_hull_holds_all_points;
use crate::algorithms::convex_hull::closing::lemma_exact_hull_holds_boundary;
use crate::algorithms::convex_hull::closing::lemma_exact_hull_indices;
use crate::algorithms::convex_hull::closing::lemma_exact_hull_places_differ;
use crate::algorithms::convex_hull::closing::lemma_exact_hull_runs_around;
use crate::algorithms::convex_hull::closing::lemma_exact_hull_turns;
use crate::algorithms::convex_hull::convexity::lemma_first_on_first_ray;
use crate::algorithms::convex_hull::exact_model::all_collinear;
use crate::algorithms::convex_hull::exact_model::candidate_order;
use crate::algorithms::convex_hull::exact_model::candidates_upto;
use crate::algorithms::convex_hull::exact_model::close_up;
use crate::algorithms::convex_hull::exact_model::extreme_from;
use crate::algorithms::convex_hull::exact_model::extreme_upto;
use crate::algorithms::convex_hull::exact_model::farthest_from;
use crate::algorithms::convex_hull::exact_model::farthest_upto;
use crate::algorithms::convex_hull::exact_model::is_exact_hull_result;
use crate::algorithms::convex_hull::exact_model::is_farthest_from;
use crate::algorithms::convex_hull::exact_model::merged;
use crate::algorithms::convex_hull::exact_model::positions;
use crate::algorithms::convex_hull::exact_model::scan_push;
use crate::algorithms::convex_hull::exact_model::scan_upto;
use crate::algorithms::convex_hull::exact_model::scanned_hull;
use crate::algorithms::convex_hull::exact_model::sorted_candidates;
use crate::algorithms::convex_hull::hull_shape::is_index_list;
use crate::algorithms::convex_hull::hull_shape::lemma_scanned_hull_indices;
use crate::algorithms::convex_hull::wedge::faces;
use crate::algorithms::convex_hull::wedge::is_extreme;
use crate::algorithms::convex_hull::wedge::lemma_degenerate;
use crate::algorithms::convex_hull::wedge::lemma_extreme_upto;
use crate::algorithms::convex_hull::wedge::lemma_farthest_coincides;
use crate::algorithms::convex_hull::wedge::lemma_farthest_upto;
use crate::algorithms::convex_hull::wedge::lemma_pivot_faces;
use crate::algorithms::convex_hull::wedge::lemma_start_differs;
use crate::common::error::GeometryError;
use crate::common::orientation::Comparison;
use crate::common::orientation::Orientation2D;
use crate::common::plane::Position;
use crate::common::plane::cross_of;
use crate::common::plane::lemma_collinear_through;
use crate::common::plane::lemma_cross_swap;
use crate::common::plane::lemma_cross_trivial;
use crate::common::plane::lemma_wedge_transitive;
use crate::common::plane::turn_of;
use crate::traits::kernel::ExactPredicates2D;

verus! {

/// The index of the first point at the greatest distance from the point at
/// `from_point`.
pub fn farthest_point<K: ExactPredicates2D>(points: &[K::Point], from_point: usize) -> (far: usize)
    requires
        from_point < points.len(),
    ensures
        far == farthest_from(positions::<K>(points@), from_point as int),
        is_farthest_from(positions::<K>(points@), from_point as int, far as int),
{
    let ghost pos = positions::<K>(points@);
    let mut far: usize = 0;
    let mut i: usize = 1;
    while i < points.len()
        invariant
            1 <= i <= points.len(),
            from_point < points.len(),
            pos == positions::<K>(points@),
            far == farthest_upto(pos, from_point as int, i as int),
            0 <= far < i,
        decreases points.len() - i,
    {
        let order = K::compare_distance(&points[far], &points[i], &points[from_point]);
        if order == Comparison::Less {
            far = i;
        }
        i = i + 1;
    }
    proof {
        lemma_farthest_upto(pos, from_point as int, pos.len() as int);
    }
    far
}

/// The index at which a scan for the extreme point seen from the point at
/// `from_point` ends: the scan starts at index 0 and moves on to each point
/// that lies strictly clockwise of the current one (`rightmost`), or strictly
/// counter-clockwise of it.
pub fn extreme_point<K: ExactPredicates2D>(
    points: &[K::Point],
    from_point: usize,
    rightmost: bool,
) -> (extreme: usize)
    requires
        from_point < points.len(),
    ensures
        extreme == extreme_from(positions::<K>(points@), from_point as int, rightmost),
        extreme < points.len(),
{
    let ghost pos = positions::<K>(points@);
    let mut extreme: usize = 0;
    let mut i: usize = 1;
    while i < points.len()
        invariant
            1 <= i <= points.len(),
            from_point < points.len(),
            pos == positions::<K>(points@),
            extreme == extreme_upto(pos, from_point as int, rightmost, i as int),
            0 <= extreme < i,
        decreases points.len() - i,
    {
        let turn = K::orientation(&points[extreme], &points[i], &points[from_point]);
        if turn == Orientation2D::Clockwise && rightmost || turn == Orientation2D::CounterClockwise
            && !rightmost {
            extreme = i;
        }
        i = i + 1;
    }
    extreme
}


/// The text of the error for a candidate that the predicates place clockwise
/// of the rightmost point.
pub open spec fn sorting_conflict() -> Seq<char> {
    "Convex Hull: Graham Scan sorting: Clockwise compared to rightmost."@
}

/// Every entry is an index of a point that the predicates do not place
/// clockwise of the rightmost point.
pub open spec fn sortable(pos: Seq<Position>, pivot: int, rightmost: int, s: Seq<usize>) -> bool {
    forall|k: int|
        0 <= k < s.len() ==> #[trigger] s[k] < pos.len() && turn_of(
            pos[s[k] as int],
            pos[rightmost],
            pos[pivot],
        ) != Orientation2D::CounterClockwise
}

/// A rearrangement of a sortable sequence is sortable.
proof fn lemma_sortable_entries(
    pos: Seq<Position>,
    pivot: int,
    rightmost: int,
    a: Seq<usize>,
    b: Seq<usize>,
)
    requires
        a.to_multiset() =~= b.to_multiset(),
        sortable(pos, pivot, rightmost, b),
    ensures
        sortable(pos, pivot, rightmost, a),
{
    assert forall|k: int| 0 <= k < a.len() implies #[trigger] a[k] < pos.len() && turn_of(
        pos[a[k] as int],
        pos[rightmost],
        pos[pivot],
    ) != Orientation2D::CounterClockwise by {
        let j = lemma_entry_found(a, b, k);
    }
}

/// The order of the candidates `a` and `b` around the pivot, or an error if
/// the predicates place `a` clockwise of the rightmost point.
fn compare_candidates<K: ExactPredicates2D>(
    points: &[K::Point],
    pivot: usize,
    rightmost: usize,
    a: usize,
    b: usize,
) -> (r: Result<Comparison, GeometryError>)
    requires
        pivot < points.len(),
        rightmost < points.len(),
        a < points.len(),
        b < points.len(),
    ensures
        r is Err <==> turn_of(
            positions::<K>(points@)[a as int],
            positions::<K>(points@)[b as int],
            positions::<K>(points@)[pivot as int],
        ) == Orientation2D::Collinear && turn_of(
            positions::<K>(points@)[a as int],
            positions::<K>(points@)[rightmost as int],
            positions::<K>(points@)[pivot as int],
        ) == Orientation2D::CounterClockwise,
        r matches Ok(c) ==> c == candidate_order(
            positions::<K>(points@),
            pivot as int,
            rightmost as int,
            a as int,
            b as int,
        ),
        r matches Err(e) ==> e.is_conflict(sorting_conflict()),
{
    match K::orientation(&points[a], &points[b], &points[pivot]) {
        Orientation2D::CounterClockwise => Ok(Comparison::Less),
        Orientation2D::Clockwise => Ok(Comparison::Greater),
        Orientation2D::Collinear => {
            match K::orientation(&points[a], &points[rightmost], &points[pivot]) {
                Orientation2D::Collinear => Ok(
                    K::compare_distance(&points[a], &points[b], &points[pivot]),
                ),
                Orientation2D::Clockwise => Ok(
                    K::compare_distance(&points[b], &points[a], &points[pivot]),
                ),
                Orientation2D::CounterClockwise => Err(
                    GeometryError::ExactPredicateReturnedConflictingResult(
                        "Convex Hull: Graham Scan sorting: Clockwise compared to rightmost.".to_owned(),
                    ),
                ),
            }
        },
    }
}

/// The stable merge of two sequences of candidates.
#[verifier::rlimit(50)]
fn merge_candidates<K: ExactPredicates2D>(
    points: &[K::Point],
    pivot: usize,
    rightmost: usize,
    left: &Vec<usize>,
    right: &Vec<usize>,
) -> (r: Result<Vec<usize>, GeometryError>)
    requires
        pivot < points.len(),
        rightmost < points.len(),
        sortable(positions::<K>(points@), pivot as int, rightmost as int, left@),
        sortable(positions::<K>(points@), pivot as int, rightmost as int, right@),
    ensures
        r matches Ok(v) && v@ == merged(
            positions::<K>(points@),
            pivot as int,
            rightmost as int,
            left@,
            right@,
        ),
{
    let ghost pos = positions::<K>(points@);
    let mut out: Vec<usize> = Vec::new();
    let mut i: usize = 0;
    let mut j: usize = 0;
    proof {
        assert(left@.skip(0) =~= left@);
        assert(right@.skip(0) =~= right@);
        assert(Seq::<usize>::empty() + merged(pos, pivot as int, rightmost as int, left@, right@)
            =~= merged(pos, pivot as int, rightmost as int, left@, right@));
    }
    while i < left.len() || j < right.len()
        invariant
            i <= left.len(),
            j <= right.len(),
            pivot < points.len(),
            rightmost < points.len(),
            pos == positions::<K>(points@),
            sortable(pos, pivot as int, rightmost as int, left@),
            sortable(pos, pivot as int, rightmost as int, right@),
            out@ + merged(pos, pivot as int, rightmost as int, left@.skip(i as int), right@.skip(j as int))
                == merged(pos, pivot as int, rightmost as int, left@, right@),
        decreases (left.len() - i) + (right.len() - j),
    {
        let ghost rest_left = left@.skip(i as int);
        let ghost rest_right = right@.skip(j as int);
        let take_right = if i == left.len() {
            true
        } else if j == right.len() {
            false
        } else {
            match compare_candidates::<K>(points, pivot, rightmost, right[j], left[i]) {
                Ok(order) => order == Comparison::Less,
                Err(e) => {
                    return Err(e);
                },
            }
        };
        if take_right {
            proof {
                assert(rest_right.drop_first() =~= right@.skip(j + 1));
                let after = merged(
                    pos,
                    pivot as int,
                    rightmost as int,
                    rest_left,
                    right@.skip(j + 1),
                );
                assert(merged(pos, pivot as int, rightmost as int, rest_left, rest_right)
                    =~= seq![right[j as int]] + after) by {
                    if rest_left.len() == 0 {
                        assert(after =~= right@.skip(j + 1));
                    }
                }
                assert(out@.push(right[j as int]) + after =~= out@ + (seq![right[j as int]]
                    + after));
            }
            out.push(right[j]);
            j = j + 1;
        } else {
            proof {
                assert(rest_left.drop_first() =~= left@.skip(i + 1));
                let after = merged(
                    pos,
                    pivot as int,
                    rightmost as int,
                    left@.skip(i + 1),
                    rest_right,
                );
                assert(merged(pos, pivot as int, rightmost as int, rest_left, rest_right)
                    =~= seq![left[i as int]] + after) by {
                    if rest_right.len() == 0 {
                        assert(after =~= left@.skip(i + 1));
                    }
                }
                assert(out@.push(left[i as int]) + after =~= out@ + (seq![left[i as int]]
                    + after));
            }
            out.push(left[i]);
            i = i + 1;
        }
    }
    proof {
        assert(out@ + Seq::<usize>::empty() =~= out@);
    }
    Ok(out)
}

/// The candidates from `lo` up to `hi`, sorted by a stable merge sort of the
/// library's own: a comparison can fail, and the order that comes out is part
/// of what the hull is.
#[verifier::rlimit(50)]
fn sort_range<K: ExactPredicates2D>(
    points: &[K::Point],
    pivot: usize,
    rightmost: usize,
    candidates: &Vec<usize>,
    lo: usize,
    hi: usize,
) -> (r: Result<Vec<usize>, GeometryError>)
    requires
        pivot < points.len(),
        rightmost < points.len(),
        lo <= hi <= candidates.len(),
        sortable(positions::<K>(points@), pivot as int, rightmost as int, candidates@),
    ensures
        r matches Ok(v) && v@ == sorted_candidates(
            positions::<K>(points@),
            pivot as int,
            rightmost as int,
            candidates@.subrange(lo as int, hi as int),
        ),
    decreases hi - lo,
{
    let ghost pos = positions::<K>(points@);
    let ghost part = candidates@.subrange(lo as int, hi as int);
    if hi - lo <= 1 {
        let mut out: Vec<usize> = Vec::new();
        if lo < hi {
            out.push(candidates[lo]);
        }
        proof {
            assert(out@ =~= part);
        }
        Ok(out)
    } else {
        let mid = lo + (hi - lo) / 2;
        proof {
            assert(part.subrange(0, part.len() as int / 2) =~= candidates@.subrange(
                lo as int,
                mid as int,
            ));
            assert(part.subrange(part.len() as int / 2, part.len() as int)
                =~= candidates@.subrange(mid as int, hi as int));
        }
        let left = match sort_range::<K>(points, pivot, rightmost, candidates, lo, mid) {
            Ok(v) => v,
            Err(e) => {
                return Err(e);
            },
        };
        let right = match sort_range::<K>(points, pivot, rightmost, candidates, mid, hi) {
            Ok(v) => v,
            Err(e) => {
                return Err(e);
            },
        };
        proof {
            let front = candidates@.subrange(lo as int, mid as int);
            let back = candidates@.subrange(mid as int, hi as int);
            lemma_sorted_entries(pos, pivot as int, rightmost as int, front);
            lemma_sorted_entries(pos, pivot as int, rightmost as int, back);
            assert(sortable(pos, pivot as int, rightmost as int, front)) by {
                assert forall|k: int| 0 <= k < front.len() implies #[trigger] front[k] < pos.len()
                    && turn_of(pos[front[k] as int], pos[rightmost as int], pos[pivot as int])
                    != Orientation2D::CounterClockwise by {
                    assert(front[k] == candidates@[lo + k]);
                }
            }
            assert(sortable(pos, pivot as int, rightmost as int, back)) by {
                assert forall|k: int| 0 <= k < back.len() implies #[trigger] back[k] < pos.len()
                    && turn_of(pos[back[k] as int], pos[rightmost as int], pos[pivot as int])
                    != Orientation2D::CounterClockwise by {
                    assert(back[k] == candidates@[mid + k]);
                }
            }
            lemma_sortable_entries(pos, pivot as int, rightmost as int, left@, front);
            lemma_sortable_entries(pos, pivot as int, rightmost as int, right@, back);
        }
        merge_candidates::<K>(points, pivot, rightmost, &left, &right)
    }
}


/// The scan of the ordered candidates with a stack.
#[verifier::rlimit(50)]
fn graham_scan<K: ExactPredicates2D>(
    points: &[K::Point],
    pivot: usize,
    rightmost: usize,
    order: &Vec<usize>,
    include_collinear: bool,
) -> (r: Result<Vec<usize>, GeometryError>)
    requires
        pivot < points.len(),
        order.len() >= 1,
        faces(positions::<K>(points@), pivot as int, positions::<K>(points@)[0]),
        is_extreme(positions::<K>(points@), pivot as int, rightmost as int, true),
        all_candidates(positions::<K>(points@), pivot as int, order@),
        cross_of(
            positions::<K>(points@)[rightmost as int],
            positions::<K>(points@)[order[0] as int],
            positions::<K>(points@)[pivot as int],
        ) == 0,
    ensures
        r matches Ok(v) && v@ == scan_upto(
            positions::<K>(points@),
            pivot as int,
            order@,
            include_collinear,
            order.len() as int,
        ),
{
    let ghost pos = positions::<K>(points@);
    let ghost p = pos[pivot as int];
    let ghost d = pos[0];
    let mut result: Vec<usize> = Vec::new();
    result.push(pivot);
    result.push(order[0]);
    proof {
        assert(result@ =~= seq![pivot, order[0]]);
    }
    let mut k: usize = 0;
    while k < order.len()
        invariant
            k <= order.len(),
            order.len() >= 1,
            pivot < points.len(),
            pos == positions::<K>(points@),
            p == pos[pivot as int],
            d == pos[0],
            faces(pos, pivot as int, d),
            is_extreme(pos, pivot as int, rightmost as int, true),
            all_candidates(pos, pivot as int, order@),
            result@ == scan_upto(pos, pivot as int, order@, include_collinear, k as int),
            result.len() >= 2,
            result[0] == pivot,
            forall|i: int|
                1 <= i < result.len() ==> is_candidate(pos, pivot as int, #[trigger] result[i] as int),
            cross_of(pos[rightmost as int], pos[result[1] as int], p) == 0,
        decreases order.len() - k,
    {
        let c = order[k];
        let top = result[result.len() - 1];
        let ghost before = result@;
        assert(is_candidate(pos, pivot as int, order@[k as int] as int));
        if !K::is_same_point(&points[c], &points[top]) {
            loop
                invariant_except_break
                    result.len() >= 2,
                    scan_push(pos, result@, c, include_collinear) == scan_push(
                        pos,
                        before,
                        c,
                        include_collinear,
                    ),
                    cross_of(pos[rightmost as int], pos[result[1] as int], p) == 0,
                invariant
                    pivot < points.len(),
                    rightmost < points.len(),
                    c < points.len(),
                    pos == positions::<K>(points@),
                    p == pos[pivot as int],
                    d == pos[0],
                    faces(pos, pivot as int, d),
                    is_extreme(pos, pivot as int, rightmost as int, true),
                    is_candidate(pos, pivot as int, c as int),
                    result.len() >= 1,
                    result[0] == pivot,
                    forall|i: int|
                        1 <= i < result.len() ==> is_candidate(
                            pos,
                            pivot as int,
                            #[trigger] result[i] as int,
                        ),
                ensures
                    scan_push(pos, before, c, include_collinear) == result@.push(c),
                    result.len() >= 2 ==> cross_of(pos[rightmost as int], pos[result[1] as int], p)
                        == 0,
                    result.len() == 1 ==> cross_of(pos[rightmost as int], pos[c as int], p) == 0,
                decreases result.len(),
            {
                let last = result[result.len() - 1];
                let prev = result[result.len() - 2];
                let ghost stack = result@;
                assert(is_candidate(pos, pivot as int, result[result.len() - 1] as int));
                proof {
                    if stack.len() > 2 {
                        assert(is_candidate(pos, pivot as int, result[result.len() - 2] as int));
                    }
                }
                match K::orientation(&points[last], &points[c], &points[prev]) {
                    Orientation2D::CounterClockwise => {
                        break ;
                    },
                    Orientation2D::Collinear => {
                        if include_collinear {
                            break ;
                        }
                        result.pop();
                        proof {
                            assert(result@ =~= stack.drop_last());
                        }
                        if result.len() == 1 {
                            proof {
                                assert(scan_push(pos, stack, c, include_collinear) == scan_push(
                                    pos,
                                    stack.drop_last(),
                                    c,
                                    include_collinear,
                                ));
                                assert(scan_push(pos, result@, c, include_collinear)
                                    == result@.push(c));
                                lemma_cross_swap(pos[rightmost as int], pos[last as int], p);
                                lemma_collinear_through(
                                    pos[last as int],
                                    pos[rightmost as int],
                                    pos[c as int],
                                    d,
                                    p,
                                );
                            }
                            if K::orientation(&points[rightmost], &points[c], &points[pivot])
                                != Orientation2D::Collinear {
                                return Err(
                                    GeometryError::ExactPredicateReturnedConflictingResult(
                                        "Convex Hull: Graham Scan loop: Collinear case.".to_owned(),
                                    ),
                                );
                            }
                            break ;
                        }
                    },
                    Orientation2D::Clockwise => {
                        result.pop();
                        proof {
                            assert(result@ =~= stack.drop_last());
                        }
                        if result.len() == 1 {
                            proof {
                                lemma_cross_swap(pos[rightmost as int], pos[last as int], p);
                                lemma_wedge_transitive(
                                    pos[last as int],
                                    pos[rightmost as int],
                                    pos[c as int],
                                    d,
                                    p,
                                );
                            }
                            return Err(
                                GeometryError::ExactPredicateReturnedConflictingResult(
                                    "Convex Hull: Graham Scan loop: Clockwise case.".to_owned(),
                                ),
                            );
                        }
                    },
                }
            }
            result.push(c);
        }
        k = k + 1;
    }
    Ok(result)
}

/// The stack that the scan of at least one point ends with, and whether all
/// points lie on one line.
#[verifier::rlimit(50)]
fn exact_hull_of<K: ExactPredicates2D>(points: &[K::Point], include_collinear: bool) -> (r: Result<
    (Vec<usize>, bool),
    GeometryError,
>)
    requires
        points.len() > 0,
    ensures
        r matches Ok(hull) && hull.0@ == scanned_hull(positions::<K>(points@), include_collinear)
            && hull.1 == all_collinear(positions::<K>(points@)),
{
    let ghost pos = positions::<K>(points@);
    if points.len() == 1 {
        let mut hull: Vec<usize> = Vec::new();
        hull.push(0);
        proof {
            assert(hull@ =~= seq![0usize]);
            lemma_cross_trivial(pos[0], pos[0]);
        }
        return Ok((hull, true));
    }
    let pivot = farthest_point::<K>(points, 0);
    let second = farthest_point::<K>(points, pivot);
    if K::is_same_point(&points[pivot], &points[second]) {
        let mut hull: Vec<usize> = Vec::new();
        hull.push(pivot);
        proof {
            assert(hull@ =~= seq![pivot]);
            lemma_farthest_coincides(pos, pivot as int, second as int);
            lemma_cross_trivial(pos[pivot as int], pos[pivot as int]);
        }
        return Ok((hull, true));
    }
    proof {
        lemma_pivot_faces(pos, 0, pivot as int);
        lemma_start_differs(pos, 0, pivot as int, second as int);
        lemma_extreme_upto(pos, pivot as int, pos[0], true, pos.len() as int);
        lemma_extreme_upto(pos, pivot as int, pos[0], false, pos.len() as int);
    }
    let rightmost = extreme_point::<K>(points, pivot, true);
    let leftmost = extreme_point::<K>(points, pivot, false);
    let mut candidates: Vec<usize> = Vec::new();
    let mut i: usize = 0;
    while i < points.len()
        invariant
            i <= points.len(),
            pivot < points.len(),
            pos == positions::<K>(points@),
            candidates@ == candidates_upto(pos, pivot as int, i as int),
        decreases points.len() - i,
    {
        if !K::is_same_point(&points[pivot], &points[i]) {
            candidates.push(i);
        }
        i = i + 1;
    }
    proof {
        lemma_candidates_upto(pos, pivot as int, pos.len() as int);
        assert(candidates@.subrange(0, candidates.len() as int) =~= candidates@);
        assert forall|k: int| 0 <= k < candidates.len() implies #[trigger] candidates@[k]
            < pos.len() && turn_of(pos[candidates@[k] as int], pos[rightmost as int], pos[pivot as int])
            != Orientation2D::CounterClockwise by {
            lemma_cross_swap(pos[rightmost as int], pos[candidates@[k] as int], pos[pivot as int]);
        }
    }
    let order = match sort_range::<K>(points, pivot, rightmost, &candidates, 0, candidates.len()) {
        Ok(v) => v,
        Err(e) => {
            return Err(e);
        },
    };
    proof {
        lemma_sorted_candidates(pos, pivot as int, pos[0], rightmost as int, candidates@);
        lemma_first_on_first_ray(pos, pivot as int, pos[0], rightmost as int);
    }
    let hull = match graham_scan::<K>(points, pivot, rightmost, &order, include_collinear) {
        Ok(v) => v,
        Err(e) => {
            return Err(e);
        },
    };
    let turn = K::orientation(&points[leftmost], &points[rightmost], &points[pivot]);
    proof {
        lemma_degenerate(pos, pivot as int, pos[0], leftmost as int, rightmost as int);
    }
    Ok((hull, turn == Orientation2D::Collinear))
}

/// Takes off the top of the stack the entries that lie on the line from the
/// entry below them to the first entry, and so on the edge that closes the
/// walk.
fn close_hull<K: ExactPredicates2D>(points: &[K::Point], stack: Vec<usize>) -> (hull: Vec<usize>)
    requires
        is_index_list(stack@, points.len() as int),
    ensures
        hull@ == close_up(positions::<K>(points@), stack@),
{
    let ghost pos = positions::<K>(points@);
    let mut hull = stack;
    loop
        invariant
            pos == positions::<K>(points@),
            is_index_list(hull@, points.len() as int),
            close_up(pos, hull@) == close_up(pos, stack@),
        ensures
            hull@ == close_up(pos, stack@),
        decreases hull.len(),
    {
        let count = hull.len();
        if count < 3 {
            break ;
        }
        let turn = K::orientation(&points[hull[count - 2]], &points[hull[count - 1]], &points[hull[0]]);
        if turn != Orientation2D::Collinear {
            break ;
        }
        let ghost before = hull@;
        hull.pop();
        proof {
            assert(hull@ =~= before.drop_last());
            assert forall|i: int| 0 <= i < hull@.len() implies #[trigger] hull@[i]
                < points.len() by {
                assert(hull@[i] == before[i]);
            }
        }
    }
    hull
}

/// The boundary of the convex hull of `points`, counter-clockwise from the
/// point farthest from the first one, as indices into `points`, and whether
/// the hull is degenerate: whether all points lie on one line.
///
/// With `include_collinear`, every point on the boundary lies where a corner
/// lies. Without it, the hull turns counter-clockwise at every corner: no
/// corner lies on a line with its two neighbours.
///
/// The errors that report contradicting predicates cannot occur with a kernel
/// that keeps the contract of its predicates.
pub fn convex_hull_exact_impl<K: ExactPredicates2D>(
    points: &[K::Point],
    include_collinear: bool,
) -> (r: Result<(Vec<usize>, bool), GeometryError>)
    ensures
        is_exact_hull_result::<K>(points@, include_collinear, r),
{
    if points.len() == 0 {
        return Err(GeometryError::InputIsEmpty);
    }
    let (scanned, degenerate) = match exact_hull_of::<K>(points, include_collinear) {
        Ok(found) => found,
        Err(e) => {
            return Err(e);
        },
    };
    proof {
        lemma_scanned_hull_indices(positions::<K>(points@), include_collinear);
    }
    let hull = if include_collinear {
        scanned
    } else {
        close_hull::<K>(points, scanned)
    };
    proof {
        let pos = positions::<K>(points@);
        lemma_exact_hull_indices(pos, include_collinear);
        lemma_exact_hull_encloses(pos, include_collinear);
        lemma_exact_hull_runs_around(pos, include_collinear);
        lemma_exact_hull_places_differ(pos, include_collinear);
        if !all_collinear(pos) {
            lemma_exact_hull_holds_all_points(pos, include_collinear);
            lemma_exact_hull_turns(pos, include_collinear);
            if !include_collinear {
                lemma_exact_hull_has_no_corner_between(pos);
            }
        } else {
            lemma_degenerate_hull_is_small(pos);
        }
        if include_collinear {
            lemma_exact_hull_holds_boundary(pos);
        }
    }
    Ok((hull, degenerate))
}

} // verus!
