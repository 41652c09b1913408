use vstd::prelude::*;
use crate::algorithms::convex_hull::candidate_sort::all_candidates;
use crate::algorithms::convex_hull::candidate_sort::in_order;
use crate::algorithms::convex_hull::candidate_sort::is_candidate;
use crate::algorithms::convex_hull::candidate_sort::lemma_candidates_upto;
use crate::algorithms::convex_hull::candidate_sort::lemma_entry_found;
use crate::algorithms::convex_hull::candidate_sort::lemma_order_transitive;
use crate::algorithms::convex_hull::candidate_sort::lemma_sorted_candidates;
use crate::algorithms::convex_hull::candidate_sort::lemma_sorted_entries;
use crate::algorithms::convex_hull::candidate_sort::not_after;
use crate::algorithms::convex_hull::exact_model::all_collinear;
use crate::algorithms::convex_hull::exact_model::candidates_of;
use crate::algorithms::convex_hull::exact_model::extreme_from;
use crate::algorithms::convex_hull::exact_model::farthest_from;
use crate::algorithms::convex_hull::exact_model::scan_push;
use crate::algorithms::convex_hull::exact_model::scan_upto;
use crate::algorithms::convex_hull::exact_model::scanned_hull;
use crate::algorithms::convex_hull::exact_model::sorted_candidates;
use crate::algorithms::convex_hull::hull_shape::lemma_scan_push_shape;
use crate::algorithms::convex_hull::wedge::faces;
use crate::algorithms::convex_hull::wedge::is_extreme;
use crate::algorithms::convex_hull::wedge::lemma_extreme_upto;
use crate::algorithms::convex_hull::wedge::lemma_farthest_coincides;
use crate::algorithms::convex_hull::wedge::lemma_farthest_upto;
use crate::algorithms::convex_hull::wedge::lemma_line_through;
use crate::algorithms::convex_hull::wedge::lemma_pivot_faces;
use crate::algorithms::convex_hull::wedge::lemma_start_differs;
use crate::common::plane::Position;
use crate::common::plane::cross_of;
use crate::common::plane::is_between;
use crate::common::plane::lemma_between_both;
use crate::common::plane::lemma_between_left;
use crate::common::plane::lemma_between_on_ray;
use crate::common::plane::lemma_collinear_through;
use crate::common::plane::lemma_cross_cycle;
use crate::common::plane::lemma_cross_rotate;
use crate::common::plane::lemma_cross_swap;
use crate::common::plane::lemma_cross_trivial;
use crate::common::plane::lemma_same_ray;
use crate::common::plane::lemma_three_on_line;
use crate::common::plane::lemma_wedge_transitive;

verus! {

/// The setting of the scan: all candidates face one way from the pivot, and
/// none lies clockwise of the rightmost point.
pub open spec fn around(pos: Seq<Position>, pivot: int, d: Position, rightmost: int) -> bool {
    &&& 0 <= pivot < pos.len()
    &&& faces(pos, pivot, d)
    &&& is_extreme(pos, pivot, rightmost, true)
}

/// The point at `a` lies on the ray from the pivot through the rightmost
/// point.
pub open spec fn on_first_ray(pos: Seq<Position>, pivot: int, rightmost: int, a: int) -> bool {
    cross_of(pos[a], pos[rightmost], pos[pivot]) == 0
}

/// What the order of two candidates says of where they lie: the second is
/// not clockwise of the first; if they share a ray, then on the first ray the
/// first lies between the pivot and the second, and on any other ray the
/// second lies between the pivot and the first. No candidate comes before
/// the first ray.
pub proof fn lemma_order_facts(
    pos: Seq<Position>,
    pivot: int,
    d: Position,
    rightmost: int,
    a: int,
    b: int,
)
    requires
        around(pos, pivot, d, rightmost),
        is_candidate(pos, pivot, a),
        is_candidate(pos, pivot, b),
        not_after(pos, pivot, rightmost, a, b),
    ensures
        cross_of(pos[a], pos[b], pos[pivot]) >= 0,
        cross_of(pos[b], pos[a], pos[pivot]) <= 0,
        cross_of(pos[a], pos[b], pos[pivot]) == 0 ==> (on_first_ray(pos, pivot, rightmost, a)
            <==> on_first_ray(pos, pivot, rightmost, b)),
        cross_of(pos[a], pos[b], pos[pivot]) == 0 && on_first_ray(pos, pivot, rightmost, a)
            ==> is_between(pos[pivot], pos[b], pos[a]),
        cross_of(pos[a], pos[b], pos[pivot]) == 0 && !on_first_ray(pos, pivot, rightmost, a)
            ==> is_between(pos[pivot], pos[a], pos[b]),
        on_first_ray(pos, pivot, rightmost, b) ==> cross_of(pos[a], pos[b], pos[pivot]) == 0,
{
    let p = pos[pivot];
    let r = pos[rightmost];
    lemma_cross_swap(pos[a], pos[b], p);
    if cross_of(pos[a], pos[b], p) == 0 {
        if cross_of(pos[a], r, p) == 0 {
            lemma_collinear_through(pos[a], pos[b], r, d, p);
            lemma_same_ray(pos[a], pos[b], d, p);
            lemma_between_on_ray(pos[a], pos[b], p);
        } else {
            if cross_of(pos[b], r, p) == 0 {
                lemma_collinear_through(pos[b], pos[a], r, d, p);
            }
            lemma_same_ray(pos[b], pos[a], d, p);
            lemma_between_on_ray(pos[b], pos[a], p);
        }
    }
    if on_first_ray(pos, pivot, rightmost, b) {
        lemma_cross_swap(pos[b], r, p);
        assert(cross_of(r, pos[a], p) >= 0);
        lemma_wedge_transitive(pos[b], r, pos[a], d, p);
    }
}

/// A candidate that the order places between two candidates at one place
/// lies at that place.
pub proof fn lemma_order_sandwich(
    pos: Seq<Position>,
    pivot: int,
    d: Position,
    rightmost: int,
    a: int,
    b: int,
    c: int,
)
    requires
        around(pos, pivot, d, rightmost),
        is_candidate(pos, pivot, a),
        is_candidate(pos, pivot, b),
        is_candidate(pos, pivot, c),
        not_after(pos, pivot, rightmost, a, b),
        not_after(pos, pivot, rightmost, b, c),
        pos[a] == pos[c],
    ensures
        pos[b] == pos[a],
{
    let p = pos[pivot];
    lemma_order_facts(pos, pivot, d, rightmost, a, b);
    lemma_order_facts(pos, pivot, d, rightmost, b, c);
    lemma_cross_swap(pos[a], pos[b], p);
    if on_first_ray(pos, pivot, rightmost, a) {
        lemma_between_both(p, pos[a], pos[b]);
    } else {
        lemma_between_both(p, pos[b], pos[a]);
    }
}

/// Along a chain that turns left, a point that comes later in the order and
/// lies left of one edge lies left of the edge before it.
#[verifier::rlimit(50)]
pub proof fn lemma_chain_left(
    pos: Seq<Position>,
    pivot: int,
    d: Position,
    rightmost: int,
    a: int,
    b: int,
    e: int,
    x: int,
)
    requires
        around(pos, pivot, d, rightmost),
        is_candidate(pos, pivot, b),
        is_candidate(pos, pivot, e),
        is_candidate(pos, pivot, x),
        a == pivot || (is_candidate(pos, pivot, a) && not_after(pos, pivot, rightmost, a, b)),
        not_after(pos, pivot, rightmost, b, e),
        not_after(pos, pivot, rightmost, e, x),
        pos[b] != pos[e],
        cross_of(pos[a], pos[b], pos[e]) >= 0,
        cross_of(pos[b], pos[e], pos[x]) >= 0,
    ensures
        cross_of(pos[a], pos[b], pos[x]) >= 0,
{
    let p = pos[pivot];
    let pa = pos[a];
    let pb = pos[b];
    let pe = pos[e];
    let px = pos[x];
    lemma_order_transitive(pos, pivot, d, rightmost, b, e, x);
    lemma_order_facts(pos, pivot, d, rightmost, b, e);
    lemma_order_facts(pos, pivot, d, rightmost, e, x);
    lemma_order_facts(pos, pivot, d, rightmost, b, x);
    // (x, p, b) and (b, x, p) name one cross product
    lemma_cross_rotate(pb, px, p);
    let v = cross_of(px, p, pb);
    assert(v == cross_of(pb, px, p));
    // the aim, seen from b
    lemma_cross_rotate(pa, pb, px);
    lemma_cross_rotate(pb, px, pa);
    let t = cross_of(px, pa, pb);
    assert(t == cross_of(pa, pb, px));
    if a == pivot {
        lemma_cross_rotate(p, pb, px);
    } else {
        lemma_order_facts(pos, pivot, d, rightmost, a, b);
        let u = cross_of(pb, pe, p);
        if u > 0 {
            lemma_cross_cycle(px, p, pa, pe, pb);
            lemma_cross_rotate(pa, pe, pb);
            lemma_cross_rotate(pe, pb, pa);
            lemma_cross_swap(pb, pa, pe);
            let abe = cross_of(pa, pb, pe);
            assert(cross_of(pa, pe, pb) == -abe);
            lemma_cross_rotate(pa, pb, p);
            lemma_cross_rotate(pb, p, pa);
            let abp = cross_of(pa, pb, p);
            assert(cross_of(p, pa, pb) == abp);
            lemma_cross_rotate(px, pe, pb);
            lemma_cross_swap(pe, pb, px);
            let bex = cross_of(pb, pe, px);
            assert(cross_of(px, pe, pb) == -bex);
            lemma_cross_swap(pa, px, pb);
            assert(cross_of(pa, px, pb) == -t);
            lemma_cross_rotate(p, pe, pb);
            lemma_cross_swap(pe, pb, p);
            assert(cross_of(p, pe, pb) == -u);
            assert(t * u == v * abe + abp * bex) by (nonlinear_arith)
                requires
                    v * (-abe) + abp * (-bex) + (-t) * (-u) == 0,
            ;
            assert(v * abe >= 0) by (nonlinear_arith)
                requires
                    v >= 0,
                    abe >= 0,
            ;
            assert(abp * bex >= 0) by (nonlinear_arith)
                requires
                    abp >= 0,
                    bex >= 0,
            ;
            assert(t >= 0) by (nonlinear_arith)
                requires
                    t * u >= 0,
                    u > 0,
            ;
        } else {
            if on_first_ray(pos, pivot, rightmost, b) {
                lemma_between_left(p, pb, pa, px);
            } else {
                lemma_cross_rotate(px, pe, pb);
                lemma_cross_swap(pe, pb, px);
                lemma_between_left(p, pb, pe, px);
                assert(v == 0);
                lemma_between_left(p, pb, px, pa);
                lemma_cross_rotate(pa, pb, p);
                lemma_cross_rotate(pb, p, pa);
                lemma_cross_swap(pa, p, pb);
                lemma_cross_swap(pa, px, pb);
            }
        }
    }
}

/// The edge from a kept entry `s` to the new candidate `c` has on its left
/// every candidate `q` that lies between the two in the order, if `q` lies
/// left of the edge from `s` to the entry `f` above it and `c` does not lie
/// strictly left of that edge.
#[verifier::rlimit(50)]
pub proof fn lemma_new_edge_after(
    pos: Seq<Position>,
    pivot: int,
    d: Position,
    rightmost: int,
    s: int,
    f: int,
    c: int,
    q: int,
)
    requires
        around(pos, pivot, d, rightmost),
        is_candidate(pos, pivot, s),
        is_candidate(pos, pivot, f),
        is_candidate(pos, pivot, c),
        is_candidate(pos, pivot, q),
        not_after(pos, pivot, rightmost, s, f),
        not_after(pos, pivot, rightmost, f, c),
        not_after(pos, pivot, rightmost, s, q),
        not_after(pos, pivot, rightmost, q, c),
        pos[s] != pos[f],
        cross_of(pos[s], pos[f], pos[q]) >= 0,
        cross_of(pos[s], pos[f], pos[c]) <= 0,
    ensures
        cross_of(pos[s], pos[c], pos[q]) >= 0,
{
    let p = pos[pivot];
    let ps = pos[s];
    let pf = pos[f];
    let pc = pos[c];
    let pq = pos[q];
    lemma_order_transitive(pos, pivot, d, rightmost, s, f, c);
    lemma_order_facts(pos, pivot, d, rightmost, s, f);
    lemma_order_facts(pos, pivot, d, rightmost, f, c);
    lemma_order_facts(pos, pivot, d, rightmost, s, q);
    lemma_order_facts(pos, pivot, d, rightmost, q, c);
    lemma_order_facts(pos, pivot, d, rightmost, s, c);
    // the aim, seen from s
    lemma_cross_rotate(ps, pc, pq);
    let t = cross_of(pc, pq, ps);
    assert(t == cross_of(ps, pc, pq));
    lemma_cross_rotate(ps, pf, p);
    let u = cross_of(pf, p, ps);
    assert(u == cross_of(ps, pf, p));
    lemma_cross_rotate(ps, pq, p);
    let sqp = cross_of(pq, p, ps);
    assert(sqp == cross_of(ps, pq, p));
    lemma_cross_rotate(ps, pc, p);
    let scp = cross_of(pc, p, ps);
    assert(scp == cross_of(ps, pc, p));
    lemma_cross_rotate(ps, pf, pq);
    let sfq = cross_of(pf, pq, ps);
    assert(sfq == cross_of(ps, pf, pq));
    lemma_cross_rotate(ps, pf, pc);
    lemma_cross_swap(pf, pc, ps);
    let cfs = cross_of(pc, pf, ps);
    assert(cfs == -cross_of(ps, pf, pc));
    if u > 0 {
        lemma_cross_cycle(pc, pf, pq, p, ps);
        lemma_cross_swap(pq, pc, ps);
        assert(t * u == cfs * sqp + sfq * scp) by (nonlinear_arith)
            requires
                cfs * sqp + sfq * scp + (-t) * u == 0,
        ;
        assert(cfs * sqp >= 0) by (nonlinear_arith)
            requires
                cfs >= 0,
                sqp >= 0,
        ;
        assert(sfq * scp >= 0) by (nonlinear_arith)
            requires
                sfq >= 0,
                scp >= 0,
        ;
        assert(t >= 0) by (nonlinear_arith)
            requires
                t * u >= 0,
                u > 0,
        ;
    } else {
        if on_first_ray(pos, pivot, rightmost, s) {
            // s lies between the pivot and f; c cannot come before the ray
            lemma_cross_rotate(pf, pc, ps);
            lemma_between_left(p, pf, ps, pc);
            lemma_cross_rotate(pf, pc, p);
            assert(cross_of(pf, pc, p) == 0);
            let r = pos[rightmost];
            lemma_cross_swap(ps, r, p);
            lemma_cross_swap(pc, r, p);
            lemma_cross_swap(pq, r, p);
            lemma_three_on_line(p, r, ps, pc, pq);
        } else {
            // f lies between the pivot and s; q must lie on the ray
            lemma_cross_swap(pq, pf, ps);
            lemma_between_left(p, ps, pf, pq);
            assert(sqp == 0);
            lemma_between_left(p, ps, pq, pc);
        }
    }
}

/// The edge from a kept entry `s` to the new candidate `c` has on its left
/// every candidate `q` that comes before `s` in the order, if `q` and `c`
/// both lie left of the edge from the entry `a` below `s` to `s`.
#[verifier::rlimit(50)]
pub proof fn lemma_new_edge_before(
    pos: Seq<Position>,
    pivot: int,
    d: Position,
    rightmost: int,
    a: int,
    s: int,
    c: int,
    q: int,
)
    requires
        around(pos, pivot, d, rightmost),
        is_candidate(pos, pivot, s),
        is_candidate(pos, pivot, c),
        is_candidate(pos, pivot, q),
        (a == pivot && on_first_ray(pos, pivot, rightmost, s)) || (is_candidate(pos, pivot, a)
            && not_after(pos, pivot, rightmost, a, s) && pos[a] != pos[s]),
        not_after(pos, pivot, rightmost, q, s),
        not_after(pos, pivot, rightmost, s, c),
        pos[s] != pos[c],
        cross_of(pos[a], pos[s], pos[q]) >= 0,
        cross_of(pos[a], pos[s], pos[c]) >= 0,
    ensures
        cross_of(pos[s], pos[c], pos[q]) >= 0,
{
    let p = pos[pivot];
    let pa = pos[a];
    let ps = pos[s];
    let pc = pos[c];
    let pq = pos[q];
    lemma_order_facts(pos, pivot, d, rightmost, q, s);
    lemma_order_facts(pos, pivot, d, rightmost, s, c);
    // the aim, seen from s
    lemma_cross_rotate(ps, pc, pq);
    let t = cross_of(pc, pq, ps);
    assert(t == cross_of(ps, pc, pq));
    lemma_cross_rotate(ps, pc, p);
    let scp = cross_of(pc, p, ps);
    assert(scp == cross_of(ps, pc, p));
    lemma_cross_rotate(pq, ps, p);
    lemma_cross_rotate(ps, p, pq);
    let qsp = cross_of(p, pq, ps);
    assert(qsp == cross_of(pq, ps, p));
    lemma_cross_swap(pq, p, ps);
    if a == pivot {
        lemma_cross_rotate(p, ps, pq);
        lemma_cross_swap(ps, pq, p);
        assert(cross_of(pq, ps, p) == 0);
        lemma_between_left(p, ps, pq, pc);
    } else {
        lemma_order_facts(pos, pivot, d, rightmost, a, s);
        lemma_order_transitive(pos, pivot, d, rightmost, a, s, c);
        lemma_order_facts(pos, pivot, d, rightmost, a, c);
        lemma_cross_rotate(pa, ps, p);
        lemma_cross_rotate(ps, p, pa);
        let u = cross_of(p, pa, ps);
        assert(u == cross_of(pa, ps, p));
        lemma_cross_rotate(pa, ps, pq);
        lemma_cross_rotate(ps, pq, pa);
        let asq = cross_of(pq, pa, ps);
        assert(asq == cross_of(pa, ps, pq));
        lemma_cross_rotate(pa, ps, pc);
        lemma_cross_rotate(ps, pc, pa);
        let asc = cross_of(pc, pa, ps);
        assert(asc == cross_of(pa, ps, pc));
        if u > 0 {
            lemma_cross_cycle(pc, p, pq, pa, ps);
            lemma_cross_swap(pq, pc, ps);
            assert(t * u == scp * asq + qsp * asc) by (nonlinear_arith)
                requires
                    scp * asq + qsp * asc + (-t) * u == 0,
            ;
            assert(scp * asq >= 0) by (nonlinear_arith)
                requires
                    scp >= 0,
                    asq >= 0,
            ;
            assert(qsp * asc >= 0) by (nonlinear_arith)
                requires
                    qsp >= 0,
                    asc >= 0,
            ;
            assert(t >= 0) by (nonlinear_arith)
                requires
                    t * u >= 0,
                    u > 0,
            ;
        } else {
            if on_first_ray(pos, pivot, rightmost, a) {
                // q cannot come before the ray, so it lies between the pivot and s
                lemma_between_left(p, ps, pq, pc);
            } else {
                // s lies between the pivot and a; c must lie on the ray
                lemma_cross_swap(ps, pc, pa);
                lemma_cross_rotate(pc, ps, pa);
                lemma_cross_swap(pc, ps, pa);
                lemma_between_left(p, pa, ps, pc);
                lemma_cross_rotate(pa, pc, p);
                assert(cross_of(pa, pc, p) == 0);
                lemma_cross_swap(pa, ps, p);
                lemma_collinear_through(pa, ps, pc, d, p);
                assert(cross_of(ps, pc, p) == 0);
                lemma_between_left(p, ps, pc, pq);
                lemma_cross_swap(pq, pc, ps);
            }
        }
    }
}

/// The setting of the scan together with its input: the candidates in
/// order, the first of them on the first ray.
pub open spec fn scan_setting(
    pos: Seq<Position>,
    pivot: int,
    d: Position,
    rightmost: int,
    order: Seq<usize>,
) -> bool {
    &&& around(pos, pivot, d, rightmost)
    &&& pos.len() <= usize::MAX
    &&& order.len() >= 1
    &&& all_candidates(pos, pivot, order)
    &&& in_order(pos, pivot, rightmost, order)
    &&& cross_of(pos[rightmost], pos[order[0] as int], pos[pivot]) == 0
}

/// Above the pivot the stack holds candidates from increasing places of the
/// order, all among the first `k`.
pub open spec fn stack_from_order(
    pivot: int,
    order: Seq<usize>,
    stack: Seq<usize>,
    places: Seq<int>,
    k: int,
) -> bool {
    &&& stack.len() == places.len() + 1
    &&& places.len() >= 1
    &&& stack[0] == pivot
    &&& forall|i: int|
        0 <= i < places.len() ==> 0 <= #[trigger] places[i] < k && stack[i + 1]
            == order[places[i]]
    &&& forall|i: int, j: int|
        0 <= i < j < places.len() ==> #[trigger] places[i] < #[trigger] places[j]
}

/// The entries `i` and `i + 1` of the stack lie at different places.
pub open spec fn apart(pos: Seq<Position>, stack: Seq<usize>, i: int) -> bool {
    pos[stack[i] as int] != pos[stack[i + 1] as int]
}

/// The candidate at place `l` of the order lies left of, or on, the edge
/// from entry `i` of the stack to entry `i + 1`.
pub open spec fn left_of_edge(
    pos: Seq<Position>,
    stack: Seq<usize>,
    order: Seq<usize>,
    i: int,
    l: int,
) -> bool {
    cross_of(pos[stack[i] as int], pos[stack[i + 1] as int], pos[order[l] as int]) >= 0
}

/// Neighbours on the stack lie at different places.
pub open spec fn neighbours_apart(pos: Seq<Position>, stack: Seq<usize>) -> bool {
    forall|i: int| 0 <= i < stack.len() - 1 ==> #[trigger] apart(pos, stack, i)
}

/// Each of the first `k` candidates lies left of, or on, every edge between
/// neighbours on the stack.
pub open spec fn edges_hold(
    pos: Seq<Position>,
    stack: Seq<usize>,
    order: Seq<usize>,
    k: int,
) -> bool {
    forall|i: int, l: int|
        0 <= i < stack.len() - 1 && 0 <= l < k ==> #[trigger] left_of_edge(pos, stack, order, i, l)
}

/// What holds of the stack after the first `k` candidates have been looked
/// at: above the pivot it holds candidates from increasing places of the
/// order; its top lies where the last candidate looked at lies; its second
/// entry lies on the first ray; neighbours on the stack lie at different
/// places; and every candidate looked at lies left of, or on, every edge
/// between neighbours.
pub open spec fn scan_invariant(
    pos: Seq<Position>,
    pivot: int,
    rightmost: int,
    order: Seq<usize>,
    stack: Seq<usize>,
    places: Seq<int>,
    k: int,
) -> bool {
    &&& stack_from_order(pivot, order, stack, places, k)
    &&& pos[stack[stack.len() - 1] as int] == pos[order[k - 1] as int]
    &&& cross_of(pos[rightmost], pos[stack[1] as int], pos[pivot]) == 0
    &&& neighbours_apart(pos, stack)
    &&& edges_hold(pos, stack, order, k)
}

/// An entry of the stack above the pivot is a candidate.
pub proof fn lemma_stack_entry(
    pos: Seq<Position>,
    pivot: int,
    order: Seq<usize>,
    stack: Seq<usize>,
    places: Seq<int>,
    k: int,
    i: int,
)
    requires
        all_candidates(pos, pivot, order),
        stack_from_order(pivot, order, stack, places, k),
        1 <= k <= order.len(),
        1 <= i < stack.len(),
    ensures
        is_candidate(pos, pivot, stack[i] as int),
        stack[i] == order[places[i - 1]],
        0 <= places[i - 1] < k,
        i >= 2 ==> places[i - 2] < places[i - 1],
{
    assert(0 <= places[i - 1] < k && stack[i - 1 + 1] == order[places[i - 1]]);
    assert(is_candidate(pos, pivot, order[places[i - 1]] as int));
}

/// Two entries of the order: the earlier one does not come after the later.
pub proof fn lemma_places_ordered(
    pos: Seq<Position>,
    pivot: int,
    rightmost: int,
    order: Seq<usize>,
    i: int,
    j: int,
)
    requires
        in_order(pos, pivot, rightmost, order),
        0 <= i < j < order.len(),
    ensures
        not_after(pos, pivot, rightmost, order[i] as int, order[j] as int),
{
}

/// The new candidate lies left of, or on, every edge of the stack below the
/// entry on which it comes to lie.
#[verifier::rlimit(50)]
proof fn lemma_old_edge_left(
    pos: Seq<Position>,
    pivot: int,
    d: Position,
    rightmost: int,
    order: Seq<usize>,
    stack: Seq<usize>,
    places: Seq<int>,
    k: int,
    kept: int,
    i: int,
)
    requires
        scan_setting(pos, pivot, d, rightmost, order),
        stack_from_order(pivot, order, stack, places, k - 1),
        neighbours_apart(pos, stack),
        edges_hold(pos, stack, order, k - 1),
        2 <= k <= order.len(),
        1 <= kept <= stack.len(),
        kept >= 2 ==> cross_of(
            pos[stack[kept - 2] as int],
            pos[stack[kept - 1] as int],
            pos[order[k - 1] as int],
        ) >= 0,
        0 <= i < kept - 1,
    ensures
        cross_of(pos[stack[i] as int], pos[stack[i + 1] as int], pos[order[k - 1] as int]) >= 0,
    decreases kept - i,
{
    if i < kept - 2 {
        lemma_old_edge_left(pos, pivot, d, rightmost, order, stack, places, k, kept, i + 1);
        let a = stack[i] as int;
        let b = stack[i + 1] as int;
        let e = stack[i + 2] as int;
        let x = order[k - 1] as int;
        lemma_stack_entry(pos, pivot, order, stack, places, k - 1, i + 1);
        lemma_stack_entry(pos, pivot, order, stack, places, k - 1, i + 2);
        assert(is_candidate(pos, pivot, x));
        lemma_places_ordered(pos, pivot, rightmost, order, places[i], places[i + 1]);
        lemma_places_ordered(pos, pivot, rightmost, order, places[i + 1], k - 1);
        if i > 0 {
            lemma_stack_entry(pos, pivot, order, stack, places, k - 1, i);
            lemma_places_ordered(pos, pivot, rightmost, order, places[i - 1], places[i]);
        }
        assert(apart(pos, stack, i + 1));
        assert(left_of_edge(pos, stack, order, i, places[i + 1]));
        lemma_chain_left(pos, pivot, d, rightmost, a, b, e, x);
    }
}

/// Every candidate looked at before lies left of, or on, the edge from the
/// entry on which the new candidate comes to lie to the new candidate.
#[verifier::rlimit(50)]
proof fn lemma_new_edge_left(
    pos: Seq<Position>,
    pivot: int,
    d: Position,
    rightmost: int,
    order: Seq<usize>,
    stack: Seq<usize>,
    places: Seq<int>,
    k: int,
    kept: int,
    l: int,
)
    requires
        scan_setting(pos, pivot, d, rightmost, order),
        scan_invariant(pos, pivot, rightmost, order, stack, places, k - 1),
        2 <= k <= order.len(),
        1 <= kept <= stack.len(),
        pos[order[k - 1] as int] != pos[stack[stack.len() - 1] as int],
        pos[order[k - 1] as int] != pos[stack[kept - 1] as int],
        kept >= 2 ==> cross_of(
            pos[stack[kept - 2] as int],
            pos[stack[kept - 1] as int],
            pos[order[k - 1] as int],
        ) >= 0,
        kept < stack.len() ==> cross_of(
            pos[stack[kept - 1] as int],
            pos[stack[kept] as int],
            pos[order[k - 1] as int],
        ) <= 0,
        0 <= l < k - 1,
    ensures
        cross_of(pos[stack[kept - 1] as int], pos[order[k - 1] as int], pos[order[l] as int]) >= 0,
{
    let p = pos[pivot];
    let c = order[k - 1] as int;
    let q = order[l] as int;
    let j = kept - 1;
    let s = stack[j] as int;
    assert(is_candidate(pos, pivot, c));
    assert(is_candidate(pos, pivot, q));
    lemma_places_ordered(pos, pivot, rightmost, order, l, k - 1);
    if j == 0 {
        // the stack is taken down to the pivot: all lies on the first ray
        let s1 = stack[1] as int;
        lemma_stack_entry(pos, pivot, order, stack, places, k - 1, 1);
        lemma_places_ordered(pos, pivot, rightmost, order, places[0], k - 1);
        lemma_order_facts(pos, pivot, d, rightmost, s1, c);
        lemma_cross_rotate(p, pos[s1], pos[c]);
        lemma_cross_swap(pos[rightmost], pos[s1], p);
        assert(on_first_ray(pos, pivot, rightmost, c));
        lemma_order_facts(pos, pivot, d, rightmost, q, c);
        lemma_cross_rotate(p, pos[c], pos[q]);
        lemma_cross_swap(pos[c], pos[q], p);
    } else {
        lemma_stack_entry(pos, pivot, order, stack, places, k - 1, j);
        let place = places[j - 1];
        lemma_places_ordered(pos, pivot, rightmost, order, place, k - 1);
        if l == place {
            lemma_cross_trivial(pos[c], pos[s]);
        } else if l < place {
            let a = stack[j - 1] as int;
            lemma_places_ordered(pos, pivot, rightmost, order, l, place);
            if j == 1 {
                lemma_cross_swap(pos[rightmost], pos[s], p);
            } else {
                lemma_stack_entry(pos, pivot, order, stack, places, k - 1, j - 1);
                lemma_places_ordered(pos, pivot, rightmost, order, places[j - 2], place);
                assert(apart(pos, stack, j - 1));
            }
            assert(left_of_edge(pos, stack, order, j - 1, l));
            lemma_new_edge_before(pos, pivot, d, rightmost, a, s, c, q);
        } else {
            lemma_places_ordered(pos, pivot, rightmost, order, place, l);
            if kept == stack.len() {
                // nothing is taken off: what came after the top lies where it lies
                if l < k - 2 {
                    lemma_places_ordered(pos, pivot, rightmost, order, l, k - 2);
                    assert(is_candidate(pos, pivot, order[k - 2] as int));
                    lemma_order_sandwich(pos, pivot, d, rightmost, s, q, order[k - 2] as int);
                }
                assert(pos[q] == pos[s]);
                lemma_cross_trivial(pos[c], pos[s]);
            } else {
                let f = stack[j + 1] as int;
                lemma_stack_entry(pos, pivot, order, stack, places, k - 1, j + 1);
                lemma_places_ordered(pos, pivot, rightmost, order, place, places[j]);
                lemma_places_ordered(pos, pivot, rightmost, order, places[j], k - 1);
                assert(apart(pos, stack, j));
                assert(left_of_edge(pos, stack, order, j, l));
                lemma_new_edge_after(pos, pivot, d, rightmost, s, f, c, q);
            }
        }
    }
}

/// After a push the stack still holds candidates from increasing places.
proof fn lemma_push_places(
    pivot: int,
    order: Seq<usize>,
    stack: Seq<usize>,
    before: Seq<int>,
    k: int,
    kept: int,
)
    requires
        stack_from_order(pivot, order, stack, before, k - 1),
        2 <= k <= order.len(),
        1 <= kept <= stack.len(),
    ensures
        stack_from_order(
            pivot,
            order,
            stack.take(kept).push(order[k - 1]),
            before.take(kept - 1).push(k - 1),
            k,
        ),
{
    let after = stack.take(kept).push(order[k - 1]);
    let places = before.take(kept - 1).push(k - 1);
    assert forall|i: int| 0 <= i < places.len() implies 0 <= #[trigger] places[i] < k && after[i
        + 1] == order[places[i]] by {
        if i < kept - 1 {
            assert(places[i] == before[i]);
            assert(after[i + 1] == stack[i + 1]);
        }
    }
    assert forall|i: int, j: int| 0 <= i < j < places.len() implies #[trigger] places[i]
        < #[trigger] places[j] by {
        assert(places[i] == before[i]);
        if j < kept - 1 {
            assert(places[j] == before[j]);
        }
    }
}

/// The candidate that is pushed does not lie where the entry lies on which
/// it comes to lie.
proof fn lemma_push_apart(
    pos: Seq<Position>,
    pivot: int,
    d: Position,
    rightmost: int,
    order: Seq<usize>,
    stack: Seq<usize>,
    before: Seq<int>,
    k: int,
    kept: int,
)
    requires
        scan_setting(pos, pivot, d, rightmost, order),
        stack_from_order(pivot, order, stack, before, k - 1),
        2 <= k <= order.len(),
        1 <= kept <= stack.len(),
        pos[order[k - 1] as int] != pos[stack[stack.len() - 1] as int],
    ensures
        pos[order[k - 1] as int] != pos[stack[kept - 1] as int],
{
    let c = order[k - 1] as int;
    let top = stack[kept - 1] as int;
    assert(is_candidate(pos, pivot, c));
    if 1 < kept < stack.len() && pos[c] == pos[top] {
        let last = stack[stack.len() - 1] as int;
        lemma_stack_entry(pos, pivot, order, stack, before, k - 1, kept - 1);
        lemma_stack_entry(pos, pivot, order, stack, before, k - 1, stack.len() - 1);
        assert(before[kept - 2] < before[stack.len() - 2]);
        lemma_places_ordered(pos, pivot, rightmost, order, before[kept - 2], before[stack.len() - 2]);
        lemma_places_ordered(pos, pivot, rightmost, order, before[stack.len() - 2], k - 1);
        lemma_order_sandwich(pos, pivot, d, rightmost, top, last, c);
    }
}

/// A candidate that is pushed onto the pivot lies on the first ray.
proof fn lemma_push_first_ray(
    pos: Seq<Position>,
    pivot: int,
    d: Position,
    rightmost: int,
    order: Seq<usize>,
    stack: Seq<usize>,
    before: Seq<int>,
    k: int,
)
    requires
        scan_setting(pos, pivot, d, rightmost, order),
        stack_from_order(pivot, order, stack, before, k - 1),
        cross_of(pos[rightmost], pos[stack[1] as int], pos[pivot]) == 0,
        2 <= k <= order.len(),
        cross_of(pos[stack[0] as int], pos[stack[1] as int], pos[order[k - 1] as int]) <= 0,
    ensures
        cross_of(pos[rightmost], pos[order[k - 1] as int], pos[pivot]) == 0,
{
    let p = pos[pivot];
    let c = order[k - 1] as int;
    let s1 = stack[1] as int;
    assert(is_candidate(pos, pivot, c));
    lemma_stack_entry(pos, pivot, order, stack, before, k - 1, 1);
    lemma_places_ordered(pos, pivot, rightmost, order, before[0], k - 1);
    lemma_order_facts(pos, pivot, d, rightmost, s1, c);
    lemma_cross_rotate(p, pos[s1], pos[c]);
    lemma_cross_swap(pos[rightmost], pos[s1], p);
    lemma_cross_swap(pos[rightmost], pos[c], p);
}

/// After a push every candidate looked at lies left of, or on, every edge.
#[verifier::rlimit(50)]
proof fn lemma_push_edges(
    pos: Seq<Position>,
    pivot: int,
    d: Position,
    rightmost: int,
    order: Seq<usize>,
    stack: Seq<usize>,
    before: Seq<int>,
    k: int,
    kept: int,
)
    requires
        scan_setting(pos, pivot, d, rightmost, order),
        scan_invariant(pos, pivot, rightmost, order, stack, before, k - 1),
        2 <= k <= order.len(),
        1 <= kept <= stack.len(),
        pos[order[k - 1] as int] != pos[stack[stack.len() - 1] as int],
        pos[order[k - 1] as int] != pos[stack[kept - 1] as int],
        kept >= 2 ==> cross_of(
            pos[stack[kept - 2] as int],
            pos[stack[kept - 1] as int],
            pos[order[k - 1] as int],
        ) >= 0,
        kept < stack.len() ==> cross_of(
            pos[stack[kept - 1] as int],
            pos[stack[kept] as int],
            pos[order[k - 1] as int],
        ) <= 0,
    ensures
        edges_hold(pos, stack.take(kept).push(order[k - 1]), order, k),
        neighbours_apart(pos, stack.take(kept).push(order[k - 1])),
{
    let c = order[k - 1];
    let after = stack.take(kept).push(c);
    assert forall|i: int, l: int| 0 <= i < after.len() - 1 && 0 <= l < k implies #[trigger] left_of_edge(
        pos,
        after,
        order,
        i,
        l,
    ) by {
        assert(after[i] == stack[i]);
        if i < kept - 1 {
            assert(after[i + 1] == stack[i + 1]);
            if l < k - 1 {
                assert(left_of_edge(pos, stack, order, i, l));
            } else {
                lemma_old_edge_left(pos, pivot, d, rightmost, order, stack, before, k, kept, i);
            }
        } else {
            assert(after[i + 1] == c);
            if l < k - 1 {
                lemma_new_edge_left(pos, pivot, d, rightmost, order, stack, before, k, kept, l);
            } else {
                lemma_cross_trivial(pos[stack[kept - 1] as int], pos[c as int]);
            }
        }
    }
    assert forall|i: int| 0 <= i < after.len() - 1 implies #[trigger] apart(pos, after, i) by {
        assert(after[i] == stack[i]);
        if i < kept - 1 {
            assert(after[i + 1] == stack[i + 1]);
            assert(apart(pos, stack, i));
        } else {
            assert(after[i + 1] == c);
        }
    }
}

/// Pushing a candidate that does not lie where the top of the stack lies
/// keeps what holds of the stack.
#[verifier::rlimit(50)]
pub proof fn lemma_push_keeps_invariant(
    pos: Seq<Position>,
    pivot: int,
    d: Position,
    rightmost: int,
    order: Seq<usize>,
    include_collinear: bool,
    stack: Seq<usize>,
    before: Seq<int>,
    k: int,
) -> (places: Seq<int>)
    requires
        scan_setting(pos, pivot, d, rightmost, order),
        scan_invariant(pos, pivot, rightmost, order, stack, before, k - 1),
        2 <= k <= order.len(),
        pos[order[k - 1] as int] != pos[stack[stack.len() - 1] as int],
    ensures
        scan_invariant(
            pos,
            pivot,
            rightmost,
            order,
            scan_push(pos, stack, order[k - 1], include_collinear),
            places,
            k,
        ),
        places.last() == k - 1,
{
    let c = order[k - 1];
    let kept = lemma_scan_push_shape(pos, stack, c, include_collinear);
    let after = stack.take(kept).push(c);
    let places = before.take(kept - 1).push(k - 1);
    if kept >= 2 {
        lemma_cross_rotate(pos[stack[kept - 2] as int], pos[stack[kept - 1] as int], pos[c as int]);
    }
    if kept < stack.len() {
        lemma_cross_rotate(pos[stack[kept - 1] as int], pos[stack[kept] as int], pos[c as int]);
    }
    lemma_push_places(pivot, order, stack, before, k, kept);
    lemma_push_apart(pos, pivot, d, rightmost, order, stack, before, k, kept);
    lemma_push_edges(pos, pivot, d, rightmost, order, stack, before, k, kept);
    if kept == 1 {
        lemma_push_first_ray(pos, pivot, d, rightmost, order, stack, before, k);
        assert(after[1] == c);
    } else {
        assert(after[1] == stack[1]);
    }
    assert(after[after.len() - 1] == c);
    places
}

/// Passing over a candidate that lies where the top of the stack lies keeps
/// what holds of the stack.
pub proof fn lemma_skip_keeps_invariant(
    pos: Seq<Position>,
    pivot: int,
    rightmost: int,
    order: Seq<usize>,
    stack: Seq<usize>,
    places: Seq<int>,
    k: int,
)
    requires
        all_candidates(pos, pivot, order),
        scan_invariant(pos, pivot, rightmost, order, stack, places, k - 1),
        2 <= k <= order.len(),
        pos[order[k - 1] as int] == pos[stack[stack.len() - 1] as int],
    ensures
        scan_invariant(pos, pivot, rightmost, order, stack, places, k),
{
    lemma_stack_entry(pos, pivot, order, stack, places, k - 1, stack.len() - 1);
    let place = places[stack.len() - 2];
    assert forall|i: int, l: int| 0 <= i < stack.len() - 1 && 0 <= l < k implies #[trigger] left_of_edge(
        pos,
        stack,
        order,
        i,
        l,
    ) by {
        if l == k - 1 {
            assert(left_of_edge(pos, stack, order, i, place));
        } else {
            assert(left_of_edge(pos, stack, order, i, l));
        }
    }
    assert forall|i: int| 0 <= i < places.len() implies 0 <= #[trigger] places[i] < k && stack[i
        + 1] == order[places[i]] by {}
}

/// What holds of the stack holds after every number of candidates looked at.
#[verifier::rlimit(50)]
pub proof fn lemma_scan_invariant(
    pos: Seq<Position>,
    pivot: int,
    d: Position,
    rightmost: int,
    order: Seq<usize>,
    include_collinear: bool,
    k: int,
) -> (places: Seq<int>)
    requires
        scan_setting(pos, pivot, d, rightmost, order),
        1 <= k <= order.len(),
    ensures
        scan_invariant(
            pos,
            pivot,
            rightmost,
            order,
            scan_upto(pos, pivot, order, include_collinear, k),
            places,
            k,
        ),
    decreases k,
{
    let p = pos[pivot];
    if k == 1 {
        let start = scan_upto(pos, pivot, order, include_collinear, 0);
        assert(start == seq![pivot as usize, order[0]]);
        assert(start.last() == order[0]);
        assert(scan_upto(pos, pivot, order, include_collinear, 1) == start);
        assert(is_candidate(pos, pivot, order[0] as int));
        lemma_cross_trivial(p, pos[order[0] as int]);
        let places = seq![0int];
        assert forall|i: int, l: int| 0 <= i < start.len() - 1 && 0 <= l < 1 implies #[trigger] left_of_edge(
            pos,
            start,
            order,
            i,
            l,
        ) by {}
        assert forall|i: int| 0 <= i < start.len() - 1 implies #[trigger] apart(pos, start, i) by {}
        places
    } else {
        let before = lemma_scan_invariant(pos, pivot, d, rightmost, order, include_collinear, k - 1);
        let stack = scan_upto(pos, pivot, order, include_collinear, k - 1);
        let c = order[k - 1];
        if pos[c as int] == pos[stack.last() as int] {
            lemma_skip_keeps_invariant(pos, pivot, rightmost, order, stack, before, k);
            before
        } else {
            lemma_push_keeps_invariant(
                pos,
                pivot,
                d,
                rightmost,
                order,
                include_collinear,
                stack,
                before,
                k,
            )
        }
    }
}

/// The first of the sorted candidates lies on the first ray.
pub proof fn lemma_first_on_first_ray(pos: Seq<Position>, pivot: int, d: Position, rightmost: int)
    requires
        around(pos, pivot, d, rightmost),
        pos.len() <= usize::MAX,
    ensures
        sorted_candidates(pos, pivot, rightmost, candidates_of(pos, pivot)).len() >= 1,
        cross_of(
            pos[rightmost],
            pos[sorted_candidates(pos, pivot, rightmost, candidates_of(pos, pivot))[0] as int],
            pos[pivot],
        ) == 0,
{
    let p = pos[pivot];
    let candidates = candidates_of(pos, pivot);
    let order = sorted_candidates(pos, pivot, rightmost, candidates);
    lemma_candidates_upto(pos, pivot, pos.len() as int);
    lemma_sorted_candidates(pos, pivot, d, rightmost, candidates);
    lemma_sorted_entries(pos, pivot, rightmost, candidates);
    assert(candidates.contains(rightmost as usize));
    let j = choose|j: int| 0 <= j < candidates.len() && candidates[j] == rightmost as usize;
    let k = lemma_entry_found(candidates, order, j);
    lemma_cross_trivial(pos[rightmost], p);
    if k > 0 {
        assert(not_after(pos, pivot, rightmost, order[0] as int, order[k] as int));
        assert(is_candidate(pos, pivot, order[0] as int));
        lemma_cross_swap(pos[rightmost], pos[order[0] as int], p);
        assert(cross_of(pos[rightmost], pos[order[0] as int], p) >= 0);
    }
}

/// The place after `i` on a closed walk over `m` places.
pub open spec fn next_corner(i: int, m: int) -> int {
    if i + 1 < m {
        i + 1
    } else {
        0
    }
}

/// The point at `q` lies left of, or on, the line through the edge of the
/// hull that starts at its corner `i`.
pub open spec fn on_the_left(pos: Seq<Position>, hull: Seq<usize>, i: int, q: int) -> bool {
    cross_of(
        pos[hull[i] as int],
        pos[hull[next_corner(i, hull.len() as int)] as int],
        pos[q],
    ) >= 0
}

/// No point lies outside the hull: each point lies left of, or on, the line
/// through each edge of the hull, taken in the order of its corners.
pub open spec fn encloses(pos: Seq<Position>, hull: Seq<usize>) -> bool {
    forall|i: int, q: int|
        0 <= i < hull.len() && 0 <= q < pos.len() ==> #[trigger] on_the_left(pos, hull, i, q)
}

/// Neighbouring corners of the hull, the last and the first among them, lie
/// at different places.
pub open spec fn corners_apart(pos: Seq<Position>, hull: Seq<usize>) -> bool {
    forall|i: int|
        0 <= i < hull.len() ==> pos[#[trigger] hull[i] as int] != pos[hull[next_corner(
            i,
            hull.len() as int,
        )] as int]
}

/// Neighbouring corners of the stack at the end of the scan lie at
/// different places.
proof fn lemma_scan_corners_apart(
    pos: Seq<Position>,
    pivot: int,
    d: Position,
    rightmost: int,
    order: Seq<usize>,
    include_collinear: bool,
)
    requires
        scan_setting(pos, pivot, d, rightmost, order),
    ensures
        corners_apart(pos, scan_upto(pos, pivot, order, include_collinear, order.len() as int)),
{
    let n = order.len() as int;
    let hull = scan_upto(pos, pivot, order, include_collinear, n);
    let places = lemma_scan_invariant(pos, pivot, d, rightmost, order, include_collinear, n);
    let m = hull.len() as int;
    assert forall|i: int| 0 <= i < hull.len() implies pos[#[trigger] hull[i] as int] != pos[hull[next_corner(
        i,
        hull.len() as int,
    )] as int] by {
        if i < m - 1 {
            assert(apart(pos, hull, i));
        } else {
            lemma_stack_entry(pos, pivot, order, hull, places, n, m - 1);
        }
    }
}

/// The stack at the end of the scan encloses all points.
#[verifier::rlimit(50)]
proof fn lemma_scan_encloses(
    pos: Seq<Position>,
    pivot: int,
    d: Position,
    rightmost: int,
    candidates: Seq<usize>,
    order: Seq<usize>,
    include_collinear: bool,
)
    requires
        scan_setting(pos, pivot, d, rightmost, order),
        candidates.to_multiset() =~= order.to_multiset(),
        forall|q: int|
            0 <= q < pos.len() && pos[q] != pos[pivot] ==> candidates.contains(q as usize),
    ensures
        encloses(pos, scan_upto(pos, pivot, order, include_collinear, order.len() as int)),
        scan_upto(pos, pivot, order, include_collinear, order.len() as int).len() >= 2,
        scan_upto(pos, pivot, order, include_collinear, order.len() as int)[0] == pivot,
        is_candidate(
            pos,
            pivot,
            scan_upto(pos, pivot, order, include_collinear, order.len() as int)[1] as int,
        ),
{
    let p = pos[pivot];
    let n = order.len() as int;
    let hull = scan_upto(pos, pivot, order, include_collinear, n);
    let places = lemma_scan_invariant(pos, pivot, d, rightmost, order, include_collinear, n);
    let m = hull.len() as int;
    let last = order[n - 1] as int;
    assert(is_candidate(pos, pivot, last));
    lemma_stack_entry(pos, pivot, order, hull, places, n, 1);
    assert forall|i: int, q: int| 0 <= i < hull.len() && 0 <= q < pos.len() implies #[trigger] on_the_left(
        pos,
        hull,
        i,
        q,
    ) by {
        if i < m - 1 {
            lemma_stack_entry(pos, pivot, order, hull, places, n, i + 1);
            if pos[q] == p {
                if i == 0 {
                    lemma_cross_trivial(pos[hull[1] as int], p);
                } else {
                    lemma_stack_entry(pos, pivot, order, hull, places, n, i);
                    lemma_places_ordered(pos, pivot, rightmost, order, places[i - 1], places[i]);
                    lemma_order_facts(
                        pos,
                        pivot,
                        d,
                        rightmost,
                        hull[i] as int,
                        hull[i + 1] as int,
                    );
                }
            } else {
                let at = choose|at: int| 0 <= at < candidates.len() && candidates[at] == q as usize;
                let l = lemma_entry_found(candidates, order, at);
                assert(left_of_edge(pos, hull, order, i, l));
            }
        } else {
            let top = hull[m - 1] as int;
            if pos[q] == p {
                lemma_cross_trivial(pos[top], p);
            } else {
                let at = choose|at: int| 0 <= at < candidates.len() && candidates[at] == q as usize;
                let l = lemma_entry_found(candidates, order, at);
                assert(is_candidate(pos, pivot, order[l] as int));
                lemma_cross_rotate(pos[q], pos[top], p);
                lemma_cross_rotate(pos[top], p, pos[q]);
                if l < n - 1 {
                    lemma_places_ordered(pos, pivot, rightmost, order, l, n - 1);
                    lemma_order_facts(pos, pivot, d, rightmost, q, last);
                } else {
                    lemma_cross_trivial(pos[q], p);
                }
            }
        }
    }
}

/// No point lies outside what the scan ends with: every point lies left of,
/// or on, the line through every edge of it, taken counter-clockwise. Where
/// the points do not all lie on one line, the hull has three corners or
/// more, and neighbouring corners lie at different places.
#[verifier::rlimit(50)]
pub proof fn lemma_scanned_hull_encloses(pos: Seq<Position>, include_collinear: bool)
    requires
        1 <= pos.len() <= usize::MAX,
    ensures
        encloses(pos, scanned_hull(pos, include_collinear)),
        !all_collinear(pos) ==> scanned_hull(pos, include_collinear).len() >= 3 && corners_apart(
            pos,
            scanned_hull(pos, include_collinear),
        ),
{
    let n = pos.len() as int;
    let hull = scanned_hull(pos, include_collinear);
    lemma_farthest_upto(pos, 0, n);
    let pivot = farthest_from(pos, 0);
    lemma_farthest_upto(pos, pivot, n);
    let second = farthest_from(pos, pivot);
    let p = pos[pivot];
    if n == 1 || pos[pivot] == pos[second] {
        if n > 1 {
            lemma_farthest_coincides(pos, pivot, second);
        }
        assert forall|i: int, q: int| 0 <= i < hull.len() && 0 <= q < pos.len() implies #[trigger] on_the_left(
            pos,
            hull,
            i,
            q,
        ) by {
            assert(pos[q] == pos[pivot]);
            lemma_cross_trivial(p, p);
        }
        assert(all_collinear(pos)) by {
            assert forall|i: int, j: int, k: int|
                0 <= i < pos.len() && 0 <= j < pos.len() && 0 <= k < pos.len() implies #[trigger] cross_of(
                pos[i],
                pos[j],
                pos[k],
            ) == 0 by {
                assert(pos[i] == p && pos[j] == p && pos[k] == p);
                lemma_cross_trivial(p, p);
            }
        }
    } else {
        lemma_pivot_faces(pos, 0, pivot);
        lemma_start_differs(pos, 0, pivot, second);
        let d = pos[0];
        lemma_extreme_upto(pos, pivot, d, true, n);
        let rightmost = extreme_from(pos, pivot, true);
        let candidates = candidates_of(pos, pivot);
        let order = sorted_candidates(pos, pivot, rightmost, candidates);
        lemma_candidates_upto(pos, pivot, n);
        lemma_sorted_candidates(pos, pivot, d, rightmost, candidates);
        lemma_sorted_entries(pos, pivot, rightmost, candidates);
        lemma_first_on_first_ray(pos, pivot, d, rightmost);
        lemma_scan_encloses(pos, pivot, d, rightmost, candidates, order, include_collinear);
        lemma_scan_corners_apart(pos, pivot, d, rightmost, order, include_collinear);
        if hull.len() == 2 {
            let h1 = hull[1] as int;
            assert forall|i: int| 0 <= i < pos.len() implies cross_of(
                pos[h1],
                #[trigger] pos[i],
                p,
            ) == 0 by {
                assert(on_the_left(pos, hull, 0, i));
                assert(on_the_left(pos, hull, 1, i));
                lemma_cross_swap(p, pos[h1], pos[i]);
                lemma_cross_rotate(p, pos[h1], pos[i]);
            }
            lemma_line_through(pos, pivot, h1);
        }
    }
}

/// Seen from the first corner of the hull, the other corners follow one
/// another counter-clockwise: none lies clockwise of one that comes before
/// it.
pub open spec fn runs_around(pos: Seq<Position>, hull: Seq<usize>) -> bool {
    forall|i: int, j: int|
        1 <= i < j < hull.len() ==> cross_of(
            pos[#[trigger] hull[i] as int],
            pos[#[trigger] hull[j] as int],
            pos[hull[0] as int],
        ) >= 0
}

/// Seen from the pivot, the entries of what the scan ends with follow one
/// another counter-clockwise.
pub proof fn lemma_scanned_hull_runs_around(pos: Seq<Position>, include_collinear: bool)
    requires
        1 <= pos.len() <= usize::MAX,
    ensures
        runs_around(pos, scanned_hull(pos, include_collinear)),
{
    let n = pos.len() as int;
    let hull = scanned_hull(pos, include_collinear);
    lemma_farthest_upto(pos, 0, n);
    let pivot = farthest_from(pos, 0);
    lemma_farthest_upto(pos, pivot, n);
    let second = farthest_from(pos, pivot);
    if n > 1 && pos[pivot] != pos[second] {
        lemma_pivot_faces(pos, 0, pivot);
        lemma_start_differs(pos, 0, pivot, second);
        let d = pos[0];
        lemma_extreme_upto(pos, pivot, d, true, n);
        let rightmost = extreme_from(pos, pivot, true);
        let candidates = candidates_of(pos, pivot);
        let order = sorted_candidates(pos, pivot, rightmost, candidates);
        lemma_candidates_upto(pos, pivot, n);
        lemma_sorted_candidates(pos, pivot, d, rightmost, candidates);
        lemma_sorted_entries(pos, pivot, rightmost, candidates);
        lemma_first_on_first_ray(pos, pivot, d, rightmost);
        let count = order.len() as int;
        let places = lemma_scan_invariant(pos, pivot, d, rightmost, order, include_collinear, count);
        assert forall|i: int, j: int| 1 <= i < j < hull.len() implies cross_of(
            pos[#[trigger] hull[i] as int],
            pos[#[trigger] hull[j] as int],
            pos[hull[0] as int],
        ) >= 0 by {
            lemma_stack_entry(pos, pivot, order, hull, places, count, i);
            lemma_stack_entry(pos, pivot, order, hull, places, count, j);
            assert(places[i - 1] < places[j - 1]);
            lemma_places_ordered(pos, pivot, rightmost, order, places[i - 1], places[j - 1]);
            lemma_order_facts(pos, pivot, d, rightmost, hull[i] as int, hull[j] as int);
        }
    }
}

/// No two corners of the hull lie at one place.
pub open spec fn places_differ(pos: Seq<Position>, hull: Seq<usize>) -> bool {
    forall|i: int, j: int|
        0 <= i < j < hull.len() ==> pos[#[trigger] hull[i] as int] != pos[#[trigger] hull[j] as int]
}

/// No two entries of the stack that the scan ends with lie at one place.
#[verifier::rlimit(50)]
pub proof fn lemma_scanned_hull_places_differ(pos: Seq<Position>, include_collinear: bool)
    requires
        1 <= pos.len() <= usize::MAX,
    ensures
        places_differ(pos, scanned_hull(pos, include_collinear)),
{
    let n = pos.len() as int;
    let hull = scanned_hull(pos, include_collinear);
    lemma_farthest_upto(pos, 0, n);
    let pivot = farthest_from(pos, 0);
    lemma_farthest_upto(pos, pivot, n);
    let second = farthest_from(pos, pivot);
    if n > 1 && pos[pivot] != pos[second] {
        lemma_pivot_faces(pos, 0, pivot);
        lemma_start_differs(pos, 0, pivot, second);
        let d = pos[0];
        lemma_extreme_upto(pos, pivot, d, true, n);
        let rightmost = extreme_from(pos, pivot, true);
        let candidates = candidates_of(pos, pivot);
        let order = sorted_candidates(pos, pivot, rightmost, candidates);
        lemma_candidates_upto(pos, pivot, n);
        lemma_sorted_candidates(pos, pivot, d, rightmost, candidates);
        lemma_sorted_entries(pos, pivot, rightmost, candidates);
        lemma_first_on_first_ray(pos, pivot, d, rightmost);
        let count = order.len() as int;
        let places = lemma_scan_invariant(pos, pivot, d, rightmost, order, include_collinear, count);
        assert forall|i: int, j: int| 0 <= i < j < hull.len() implies pos[#[trigger] hull[i] as int]
            != pos[#[trigger] hull[j] as int] by {
            lemma_stack_entry(pos, pivot, order, hull, places, count, j);
            if i > 0 {
                lemma_stack_entry(pos, pivot, order, hull, places, count, i);
                lemma_stack_entry(pos, pivot, order, hull, places, count, i + 1);
                assert(apart(pos, hull, i));
                if j > i + 1 {
                    assert(places[i - 1] < places[i]);
                    assert(places[i] < places[j - 1]);
                    lemma_places_ordered(pos, pivot, rightmost, order, places[i - 1], places[i]);
                    lemma_places_ordered(pos, pivot, rightmost, order, places[i], places[j - 1]);
                    if pos[hull[i] as int] == pos[hull[j] as int] {
                        lemma_order_sandwich(
                            pos,
                            pivot,
                            d,
                            rightmost,
                            hull[i] as int,
                            hull[i + 1] as int,
                            hull[j] as int,
                        );
                    }
                }
            }
        }
    }
}

} // verus!
