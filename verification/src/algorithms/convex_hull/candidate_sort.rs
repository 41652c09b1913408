use vstd::prelude::*;
use crate::algorithms::convex_hull::exact_model::candidate_order;
use crate::algorithms::convex_hull::exact_model::candidates_upto;
use crate::algorithms::convex_hull::exact_model::merged;
use crate::algorithms::convex_hull::exact_model::sorted_candidates;
use crate::algorithms::convex_hull::wedge::faces;
use crate::common::orientation::Comparison;
use crate::common::plane::Position;
use crate::common::plane::cross_of;
use crate::common::plane::lemma_collinear_through;
use crate::common::plane::lemma_cross_swap;
use crate::common::plane::lemma_wedge_transitive;
use vstd::multiset::Multiset;
use vstd::seq_lib::lemma_multiset_commutative;

verus! {

/// The index is in range and its point does not lie where the pivot lies.
pub open spec fn is_candidate(pos: Seq<Position>, pivot: int, a: int) -> bool {
    0 <= a < pos.len() && pos[a] != pos[pivot]
}

/// Every entry is a candidate.
pub open spec fn all_candidates(pos: Seq<Position>, pivot: int, s: Seq<usize>) -> bool {
    forall|k: int| 0 <= k < s.len() ==> is_candidate(pos, pivot, #[trigger] s[k] as int)
}

/// Candidate `a` does not have to come after candidate `b`.
pub open spec fn not_after(pos: Seq<Position>, pivot: int, rightmost: int, a: int, b: int) -> bool {
    candidate_order(pos, pivot, rightmost, a, b) != Comparison::Greater
}

/// No entry has to come after a later one.
pub open spec fn in_order(pos: Seq<Position>, pivot: int, rightmost: int, s: Seq<usize>) -> bool {
    forall|i: int, j: int|
        0 <= i < j < s.len() ==> not_after(pos, pivot, rightmost, #[trigger] s[i] as int, #[trigger] s[j] as int)
}

/// Candidate `x` does not have to come after any entry.
pub open spec fn not_after_any(
    pos: Seq<Position>,
    pivot: int,
    rightmost: int,
    x: int,
    s: Seq<usize>,
) -> bool {
    forall|k: int| 0 <= k < s.len() ==> not_after(pos, pivot, rightmost, x, #[trigger] s[k] as int)
}

/// Comparing two candidates the other way round gives the opposite answer.
pub proof fn lemma_order_flip(
    pos: Seq<Position>,
    pivot: int,
    d: Position,
    rightmost: int,
    a: int,
    b: int,
)
    requires
        0 <= pivot < pos.len(),
        faces(pos, pivot, d),
        is_candidate(pos, pivot, rightmost),
        is_candidate(pos, pivot, a),
        is_candidate(pos, pivot, b),
    ensures
        candidate_order(pos, pivot, rightmost, b, a) == candidate_order(
            pos,
            pivot,
            rightmost,
            a,
            b,
        ).flipped(),
{
    let p = pos[pivot];
    lemma_cross_swap(pos[a], pos[b], p);
    if cross_of(pos[a], pos[b], p) == 0 {
        if cross_of(pos[a], pos[rightmost], p) == 0 {
            lemma_collinear_through(pos[a], pos[b], pos[rightmost], d, p);
        }
        if cross_of(pos[b], pos[rightmost], p) == 0 {
            lemma_collinear_through(pos[b], pos[a], pos[rightmost], d, p);
        }
    }
}

/// The order of candidates is transitive, and strict as soon as one of the
/// two steps is.
pub proof fn lemma_order_transitive(
    pos: Seq<Position>,
    pivot: int,
    d: Position,
    rightmost: int,
    a: int,
    b: int,
    c: int,
)
    requires
        0 <= pivot < pos.len(),
        faces(pos, pivot, d),
        is_candidate(pos, pivot, rightmost),
        is_candidate(pos, pivot, a),
        is_candidate(pos, pivot, b),
        is_candidate(pos, pivot, c),
        not_after(pos, pivot, rightmost, a, b),
        not_after(pos, pivot, rightmost, b, c),
    ensures
        not_after(pos, pivot, rightmost, a, c),
        candidate_order(pos, pivot, rightmost, a, b) == Comparison::Less || candidate_order(
            pos,
            pivot,
            rightmost,
            b,
            c,
        ) == Comparison::Less ==> candidate_order(pos, pivot, rightmost, a, c) == Comparison::Less,
{
    let p = pos[pivot];
    lemma_wedge_transitive(pos[a], pos[b], pos[c], d, p);
    if cross_of(pos[a], pos[c], p) == 0 {
        assert(cross_of(pos[a], pos[b], p) == 0);
        assert(cross_of(pos[b], pos[c], p) == 0);
        lemma_cross_swap(pos[a], pos[b], p);
        if cross_of(pos[a], pos[rightmost], p) == 0 {
            lemma_collinear_through(pos[a], pos[b], pos[rightmost], d, p);
        }
        if cross_of(pos[b], pos[rightmost], p) == 0 {
            lemma_collinear_through(pos[b], pos[a], pos[rightmost], d, p);
        }
    }
}

/// A candidate that does not have to come after any entry of two sequences
/// does not have to come after any entry of their merge.
pub proof fn lemma_merged_bound(
    pos: Seq<Position>,
    pivot: int,
    rightmost: int,
    x: int,
    left: Seq<usize>,
    right: Seq<usize>,
)
    requires
        not_after_any(pos, pivot, rightmost, x, left),
        not_after_any(pos, pivot, rightmost, x, right),
    ensures
        not_after_any(pos, pivot, rightmost, x, merged(pos, pivot, rightmost, left, right)),
    decreases left.len() + right.len(),
{
    if left.len() == 0 || right.len() == 0 {
    } else if candidate_order(pos, pivot, rightmost, right[0] as int, left[0] as int)
        == Comparison::Less {
        let rest = merged(pos, pivot, rightmost, left, right.drop_first());
        assert forall|k: int| 0 <= k < right.drop_first().len() implies not_after(
            pos,
            pivot,
            rightmost,
            x,
            #[trigger] right.drop_first()[k] as int,
        ) by {
            assert(right.drop_first()[k] == right[k + 1]);
        }
        lemma_merged_bound(pos, pivot, rightmost, x, left, right.drop_first());
        let m = seq![right[0]] + rest;
        assert forall|k: int| 0 <= k < m.len() implies not_after(
            pos,
            pivot,
            rightmost,
            x,
            #[trigger] m[k] as int,
        ) by {
            if k > 0 {
                assert(m[k] == rest[k - 1]);
            }
        }
    } else {
        let rest = merged(pos, pivot, rightmost, left.drop_first(), right);
        assert forall|k: int| 0 <= k < left.drop_first().len() implies not_after(
            pos,
            pivot,
            rightmost,
            x,
            #[trigger] left.drop_first()[k] as int,
        ) by {
            assert(left.drop_first()[k] == left[k + 1]);
        }
        lemma_merged_bound(pos, pivot, rightmost, x, left.drop_first(), right);
        let m = seq![left[0]] + rest;
        assert forall|k: int| 0 <= k < m.len() implies not_after(
            pos,
            pivot,
            rightmost,
            x,
            #[trigger] m[k] as int,
        ) by {
            if k > 0 {
                assert(m[k] == rest[k - 1]);
            }
        }
    }
}

/// The merge of two sequences holds the entries of both, each as often as
/// they do together.
pub proof fn lemma_merged_entries(
    pos: Seq<Position>,
    pivot: int,
    rightmost: int,
    left: Seq<usize>,
    right: Seq<usize>,
)
    ensures
        merged(pos, pivot, rightmost, left, right).to_multiset() =~= left.to_multiset().add(
            right.to_multiset(),
        ),
        merged(pos, pivot, rightmost, left, right).len() == left.len() + right.len(),
    decreases left.len() + right.len(),
{
    broadcast use vstd::multiset::group_multiset_axioms;

    let m = merged(pos, pivot, rightmost, left, right);
    if left.len() == 0 {
        assert(left.to_multiset() =~= Multiset::<usize>::empty()) by {
            left.to_multiset_ensures();
        }
    } else if right.len() == 0 {
        assert(right.to_multiset() =~= Multiset::<usize>::empty()) by {
            right.to_multiset_ensures();
        }
    } else if candidate_order(pos, pivot, rightmost, right[0] as int, left[0] as int)
        == Comparison::Less {
        let rest = merged(pos, pivot, rightmost, left, right.drop_first());
        lemma_merged_entries(pos, pivot, rightmost, left, right.drop_first());
        lemma_multiset_commutative(seq![right[0]], rest);
        lemma_multiset_commutative(seq![right[0]], right.drop_first());
        assert(seq![right[0]] + right.drop_first() =~= right);
    } else {
        let rest = merged(pos, pivot, rightmost, left.drop_first(), right);
        lemma_merged_entries(pos, pivot, rightmost, left.drop_first(), right);
        lemma_multiset_commutative(seq![left[0]], rest);
        lemma_multiset_commutative(seq![left[0]], left.drop_first());
        assert(seq![left[0]] + left.drop_first() =~= left);
    }
}

/// The merge of two ordered sequences of candidates is an ordered sequence
/// of candidates.
#[verifier::rlimit(50)]
pub proof fn lemma_merged_in_order(
    pos: Seq<Position>,
    pivot: int,
    d: Position,
    rightmost: int,
    left: Seq<usize>,
    right: Seq<usize>,
)
    requires
        0 <= pivot < pos.len(),
        faces(pos, pivot, d),
        is_candidate(pos, pivot, rightmost),
        all_candidates(pos, pivot, left),
        all_candidates(pos, pivot, right),
        in_order(pos, pivot, rightmost, left),
        in_order(pos, pivot, rightmost, right),
    ensures
        all_candidates(pos, pivot, merged(pos, pivot, rightmost, left, right)),
        in_order(pos, pivot, rightmost, merged(pos, pivot, rightmost, left, right)),
    decreases left.len() + right.len(),
{
    if left.len() == 0 || right.len() == 0 {
    } else {
        let l0 = left[0] as int;
        let r0 = right[0] as int;
        lemma_order_flip(pos, pivot, d, rightmost, r0, l0);
        if candidate_order(pos, pivot, rightmost, r0, l0) == Comparison::Less {
            let tail = right.drop_first();
            let rest = merged(pos, pivot, rightmost, left, tail);
            assert forall|k: int| 0 <= k < tail.len() implies is_candidate(
                pos,
                pivot,
                #[trigger] tail[k] as int,
            ) by {
                assert(tail[k] == right[k + 1]);
            }
            assert forall|i: int, j: int| 0 <= i < j < tail.len() implies not_after(
                pos,
                pivot,
                rightmost,
                #[trigger] tail[i] as int,
                #[trigger] tail[j] as int,
            ) by {
                assert(tail[i] == right[i + 1]);
                assert(tail[j] == right[j + 1]);
            }
            lemma_merged_in_order(pos, pivot, d, rightmost, left, tail);
            assert forall|k: int| 0 <= k < tail.len() implies not_after(
                pos,
                pivot,
                rightmost,
                r0,
                #[trigger] tail[k] as int,
            ) by {
                assert(tail[k] == right[k + 1]);
            }
            assert forall|k: int| 0 <= k < left.len() implies not_after(
                pos,
                pivot,
                rightmost,
                r0,
                #[trigger] left[k] as int,
            ) by {
                if k > 0 {
                    lemma_order_transitive(pos, pivot, d, rightmost, r0, l0, left[k] as int);
                }
            }
            lemma_merged_bound(pos, pivot, rightmost, r0, left, tail);
            let m = seq![right[0]] + rest;
            assert forall|k: int| 0 <= k < m.len() implies is_candidate(
                pos,
                pivot,
                #[trigger] m[k] as int,
            ) by {
                if k > 0 {
                    assert(m[k] == rest[k - 1]);
                }
            }
            assert forall|i: int, j: int| 0 <= i < j < m.len() implies not_after(
                pos,
                pivot,
                rightmost,
                #[trigger] m[i] as int,
                #[trigger] m[j] as int,
            ) by {
                assert(m[j] == rest[j - 1]);
                if i > 0 {
                    assert(m[i] == rest[i - 1]);
                }
            }
        } else {
            let tail = left.drop_first();
            let rest = merged(pos, pivot, rightmost, tail, right);
            assert forall|k: int| 0 <= k < tail.len() implies is_candidate(
                pos,
                pivot,
                #[trigger] tail[k] as int,
            ) by {
                assert(tail[k] == left[k + 1]);
            }
            assert forall|i: int, j: int| 0 <= i < j < tail.len() implies not_after(
                pos,
                pivot,
                rightmost,
                #[trigger] tail[i] as int,
                #[trigger] tail[j] as int,
            ) by {
                assert(tail[i] == left[i + 1]);
                assert(tail[j] == left[j + 1]);
            }
            lemma_merged_in_order(pos, pivot, d, rightmost, tail, right);
            assert forall|k: int| 0 <= k < tail.len() implies not_after(
                pos,
                pivot,
                rightmost,
                l0,
                #[trigger] tail[k] as int,
            ) by {
                assert(tail[k] == left[k + 1]);
            }
            assert(not_after(pos, pivot, rightmost, l0, r0));
            assert forall|k: int| 0 <= k < right.len() implies not_after(
                pos,
                pivot,
                rightmost,
                l0,
                #[trigger] right[k] as int,
            ) by {
                if k > 0 {
                    lemma_order_transitive(pos, pivot, d, rightmost, l0, r0, right[k] as int);
                }
            }
            lemma_merged_bound(pos, pivot, rightmost, l0, tail, right);
            let m = seq![left[0]] + rest;
            assert forall|k: int| 0 <= k < m.len() implies is_candidate(
                pos,
                pivot,
                #[trigger] m[k] as int,
            ) by {
                if k > 0 {
                    assert(m[k] == rest[k - 1]);
                }
            }
            assert forall|i: int, j: int| 0 <= i < j < m.len() implies not_after(
                pos,
                pivot,
                rightmost,
                #[trigger] m[i] as int,
                #[trigger] m[j] as int,
            ) by {
                assert(m[j] == rest[j - 1]);
                if i > 0 {
                    assert(m[i] == rest[i - 1]);
                }
            }
        }
    }
}

/// Sorting rearranges the candidates: it drops none and adds none.
pub proof fn lemma_sorted_entries(
    pos: Seq<Position>,
    pivot: int,
    rightmost: int,
    candidates: Seq<usize>,
)
    ensures
        sorted_candidates(pos, pivot, rightmost, candidates).to_multiset()
            =~= candidates.to_multiset(),
        sorted_candidates(pos, pivot, rightmost, candidates).len() == candidates.len(),
    decreases candidates.len(),
{
    if candidates.len() > 1 {
        let mid = candidates.len() as int / 2;
        let front = candidates.subrange(0, mid);
        let back = candidates.subrange(mid, candidates.len() as int);
        lemma_sorted_entries(pos, pivot, rightmost, front);
        lemma_sorted_entries(pos, pivot, rightmost, back);
        let left = sorted_candidates(pos, pivot, rightmost, front);
        let right = sorted_candidates(pos, pivot, rightmost, back);
        lemma_merged_entries(pos, pivot, rightmost, left, right);
        lemma_multiset_commutative(front, back);
        assert(front + back =~= candidates);
    }
}

/// Two sequences with the same entries: each entry of the one is found in
/// the other.
pub proof fn lemma_entry_found(a: Seq<usize>, b: Seq<usize>, k: int) -> (j: int)
    requires
        a.to_multiset() =~= b.to_multiset(),
        0 <= k < a.len(),
    ensures
        0 <= j < b.len(),
        b[j] == a[k],
{
    a.to_multiset_ensures();
    b.to_multiset_ensures();
    assert(a.contains(a[k]));
    assert(a.to_multiset().count(a[k]) > 0);
    assert(b.to_multiset().count(a[k]) > 0);
    assert(b.contains(a[k]));
    choose|j: int| 0 <= j < b.len() && b[j] == a[k]
}

/// Sorting candidates gives an ordered sequence of candidates.
pub proof fn lemma_sorted_candidates(
    pos: Seq<Position>,
    pivot: int,
    d: Position,
    rightmost: int,
    candidates: Seq<usize>,
)
    requires
        0 <= pivot < pos.len(),
        faces(pos, pivot, d),
        is_candidate(pos, pivot, rightmost),
        all_candidates(pos, pivot, candidates),
    ensures
        all_candidates(pos, pivot, sorted_candidates(pos, pivot, rightmost, candidates)),
        in_order(pos, pivot, rightmost, sorted_candidates(pos, pivot, rightmost, candidates)),
    decreases candidates.len(),
{
    if candidates.len() > 1 {
        let mid = candidates.len() as int / 2;
        let front = candidates.subrange(0, mid);
        let back = candidates.subrange(mid, candidates.len() as int);
        lemma_sorted_candidates(pos, pivot, d, rightmost, front);
        lemma_sorted_candidates(pos, pivot, d, rightmost, back);
        let left = sorted_candidates(pos, pivot, rightmost, front);
        let right = sorted_candidates(pos, pivot, rightmost, back);
        lemma_merged_in_order(pos, pivot, d, rightmost, left, right);
    }
}

/// The candidates below `n` are exactly the indices below `n` of points that
/// do not lie where the pivot lies.
pub proof fn lemma_candidates_upto(pos: Seq<Position>, pivot: int, n: int)
    requires
        0 <= pivot < pos.len(),
        0 <= n <= pos.len() <= usize::MAX,
    ensures
        all_candidates(pos, pivot, candidates_upto(pos, pivot, n)),
        candidates_upto(pos, pivot, n).len() <= n,
        forall|k: int|
            0 <= k < candidates_upto(pos, pivot, n).len() ==> #[trigger] candidates_upto(
                pos,
                pivot,
                n,
            )[k] < n,
        forall|i: int|
            0 <= i < n && pos[i] != pos[pivot] ==> candidates_upto(pos, pivot, n).contains(
                i as usize,
            ),
    decreases n,
{
    if n > 0 {
        lemma_candidates_upto(pos, pivot, n - 1);
        let rest = candidates_upto(pos, pivot, n - 1);
        let all = candidates_upto(pos, pivot, n);
        assert forall|i: int| 0 <= i < n && pos[i] != pos[pivot] implies all.contains(
            i as usize,
        ) by {
            if i < n - 1 {
                let k = choose|k: int| 0 <= k < rest.len() && rest[k] == i as usize;
                assert(all[k] == i as usize);
            } else {
                assert(all[all.len() - 1] == i as usize);
            }
        }
    }
}

} // verus!
