use vstd::prelude::*;

verus! {

/// The sequence read from place `k` on, around the end and back to `k`.
pub open spec fn rotated(s: Seq<usize>, k: int) -> Seq<usize> {
    s.subrange(k, s.len() as int) + s.subrange(0, k)
}

/// `b` is `a` read from some other starting place: the two describe one
/// closed walk.
pub open spec fn is_rotation(a: Seq<usize>, b: Seq<usize>) -> bool {
    a.len() == b.len() && (a.len() == 0 || exists|k: int|
        0 <= k < a.len() && #[trigger] rotated(a, k) == b)
}

/// Entry `i` of a rotation is entry `(k + i) mod n` of the sequence.
pub proof fn lemma_rotated_index(s: Seq<usize>, k: int, i: int)
    requires
        0 <= k < s.len(),
        0 <= i < s.len(),
    ensures
        rotated(s, k).len() == s.len(),
        rotated(s, k)[i] == s[(k + i) % (s.len() as int)],
{
    let n = s.len() as int;
    if k + i < n {
        assert((k + i) % n == k + i) by (nonlinear_arith)
            requires
                0 <= k + i < n,
        ;
    } else {
        assert((k + i) % n == k + i - n) by (nonlinear_arith)
            requires
                n <= k + i < 2 * n,
        ;
    }
}

/// Every sequence is a rotation of itself.
pub proof fn lemma_rotation_reflexive(a: Seq<usize>)
    ensures
        is_rotation(a, a),
{
    if a.len() > 0 {
        assert(rotated(a, 0) =~= a);
    }
}

/// If `b` is a rotation of `a`, then `a` is a rotation of `b`.
pub proof fn lemma_rotation_symmetric(a: Seq<usize>, b: Seq<usize>)
    requires
        is_rotation(a, b),
    ensures
        is_rotation(b, a),
{
    if a.len() > 0 {
        let n = a.len() as int;
        let k = choose|k: int| 0 <= k < a.len() && #[trigger] rotated(a, k) == b;
        let back = if k == 0 {
            0
        } else {
            n - k
        };
        assert(rotated(b, back) =~= a);
    }
}

/// A rotation of a rotation is a rotation.
pub proof fn lemma_rotation_transitive(a: Seq<usize>, b: Seq<usize>, c: Seq<usize>)
    requires
        is_rotation(a, b),
        is_rotation(b, c),
    ensures
        is_rotation(a, c),
{
    if a.len() > 0 {
        let n = a.len() as int;
        let k = choose|k: int| 0 <= k < a.len() && #[trigger] rotated(a, k) == b;
        let m = choose|m: int| 0 <= m < b.len() && #[trigger] rotated(b, m) == c;
        let both = if k + m < n {
            k + m
        } else {
            k + m - n
        };
        assert(rotated(a, both) =~= c);
    }
}

/// A rotation holds the same entries.
pub proof fn lemma_rotation_entries(a: Seq<usize>, b: Seq<usize>, x: usize)
    requires
        is_rotation(a, b),
    ensures
        a.contains(x) <==> b.contains(x),
{
    if a.len() > 0 {
        let n = a.len() as int;
        let k = choose|k: int| 0 <= k < a.len() && #[trigger] rotated(a, k) == b;
        if a.contains(x) {
            let i = choose|i: int| 0 <= i < a.len() && a[i] == x;
            let j = if i >= k {
                i - k
            } else {
                i - k + n
            };
            assert(b[j] == x);
        }
        if b.contains(x) {
            let j = choose|j: int| 0 <= j < b.len() && b[j] == x;
            let i = if j + k < n {
                j + k
            } else {
                j + k - n
            };
            assert(a[i] == x);
        }
    }
}

/// A rotation of a sequence without repetition is without repetition.
pub proof fn lemma_rotation_no_duplicates(a: Seq<usize>, b: Seq<usize>)
    requires
        is_rotation(a, b),
        a.no_duplicates(),
    ensures
        b.no_duplicates(),
{
    if a.len() > 0 {
        let n = a.len() as int;
        let k = choose|k: int| 0 <= k < a.len() && #[trigger] rotated(a, k) == b;
        assert forall|i: int, j: int| 0 <= i < b.len() && 0 <= j < b.len() && i != j implies b[i]
            != b[j] by {
            let x = if i + k < n {
                i + k
            } else {
                i + k - n
            };
            let y = if j + k < n {
                j + k
            } else {
                j + k - n
            };
            assert(b[i] == a[x]);
            assert(b[j] == a[y]);
        }
    }
}

/// Whether two index sequences describe one closed walk: whether the second
/// is the first read from some other starting place.
pub fn is_same_cycle(a: &Vec<usize>, b: &Vec<usize>) -> (same: bool)
    ensures
        same == is_rotation(a@, b@),
{
    let n = a.len();
    if n != b.len() {
        return false;
    }
    if n == 0 {
        return true;
    }
    let mut k: usize = 0;
    while k < n
        invariant
            k <= n,
            n == a.len(),
            n == b.len(),
            n > 0,
            forall|j: int| 0 <= j < k ==> #[trigger] rotated(a@, j) != b@,
        decreases n - k,
    {
        if a[k] == b[0] {
            let mut i: usize = 0;
            let mut equal = true;
            while equal && i < n
                invariant
                    i <= n,
                    k < n,
                    n == a.len(),
                    n == b.len(),
                    equal ==> forall|j: int| 0 <= j < i ==> #[trigger] rotated(a@, k as int)[j] == b@[j],
                    !equal ==> rotated(a@, k as int) != b@,
                decreases n - i + if equal { 1int } else { 0int },
            {
                let at = if i < n - k {
                    k + i
                } else {
                    i - (n - k)
                };
                if a[at] == b[i] {
                    i = i + 1;
                } else {
                    equal = false;
                    proof {
                        assert(rotated(a@, k as int)[i as int] == a@[at as int]);
                    }
                }
            }
            if equal {
                proof {
                    assert(rotated(a@, k as int) =~= b@);
                }
                return true;
            }
        } else {
            proof {
                assert(rotated(a@, k as int)[0] == a@[k as int]);
            }
        }
        k = k + 1;
    }
    false
}

} // verus!
