use vstd::prelude::*;
use std::cmp::Ordering;

verus! {

broadcast use vstd::array::group_array_axioms;

/// `f` may answer `Less` when asked to compare `a` with `b`.
pub open spec fn less_by<T, F: Fn(T, T) -> Ordering>(f: F, a: T, b: T) -> bool {
    call_ensures(f, (a, b), Ordering::Less)
}

/// `f` behaves as a strict weak ordering: whether it answers `Less` does not change from
/// one call to the next, `Less` is asymmetric, and "not less" is transitive.
pub open spec fn is_weak_order<T, F: Fn(T, T) -> Ordering>(f: F) -> bool {
    &&& forall|a: T, b: T, o: Ordering|
        #![trigger call_ensures(f, (a, b), o)]
        call_ensures(f, (a, b), o) && o != Ordering::Less ==> !less_by(f, a, b)
    &&& forall|a: T, b: T| #![trigger less_by(f, a, b)] less_by(f, a, b) ==> !less_by(f, b, a)
    &&& forall|a: T, b: T, c: T|
        #![trigger less_by(f, c, b), less_by(f, b, a)]
        !less_by(f, c, b) && !less_by(f, b, a) ==> !less_by(f, c, a)
}

/// Every adjacent pair is in order: no later element is less than the one before it.
pub open spec fn sorted_by<T, F: Fn(T, T) -> Ordering>(s: Seq<T>, f: F) -> bool {
    forall|i: int, j: int|
        #![trigger s[i], s[j]]
        0 <= i && j == i + 1 && j < s.len() ==> !less_by(f, s[j], s[i])
}

/// `lt` is a strict weak order (asymmetric, with "not less" transitive), and `f` answers
/// `Less` on exactly the pairs that `lt` relates.
pub open spec fn decided_by<T, F: Fn(T, T) -> Ordering>(f: F, lt: spec_fn(T, T) -> bool) -> bool {
    &&& forall|a: T, b: T, o: Ordering|
        #[trigger] call_ensures(f, (a, b), o) ==> (o == Ordering::Less <==> lt(a, b))
    &&& forall|a: T, b: T| #[trigger] lt(a, b) ==> !lt(b, a)
    &&& forall|a: T, b: T, c: T| #![trigger lt(c, b), lt(b, a)] !lt(c, b) && !lt(b, a) ==> !lt(c, a)
}

/// No element of `s` is `lt`-less than the one before it.
pub open spec fn sorted_under<T>(s: Seq<T>, lt: spec_fn(T, T) -> bool) -> bool {
    forall|i: int, j: int|
        #![trigger s[i], s[j]]
        0 <= i && j == i + 1 && j < s.len() ==> !lt(s[j], s[i])
}

/// `p` rearranges `before` into `after`, pairs of elements only change their relative
/// order when `f` tells them apart, and `even` says whether `p` has an even number of
/// inversions.
pub open spec fn rearranged_by<T, F: Fn(T, T) -> Ordering>(
    before: Seq<T>,
    after: Seq<T>,
    f: F,
    even: bool,
    p: Seq<int>,
) -> bool {
    &&& is_permutation(p, before.len())
    &&& after.len() == before.len()
    &&& forall|i: int| 0 <= i < after.len() ==> after[i] == before[#[trigger] p[i]]
    &&& forall|i: int, j: int|
        #![trigger p[i], p[j]]
        0 <= i < j < after.len() && p[i] > p[j] ==> less_by(f, after[i], after[j]) || less_by(
            f,
            after[j],
            after[i],
        )
    &&& even == (inversions(p) % 2 == 0)
}

/// The result of a sorting network on `before`: some permutation with the stated parity.
pub open spec fn permuted_with_parity<T, F: Fn(T, T) -> Ordering>(
    before: Seq<T>,
    after: Seq<T>,
    f: F,
    even: bool,
) -> bool {
    exists|p: Seq<int>| #[trigger] rearranged_by(before, after, f, even, p)
}

/// `p` lists each of `0..n` exactly once.
pub open spec fn is_permutation(p: Seq<int>, n: nat) -> bool {
    &&& p.len() == n
    &&& forall|i: int| 0 <= i < n ==> 0 <= #[trigger] p[i] < n
    &&& p.no_duplicates()
}

/// The entries of `s` that exceed `x`.
pub open spec fn count_above(s: Seq<int>, x: int) -> nat
    decreases s.len(),
{
    if s.len() == 0 {
        0
    } else {
        count_above(s.drop_last(), x) + if s.last() > x {
            1nat
        } else {
            0nat
        }
    }
}

/// The pairs of positions whose entries are out of order.
pub open spec fn inversions(p: Seq<int>) -> nat
    decreases p.len(),
{
    if p.len() == 0 {
        0
    } else {
        inversions(p.drop_last()) + count_above(p.drop_last(), p.last())
    }
}

/// `s` with the entries at `k` and `k + 1` exchanged.
pub open spec fn swap_adjacent<A>(s: Seq<A>, k: int) -> Seq<A> {
    s.update(k, s[k + 1]).update(k + 1, s[k])
}

proof fn lemma_count_above_swap(s: Seq<int>, k: int, x: int)
    requires
        0 <= k,
        k + 1 < s.len(),
    ensures
        count_above(swap_adjacent(s, k), x) == count_above(s, x),
    decreases s.len(),
{
    let q = swap_adjacent(s, k);
    if k + 2 < s.len() {
        assert(q.drop_last() =~= swap_adjacent(s.drop_last(), k));
        lemma_count_above_swap(s.drop_last(), k, x);
    } else {
        let r = s.drop_last().drop_last();
        assert(q.drop_last().drop_last() =~= r);
        assert(q.drop_last() =~= r.push(s[k + 1]));
        assert(s.drop_last() =~= r.push(s[k]));
        assert(count_above(q.drop_last(), x) == count_above(r, x) + if s[k + 1] > x {
            1nat
        } else {
            0nat
        });
        assert(count_above(s.drop_last(), x) == count_above(r, x) + if s[k] > x {
            1nat
        } else {
            0nat
        });
    }
}

/// Exchanging two adjacent distinct entries adds or removes exactly one inversion.
pub proof fn lemma_inversions_swap(p: Seq<int>, k: int)
    requires
        0 <= k,
        k + 1 < p.len(),
        p[k] != p[k + 1],
    ensures
        p[k] < p[k + 1] ==> inversions(swap_adjacent(p, k)) == inversions(p) + 1,
        p[k] > p[k + 1] ==> inversions(swap_adjacent(p, k)) + 1 == inversions(p),
    decreases p.len(),
{
    let q = swap_adjacent(p, k);
    if k + 2 < p.len() {
        assert(q.drop_last() =~= swap_adjacent(p.drop_last(), k));
        lemma_inversions_swap(p.drop_last(), k);
        lemma_count_above_swap(p.drop_last(), k, p.last());
    } else {
        let r = p.drop_last().drop_last();
        assert(q.drop_last().drop_last() =~= r);
        assert(q.drop_last() =~= r.push(p[k + 1]));
        assert(p.drop_last() =~= r.push(p[k]));
        assert(count_above(r.push(p[k + 1]), p[k]) == count_above(r, p[k]) + if p[k + 1] > p[k] {
            1nat
        } else {
            0nat
        });
        assert(count_above(r.push(p[k]), p[k + 1]) == count_above(r, p[k + 1]) + if p[k] > p[k
            + 1] {
            1nat
        } else {
            0nat
        });
        assert(inversions(r.push(p[k + 1])) == inversions(r) + count_above(r, p[k + 1]));
        assert(inversions(r.push(p[k])) == inversions(r) + count_above(r, p[k]));
    }
}

/// The identity has no inversions.
proof fn lemma_identity_inversions(n: nat)
    ensures
        inversions(Seq::new(n, |i: int| i)) == 0,
        is_permutation(Seq::new(n, |i: int| i), n),
    decreases n,
{
    let s = Seq::new(n, |i: int| i);
    if n > 0 {
        lemma_identity_inversions((n - 1) as nat);
        assert(s.drop_last() =~= Seq::new((n - 1) as nat, |i: int| i));
        lemma_count_above_small(s.drop_last(), n - 1);
    }
}

/// No entry of a sequence of entries below `x` exceeds it.
proof fn lemma_count_above_small(s: Seq<int>, x: int)
    requires
        forall|i: int| 0 <= i < s.len() ==> s[i] < x,
    ensures
        count_above(s, x) == 0,
    decreases s.len(),
{
    if s.len() > 0 {
        lemma_count_above_small(s.drop_last(), x);
    }
}

/// One comparison of the network at positions `k` and `k + 1` keeps the bookkeeping: the
/// permutation, the stability of indistinguishable pairs and the parity.
proof fn lemma_step<T, F: Fn(T, T) -> Ordering>(
    before: Seq<T>,
    cur: Seq<T>,
    f: F,
    even: bool,
    p: Seq<int>,
    k: int,
)
    requires
        rearranged_by(before, cur, f, even, p),
        0 <= k,
        k + 1 < cur.len(),
        less_by(f, cur[k + 1], cur[k]),
    ensures
        rearranged_by(before, swap_adjacent(cur, k), f, !even, swap_adjacent(p, k)),
{
    let q = swap_adjacent(p, k);
    let c = swap_adjacent(cur, k);
    assert(p[k] != p[k + 1]);
    lemma_inversions_swap(p, k);
    assert forall|i: int, j: int| 0 <= i < j < q.len() implies q[i] != q[j] by {
        let pi = if i == k {
            k + 1
        } else if i == k + 1 {
            k
        } else {
            i
        };
        let pj = if j == k {
            k + 1
        } else if j == k + 1 {
            k
        } else {
            j
        };
        assert(q[i] == p[pi]);
        assert(q[j] == p[pj]);
    }
    assert forall|i: int| 0 <= i < c.len() implies c[i] == before[#[trigger] q[i]] by {
        if i == k {
            assert(c[i] == cur[k + 1]);
        } else if i == k + 1 {
            assert(c[i] == cur[k]);
        }
    }
    assert forall|i: int, j: int|
        #![trigger q[i], q[j]]
        0 <= i < j < c.len() && q[i] > q[j] implies less_by(f, c[i], c[j]) || less_by(
        f,
        c[j],
        c[i],
    ) by {
        let pi = if i == k {
            k + 1
        } else if i == k + 1 {
            k
        } else {
            i
        };
        let pj = if j == k {
            k + 1
        } else if j == k + 1 {
            k
        } else {
            j
        };
        assert(q[i] == p[pi] && c[i] == cur[pi]);
        assert(q[j] == p[pj] && c[j] == cur[pj]);
    }
    assert(is_permutation(q, before.len()));
}

/// Orders two elements by `f`; returns whether the rearrangement is even.
pub fn sort_2<F, T>(t: &mut [T; 2], f: F) -> (r: bool) where F: Fn(T, T) -> Ordering, T: Copy
    requires
        forall|a: T, b: T| call_requires(f, (a, b)),
    ensures
        permuted_with_parity(old(t)@, final(t)@, f, r),
        is_weak_order(f) ==> sorted_by(final(t)@, f),
        forall|lt: spec_fn(T, T) -> bool| #[trigger] decided_by(f, lt) ==> sorted_under(final(t)@, lt),
{
    let ghost before = t@;
    let ghost mut p: Seq<int> = Seq::new(2, |i: int| i);
    let mut parity = true;
    proof {
        lemma_identity_inversions(2);
    }
    proof {
        assert(rearranged_by(before, t@, f, parity, p)) by {
            assert(is_permutation(p, 2));
        }
    }
    let a = t[0];
    let b = t[1];
    match f(b, a) {
        Ordering::Less => {
            proof {
                lemma_step(before, t@, f, parity, p, 0);
                p = swap_adjacent(p, 0);
            }
            t[0] = b;
            t[1] = a;
            parity = !parity;
            assert(t@ =~= swap_adjacent(before, 0));
        },
        _ => {},
    }
    assert(rearranged_by(before, t@, f, parity, p));
    assert(forall|lt: spec_fn(T, T) -> bool| #[trigger] decided_by(f, lt) ==> !lt(t@[1], t@[0]));
    parity
}

/// Orders three elements by `f` with three comparisons of neighbours; returns whether
/// the rearrangement is even.
pub fn sort_3<F, T>(t: &mut [T; 3], f: F) -> (r: bool) where F: Fn(T, T) -> Ordering, T: Copy
    requires
        forall|a: T, b: T| call_requires(f, (a, b)),
    ensures
        permuted_with_parity(old(t)@, final(t)@, f, r),
        is_weak_order(f) ==> sorted_by(final(t)@, f),
        forall|lt: spec_fn(T, T) -> bool| #[trigger] decided_by(f, lt) ==> sorted_under(final(t)@, lt),
{
    let ghost before = t@;
    let ghost mut p: Seq<int> = Seq::new(3, |i: int| i);
    let mut parity = true;
    proof {
        lemma_identity_inversions(3);
        assert(rearranged_by(before, t@, f, parity, p));
    }
    let ghost prev0 = t@;
    let a = t[0];
    let b = t[1];
    match f(b, a) {
        Ordering::Less => {
            proof {
                lemma_step(before, t@, f, parity, p, 0);
                p = swap_adjacent(p, 0);
            }
            t[0] = b;
            t[1] = a;
            parity = !parity;
            assert(t@ =~= swap_adjacent(prev0, 0));
        },
        _ => {},
    }
    assert(rearranged_by(before, t@, f, parity, p));
    assert(is_weak_order(f) ==> !less_by(f, t@[1], t@[0]));
    assert(forall|lt: spec_fn(T, T) -> bool| #[trigger] decided_by(f, lt) ==> !lt(t@[1], t@[0]));
    let ghost prev1 = t@;
    let a = t[1];
    let b = t[2];
    match f(b, a) {
        Ordering::Less => {
            proof {
                lemma_step(before, t@, f, parity, p, 1);
                p = swap_adjacent(p, 1);
            }
            t[1] = b;
            t[2] = a;
            parity = !parity;
            assert(t@ =~= swap_adjacent(prev1, 1));
        },
        _ => {},
    }
    assert(rearranged_by(before, t@, f, parity, p));
    assert(is_weak_order(f) ==> !less_by(f, t@[2], t@[1]));
    assert(forall|lt: spec_fn(T, T) -> bool| #[trigger] decided_by(f, lt) ==> !lt(t@[2], t@[1]));
    let ghost prev2 = t@;
    let a = t[0];
    let b = t[1];
    match f(b, a) {
        Ordering::Less => {
            proof {
                lemma_step(before, t@, f, parity, p, 0);
                p = swap_adjacent(p, 0);
            }
            t[0] = b;
            t[1] = a;
            parity = !parity;
            assert(t@ =~= swap_adjacent(prev2, 0));
        },
        _ => {},
    }
    assert(rearranged_by(before, t@, f, parity, p));
    assert(is_weak_order(f) ==> !less_by(f, t@[1], t@[0]));
    assert(forall|lt: spec_fn(T, T) -> bool| #[trigger] decided_by(f, lt) ==> !lt(t@[1], t@[0]));
    parity
}

/// Orders four elements by `f` with six comparisons of neighbours; returns whether the
/// rearrangement is even.
pub fn sort_4<F, T>(t: &mut [T; 4], f: F) -> (r: bool) where F: Fn(T, T) -> Ordering, T: Copy
    requires
        forall|a: T, b: T| call_requires(f, (a, b)),
    ensures
        permuted_with_parity(old(t)@, final(t)@, f, r),
        is_weak_order(f) ==> sorted_by(final(t)@, f),
        forall|lt: spec_fn(T, T) -> bool| #[trigger] decided_by(f, lt) ==> sorted_under(final(t)@, lt),
{
    let ghost before = t@;
    let ghost mut p: Seq<int> = Seq::new(4, |i: int| i);
    let mut parity = true;
    proof {
        lemma_identity_inversions(4);
        assert(rearranged_by(before, t@, f, parity, p));
    }
    let ghost prev0 = t@;
    let a = t[0];
    let b = t[1];
    match f(b, a) {
        Ordering::Less => {
            proof {
                lemma_step(before, t@, f, parity, p, 0);
                p = swap_adjacent(p, 0);
            }
            t[0] = b;
            t[1] = a;
            parity = !parity;
            assert(t@ =~= swap_adjacent(prev0, 0));
        },
        _ => {},
    }
    assert(rearranged_by(before, t@, f, parity, p));
    assert(is_weak_order(f) ==> !less_by(f, t@[1], t@[0]));
    assert(forall|lt: spec_fn(T, T) -> bool| #[trigger] decided_by(f, lt) ==> !lt(t@[1], t@[0]));
    let ghost prev1 = t@;
    let a = t[1];
    let b = t[2];
    match f(b, a) {
        Ordering::Less => {
            proof {
                lemma_step(before, t@, f, parity, p, 1);
                p = swap_adjacent(p, 1);
            }
            t[1] = b;
            t[2] = a;
            parity = !parity;
            assert(t@ =~= swap_adjacent(prev1, 1));
        },
        _ => {},
    }
    assert(rearranged_by(before, t@, f, parity, p));
    assert(is_weak_order(f) ==> !less_by(f, t@[2], t@[1]));
    assert(forall|lt: spec_fn(T, T) -> bool| #[trigger] decided_by(f, lt) ==> !lt(t@[2], t@[1]));
    let ghost prev2 = t@;
    let a = t[2];
    let b = t[3];
    match f(b, a) {
        Ordering::Less => {
            proof {
                lemma_step(before, t@, f, parity, p, 2);
                p = swap_adjacent(p, 2);
            }
            t[2] = b;
            t[3] = a;
            parity = !parity;
            assert(t@ =~= swap_adjacent(prev2, 2));
        },
        _ => {},
    }
    assert(rearranged_by(before, t@, f, parity, p));
    assert(is_weak_order(f) ==> !less_by(f, t@[3], t@[2]));
    assert(forall|lt: spec_fn(T, T) -> bool| #[trigger] decided_by(f, lt) ==> !lt(t@[3], t@[2]));
    let ghost prev3 = t@;
    let a = t[0];
    let b = t[1];
    match f(b, a) {
        Ordering::Less => {
            proof {
                lemma_step(before, t@, f, parity, p, 0);
                p = swap_adjacent(p, 0);
            }
            t[0] = b;
            t[1] = a;
            parity = !parity;
            assert(t@ =~= swap_adjacent(prev3, 0));
        },
        _ => {},
    }
    assert(rearranged_by(before, t@, f, parity, p));
    assert(is_weak_order(f) ==> !less_by(f, t@[1], t@[0]));
    assert(forall|lt: spec_fn(T, T) -> bool| #[trigger] decided_by(f, lt) ==> !lt(t@[1], t@[0]));
    let ghost prev4 = t@;
    let a = t[1];
    let b = t[2];
    match f(b, a) {
        Ordering::Less => {
            proof {
                lemma_step(before, t@, f, parity, p, 1);
                p = swap_adjacent(p, 1);
            }
            t[1] = b;
            t[2] = a;
            parity = !parity;
            assert(t@ =~= swap_adjacent(prev4, 1));
        },
        _ => {},
    }
    assert(rearranged_by(before, t@, f, parity, p));
    assert(is_weak_order(f) ==> !less_by(f, t@[2], t@[1]));
    assert(forall|lt: spec_fn(T, T) -> bool| #[trigger] decided_by(f, lt) ==> !lt(t@[2], t@[1]));
    let ghost prev5 = t@;
    let a = t[0];
    let b = t[1];
    match f(b, a) {
        Ordering::Less => {
            proof {
                lemma_step(before, t@, f, parity, p, 0);
                p = swap_adjacent(p, 0);
            }
            t[0] = b;
            t[1] = a;
            parity = !parity;
            assert(t@ =~= swap_adjacent(prev5, 0));
        },
        _ => {},
    }
    assert(rearranged_by(before, t@, f, parity, p));
    assert(is_weak_order(f) ==> !less_by(f, t@[1], t@[0]));
    assert(forall|lt: spec_fn(T, T) -> bool| #[trigger] decided_by(f, lt) ==> !lt(t@[1], t@[0]));
    parity
}

} // verus!
