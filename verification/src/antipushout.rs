use vstd::prelude::*;
use std::ops::Range;
use itertools::Itertools;
use crate::monotone::{Monotone, is_preimage_from, lemma_preimage_unique, is_monotone, bounded_by};
use crate::diagram::Diagram0;
use crate::rewrite::{Rewrite0, Rewrite0View, rewrite0_spec, compose0_spec};

verus! {

/// The pair of sequences of a span of maps.
pub open spec fn span_view(p: (Monotone, Monotone)) -> (Seq<usize>, Seq<usize>) {
    (p.0@, p.1@)
}

/// The pairs of sequences of a list of spans.
pub open spec fn spans_view(v: Seq<(Monotone, Monotone)>) -> Seq<(Seq<usize>, Seq<usize>)> {
    v.map_values(|p: (Monotone, Monotone)| span_view(p))
}

/// Every path extended by one more point.
pub open spec fn extend_paths(ps: Seq<(Seq<usize>, Seq<usize>)>, x: usize, y: usize) -> Seq<
    (Seq<usize>, Seq<usize>),
> {
    ps.map_values(|p: (Seq<usize>, Seq<usize>)| (p.0.push(x), p.1.push(y)))
}

/// The antipushouts of the cospan `a -> 1 <- b`: the paths through the grid `a × b`
/// from its first corner to its last one, moving along one side at a time, listed by
/// their second-to-last point (the one before the last column first). A path is the
/// pair of its projections to `a` and to `b`.
pub open spec fn lattice_paths(a: nat, b: nat) -> Seq<(Seq<usize>, Seq<usize>)>
    decreases a + b,
{
    if (a == 0 && b == 1) || (a == 1 && b == 0) {
        seq![(Seq::empty(), Seq::empty())]
    } else if a == 0 || b == 0 {
        Seq::empty()
    } else if a == 1 {
        seq![(Seq::new(b, |i: int| 0usize), Seq::new(b, |i: int| i as usize))]
    } else if b == 1 {
        seq![(Seq::new(a, |i: int| i as usize), Seq::new(a, |i: int| 0usize))]
    } else {
        extend_paths(lattice_paths((a - 1) as nat, b), (a - 1) as usize, (b - 1) as usize)
            + extend_paths(lattice_paths(a, (b - 1) as nat), (a - 1) as usize, (b - 1) as usize)
    }
}

/// `(h, k)` walks through the grid `a × b` from corner to corner, one step along one side
/// at a time; so `h` and `k` are monotone maps onto `a` and `b`.
pub open spec fn is_lattice_path(h: Seq<usize>, k: Seq<usize>, a: nat, b: nat) -> bool {
    &&& h.len() == k.len()
    &&& h.len() + 1 == a + b
    &&& h.len() > 0 ==> h[0] == 0 && k[0] == 0 && h.last() == a - 1 && k.last() == b - 1
    &&& forall|i: int, j: int|
        #![trigger h[i], h[j]]
        0 <= i && j == i + 1 && j < h.len() ==> (h[j] == h[i] + 1 && k[j] == k[i]) || (h[j]
            == h[i] && k[j] == k[i] + 1)
}

/// Along a lattice path the coordinates stay within the grid.
pub proof fn lemma_lattice_path_bounds(h: Seq<usize>, k: Seq<usize>, a: nat, b: nat)
    requires
        is_lattice_path(h, k, a, b),
    ensures
        forall|i: int| 0 <= i < h.len() ==> #[trigger] h[i] < a,
        forall|i: int| 0 <= i < k.len() ==> #[trigger] k[i] < b,
{
    assert forall|i: int| 0 <= i < h.len() implies #[trigger] h[i] < a && k[i] < b by {
        lemma_lattice_path_prefix(h, k, a, b, i);
    }
    assert forall|i: int| 0 <= i < k.len() implies #[trigger] k[i] < b by {
        assert(h[i] < a);
    }
}

proof fn lemma_lattice_path_prefix(h: Seq<usize>, k: Seq<usize>, a: nat, b: nat, i: int)
    requires
        is_lattice_path(h, k, a, b),
        0 <= i < h.len(),
    ensures
        h[i] + k[i] == i,
        h[i] <= h.last(),
        k[i] <= k.last(),
    decreases h.len() - i,
{
    lemma_lattice_path_sum(h, k, a, b, i);
    if i + 1 < h.len() {
        lemma_lattice_path_prefix(h, k, a, b, i + 1);
    }
}

proof fn lemma_lattice_path_sum(h: Seq<usize>, k: Seq<usize>, a: nat, b: nat, i: int)
    requires
        is_lattice_path(h, k, a, b),
        0 <= i < h.len(),
    ensures
        h[i] + k[i] == i,
    decreases i,
{
    if i > 0 {
        lemma_lattice_path_sum(h, k, a, b, i - 1);
    }
}

/// Every span listed by `lattice_paths` is a lattice path.
pub proof fn lemma_lattice_paths_are_paths(a: nat, b: nat, n: int)
    requires
        0 <= n < lattice_paths(a, b).len(),
        a <= usize::MAX,
        b <= usize::MAX,
    ensures
        is_lattice_path(lattice_paths(a, b)[n].0, lattice_paths(a, b)[n].1, a, b),
    decreases a + b,
{
    let p = lattice_paths(a, b)[n];
    if (a == 0 && b == 1) || (a == 1 && b == 0) {
    } else if a == 0 || b == 0 {
    } else if a == 1 {
        assert forall|i: int, j: int|
            #![trigger p.0[i], p.0[j]]
            0 <= i && j == i + 1 && j < p.0.len() implies (p.0[j] == p.0[i] + 1 && p.1[j] == p.1[i])
            || (p.0[j] == p.0[i] && p.1[j] == p.1[i] + 1) by {
            assert(p.1[i] == i && p.1[j] == j);
        }
        assert(p.1.last() == b - 1);
    } else if b == 1 {
        assert forall|i: int, j: int|
            #![trigger p.0[i], p.0[j]]
            0 <= i && j == i + 1 && j < p.0.len() implies (p.0[j] == p.0[i] + 1 && p.1[j] == p.1[i])
            || (p.0[j] == p.0[i] && p.1[j] == p.1[i] + 1) by {
            assert(p.0[i] == i && p.0[j] == j);
        }
        assert(p.0.last() == a - 1);
    } else {
        let left = lattice_paths((a - 1) as nat, b);
        let below = lattice_paths(a, (b - 1) as nat);
        let x = (a - 1) as usize;
        let y = (b - 1) as usize;
        let q = if n < left.len() {
            lemma_lattice_paths_are_paths((a - 1) as nat, b, n);
            left[n]
        } else {
            lemma_lattice_paths_are_paths(a, (b - 1) as nat, n - left.len());
            below[n - left.len()]
        };
        assert(p == (q.0.push(x), q.1.push(y)));
        let m = q.0.len();
        assert(m > 0);
        assert forall|i: int, j: int|
            #![trigger p.0[i], p.0[j]]
            0 <= i && j == i + 1 && j < p.0.len() implies (p.0[j] == p.0[i] + 1 && p.1[j] == p.1[i])
            || (p.0[j] == p.0[i] && p.1[j] == p.1[i] + 1) by {
            if j < m {
                assert(p.0[i] == q.0[i] && p.0[j] == q.0[j]);
                assert(p.1[i] == q.1[i] && p.1[j] == q.1[j]);
            } else {
                assert(p.0[i] == q.0.last() && p.1[i] == q.1.last());
                assert(p.0[j] == x && p.1[j] == y);
                if n < left.len() {
                    assert(q.0.last() == a - 2 && q.1.last() == b - 1);
                } else {
                    assert(q.0.last() == a - 1 && q.1.last() == b - 2);
                }
            }
        }
    }
}

/// `n` copies of `value`.
fn constant_map(n: usize, value: usize) -> (r: Monotone)
    ensures
        r@ == Seq::new(n as nat, |i: int| value),
{
    let mut v: Vec<usize> = Vec::new();
    let mut i: usize = 0;
    while i < n
        invariant
            i <= n,
            v@ == Seq::new(i as nat, |j: int| value),
        decreases n - i,
    {
        v.push(value);
        i = i + 1;
        assert(v@ =~= Seq::new(i as nat, |j: int| value));
    }
    Monotone::from_vec(v)
}

/// The identity of `n`.
fn identity_map(n: usize) -> (r: Monotone)
    ensures
        r@ == Seq::new(n as nat, |i: int| i as usize),
{
    let mut v: Vec<usize> = Vec::new();
    let mut i: usize = 0;
    while i < n
        invariant
            i <= n,
            v@ == Seq::new(i as nat, |j: int| j as usize),
        decreases n - i,
    {
        v.push(i);
        i = i + 1;
        assert(v@ =~= Seq::new(i as nat, |j: int| j as usize));
    }
    Monotone::from_vec(v)
}

/// Appends every span of `ps`, each extended by the point `(x, y)`.
fn extend_into(out: &mut Vec<(Monotone, Monotone)>, ps: &Vec<(Monotone, Monotone)>, x: usize, y: usize)
    ensures
        spans_view(final(out)@) == spans_view(old(out)@) + extend_paths(spans_view(ps@), x, y),
{
    let ghost start = spans_view(out@);
    let mut i: usize = 0;
    while i < ps.len()
        invariant
            i <= ps@.len(),
            spans_view(out@) == start + extend_paths(spans_view(ps@.subrange(0, i as int)), x, y),
        decreases ps@.len() - i,
    {
        let mut h = ps[i].0.clone();
        let mut k = ps[i].1.clone();
        h.push(x);
        k.push(y);
        let ghost before = out@;
        out.push((h, k));
        proof {
            assert(spans_view(out@) =~= spans_view(before).push(span_view(out@.last())));
            assert(extend_paths(spans_view(ps@.subrange(0, i as int + 1)), x, y) =~= extend_paths(
                spans_view(ps@.subrange(0, i as int)),
                x,
                y,
            ).push((ps@[i as int].0@.push(x), ps@[i as int].1@.push(y))));
        }
        i = i + 1;
    }
    assert(ps@.subrange(0, ps@.len() as int) =~= ps@);
}

/// Given the cospan `a -> 1 <- b`, the antipushout spans `a <- s -> b`: the lattice
/// paths through the grid `a × b`.
pub fn antipushout_base(a: usize, b: usize) -> (r: Vec<(Monotone, Monotone)>)
    ensures
        spans_view(r@) == lattice_paths(a as nat, b as nat),
    decreases a + b,
{
    if (a == 0 && b == 1) || (a == 1 && b == 0) {
        let r = vec![(Monotone::from_vec(Vec::new()), Monotone::from_vec(Vec::new()))];
        assert(spans_view(r@) =~= lattice_paths(a as nat, b as nat));
        r
    } else if a == 0 || b == 0 {
        let r: Vec<(Monotone, Monotone)> = Vec::new();
        assert(spans_view(r@) =~= lattice_paths(a as nat, b as nat));
        r
    } else if a == 1 {
        let r = vec![(constant_map(b, 0), identity_map(b))];
        assert(spans_view(r@) =~= lattice_paths(a as nat, b as nat));
        r
    } else if b == 1 {
        let r = vec![(identity_map(a), constant_map(a, 0))];
        assert(spans_view(r@) =~= lattice_paths(a as nat, b as nat));
        r
    } else {
        let mut r: Vec<(Monotone, Monotone)> = Vec::new();
        assert(spans_view(r@) =~= Seq::empty());
        let left = antipushout_base(a - 1, b);
        extend_into(&mut r, &left, a - 1, b - 1);
        let below = antipushout_base(a, b - 1);
        extend_into(&mut r, &below, a - 1, b - 1);
        r
    }
}


/// The product of the lengths from position `i` on.
pub open spec fn radix(lens: Seq<nat>, i: int) -> nat
    decreases lens.len() - i,
{
    if i >= lens.len() {
        1
    } else {
        lens[i] * radix(lens, i + 1)
    }
}

/// The lengths of the lists.
pub open spec fn lengths<X>(lists: Seq<Seq<X>>) -> Seq<nat> {
    lists.map_values(|l: Seq<X>| l.len())
}

/// The `c`-th tuple of the product: the digits of `c` in the mixed radix of the lengths,
/// the last list varying fastest, pick one item of each list.
pub open spec fn product_entry<X>(lists: Seq<Seq<X>>, c: int) -> Seq<X> {
    Seq::new(
        lists.len(),
        |j: int| lists[j][(c / (radix(lengths(lists), j + 1) as int)) % (lists[j].len() as int)],
    )
}

/// The tuples taking one item of each list, in lexicographic order; none when there is
/// no list at all.
pub open spec fn cartesian_product<X>(lists: Seq<Seq<X>>) -> Seq<Seq<X>> {
    if lists.len() == 0 {
        Seq::empty()
    } else {
        Seq::new(radix(lengths(lists), 0), |c: int| product_entry(lists, c))
    }
}

/// The pairs of sequences of lists of spans.
pub open spec fn lists_view(v: Seq<Vec<(Monotone, Monotone)>>) -> Seq<Seq<(Seq<usize>, Seq<usize>)>> {
    v.map_values(|l: Vec<(Monotone, Monotone)>| spans_view(l@))
}

/// itertools' `Itertools::multi_cartesian_product` on the lists, collected into a vector.
/// Its source (in the version used) iterates the last list fastest and the first one
/// slowest, yields nothing when there is no list or when a list is empty, and hands out
/// clones of the items, which keep the sequences of the maps. This contract states that
/// order exactly, and is not proved here.
#[verifier::external_body]
fn multi_cartesian_product(lists: Vec<Vec<(Monotone, Monotone)>>) -> (r: Vec<Vec<(Monotone, Monotone)>>)
    ensures
        r@.len() == cartesian_product(lists_view(lists@)).len(),
        forall|c: int|
            0 <= c < r@.len() ==> spans_view((#[trigger] r@[c])@) == cartesian_product(
                lists_view(lists@),
            )[c],
{
    lists.into_iter().multi_cartesian_product().collect()
}

/// The product of lengths is positive only when every length is.
proof fn lemma_radix_positive(lens: Seq<nat>, i: int)
    requires
        0 <= i,
        radix(lens, i) > 0,
    ensures
        forall|j: int| i <= j < lens.len() ==> lens[j] > 0,
        forall|j: int| i <= j ==> radix(lens, j) > 0,
    decreases lens.len() - i,
{
    if i < lens.len() {
        assert(lens[i] > 0 && radix(lens, i + 1) > 0) by (nonlinear_arith)
            requires
                lens[i] * radix(lens, i + 1) > 0,
        ;
        lemma_radix_positive(lens, i + 1);
    }
}

/// Each tuple of the product takes from each list one of its items.
proof fn lemma_product_entry_in_lists<X>(lists: Seq<Seq<X>>, c: int, j: int)
    requires
        0 <= c < cartesian_product(lists).len(),
        0 <= j < lists.len(),
    ensures
        cartesian_product(lists)[c].len() == lists.len(),
        exists|d: int| 0 <= d < lists[j].len() && cartesian_product(lists)[c][j] == lists[j][d],
{
    let lens = lengths(lists);
    lemma_radix_positive(lens, 0);
    assert(lens[j] == lists[j].len());
    let m = lists[j].len() as int;
    let d = (c / (radix(lens, j + 1) as int)) % m;
    vstd::arithmetic::div_mod::lemma_mod_bound(c / (radix(lens, j + 1) as int), m);
    assert(cartesian_product(lists)[c][j] == lists[j][d]);
}

/// Where the preimage of `t` under `s` starts and ends.
pub open spec fn fibre(s: Seq<usize>, t: int) -> (int, int) {
    choose|p: (int, int)| is_preimage_from(s, 0, t, p.0, p.1)
}

/// The size of the preimage of `t` under `s`.
pub open spec fn fibre_size(s: Seq<usize>, t: int) -> nat {
    (fibre(s, t).1 - fibre(s, t).0) as nat
}

/// For each position `j` of the target, the antipushouts of the fibres over `j`.
pub open spec fn base_lists(f: Seq<usize>, g: Seq<usize>, target_size: nat) -> Seq<
    Seq<(Seq<usize>, Seq<usize>)>,
> {
    Seq::new(target_size, |j: int| lattice_paths(fibre_size(f, j), fibre_size(g, j)))
}

/// Every value raised by `d`.
pub open spec fn shift(s: Seq<usize>, d: int) -> Seq<usize> {
    s.map_values(|x: usize| (x + d) as usize)
}

/// The parts placed one after the other, each raised by its offset.
pub open spec fn glue(parts: Seq<Seq<usize>>, offsets: Seq<int>) -> Seq<usize>
    decreases parts.len(),
{
    if parts.len() == 0 {
        Seq::empty()
    } else {
        glue(parts.drop_last(), offsets) + shift(parts.last(), offsets[parts.len() - 1])
    }
}

/// The span assembled from one span per fibre: the fibre spans, moved into place.
pub open spec fn glue_span(
    parts: Seq<(Seq<usize>, Seq<usize>)>,
    f: Seq<usize>,
    g: Seq<usize>,
) -> (Seq<usize>, Seq<usize>) {
    (
        glue(
            parts.map_values(|p: (Seq<usize>, Seq<usize>)| p.0),
            Seq::new(parts.len(), |j: int| fibre(f, j).0),
        ),
        glue(
            parts.map_values(|p: (Seq<usize>, Seq<usize>)| p.1),
            Seq::new(parts.len(), |j: int| fibre(g, j).0),
        ),
    )
}

/// The antipushouts of `a -f-> t <-g- b`: one for each choice of an antipushout of every
/// pair of fibres.
pub open spec fn antipushout_spans(f: Seq<usize>, g: Seq<usize>, target_size: nat) -> Seq<
    (Seq<usize>, Seq<usize>),
> {
    cartesian_product(base_lists(f, g, target_size)).map_values(
        |parts: Seq<(Seq<usize>, Seq<usize>)>| glue_span(parts, f, g),
    )
}


/// The position where the run of values `t` that starts at `start` ends.
pub open spec fn run_end(s: Seq<usize>, start: int, t: int) -> int
    decreases s.len() - start,
{
    if start >= s.len() || s[start] != t {
        start
    } else {
        run_end(s, start + 1, t)
    }
}

proof fn lemma_run_end(s: Seq<usize>, start: int, t: int)
    requires
        0 <= start <= s.len(),
    ensures
        start <= run_end(s, start, t) <= s.len(),
        forall|j: int| start <= j < run_end(s, start, t) ==> s[j] == t,
        run_end(s, start, t) < s.len() ==> s[run_end(s, start, t)] != t,
    decreases s.len() - start,
{
    if start < s.len() && s[start] == t {
        lemma_run_end(s, start + 1, t);
    }
}

proof fn lemma_first_at_least_from(s: Seq<usize>, begin: int, t: int)
    requires
        0 <= begin <= s.len(),
    ensures
        begin <= crate::monotone::first_at_least(s, begin, t) <= s.len(),
        forall|j: int| begin <= j < crate::monotone::first_at_least(s, begin, t) ==> s[j] < t,
        crate::monotone::first_at_least(s, begin, t) < s.len() ==> s[crate::monotone::first_at_least(
            s,
            begin,
            t,
        )] >= t,
    decreases s.len() - begin,
{
    if begin < s.len() && s[begin] < t {
        lemma_first_at_least_from(s, begin + 1, t);
    }
}

/// Every value has a preimage, found as `preimage` finds it, and `fibre` names it.
pub proof fn lemma_fibre(s: Seq<usize>, t: int)
    ensures
        is_preimage_from(s, 0, t, fibre(s, t).0, fibre(s, t).1),
{
    let a = crate::monotone::first_at_least(s, 0, t);
    lemma_first_at_least_from(s, 0, t);
    lemma_run_end(s, a, t);
    let b = run_end(s, a, t);
    let w = (a, b);
    assert(is_preimage_from(s, 0, t, w.0, w.1));
}

/// The preimage that `preimage` returns is the one that `fibre` names.
proof fn lemma_fibre_is(s: Seq<usize>, t: int, a: int, b: int)
    requires
        is_preimage_from(s, 0, t, a, b),
    ensures
        fibre(s, t) == (a, b),
{
    lemma_fibre(s, t);
    lemma_preimage_unique(s, 0, t, a, b, fibre(s, t).0, fibre(s, t).1);
}

/// The first `n` ranges are the fibres of `s`.
pub open spec fn ranges_are_fibres(ranges: Seq<Range<usize>>, s: Seq<usize>, n: int) -> bool {
    &&& ranges.len() >= n
    &&& forall|q: int|
        0 <= q < n ==> (#[trigger] ranges[q]).start == fibre(s, q).0 && ranges[q].end == fibre(
            s,
            q,
        ).1
}

/// Places the maps one after the other, each raised by the start of its range.
fn glue_maps(parts: &Vec<Monotone>, starts: &Vec<Range<usize>>) -> (r: Monotone)
    requires
        parts@.len() <= starts@.len(),
        forall|j: int, i: int|
            0 <= j < parts@.len() && 0 <= i < parts@[j]@.len() ==> starts@[j].start + (
            #[trigger] parts@[j]@[i]) < starts@[j].end,
    ensures
        r@ == glue(
            parts@.map_values(|m: Monotone| m@),
            Seq::new(parts@.len(), |j: int| starts@[j].start as int),
        ),
{
    let ghost ps = parts@.map_values(|m: Monotone| m@);
    let ghost offs = Seq::new(parts@.len(), |j: int| starts@[j].start as int);
    let mut out: Vec<usize> = Vec::new();
    let mut j: usize = 0;
    while j < parts.len()
        invariant
            j <= parts@.len(),
            parts@.len() <= starts@.len(),
            ps == parts@.map_values(|m: Monotone| m@),
            offs == Seq::new(parts@.len(), |j: int| starts@[j].start as int),
            forall|j: int, i: int|
                0 <= j < parts@.len() && 0 <= i < parts@[j]@.len() ==> starts@[j].start + (
                #[trigger] parts@[j]@[i]) < starts@[j].end,
            out@ == glue(ps.subrange(0, j as int), offs),
        decreases parts@.len() - j,
    {
        let start = starts[j].start;
        let values = parts[j].slices();
        let ghost before = out@;
        let mut i: usize = 0;
        while i < values.len()
            invariant
                i <= values@.len(),
                values@ == parts@[j as int]@,
                j < parts@.len(),
                j < starts@.len(),
                start == starts@[j as int].start,
                forall|i: int|
                    0 <= i < parts@[j as int]@.len() ==> starts@[j as int].start + (
                    #[trigger] parts@[j as int]@[i]) < starts@[j as int].end,
                out@ == before + shift(values@.subrange(0, i as int), start as int),
            decreases values@.len() - i,
        {
            let x = values[i];
            assert(parts@[j as int]@[i as int] == x);
            out.push(x + start);
            i = i + 1;
            assert(out@ =~= before + shift(values@.subrange(0, i as int), start as int));
        }
        proof {
            let sub = ps.subrange(0, j as int + 1);
            assert(sub.drop_last() =~= ps.subrange(0, j as int));
            assert(values@.subrange(0, values@.len() as int) =~= values@);
            assert(sub.last() == values@);
            assert(offs[j as int] == start);
        }
        j = j + 1;
    }
    assert(ps.subrange(0, parts@.len() as int) =~= ps);
    Monotone::from_vec(out)
}

/// Given a cospan `a -f-> t <-g- b`, with `t` of size `target_size`, the antipushout spans
/// `a <-h- s -k-> b`: one for every choice of an antipushout of each pair of fibres,
/// the choices varying as in a lexicographic product.
pub fn antipushout(f: &Monotone, g: &Monotone, target_size: usize) -> (r: Vec<(Monotone, Monotone)>)
    ensures
        spans_view(r@) == antipushout_spans(f@, g@, target_size as nat),
{
    let ghost fs = f@;
    let ghost gs = g@;
    assert(f.0@.len() == f.0.len() && g.0@.len() == g.0.len());
    let mut f_pre: Vec<Range<usize>> = Vec::new();
    let mut g_pre: Vec<Range<usize>> = Vec::new();
    let mut j: usize = 0;
    while j < target_size
        invariant
            fs == f@,
            gs == g@,
            j <= target_size,
            f_pre@.len() == j,
            g_pre@.len() == j,
            ranges_are_fibres(f_pre@, fs, j as int),
            ranges_are_fibres(g_pre@, gs, j as int),
        decreases target_size - j,
    {
        let fr = f.preimage(j);
        let gr = g.preimage(j);
        proof {
            lemma_fibre_is(fs, j as int, fr.start as int, fr.end as int);
            lemma_fibre_is(gs, j as int, gr.start as int, gr.end as int);
        }
        f_pre.push(fr);
        g_pre.push(gr);
        assert(f_pre@[j as int] == fr && g_pre@[j as int] == gr);
        j = j + 1;
    }
    let ghost bl = base_lists(fs, gs, target_size as nat);
    let mut lists: Vec<Vec<(Monotone, Monotone)>> = Vec::new();
    let mut j: usize = 0;
    while j < target_size
        invariant
            j <= target_size,
            f_pre@.len() == target_size,
            g_pre@.len() == target_size,
            bl == base_lists(fs, gs, target_size as nat),
            ranges_are_fibres(f_pre@, fs, target_size as int),
            ranges_are_fibres(g_pre@, gs, target_size as int),
            lists_view(lists@) == bl.subrange(0, j as int),
        decreases target_size - j,
    {
        proof {
            lemma_fibre(fs, j as int);
            lemma_fibre(gs, j as int);
        }
        let n = f_pre[j].end - f_pre[j].start;
        let m = g_pre[j].end - g_pre[j].start;
        let spans = antipushout_base(n, m);
        let ghost before = lists@;
        lists.push(spans);
        proof {
            assert(lists_view(lists@) =~= lists_view(before).push(spans_view(spans@)));
            assert(bl.subrange(0, j as int + 1) =~= bl.subrange(0, j as int).push(bl[j as int]));
        }
        j = j + 1;
    }
    assert(bl.subrange(0, target_size as int) =~= bl);
    let product = multi_cartesian_product(lists);
    let ghost cp = cartesian_product(bl);
    let mut r: Vec<(Monotone, Monotone)> = Vec::new();
    let mut c: usize = 0;
    while c < product.len()
        invariant
            c <= product@.len(),
            product@.len() == cp.len(),
            cp == cartesian_product(bl),
            bl == base_lists(fs, gs, target_size as nat),
            fs.len() <= usize::MAX,
            gs.len() <= usize::MAX,
            forall|c: int| 0 <= c < product@.len() ==> spans_view((#[trigger] product@[c])@) == cp[c],
            f_pre@.len() == target_size,
            g_pre@.len() == target_size,
            ranges_are_fibres(f_pre@, fs, target_size as int),
            ranges_are_fibres(g_pre@, gs, target_size as int),
            spans_view(r@) == antipushout_spans(fs, gs, target_size as nat).subrange(0, c as int),
        decreases product@.len() - c,
    {
        let components = &product[c];
        let ghost comp = cp[c as int];
        proof {
            assert(spans_view(components@) == comp);
            assert(target_size > 0);
            lemma_product_entry_in_lists(bl, c as int, 0);
        }
        let mut hs: Vec<Monotone> = Vec::new();
        let mut ks: Vec<Monotone> = Vec::new();
        let mut q: usize = 0;
        while q < components.len()
            invariant
                q <= components@.len(),
                spans_view(components@) == comp,
                hs@.len() == q,
                ks@.len() == q,
                forall|p: int| 0 <= p < q ==> (#[trigger] hs@[p])@ == comp[p].0,
                forall|p: int| 0 <= p < q ==> (#[trigger] ks@[p])@ == comp[p].1,
            decreases components@.len() - q,
        {
            assert(span_view(components@[q as int]) == comp[q as int]);
            hs.push(components[q].0.clone());
            ks.push(components[q].1.clone());
            q = q + 1;
        }
        proof {
            assert forall|p: int, i: int|
                0 <= p < hs@.len() && 0 <= i < hs@[p]@.len() implies f_pre@[p].start + (
                #[trigger] hs@[p]@[i]) < f_pre@[p].end && g_pre@[p].start + ks@[p]@[i] < g_pre@[p].end by {
                lemma_product_entry_in_lists(bl, c as int, p);
                let d = choose|d: int| 0 <= d < bl[p].len() && cp[c as int][p] == bl[p][d];
                lemma_fibre(fs, p);
                lemma_fibre(gs, p);
                lemma_lattice_paths_are_paths(fibre_size(fs, p), fibre_size(gs, p), d);
                lemma_lattice_path_bounds(comp[p].0, comp[p].1, fibre_size(fs, p), fibre_size(gs, p));
                assert(comp[p].0[i] < fibre_size(fs, p));
            }
            assert forall|p: int, i: int|
                0 <= p < ks@.len() && 0 <= i < ks@[p]@.len() implies g_pre@[p].start + (
                #[trigger] ks@[p]@[i]) < g_pre@[p].end by {
                lemma_product_entry_in_lists(bl, c as int, p);
                let d = choose|d: int| 0 <= d < bl[p].len() && cp[c as int][p] == bl[p][d];
                lemma_fibre(fs, p);
                lemma_fibre(gs, p);
                lemma_lattice_paths_are_paths(fibre_size(fs, p), fibre_size(gs, p), d);
                lemma_lattice_path_bounds(comp[p].0, comp[p].1, fibre_size(fs, p), fibre_size(gs, p));
                assert(comp[p].1[i] < fibre_size(gs, p));
            }
        }
        let h = glue_maps(&hs, &f_pre);
        let k = glue_maps(&ks, &g_pre);
        proof {
            let n = comp.len();
            assert(hs@.map_values(|m: Monotone| m@) =~= comp.map_values(
                |p: (Seq<usize>, Seq<usize>)| p.0,
            ));
            assert(ks@.map_values(|m: Monotone| m@) =~= comp.map_values(
                |p: (Seq<usize>, Seq<usize>)| p.1,
            ));
            assert(Seq::new(n, |j: int| f_pre@[j].start as int) =~= Seq::new(
                n,
                |j: int| fibre(fs, j).0,
            ));
            assert(Seq::new(n, |j: int| g_pre@[j].start as int) =~= Seq::new(
                n,
                |j: int| fibre(gs, j).0,
            ));
        }
        let ghost before = r@;
        r.push((h, k));
        proof {
            assert(spans_view(r@) =~= spans_view(before).push(span_view(r@.last())));
            assert(antipushout_spans(fs, gs, target_size as nat).subrange(0, c as int + 1)
                =~= antipushout_spans(fs, gs, target_size as nat).subrange(0, c as int).push(
                glue_span(comp, fs, gs),
            ));
        }
        c = c + 1;
    }
    assert(antipushout_spans(fs, gs, target_size as nat).subrange(0, product@.len() as int)
        =~= antipushout_spans(fs, gs, target_size as nat));
    r
}


proof fn lemma_glue_pair(
    ph: Seq<Seq<usize>>,
    pk: Seq<Seq<usize>>,
    oh: Seq<int>,
    ok: Seq<int>,
    f: Seq<usize>,
    g: Seq<usize>,
)
    requires
        ph.len() == pk.len(),
        ph.len() <= oh.len(),
        ph.len() <= ok.len(),
        f.len() <= usize::MAX,
        g.len() <= usize::MAX,
        forall|j: int| 0 <= j < ph.len() ==> (#[trigger] ph[j]).len() == pk[j].len(),
        forall|j: int, x: int|
            0 <= j < ph.len() && 0 <= x < ph[j].len() ==> 0 <= (#[trigger] ph[j][x]) + oh[j] < f.len()
                && f[ph[j][x] + oh[j]] == j,
        forall|j: int, x: int|
            0 <= j < pk.len() && 0 <= x < pk[j].len() ==> 0 <= (#[trigger] pk[j][x]) + ok[j] < g.len()
                && g[pk[j][x] + ok[j]] == j,
    ensures
        glue(ph, oh).len() == glue(pk, ok).len(),
        forall|i: int|
            0 <= i < glue(ph, oh).len() ==> (#[trigger] glue(ph, oh)[i]) < f.len() && glue(pk, ok)[i]
                < g.len() && f[glue(ph, oh)[i] as int] == g[glue(pk, ok)[i] as int],
    decreases ph.len(),
{
    if ph.len() > 0 {
        let n = ph.len() - 1;
        lemma_glue_pair(ph.drop_last(), pk.drop_last(), oh, ok, f, g);
        let gh = glue(ph.drop_last(), oh);
        let gk = glue(pk.drop_last(), ok);
        assert(ph[n].len() == pk[n].len());
        assert forall|i: int| 0 <= i < glue(ph, oh).len() implies (#[trigger] glue(ph, oh)[i])
            < f.len() && glue(pk, ok)[i] < g.len() && f[glue(ph, oh)[i] as int] == g[glue(
            pk,
            ok,
        )[i] as int] by {
            if i >= gh.len() {
                let x = i - gh.len();
                assert(glue(ph, oh)[i] == (ph[n][x] + oh[n]) as usize);
                assert(glue(pk, ok)[i] == (pk[n][x] + ok[n]) as usize);
            } else {
                assert(glue(ph, oh)[i] == gh[i]);
                assert(glue(pk, ok)[i] == gk[i]);
            }
        }
    }
}

/// Every antipushout span makes the square commute: `h` and `k` have the same source,
/// `h` lands in the source of `f`, `k` in that of `g`, and `f ∘ h == g ∘ k`.
pub proof fn lemma_antipushout_commutes(f: Seq<usize>, g: Seq<usize>, target_size: nat, c: int)
    requires
        0 <= c < antipushout_spans(f, g, target_size).len(),
        f.len() <= usize::MAX,
        g.len() <= usize::MAX,
    ensures
        antipushout_spans(f, g, target_size)[c].0.len() == antipushout_spans(
            f,
            g,
            target_size,
        )[c].1.len(),
        forall|i: int|
            0 <= i < antipushout_spans(f, g, target_size)[c].0.len() ==> {
                &&& (#[trigger] antipushout_spans(f, g, target_size)[c].0[i]) < f.len()
                &&& antipushout_spans(f, g, target_size)[c].1[i] < g.len()
                &&& f[antipushout_spans(f, g, target_size)[c].0[i] as int] == g[antipushout_spans(
                    f,
                    g,
                    target_size,
                )[c].1[i] as int]
            },
{
    let bl = base_lists(f, g, target_size);
    let cp = cartesian_product(bl);
    let comp = cp[c];
    let ph = comp.map_values(|p: (Seq<usize>, Seq<usize>)| p.0);
    let pk = comp.map_values(|p: (Seq<usize>, Seq<usize>)| p.1);
    let oh = Seq::new(comp.len(), |j: int| fibre(f, j).0);
    let ok = Seq::new(comp.len(), |j: int| fibre(g, j).0);
    assert(target_size > 0);
    lemma_product_entry_in_lists(bl, c, 0);
    assert forall|j: int| 0 <= j < ph.len() implies {
        &&& (#[trigger] ph[j]).len() == pk[j].len()
        &&& forall|x: int| 0 <= x < ph[j].len() ==> 0 <= #[trigger] ph[j][x] + oh[j] < f.len() && f[ph[j][x] + oh[j]] == j
        &&& forall|x: int| 0 <= x < pk[j].len() ==> 0 <= #[trigger] pk[j][x] + ok[j] < g.len() && g[pk[j][x] + ok[j]] == j
    } by {
        lemma_product_entry_in_lists(bl, c, j);
        let d = choose|d: int| 0 <= d < bl[j].len() && cp[c][j] == bl[j][d];
        lemma_fibre(f, j);
        lemma_fibre(g, j);
        lemma_lattice_paths_are_paths(fibre_size(f, j), fibre_size(g, j), d);
        lemma_lattice_path_bounds(comp[j].0, comp[j].1, fibre_size(f, j), fibre_size(g, j));
        assert(ph[j] == comp[j].0 && pk[j] == comp[j].1);
    }
    assert forall|j: int, x: int|
        0 <= j < pk.len() && 0 <= x < pk[j].len() implies 0 <= (#[trigger] pk[j][x]) + ok[j] < g.len()
            && g[pk[j][x] + ok[j]] == j by {
        assert(ph[j].len() == pk[j].len());
    }
    lemma_glue_pair(ph, pk, oh, ok, f, g);
    let span = antipushout_spans(f, g, target_size)[c];
    assert(span == glue_span(comp, f, g));
    assert(span.0 == glue(ph, oh));
    assert(span.1 == glue(pk, ok));
    assert forall|i: int| 0 <= i < span.0.len() implies {
        &&& (#[trigger] span.0[i]) < f.len()
        &&& span.1[i] < g.len()
        &&& f[span.0[i] as int] == g[span.1[i] as int]
    } by {
        assert(glue(ph, oh)[i] == span.0[i]);
    }
}

/// Both projections of a lattice path are monotone.
pub proof fn lemma_lattice_path_monotone(h: Seq<usize>, k: Seq<usize>, a: nat, b: nat)
    requires
        is_lattice_path(h, k, a, b),
    ensures
        is_monotone(h),
        is_monotone(k),
{
    assert forall|i: int, j: int| 0 <= i <= j < h.len() implies h[i] <= h[j] && k[i] <= k[j] by {
        lemma_lattice_path_steps(h, k, a, b, i, j);
    }
}

proof fn lemma_lattice_path_steps(h: Seq<usize>, k: Seq<usize>, a: nat, b: nat, i: int, j: int)
    requires
        is_lattice_path(h, k, a, b),
        0 <= i <= j < h.len(),
    ensures
        h[i] <= h[j],
        k[i] <= k[j],
    decreases j - i,
{
    if i < j {
        lemma_lattice_path_steps(h, k, a, b, i, j - 1);
    }
}

/// A lattice path through a grid with both sides non-empty passes through every column.
pub proof fn lemma_lattice_path_onto(h: Seq<usize>, k: Seq<usize>, a: nat, b: nat, v: int)
    requires
        is_lattice_path(h, k, a, b),
        0 < b,
        0 <= v < a,
    ensures
        exists|y: int| 0 <= y < h.len() && h[y] == v,
{
    lemma_lattice_path_hits(h, k, a, b, h.len() - 1, v);
}

proof fn lemma_lattice_path_hits(h: Seq<usize>, k: Seq<usize>, a: nat, b: nat, x: int, v: int)
    requires
        is_lattice_path(h, k, a, b),
        0 <= x < h.len(),
        0 <= v <= h[x],
    ensures
        exists|y: int| 0 <= y <= x && h[y] == v,
    decreases x,
{
    if v == h[x] {
        assert(h[x] == v);
    } else {
        assert(x > 0);
        lemma_lattice_path_hits(h, k, a, b, x - 1, v);
        let y = choose|y: int| 0 <= y <= x - 1 && h[y] == v;
        assert(0 <= y <= x && h[y] == v);
    }
}

/// Glued parts whose entries land, moved by their offsets, in consecutive fibres of a
/// monotone `f` form a monotone sequence when each part is monotone.
proof fn lemma_glue_monotone(ph: Seq<Seq<usize>>, oh: Seq<int>, f: Seq<usize>)
    requires
        ph.len() <= oh.len(),
        f.len() <= usize::MAX,
        is_monotone(f),
        forall|j: int| 0 <= j < ph.len() ==> is_monotone(#[trigger] ph[j]),
        forall|j: int, x: int|
            0 <= j < ph.len() && 0 <= x < ph[j].len() ==> 0 <= (#[trigger] ph[j][x]) + oh[j] < f.len()
                && f[ph[j][x] + oh[j]] == j,
    ensures
        is_monotone(glue(ph, oh)),
        forall|i: int|
            0 <= i < glue(ph, oh).len() ==> (#[trigger] glue(ph, oh)[i]) < f.len() && f[glue(ph, oh)[i] as int]
                < ph.len(),
    decreases ph.len(),
{
    if ph.len() > 0 {
        let n = ph.len() - 1;
        let q = ph.drop_last();
        assert forall|j: int| 0 <= j < q.len() implies is_monotone(#[trigger] q[j]) by {
            assert(q[j] == ph[j]);
        }
        assert forall|j: int, x: int|
            0 <= j < q.len() && 0 <= x < q[j].len() implies 0 <= (#[trigger] q[j][x]) + oh[j] < f.len()
                && f[q[j][x] + oh[j]] == j by {
            assert(q[j] == ph[j]);
        }
        lemma_glue_monotone(q, oh, f);
        let pre = glue(q, oh);
        let last = shift(ph[n], oh[n]);
        let gl = glue(ph, oh);
        assert(gl == pre + last);
        assert forall|i: int| 0 <= i < gl.len() implies (#[trigger] gl[i]) < f.len() && f[gl[i] as int]
            < ph.len() by {
            if i >= pre.len() {
                let x = i - pre.len();
                assert(gl[i] == (ph[n][x] + oh[n]) as usize);
            } else {
                assert(gl[i] == pre[i]);
            }
        }
        assert forall|i: int, j: int| 0 <= i <= j < gl.len() implies gl[i] <= gl[j] by {
            if j < pre.len() {
                assert(gl[i] == pre[i] && gl[j] == pre[j]);
            } else if i >= pre.len() {
                let x = i - pre.len();
                let y = j - pre.len();
                assert(gl[i] == (ph[n][x] + oh[n]) as usize);
                assert(gl[j] == (ph[n][y] + oh[n]) as usize);
            } else {
                let y = j - pre.len();
                assert(gl[j] == (ph[n][y] + oh[n]) as usize);
                assert(gl[i] == pre[i]);
                assert(f[pre[i] as int] < n);
                assert(f[gl[j] as int] == n);
                if gl[i] > gl[j] {
                    assert(f[gl[j] as int] <= f[gl[i] as int]);
                }
            }
        }
    }
}

/// Every entry of every part, moved by its offset, occurs in the glued sequence.
proof fn lemma_glue_reaches(ph: Seq<Seq<usize>>, oh: Seq<int>, j: int, x: int)
    requires
        ph.len() <= oh.len(),
        0 <= j < ph.len(),
        0 <= x < ph[j].len(),
    ensures
        exists|p: int| 0 <= p < glue(ph, oh).len() && glue(ph, oh)[p] == (ph[j][x] + oh[j]) as usize,
    decreases ph.len(),
{
    let n = ph.len() - 1;
    let q = ph.drop_last();
    let pre = glue(q, oh);
    let gl = glue(ph, oh);
    assert(gl == pre + shift(ph[n], oh[n]));
    if j == n {
        let p = pre.len() + x;
        assert(gl[p] == (ph[j][x] + oh[j]) as usize);
    } else {
        assert(q[j] == ph[j]);
        lemma_glue_reaches(q, oh, j, x);
        let p = choose|p: int| 0 <= p < pre.len() && pre[p] == (q[j][x] + oh[j]) as usize;
        assert(gl[p] == pre[p]);
    }
}

/// The legs of every antipushout span of `a -f-> t <-g- b`, for monotone `f` and `g` into
/// `t`, are monotone; `h` reaches every point of `a` whose position in `t` has a
/// non-empty fibre under `g`, and `k` every point of `b` whose position has a non-empty
/// fibre under `f`. (A point over a position where the other fibre is empty is reached
/// by no span.)
pub proof fn lemma_antipushout_legs(f: Seq<usize>, g: Seq<usize>, target_size: nat, c: int)
    requires
        0 <= c < antipushout_spans(f, g, target_size).len(),
        f.len() <= usize::MAX,
        g.len() <= usize::MAX,
        is_monotone(f),
        is_monotone(g),
        bounded_by(f, target_size as int),
        bounded_by(g, target_size as int),
    ensures
        is_monotone(antipushout_spans(f, g, target_size)[c].0),
        is_monotone(antipushout_spans(f, g, target_size)[c].1),
        forall|i: int|
            0 <= i < f.len() && fibre_size(g, f[i] as int) > 0 ==> exists|p: int|
                0 <= p < antipushout_spans(f, g, target_size)[c].0.len()
                    && #[trigger] antipushout_spans(f, g, target_size)[c].0[p] == i,
        forall|i: int|
            0 <= i < g.len() && fibre_size(f, g[i] as int) > 0 ==> exists|p: int|
                0 <= p < antipushout_spans(f, g, target_size)[c].1.len()
                    && #[trigger] antipushout_spans(f, g, target_size)[c].1[p] == i,
{
    let bl = base_lists(f, g, target_size);
    let cp = cartesian_product(bl);
    let comp = cp[c];
    let ph = comp.map_values(|p: (Seq<usize>, Seq<usize>)| p.0);
    let pk = comp.map_values(|p: (Seq<usize>, Seq<usize>)| p.1);
    let oh = Seq::new(comp.len(), |j: int| fibre(f, j).0);
    let ok = Seq::new(comp.len(), |j: int| fibre(g, j).0);
    let span = antipushout_spans(f, g, target_size)[c];
    assert(span == glue_span(comp, f, g));
    assert(span.0 == glue(ph, oh));
    assert(span.1 == glue(pk, ok));
    assert(target_size > 0);
    lemma_product_entry_in_lists(bl, c, 0);
    assert forall|j: int| 0 <= j < ph.len() implies {
        &&& is_monotone(#[trigger] ph[j])
        &&& is_monotone(pk[j])
        &&& is_lattice_path(ph[j], pk[j], fibre_size(f, j), fibre_size(g, j))
        &&& forall|x: int| 0 <= x < ph[j].len() ==> 0 <= #[trigger] ph[j][x] + oh[j] < f.len() && f[ph[j][x] + oh[j]] == j
        &&& forall|x: int| 0 <= x < pk[j].len() ==> 0 <= #[trigger] pk[j][x] + ok[j] < g.len() && g[pk[j][x] + ok[j]] == j
    } by {
        lemma_product_entry_in_lists(bl, c, j);
        let d = choose|d: int| 0 <= d < bl[j].len() && cp[c][j] == bl[j][d];
        lemma_fibre(f, j);
        lemma_fibre(g, j);
        lemma_lattice_paths_are_paths(fibre_size(f, j), fibre_size(g, j), d);
        lemma_lattice_path_bounds(comp[j].0, comp[j].1, fibre_size(f, j), fibre_size(g, j));
        lemma_lattice_path_monotone(comp[j].0, comp[j].1, fibre_size(f, j), fibre_size(g, j));
        assert(ph[j] == comp[j].0 && pk[j] == comp[j].1);
    }
    assert forall|j: int| 0 <= j < pk.len() implies is_monotone(#[trigger] pk[j]) by {
        assert(ph[j].len() == pk[j].len());
    }
    assert forall|j: int, x: int|
        0 <= j < pk.len() && 0 <= x < pk[j].len() implies 0 <= (#[trigger] pk[j][x]) + ok[j] < g.len()
            && g[pk[j][x] + ok[j]] == j by {
        assert(ph[j].len() == pk[j].len());
    }
    lemma_glue_monotone(ph, oh, f);
    lemma_glue_monotone(pk, ok, g);
    assert forall|i: int|
        0 <= i < f.len() && fibre_size(g, f[i] as int) > 0 implies exists|p: int|
            0 <= p < span.0.len() && #[trigger] span.0[p] == i by {
        let j = f[i] as int;
        lemma_fibre(f, j);
        let (st, en) = fibre(f, j);
        assert(st <= i) by {
            if i < st {
                assert(f[i] < j);
            }
        }
        assert(i < en) by {
            if en <= i {
                assert(f[st] >= j);
                assert(f[en] >= f[st]);
                assert(f[en] <= f[i]);
            }
        }
        let pa = ph[j];
        let pb = pk[j];
        lemma_lattice_path_onto(pa, pb, fibre_size(f, j), fibre_size(g, j), i - st);
        let y = choose|y: int| 0 <= y < pa.len() && pa[y] == i - st;
        lemma_glue_reaches(ph, oh, j, y);
        assert(oh[j] == st);
    }
    assert forall|i: int|
        0 <= i < g.len() && fibre_size(f, g[i] as int) > 0 implies exists|p: int|
            0 <= p < span.1.len() && #[trigger] span.1[p] == i by {
        let j = g[i] as int;
        lemma_fibre(g, j);
        let (st, en) = fibre(g, j);
        assert(st <= i) by {
            if i < st {
                assert(g[i] < j);
            }
        }
        assert(i < en) by {
            if en <= i {
                assert(g[st] >= j);
                assert(g[en] >= g[st]);
                assert(g[en] <= g[i]);
            }
        }
        let pa = ph[j];
        let pb = pk[j];
        lemma_lattice_path_onto_second(pa, pb, fibre_size(f, j), fibre_size(g, j), i - st);
        let y = choose|y: int| 0 <= y < pb.len() && pb[y] == i - st;
        lemma_glue_reaches(pk, ok, j, y);
        assert(ok[j] == st);
    }
}

/// A lattice path through a grid with both sides non-empty passes through every row.
pub proof fn lemma_lattice_path_onto_second(h: Seq<usize>, k: Seq<usize>, a: nat, b: nat, v: int)
    requires
        is_lattice_path(h, k, a, b),
        0 < a,
        0 <= v < b,
    ensures
        exists|y: int| 0 <= y < k.len() && k[y] == v,
{
    assert(is_lattice_path(k, h, b, a)) by {
        assert forall|i: int, j: int|
            #![trigger k[i], k[j]]
            0 <= i && j == i + 1 && j < k.len() implies (k[j] == k[i] + 1 && h[j] == h[i]) || (k[j]
                == k[i] && h[j] == h[i] + 1) by {
            assert((h[j] == h[i] + 1 && k[j] == k[i]) || (h[j] == h[i] && k[j] == k[i] + 1));
        }
    }
    lemma_lattice_path_onto(k, h, b, a, v);
}

/// The apex of the antipushout of two points: the one of lower dimension, the first on a
/// tie.
pub open spec fn lower_point(a: Diagram0, b: Diagram0) -> Diagram0 {
    if a.generator.dimension <= b.generator.dimension {
        a
    } else {
        b
    }
}

/// Given 0-rewrites `a -> t <- b`, the antipushout spans `a <- s -> b`: none when `a` and
/// `b` are distinct points of the same dimension; otherwise one, whose apex is the point of
/// lower dimension and whose legs are unlabelled.
pub fn antipushout_points(a: Diagram0, b: Diagram0) -> (r: Vec<(Diagram0, Rewrite0, Rewrite0)>)
    ensures
        a != b && a.generator.dimension == b.generator.dimension ==> r@.len() == 0,
        !(a != b && a.generator.dimension == b.generator.dimension) ==> {
            &&& r@.len() == 1
            &&& r@[0].0 == lower_point(a, b)
            &&& r@[0].1@ == rewrite0_spec(lower_point(a, b), a, None)
            &&& r@[0].2@ == rewrite0_spec(lower_point(a, b), b, None)
        },
{
    let mut r: Vec<(Diagram0, Rewrite0, Rewrite0)> = Vec::new();
    if a != b && a.generator.dimension == b.generator.dimension {
        return r;
    }
    let s = if a.generator.dimension <= b.generator.dimension {
        a
    } else {
        b
    };
    let h = Rewrite0::new(s, a, None);
    let k = Rewrite0::new(s, b, None);
    r.push((s, h, k));
    r
}

/// The antipushout square of points commutes: for unlabelled 0-rewrites `f: a -> t` and
/// `g: b -> t`, each span `(s, h, k)` has `h` followed by `f` equal to `k` followed by `g`.
pub proof fn lemma_antipushout_points_commutes(a: Diagram0, b: Diagram0, t: Diagram0)
    requires
        a.generator.dimension <= t.generator.dimension,
        b.generator.dimension <= t.generator.dimension,
        !(a != b && a.generator.dimension == b.generator.dimension),
    ensures
        compose0_spec(rewrite0_spec(lower_point(a, b), a, None), rewrite0_spec(a, t, None))
            == compose0_spec(rewrite0_spec(lower_point(a, b), b, None), rewrite0_spec(b, t, None)),
        compose0_spec(rewrite0_spec(lower_point(a, b), a, None), rewrite0_spec(a, t, None))
            == Ok::<Rewrite0View, crate::rewrite::CompositionError>(rewrite0_spec(lower_point(a, b), t, None)),
{
}

/// Every lattice path through the grid `a × b` is listed by `lattice_paths`.
pub proof fn lemma_lattice_paths_complete(h: Seq<usize>, k: Seq<usize>, a: nat, b: nat)
    requires
        is_lattice_path(h, k, a, b),
    ensures
        lattice_paths(a, b).contains((h, k)),
    decreases a + b,
{
    let ps = lattice_paths(a, b);
    if (a == 0 && b == 1) || (a == 1 && b == 0) {
        assert(h =~= Seq::<usize>::empty());
        assert(k =~= Seq::<usize>::empty());
        assert(ps[0] == (h, k));
    } else if a == 0 || b == 0 {
        assert(h.len() > 0);
        assert(h.last() == a - 1 && k.last() == b - 1);
    } else if a == 1 {
        lemma_lattice_path_bounds(h, k, a, b);
        assert forall|i: int| 0 <= i < k.len() implies k[i] == i && h[i] == 0 by {
            lemma_lattice_path_sum(h, k, a, b, i);
            assert(h[i] < 1);
        }
        assert(h =~= Seq::new(b, |i: int| 0usize));
        assert(k =~= Seq::new(b, |i: int| i as usize));
        assert(ps[0] == (h, k));
    } else if b == 1 {
        lemma_lattice_path_bounds(h, k, a, b);
        assert forall|i: int| 0 <= i < h.len() implies h[i] == i && k[i] == 0 by {
            lemma_lattice_path_sum(h, k, a, b, i);
            assert(k[i] < 1);
        }
        assert(h =~= Seq::new(a, |i: int| i as usize));
        assert(k =~= Seq::new(a, |i: int| 0usize));
        assert(ps[0] == (h, k));
    } else {
        let n = h.len() - 1;
        let h2 = h.drop_last();
        let k2 = k.drop_last();
        assert(n >= 1);
        let left = lattice_paths((a - 1) as nat, b);
        let below = lattice_paths(a, (b - 1) as nat);
        let x = (a - 1) as usize;
        let y = (b - 1) as usize;
        assert(ps == extend_paths(left, x, y) + extend_paths(below, x, y));
        assert(h =~= h2.push(x));
        assert(k =~= k2.push(y));
        assert forall|i: int, j: int|
            #![trigger h2[i], h2[j]]
            0 <= i && j == i + 1 && j < h2.len() implies (h2[j] == h2[i] + 1 && k2[j] == k2[i]) || (h2[j]
                == h2[i] && k2[j] == k2[i] + 1) by {}
        if h[n - 1] + 1 == h[n] {
            assert(is_lattice_path(h2, k2, (a - 1) as nat, b));
            lemma_lattice_paths_complete(h2, k2, (a - 1) as nat, b);
            let d = choose|d: int| 0 <= d < left.len() && left[d] == (h2, k2);
            assert(ps[d] == (h, k));
        } else {
            assert(is_lattice_path(h2, k2, a, (b - 1) as nat));
            lemma_lattice_paths_complete(h2, k2, a, (b - 1) as nat);
            let d = choose|d: int| 0 <= d < below.len() && below[d] == (h2, k2);
            assert(ps[left.len() + d] == (h, k));
        }
    }
}

/// `lattice_paths` lists each lattice path once.
pub proof fn lemma_lattice_paths_distinct(a: nat, b: nat)
    requires
        a <= usize::MAX,
        b <= usize::MAX,
    ensures
        lattice_paths(a, b).no_duplicates(),
    decreases a + b,
{
    let ps = lattice_paths(a, b);
    if (a == 0 && b == 1) || (a == 1 && b == 0) || a == 0 || b == 0 || a == 1 || b == 1 {
    } else {
        let left = lattice_paths((a - 1) as nat, b);
        let below = lattice_paths(a, (b - 1) as nat);
        let x = (a - 1) as usize;
        let y = (b - 1) as usize;
        let el = extend_paths(left, x, y);
        let eb = extend_paths(below, x, y);
        assert(ps == el + eb);
        lemma_lattice_paths_distinct((a - 1) as nat, b);
        lemma_lattice_paths_distinct(a, (b - 1) as nat);
        assert forall|i: int, j: int| 0 <= i < j < ps.len() implies ps[i] != ps[j] by {
            if j < el.len() {
                assert(ps[i].0.drop_last() =~= left[i].0);
                assert(ps[j].0.drop_last() =~= left[j].0);
                assert(ps[i].1.drop_last() =~= left[i].1);
                assert(ps[j].1.drop_last() =~= left[j].1);
            } else if i >= el.len() {
                let i2 = i - el.len();
                let j2 = j - el.len();
                assert(ps[i].0.drop_last() =~= below[i2].0);
                assert(ps[j].0.drop_last() =~= below[j2].0);
                assert(ps[i].1.drop_last() =~= below[i2].1);
                assert(ps[j].1.drop_last() =~= below[j2].1);
            } else {
                let j2 = j - el.len();
                lemma_lattice_paths_are_paths((a - 1) as nat, b, i);
                lemma_lattice_paths_are_paths(a, (b - 1) as nat, j2);
                let m = left[i].0.len() as int;
                assert(m == below[j2].0.len());
                assert(m > 0);
                assert(ps[i].0[m - 1] == left[i].0.last());
                assert(ps[j].0[m - 1] == below[j2].0.last());
            }
        }
    }
}

} // verus!
