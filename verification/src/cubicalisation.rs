use vstd::prelude::*;
use core::ops::Range;
use crate::common::{Height, height_at};
use crate::monotone::{MonotoneIterator, tightening_fits};

verus! {

/// Which end a cubicalisation prefers when it has to choose.
#[derive(Clone, Copy, Debug, Hash, PartialEq, Eq, Structural)]
pub enum Bias {
    Left,
    Right,
}

impl Bias {
    pub open spec fn spec_reverse(self) -> Bias {
        match self {
            Bias::Left => Bias::Right,
            Bias::Right => Bias::Left,
        }
    }

    /// The other end.
    pub fn reverse(self) -> (r: Self)
        ensures
            r == self.spec_reverse(),
    {
        match self {
            Bias::Left => Bias::Right,
            Bias::Right => Bias::Left,
        }
    }
}

/// Reversing twice gives the bias back, and reversing always changes it.
pub proof fn lemma_bias_reverse_involutive(b: Bias)
    ensures
        b.spec_reverse().spec_reverse() == b,
        b.spec_reverse() != b,
{
}

/// Each label repeated as often as its count says, in order.
pub open spec fn repeat_each<A>(labels: Seq<A>, counts: Seq<int>) -> Seq<A>
    decreases labels.len(),
{
    if labels.len() == 0 {
        Seq::empty()
    } else {
        repeat_each(labels.drop_last(), counts.subrange(0, labels.len() - 1)) + Seq::new(
            counts[labels.len() - 1] as nat,
            |k: int| labels.last(),
        )
    }
}

/// How often the label at position `i` (out of `len`) is repeated when the singular
/// heights are expanded: the two boundaries and the regular heights once, the singular
/// height `j` `2 * weights[j] - 1` times.
pub open spec fn singular_copies(i: int, len: int, weights: Seq<usize>) -> int {
    if i == 0 || i == len - 1 {
        1
    } else {
        match height_at(i - 1) {
            Height::Regular(_) => 1,
            Height::Singular(j) => 2 * weights[j as int] - 1,
        }
    }
}

/// How often the label at position `i` (out of `len`) is repeated when the regular
/// heights are expanded: the two ends and the singular heights once, the regular height
/// `j` `2 * weights[j] - 1` times.
pub open spec fn regular_copies(i: int, len: int, weights: Seq<usize>) -> int {
    if i == 0 || i == len - 1 {
        1
    } else {
        match height_at(i - 1) {
            Height::Regular(j) => 2 * weights[j as int] - 1,
            Height::Singular(_) => 1,
        }
    }
}

/// The weights of an expansion are positive and small enough to double.
pub open spec fn weights_fit(weights: Seq<usize>) -> bool {
    forall|j: int| 0 <= j < weights.len() ==> 1 <= #[trigger] weights[j] && 2 * weights[j] <= usize::MAX
}

proof fn lemma_repeat_each_step<A>(labels: Seq<A>, counts: Seq<int>, i: int)
    requires
        0 <= i < labels.len(),
        counts.len() == labels.len(),
        counts[i] >= 0,
    ensures
        repeat_each(labels.subrange(0, i + 1), counts.subrange(0, i + 1)) == repeat_each(
            labels.subrange(0, i),
            counts.subrange(0, i),
        ) + Seq::new(counts[i] as nat, |k: int| labels[i]),
{
    let l = labels.subrange(0, i + 1);
    let c = counts.subrange(0, i + 1);
    assert(l.drop_last() =~= labels.subrange(0, i));
    assert(c.subrange(0, l.len() - 1) =~= counts.subrange(0, i));
    assert(Seq::new(c[l.len() - 1] as nat, |k: int| l.last()) =~= Seq::new(
        counts[i] as nat,
        |k: int| labels[i],
    ));
}

/// Appends `n` copies of `x`.
fn push_copies<A: Copy>(out: &mut Vec<A>, x: A, n: usize)
    ensures
        final(out)@ == old(out)@ + Seq::new(n as nat, |k: int| x),
{
    let ghost start = out@;
    let mut c: usize = 0;
    while c < n
        invariant
            c <= n,
            out@ == start + Seq::new(c as nat, |k: int| x),
        decreases n - c,
    {
        out.push(x);
        c = c + 1;
        assert(out@ =~= start + Seq::new(c as nat, |k: int| x));
    }
}

/// Repeats each label of a slice of a diagram as its singular heights are expanded by
/// the given weights.
pub fn singular_expansion<A: Copy>(labels: &[A], weights: &[usize]) -> (r: Vec<A>)
    requires
        labels@.len() == 2 * weights@.len() + 3,
        weights_fit(weights@),
    ensures
        r@ == repeat_each(
            labels@,
            Seq::new(labels@.len(), |i: int| singular_copies(i, labels@.len() as int, weights@)),
        ),
        r@.len() == 2 * prefix_total(weights@, weights@.len() as int) + 3,
        r@[0] == labels@[0],
        r@[r@.len() - 1] == labels@[labels@.len() - 1],
        forall|j: int|
            0 <= j <= weights@.len() ==> #[trigger] r@[2 * prefix_total(weights@, j) + 1] == labels@[2 * j + 1],
        forall|j: int, k: int|
            0 <= j < weights@.len() && 0 <= k < 2 * weights@[j] - 1 ==> #[trigger] r@[2 * prefix_total(weights@, j) + 2 + k]
                == labels@[2 * j + 2],
{
    let len = labels.len();
    let ghost counts = Seq::new(labels@.len(), |i: int| singular_copies(i, len as int, weights@));
    let mut r: Vec<A> = Vec::new();
    let mut i: usize = 0;
    while i < len
        invariant
            len == labels@.len(),
            len == 2 * weights@.len() + 3,
            weights_fit(weights@),
            counts == Seq::new(labels@.len(), |i: int| singular_copies(i, len as int, weights@)),
            i <= len,
            r@ == repeat_each(labels@.subrange(0, i as int), counts.subrange(0, i as int)),
        decreases len - i,
    {
        let n: usize = if i == 0 || i == len - 1 {
            1
        } else {
            match Height::from_index(i - 1) {
                Height::Regular(_) => 1,
                Height::Singular(j) => weights[j] * 2 - 1,
            }
        };
        proof {
            assert(counts[i as int] == n);
            lemma_repeat_each_step(labels@, counts, i as int);
        }
        push_copies(&mut r, labels[i], n);
        i = i + 1;
    }
    assert(labels@.subrange(0, len as int) =~= labels@);
    assert(counts.subrange(0, len as int) =~= counts);
    proof {
        lemma_singular_expansion_layout(labels@, weights@, r@);
    }
    r
}

/// Repeats each label of a slice of a diagram as its regular heights are expanded by the
/// given weights.
pub fn regular_expansion<A: Copy>(labels: &[A], weights: &[usize]) -> (r: Vec<A>)
    requires
        labels@.len() == 2 * weights@.len() + 1,
        weights_fit(weights@),
    ensures
        r@ == repeat_each(
            labels@,
            Seq::new(labels@.len(), |i: int| regular_copies(i, labels@.len() as int, weights@)),
        ),
        r@.len() == 2 * prefix_total(weights@, weights@.len() as int) + 1,
        forall|j: int|
            0 <= j <= weights@.len() ==> #[trigger] r@[2 * prefix_total(weights@, j)] == labels@[2 * j],
        forall|j: int, k: int|
            0 <= j < weights@.len() && 0 <= k < 2 * weights@[j] - 1 ==> #[trigger] r@[2 * prefix_total(weights@, j) + 1 + k]
                == labels@[2 * j + 1],
{
    let len = labels.len();
    let ghost counts = Seq::new(labels@.len(), |i: int| regular_copies(i, len as int, weights@));
    let mut r: Vec<A> = Vec::new();
    let mut i: usize = 0;
    while i < len
        invariant
            len == labels@.len(),
            len == 2 * weights@.len() + 1,
            weights_fit(weights@),
            counts == Seq::new(labels@.len(), |i: int| regular_copies(i, len as int, weights@)),
            i <= len,
            r@ == repeat_each(labels@.subrange(0, i as int), counts.subrange(0, i as int)),
        decreases len - i,
    {
        let n: usize = if i == 0 || i == len - 1 {
            1
        } else {
            match Height::from_index(i - 1) {
                Height::Regular(j) => weights[j] * 2 - 1,
                Height::Singular(_) => 1,
            }
        };
        proof {
            assert(counts[i as int] == n);
            lemma_repeat_each_step(labels@, counts, i as int);
        }
        push_copies(&mut r, labels[i], n);
        i = i + 1;
    }
    assert(labels@.subrange(0, len as int) =~= labels@);
    assert(counts.subrange(0, len as int) =~= counts);
    proof {
        lemma_regular_expansion_layout(labels@, weights@, r@);
    }
    r
}


/// The total of the first `j` weights.
pub open spec fn prefix_total(w: Seq<usize>, j: int) -> int
    decreases j,
{
    if j <= 0 {
        0
    } else {
        prefix_total(w, j - 1) + w[j - 1]
    }
}

proof fn lemma_prefix_total_mono(w: Seq<usize>, i: int, j: int)
    requires
        0 <= i <= j,
    ensures
        prefix_total(w, i) <= prefix_total(w, j),
    decreases j - i,
{
    if i < j {
        lemma_prefix_total_mono(w, i, j - 1);
    }
}

/// The constraints that send every copy of source element `i` (there are
/// `source_weights[i]` of them) into the copies of target element `f[i]`.
pub open spec fn copy_constraints(
    f: Seq<usize>,
    source_weights: Seq<usize>,
    target_weights: Seq<usize>,
) -> Seq<Range<usize>>
    decreases f.len(),
{
    if f.len() == 0 {
        Seq::empty()
    } else {
        let i = f.len() - 1;
        copy_constraints(f.drop_last(), source_weights.subrange(0, i), target_weights) + Seq::new(
            source_weights[i] as nat,
            |k: int|
                Range {
                    start: prefix_total(target_weights, f[i] as int) as usize,
                    end: prefix_total(target_weights, f[i] + 1) as usize,
                },
        )
    }
}

/// The constraints with the first copy pinned to the bottom element and the last copy
/// pinned to the top one.
pub open spec fn pinned_ends(c: Seq<Range<usize>>) -> Seq<Range<usize>> {
    let first = c.update(0, Range { start: c[0].start, end: 1 });
    let last = first.len() - 1;
    first.update(last, Range { start: (first[last].end - 1) as usize, end: first[last].end })
}

/// The constraints under which the expansion of `f` is made injective.
pub open spec fn injectify_constraints(
    f: Seq<usize>,
    source_weights: Seq<usize>,
    target_weights: Seq<usize>,
    should_preserve_extrema: bool,
) -> Seq<Range<usize>> {
    let c = copy_constraints(f, source_weights, target_weights);
    if should_preserve_extrema {
        pinned_ends(c)
    } else {
        c
    }
}

/// Appends `n` copies of the range `start..end`.
fn push_range_copies(out: &mut Vec<Range<usize>>, start: usize, end: usize, n: usize)
    ensures
        final(out)@ == old(out)@ + Seq::new(n as nat, |k: int| Range { start, end }),
{
    let ghost before = out@;
    let mut c: usize = 0;
    while c < n
        invariant
            c <= n,
            out@ == before + Seq::new(c as nat, |k: int| Range { start, end }),
        decreases n - c,
    {
        out.push(Range { start, end });
        c = c + 1;
        assert(out@ =~= before + Seq::new(c as nat, |k: int| Range { start, end }));
    }
}

/// Lifts a monotone map `f` between weighted sequences to an iterator over the strictly
/// monotone maps between their copies that send each copy of `i` to a copy of `f[i]`;
/// with `should_preserve_extrema`, the bottom and top copies are sent to the bottom and
/// top copies.
pub fn injectify(
    f: &[usize],
    source_weights: &[usize],
    target_weights: &[usize],
    should_preserve_extrema: bool,
) -> (r: MonotoneIterator)
    requires
        f@.len() == source_weights@.len(),
        forall|i: int| 0 <= i < f@.len() ==> #[trigger] f@[i] < target_weights@.len(),
        prefix_total(target_weights@, target_weights@.len() as int) <= usize::MAX,
        should_preserve_extrema ==> {
            &&& f@.len() > 0
            &&& target_weights@.len() > 0
            &&& f@[0] == 0
            &&& f@[f@.len() - 1] == target_weights@.len() - 1
            &&& copy_constraints(f@, source_weights@, target_weights@).len() > 0
            &&& copy_constraints(f@, source_weights@, target_weights@).len() == 1 || copy_constraints(
                f@,
                source_weights@,
                target_weights@,
            ).last().end >= 1
        },
        tightening_fits(
            injectify_constraints(f@, source_weights@, target_weights@, should_preserve_extrema),
            true,
        ),
    ensures
        r.starts_over(
            true,
            injectify_constraints(f@, source_weights@, target_weights@, should_preserve_extrema),
        ),
{
    let ghost tw = target_weights@;
    let mut offsets: Vec<usize> = Vec::new();
    offsets.push(0);
    let mut j: usize = 0;
    while j < target_weights.len()
        invariant
            tw == target_weights@,
            j <= tw.len(),
            offsets@.len() == j + 1,
            prefix_total(tw, tw.len() as int) <= usize::MAX,
            forall|k: int| 0 <= k <= j ==> #[trigger] offsets@[k] == prefix_total(tw, k),
        decreases tw.len() - j,
    {
        proof {
            lemma_prefix_total_mono(tw, j as int + 1, tw.len() as int);
        }
        let last = offsets[j];
        offsets.push(last + target_weights[j]);
        j = j + 1;
    }
    let mut constraints: Vec<Range<usize>> = Vec::new();
    let mut i: usize = 0;
    while i < f.len()
        invariant
            tw == target_weights@,
            f@.len() == source_weights@.len(),
            forall|i: int| 0 <= i < f@.len() ==> #[trigger] f@[i] < tw.len(),
            offsets@.len() == tw.len() + 1,
            forall|k: int| 0 <= k <= tw.len() ==> #[trigger] offsets@[k] == prefix_total(tw, k),
            i <= f@.len(),
            constraints@ == copy_constraints(
                f@.subrange(0, i as int),
                source_weights@.subrange(0, i as int),
                tw,
            ),
        decreases f@.len() - i,
    {
        let t = f[i];
        assert(target_weights.len() == tw.len());
        proof {
            let fs = f@.subrange(0, i as int + 1);
            assert(fs.drop_last() =~= f@.subrange(0, i as int));
            assert(source_weights@.subrange(0, i as int + 1).subrange(0, i as int) =~= source_weights@.subrange(0, i as int));
            assert(offsets@[t as int] == prefix_total(tw, t as int));
            assert(offsets@[t as int + 1] == prefix_total(tw, t as int + 1));
        }
        push_range_copies(&mut constraints, offsets[t], offsets[t + 1], source_weights[i]);
        i = i + 1;
    }
    assert(f@.subrange(0, f@.len() as int) =~= f@);
    assert(source_weights@.subrange(0, f@.len() as int) =~= source_weights@);
    if should_preserve_extrema {
        let len = constraints.len();
        let s0 = constraints[0].start;
        constraints.set(0, Range { start: s0, end: 1 });
        let e = constraints[len - 1].end;
        constraints.set(len - 1, Range { start: e - 1, end: e });
    }
    MonotoneIterator::new(true, constraints.as_slice())
}

/// The total of the first `i` counts.
pub open spec fn count_total(counts: Seq<int>, i: int) -> int
    decreases i,
{
    if i <= 0 {
        0
    } else {
        count_total(counts, i - 1) + counts[i - 1]
    }
}

proof fn lemma_count_total_prefix(counts: Seq<int>, n: int, i: int)
    requires
        0 <= i <= n <= counts.len(),
    ensures
        count_total(counts.subrange(0, n), i) == count_total(counts, i),
    decreases i,
{
    if i > 0 {
        lemma_count_total_prefix(counts, n, i - 1);
    }
}

proof fn lemma_count_total_mono(counts: Seq<int>, i: int, j: int)
    requires
        0 <= i <= j <= counts.len(),
        forall|k: int| 0 <= k < counts.len() ==> counts[k] >= 0,
    ensures
        count_total(counts, i) <= count_total(counts, j),
    decreases j - i,
{
    if i < j {
        lemma_count_total_mono(counts, i, j - 1);
    }
}

/// Repeating each label by its count lays the labels out in blocks, one after the other:
/// the result is as long as the counts add up to, and the `k`-th copy of label `i` stands
/// right after the copies of the labels before it.
pub proof fn lemma_repeat_each_layout<A>(labels: Seq<A>, counts: Seq<int>)
    requires
        counts.len() == labels.len(),
        forall|k: int| 0 <= k < counts.len() ==> counts[k] >= 0,
    ensures
        repeat_each(labels, counts).len() == count_total(counts, labels.len() as int),
        forall|i: int, k: int|
            0 <= i < labels.len() && 0 <= k < counts[i] ==> #[trigger] repeat_each(labels, counts)[count_total(counts, i) + k]
                == labels[i],
    decreases labels.len(),
{
    if labels.len() > 0 {
        let n = labels.len() - 1;
        let l = labels.drop_last();
        let c = counts.subrange(0, n);
        lemma_repeat_each_layout(l, c);
        lemma_count_total_prefix(counts, n, n);
        let r = repeat_each(labels, counts);
        let pre = repeat_each(l, c);
        assert(r == pre + Seq::new(counts[n] as nat, |k: int| labels.last()));
        assert forall|i: int, k: int|
            0 <= i < labels.len() && 0 <= k < counts[i] implies #[trigger] r[count_total(counts, i) + k] == labels[i] by {
            assert(forall|q: int| 0 <= q < c.len() ==> c[q] == counts[q]);
            if i < n {
                lemma_count_total_prefix(counts, n, i);
                lemma_count_total_prefix(counts, n, i + 1);
                lemma_count_total_mono(c, i + 1, n);
                assert(count_total(c, i + 1) == count_total(c, i) + c[i]);
                assert(count_total(c, i) + k < pre.len());
                assert(pre[count_total(c, i) + k] == l[i]);
                let idx = count_total(c, i) + k;
                lemma_count_total_mono(c, 0, i);
                assert(count_total(counts, i) == count_total(c, i));
                let q = Seq::new(counts[n] as nat, |k: int| labels.last());
                assert((pre + q)[idx] == pre[idx]);
                assert(r[idx] == pre[idx]);
            } else {
                assert(r[count_total(counts, i) + k] == labels.last());
            }
        }
    }
}

/// Where the blocks of a singular expansion start: the regular height `j` right after
/// `2 * (w_0 + ... + w_{j-1}) + 1` copies, and the singular height `j` one later.
proof fn lemma_singular_offsets(len: int, w: Seq<usize>, j: int)
    requires
        len == 2 * w.len() + 3,
        len <= usize::MAX,
        weights_fit(w),
        0 <= j <= w.len(),
    ensures
        count_total(Seq::new(len as nat, |i: int| singular_copies(i, len, w)), 2 * j + 1) == 2 * prefix_total(w, j) + 1,
        count_total(Seq::new(len as nat, |i: int| singular_copies(i, len, w)), 2 * j + 2) == 2 * prefix_total(w, j) + 2,
    decreases j,
{
    let counts = Seq::new(len as nat, |i: int| singular_copies(i, len, w));
    if j == 0 {
        assert(count_total(counts, 0) == 0);
        assert(counts[0] == 1);
        assert(height_at(0) == Height::Regular(0));
        assert(counts[1] == 1);
        assert(count_total(counts, 1) == count_total(counts, 0) + counts[0]);
        assert(count_total(counts, 2) == count_total(counts, 1) + counts[1]);
    } else {
        lemma_singular_offsets(len, w, j - 1);
        assert((2 * j - 1) % 2 == 1 && (2 * j - 1 - 1) / 2 == j - 1);
        assert(height_at(2 * j - 1) == Height::Singular((j - 1) as usize));
        assert(counts[2 * j] == singular_copies(2 * j, len, w));
        assert(counts[2 * j] == 2 * w[j - 1] - 1);
        assert((2 * j) % 2 == 0 && (2 * j) / 2 == j);
        assert(height_at(2 * j) == Height::Regular(j as usize));
        assert(counts[2 * j + 1] == 1);
        assert(count_total(counts, 2 * j + 1) == count_total(counts, 2 * j) + counts[2 * j]);
        assert(count_total(counts, 2 * j + 2) == count_total(counts, 2 * j + 1) + counts[2 * j + 1]);
        assert(prefix_total(w, j) == prefix_total(w, j - 1) + w[j - 1]);
    }
}

/// A singular expansion lays the labels out as the weights say: the source and target once
/// at the two ends, the regular height `j` once after `2 * (w_0 + ... + w_{j-1}) + 1`
/// labels, the singular height `j` right after it `2 * w_j - 1` times, and
/// `2 * (w_0 + ... + w_{n-1}) + 3` labels in all.
pub proof fn lemma_singular_expansion_layout<A>(labels: Seq<A>, w: Seq<usize>, r: Seq<A>)
    requires
        labels.len() == 2 * w.len() + 3,
        labels.len() <= usize::MAX,
        weights_fit(w),
        r == repeat_each(labels, Seq::new(labels.len(), |i: int| singular_copies(i, labels.len() as int, w))),
    ensures
        r.len() == 2 * prefix_total(w, w.len() as int) + 3,
        r[0] == labels[0],
        r[r.len() - 1] == labels[labels.len() - 1],
        forall|j: int| 0 <= j <= w.len() ==> #[trigger] r[2 * prefix_total(w, j) + 1] == labels[2 * j + 1],
        forall|j: int, k: int|
            0 <= j < w.len() && 0 <= k < 2 * w[j] - 1 ==> #[trigger] r[2 * prefix_total(w, j) + 2 + k] == labels[2 * j + 2],
{
    let len = labels.len() as int;
    let n = w.len() as int;
    let counts = Seq::new(labels.len(), |i: int| singular_copies(i, len, w));
    assert forall|k: int| 0 <= k < counts.len() implies counts[k] >= 0 by {
        if k != 0 && k != len - 1 {
            match height_at(k - 1) {
                Height::Regular(_) => {},
                Height::Singular(j) => {
                    assert(j == (k - 2) / 2);
                    assert(0 <= j < n);
                    assert(w[j as int] >= 1);
                },
            }
        }
    }
    lemma_repeat_each_layout(labels, counts);
    lemma_singular_offsets(len, w, n);
    assert(counts[len - 1] == 1);
    assert(count_total(counts, len) == count_total(counts, 2 * n + 2) + 1);
    assert(counts[0] == 1);
    assert(count_total(counts, 0) == 0);
    assert(r[count_total(counts, 0) + 0] == labels[0]);
    assert(r[count_total(counts, len - 1) + 0] == labels[len - 1]);
    assert forall|j: int| 0 <= j <= n implies #[trigger] r[2 * prefix_total(w, j) + 1] == labels[2 * j + 1] by {
        lemma_singular_offsets(len, w, j);
        assert((2 * j) % 2 == 0 && (2 * j) / 2 == j);
        assert(height_at(2 * j) == Height::Regular(j as usize));
        assert(counts[2 * j + 1] == 1);
        assert(r[count_total(counts, 2 * j + 1) + 0] == labels[2 * j + 1]);
    }
    assert forall|j: int, k: int| 0 <= j < n && 0 <= k < 2 * w[j] - 1 implies #[trigger] r[2 * prefix_total(w, j) + 2 + k]
        == labels[2 * j + 2] by {
        lemma_singular_offsets(len, w, j);
        assert((2 * j + 1) % 2 == 1 && (2 * j + 1 - 1) / 2 == j);
        assert(height_at(2 * j + 1) == Height::Singular(j as usize));
        assert(counts[2 * j + 2] == singular_copies(2 * j + 2, len, w));
        assert(counts[2 * j + 2] == 2 * w[j] - 1);
        assert(r[count_total(counts, 2 * j + 2) + k] == labels[2 * j + 2]);
    }
}

/// Where the blocks of a regular expansion start: the regular height `j` right after
/// `2 * (w_0 + ... + w_{j-1}) + 1` copies, and the label after it one block later.
proof fn lemma_regular_offsets(len: int, w: Seq<usize>, j: int)
    requires
        len == 2 * w.len() + 1,
        len <= usize::MAX,
        weights_fit(w),
        0 <= j <= w.len(),
    ensures
        count_total(Seq::new(len as nat, |i: int| regular_copies(i, len, w)), 2 * j) == 2 * prefix_total(w, j),
        count_total(Seq::new(len as nat, |i: int| regular_copies(i, len, w)), 2 * j + 1) == 2 * prefix_total(w, j) + 1,
    decreases j,
{
    let counts = Seq::new(len as nat, |i: int| regular_copies(i, len, w));
    if j == 0 {
        assert(count_total(counts, 0) == 0);
        assert(counts[0] == 1);
        assert(count_total(counts, 1) == count_total(counts, 0) + counts[0]);
    } else {
        lemma_regular_offsets(len, w, j - 1);
        assert((2 * j - 2) % 2 == 0 && (2 * j - 2) / 2 == j - 1);
        assert(height_at(2 * j - 2) == Height::Regular((j - 1) as usize));
        assert(counts[2 * j - 1] == regular_copies(2 * j - 1, len, w));
        assert(counts[2 * j - 1] == 2 * w[j - 1] - 1);
        if 2 * j != len - 1 {
            assert((2 * j - 1) % 2 == 1 && (2 * j - 1 - 1) / 2 == j - 1);
            assert(height_at(2 * j - 1) == Height::Singular((j - 1) as usize));
        }
        assert(counts[2 * j] == regular_copies(2 * j, len, w));
        assert(counts[2 * j] == 1);
        assert(count_total(counts, 2 * j) == count_total(counts, 2 * j - 1) + counts[2 * j - 1]);
        assert(count_total(counts, 2 * j + 1) == count_total(counts, 2 * j) + counts[2 * j]);
        assert(prefix_total(w, j) == prefix_total(w, j - 1) + w[j - 1]);
    }
}

/// A regular expansion lays the labels out as the weights say: the regular height `j`
/// `2 * w_j - 1` times after `2 * (w_0 + ... + w_{j-1}) + 1` labels, every other label once,
/// right after the block before it, and `2 * (w_0 + ... + w_{n-1}) + 1` labels in all.
pub proof fn lemma_regular_expansion_layout<A>(labels: Seq<A>, w: Seq<usize>, r: Seq<A>)
    requires
        labels.len() == 2 * w.len() + 1,
        labels.len() <= usize::MAX,
        weights_fit(w),
        r == repeat_each(labels, Seq::new(labels.len(), |i: int| regular_copies(i, labels.len() as int, w))),
    ensures
        r.len() == 2 * prefix_total(w, w.len() as int) + 1,
        forall|j: int| 0 <= j <= w.len() ==> #[trigger] r[2 * prefix_total(w, j)] == labels[2 * j],
        forall|j: int, k: int|
            0 <= j < w.len() && 0 <= k < 2 * w[j] - 1 ==> #[trigger] r[2 * prefix_total(w, j) + 1 + k] == labels[2 * j + 1],
{
    let len = labels.len() as int;
    let n = w.len() as int;
    let counts = Seq::new(labels.len(), |i: int| regular_copies(i, len, w));
    assert forall|k: int| 0 <= k < counts.len() implies counts[k] >= 0 by {
        if k != 0 && k != len - 1 {
            match height_at(k - 1) {
                Height::Regular(j) => {
                    assert(j == (k - 1) / 2);
                    assert(0 <= j < n);
                    assert(w[j as int] >= 1);
                },
                Height::Singular(_) => {},
            }
        }
    }
    lemma_repeat_each_layout(labels, counts);
    lemma_regular_offsets(len, w, n);
    assert forall|j: int| 0 <= j <= n implies #[trigger] r[2 * prefix_total(w, j)] == labels[2 * j] by {
        lemma_regular_offsets(len, w, j);
        if j > 0 && j < n {
            assert((2 * j - 1) % 2 == 1 && (2 * j - 1 - 1) / 2 == j - 1);
            assert(height_at(2 * j - 1) == Height::Singular((j - 1) as usize));
        }
        assert(counts[2 * j] == regular_copies(2 * j, len, w));
        assert(counts[2 * j] == 1);
        assert(r[count_total(counts, 2 * j) + 0] == labels[2 * j]);
    }
    assert forall|j: int, k: int| 0 <= j < n && 0 <= k < 2 * w[j] - 1 implies #[trigger] r[2 * prefix_total(w, j) + 1 + k]
        == labels[2 * j + 1] by {
        lemma_regular_offsets(len, w, j);
        assert((2 * j) % 2 == 0 && (2 * j) / 2 == j);
        assert(height_at(2 * j) == Height::Regular(j as usize));
        assert(counts[2 * j + 1] == regular_copies(2 * j + 1, len, w));
        assert(counts[2 * j + 1] == 2 * w[j] - 1);
        assert(r[count_total(counts, 2 * j + 1) + k] == labels[2 * j + 1]);
    }
}

proof fn lemma_prefix_total_prefix(w: Seq<usize>, n: int, i: int)
    requires
        0 <= i <= n <= w.len(),
    ensures
        prefix_total(w.subrange(0, n), i) == prefix_total(w, i),
    decreases i,
{
    if i > 0 {
        lemma_prefix_total_prefix(w, n, i - 1);
    }
}

/// The block of copies of target element `t`: from the copies of the elements before it
/// to the copies of those up to it.
pub open spec fn copies_of(tw: Seq<usize>, t: int) -> Range<usize> {
    Range { start: prefix_total(tw, t) as usize, end: prefix_total(tw, t + 1) as usize }
}

/// The constraints of an injectification list the copies of each source element in turn,
/// `sw[i]` copies of element `i`, and send each copy into the block of copies of `f[i]`.
pub proof fn lemma_copy_constraints_layout(f: Seq<usize>, sw: Seq<usize>, tw: Seq<usize>)
    requires
        f.len() == sw.len(),
    ensures
        copy_constraints(f, sw, tw).len() == prefix_total(sw, f.len() as int),
        forall|i: int, k: int|
            0 <= i < f.len() && 0 <= k < sw[i] ==> #[trigger] copy_constraints(f, sw, tw)[prefix_total(sw, i) + k]
                == copies_of(tw, f[i] as int),
    decreases f.len(),
{
    if f.len() > 0 {
        let n = f.len() - 1;
        let f0 = f.drop_last();
        let s0 = sw.subrange(0, n);
        lemma_copy_constraints_layout(f0, s0, tw);
        lemma_prefix_total_prefix(sw, n, n);
        let c = copy_constraints(f, sw, tw);
        let pre = copy_constraints(f0, s0, tw);
        let q = Seq::new(
            sw[n] as nat,
            |k: int| Range { start: prefix_total(tw, f[n] as int) as usize, end: prefix_total(tw, f[n] + 1) as usize },
        );
        assert(c == pre + q);
        assert forall|i: int, k: int| 0 <= i < f.len() && 0 <= k < sw[i] implies #[trigger] c[prefix_total(sw, i) + k]
            == copies_of(tw, f[i] as int) by {
            if i < n {
                lemma_prefix_total_prefix(sw, n, i);
                lemma_prefix_total_prefix(sw, n, i + 1);
                lemma_prefix_total_mono(s0, i + 1, n);
                lemma_prefix_total_mono(s0, 0, i);
                assert(prefix_total(s0, i + 1) == prefix_total(s0, i) + s0[i]);
                let idx = prefix_total(s0, i) + k;
                assert(idx < pre.len());
                assert(pre[idx] == copies_of(tw, f0[i] as int));
                assert((pre + q)[idx] == pre[idx]);
            } else {
                assert(c[prefix_total(sw, n) + k] == q[k]);
            }
        }
    }
}

/// The number of copies of all source elements.
pub open spec fn total_copies(sw: Seq<usize>) -> int {
    prefix_total(sw, sw.len() as int)
}

/// The constraints of an injectification: with extrema kept, the first copy is pinned to
/// the bottom copy and the last to the top copy of its block; every other copy of source
/// element `i` is sent into the block of copies of `f[i]`.
pub proof fn lemma_injectify_constraints_layout(f: Seq<usize>, sw: Seq<usize>, tw: Seq<usize>, keep: bool)
    requires
        f.len() == sw.len(),
        prefix_total(sw, f.len() as int) > 0,
    ensures
        injectify_constraints(f, sw, tw, keep).len() == prefix_total(sw, f.len() as int),
        forall|i: int, k: int|
            0 <= i < f.len() && 0 <= k < sw[i] && (!keep || (prefix_total(sw, i) + k != 0 && prefix_total(sw, i) + k
                != prefix_total(sw, f.len() as int) - 1)) ==> #[trigger] injectify_constraints(f, sw, tw, keep)[prefix_total(
                sw,
                i,
            ) + k] == copies_of(tw, f[i] as int),
        keep ==> injectify_constraints(f, sw, tw, keep)[0].end == 1,
        keep && total_copies(sw) == 1 ==> injectify_constraints(f, sw, tw, keep)[0].start == 0,
        keep && total_copies(sw) > 1 ==> ({
            let c = injectify_constraints(f, sw, tw, keep);
            let m = c.len() - 1;
            &&& c[0].start == copy_constraints(f, sw, tw)[0].start
            &&& c[m].end == copy_constraints(f, sw, tw)[m].end
            &&& copy_constraints(f, sw, tw)[m].end >= 1 ==> c[m].start + 1 == c[m].end
        }),
{
    lemma_copy_constraints_layout(f, sw, tw);
    let c = copy_constraints(f, sw, tw);
    let total = prefix_total(sw, f.len() as int);
    if keep {
        let first = c.update(0, Range { start: c[0].start, end: 1 });
        let m = first.len() - 1;
        let p = first.update(m, Range { start: (first[m].end - 1) as usize, end: first[m].end });
        assert(injectify_constraints(f, sw, tw, keep) == p);
        assert forall|i: int, k: int|
            0 <= i < f.len() && 0 <= k < sw[i] && (prefix_total(sw, i) + k != 0 && prefix_total(sw, i) + k != total - 1)
            implies #[trigger] p[prefix_total(sw, i) + k] == copies_of(tw, f[i] as int) by {
            let idx = prefix_total(sw, i) + k;
            lemma_prefix_total_mono(sw, i + 1, f.len() as int);
            lemma_prefix_total_mono(sw, 0, i);
            assert(prefix_total(sw, i + 1) == prefix_total(sw, i) + sw[i]);
            assert(0 <= idx < total);
            assert(c[idx] == copies_of(tw, f[i] as int));
            assert(p[idx] == first[idx]);
            assert(first[idx] == c[idx]);
        }
        assert(total == total_copies(sw));
        if m == 0 {
            assert(first[0].end == 1);
        } else {
            assert(first[m] == c[m]);
            assert(p[0] == first[0]);
        }
    } else {
        assert(injectify_constraints(f, sw, tw, keep) == c);
    }
}

} // verus!
