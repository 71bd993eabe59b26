use vstd::prelude::*;
use std::ops::Range;

verus! {

/// A map between finite ordinals `[n] -> [m]`, given by its sequence of values.
/// Nothing in the type forces the values to be monotone: the operations say what they
/// compute on any sequence, and the laws below state what holds for monotone ones.
#[derive(Debug, PartialEq, Eq, Hash)]
pub struct Monotone(pub Vec<usize>);

impl Clone for Monotone {
    fn clone(&self) -> (r: Self)
        ensures
            r@ == self@,
    {
        Monotone(self.0.clone())
    }
}

/// A fibre of a map: the source positions `source` that map to `target`.
#[derive(Debug, PartialEq, Eq, Hash)]
pub struct Split {
    pub source: Range<usize>,
    pub target: usize,
}

impl Clone for Split {
    fn clone(&self) -> (r: Self)
        ensures
            r == *self,
    {
        Split { source: Range { start: self.source.start, end: self.source.end }, target: self.target }
    }
}

impl View for Monotone {
    type V = Seq<usize>;

    open spec fn view(&self) -> Seq<usize> {
        self.0@
    }
}

/// The sequence never decreases.
pub open spec fn is_monotone(s: Seq<usize>) -> bool {
    forall|i: int, j: int| 0 <= i <= j < s.len() ==> s[i] <= s[j]
}

/// The sequence increases at every step.
pub open spec fn is_strictly_monotone(s: Seq<usize>) -> bool {
    forall|i: int, j: int| 0 <= i < j < s.len() ==> s[i] < s[j]
}

/// Every value is below `bound`.
pub open spec fn bounded_by(s: Seq<usize>, bound: int) -> bool {
    forall|i: int| 0 <= i < s.len() ==> s[i] < bound
}

/// `range` is what `preimage_from(begin, t)` finds in `s`: it starts at the first position
/// from `begin` on whose value is at least `t` (or at the end), and runs over the
/// values equal to `t` from there.
pub open spec fn is_preimage_from(s: Seq<usize>, begin: int, t: int, start: int, end: int) -> bool {
    &&& begin <= start <= end <= s.len()
    &&& forall|j: int| begin <= j < start ==> s[j] < t
    &&& start < s.len() ==> s[start] >= t
    &&& forall|j: int| start <= j < end ==> s[j] == t
    &&& end < s.len() ==> s[end] != t
}

/// The first position from `begin` on whose value is at least `t`, or `s.len()`.
pub open spec fn first_at_least(s: Seq<usize>, begin: int, t: int) -> int
    decreases s.len() - begin,
{
    if begin >= s.len() {
        s.len() as int
    } else if s[begin] >= t {
        begin
    } else {
        first_at_least(s, begin + 1, t)
    }
}

proof fn lemma_first_at_least(s: Seq<usize>, begin: int, t: int)
    requires
        0 <= begin <= s.len(),
    ensures
        begin <= first_at_least(s, begin, t) <= s.len(),
        forall|j: int| begin <= j < first_at_least(s, begin, t) ==> s[j] < t,
        first_at_least(s, begin, t) < s.len() ==> s[first_at_least(s, begin, t)] >= t,
    decreases s.len() - begin,
{
    if begin < s.len() && s[begin] < t {
        lemma_first_at_least(s, begin + 1, t);
    }
}

/// The characterisation above determines the range.
pub proof fn lemma_preimage_unique(s: Seq<usize>, begin: int, t: int, a: int, b: int, c: int, d: int)
    requires
        is_preimage_from(s, begin, t, a, b),
        is_preimage_from(s, begin, t, c, d),
    ensures
        a == c,
        b == d,
{
    if a < c {
        assert(s[a] < t);
    }
    if c < a {
        assert(s[c] < t);
    }
    if b < d {
        assert(s[b] == t);
    }
    if d < b {
        assert(s[d] == t);
    }
}

impl Monotone {
    /// Builds a map from its sequence of values.
    pub fn from_vec(v: Vec<usize>) -> (r: Self)
        ensures
            r@ == v@,
    {
        Monotone(v)
    }

    /// The size of the source.
    pub fn len(&self) -> (r: usize)
        ensures
            r == self@.len(),
    {
        self.0.len()
    }

    pub fn is_empty(&self) -> (r: bool)
        ensures
            r == (self@.len() == 0),
    {
        self.0.len() == 0
    }

    /// Extends the source by one element with the given value.
    pub fn push(&mut self, value: usize)
        ensures
            final(self)@ == old(self)@.push(value),
    {
        self.0.push(value);
    }

    /// The value at a position of the source.
    pub fn get(&self, i: usize) -> (r: usize)
        requires
            i < self@.len(),
        ensures
            r == self@[i as int],
    {
        self.0[i]
    }

    /// The sequence of values.
    pub fn slices(&self) -> (r: Vec<usize>)
        ensures
            r@ == self@,
    {
        self.0.clone()
    }

    /// Composes two maps: first `self`, then `other`. There is no composite when a value
    /// of `self` lies outside the source of `other`.
    pub fn compose(&self, other: &Self) -> (r: Option<Self>)
        ensures
            r is Some <==> bounded_by(self@, other@.len() as int),
            r matches Some(c) ==> c@ == self@.map_values(|i: usize| other@[i as int]),
    {
        let mut seq: Vec<usize> = Vec::new();
        let mut k: usize = 0;
        while k < self.0.len()
            invariant
                k <= self@.len(),
                seq@.len() == k,
                bounded_by(self@.subrange(0, k as int), other@.len() as int),
                forall|j: int| 0 <= j < k ==> #[trigger] seq@[j] == other@[self@[j] as int],
            decreases self@.len() - k,
        {
            let i = self.0[k];
            if i >= other.0.len() {
                assert(!bounded_by(self@, other@.len() as int)) by {
                    assert(self@[k as int] == i);
                }
                return None;
            }
            seq.push(other.0[i]);
            assert(forall|j: int| 0 <= j < k + 1 ==> self@.subrange(0, k + 1)[j] == self@[j]);
            k = k + 1;
        }
        assert(self@.subrange(0, k as int) =~= self@);
        let r = Monotone(seq);
        assert(r@ =~= self@.map_values(|i: usize| other@[i as int]));
        Some(r)
    }

    fn preimage_from(&self, begin: usize, target_index: usize) -> (r: Range<usize>)
        requires
            begin <= self@.len(),
        ensures
            is_preimage_from(self@, begin as int, target_index as int, r.start as int, r.end as int),
    {
        let source_size = self.0.len();
        let mut start = begin;
        while start < source_size
            invariant
                source_size == self@.len(),
                begin <= start <= source_size,
                forall|j: int| begin <= j < start ==> self@[j] < target_index,
            decreases source_size - start,
        {
            if self.0[start] >= target_index {
                let mut end = start;
                while end < source_size && self.0[end] == target_index
                    invariant
                        source_size == self@.len(),
                        start <= end <= source_size,
                        forall|j: int| start <= j < end ==> self@[j] == target_index,
                    decreases source_size - end,
                {
                    end = end + 1;
                }
                return Range { start, end };
            }
            start = start + 1;
        }
        Range { start: source_size, end: source_size }
    }

    /// The source positions that map to `target_index`, found by scanning from the
    /// start for the first value at least `target_index`.
    pub fn preimage(&self, target_index: usize) -> (r: Range<usize>)
        ensures
            is_preimage_from(self@, 0, target_index as int, r.start as int, r.end as int),
    {
        self.preimage_from(0, target_index)
    }

    /// The fibres over each position of a target of size `target_size`, each search
    /// starting where the previous fibre ended.
    pub fn cones(&self, target_size: usize) -> (r: Vec<Split>)
        ensures
            r@.len() == target_size,
            is_cones_of(self@, r@),
    {
        let mut r: Vec<Split> = Vec::new();
        let mut prev: usize = 0;
        let mut target: usize = 0;
        while target < target_size
            invariant
                target <= target_size,
                r@.len() == target,
                prev <= self@.len(),
                target == 0 ==> prev == 0,
                target > 0 ==> prev == r@[target - 1].source.end,
                is_cones_of(self@, r@),
            decreases target_size - target,
        {
            let source = self.preimage_from(prev, target);
            prev = source.end;
            let ghost old_r = r@;
            r.push(Split { source, target });
            proof {
                reveal(search_begin);
                assert forall|k: int| 0 <= k < r@.len() implies {
                    &&& (#[trigger] r@[k]).target == k
                    &&& is_preimage_from(
                        self@,
                        search_begin(r@, k),
                        k,
                        r@[k].source.start as int,
                        r@[k].source.end as int,
                    )
                } by {
                    if k < target {
                        assert(old_r[k] == r@[k]);
                        if k > 0 {
                            assert(old_r[k - 1] == r@[k - 1]);
                        }
                    } else if k > 0 {
                        assert(r@[k - 1] == old_r[k - 1]);
                    }
                }
            }
            target = target + 1;
        }
        r
    }

    /// Given a map `f : [n] -> [m]` in the simplex category, its dual `[m + 1] -> [n + 1]`:
    /// position `i` goes to the first source position whose value is at least `i`.
    pub fn dual(&self, target_size: usize) -> (r: Self)
        requires
            bounded_by(self@, target_size as int),
            target_size < usize::MAX,
        ensures
            r@.len() == target_size + 1,
            forall|i: int|
                0 <= i <= target_size ==> #[trigger] r@[i] == first_at_least(self@, 0, i),
    {
        let mut seq: Vec<usize> = Vec::new();
        let mut i: usize = 0;
        while i <= target_size
            invariant
                i <= target_size + 1,
                target_size < usize::MAX,
                seq@.len() == i,
                forall|k: int| 0 <= k < i ==> #[trigger] seq@[k] == first_at_least(self@, 0, k),
            decreases target_size + 1 - i,
        {
            let range = self.preimage_from(0, i);
            proof {
                lemma_first_at_least(self@, 0, i as int);
                let f = first_at_least(self@, 0, i as int);
                if (range.start as int) < f {
                    assert(self@[range.start as int] < i);
                }
                if f < (range.start as int) {
                    assert(self@[f] < i);
                }
            }
            seq.push(range.start);
            i = i + 1;
        }
        Monotone(seq)
    }

    /// Given a map `f : [m + 1] -> [n + 1]` that keeps the bottom and the top, its
    /// inverse dual `[n] -> [m]`.
    pub fn dual_inv(&self, target_size: usize) -> (r: Self)
        requires
            self@.len() > 0,
            0 < target_size < usize::MAX,
            self@[0] == 0,
            self@[self@.len() - 1] == target_size - 1,
            bounded_by(self@, target_size as int),
        ensures
            r@.len() == target_size - 1,
            forall|k: int|
                0 <= k < target_size - 1 ==> #[trigger] r@[k] == first_at_least(self@, 0, k + 1)
                    - 1,
    {
        let dual = self.dual(target_size);
        let mut seq: Vec<usize> = Vec::new();
        let mut k: usize = 1;
        while k < target_size
            invariant
                1 <= k <= target_size,
                dual@.len() == target_size + 1,
                forall|i: int|
                    0 <= i <= target_size ==> #[trigger] dual@[i] == first_at_least(self@, 0, i),
                self@.len() > 0,
                self@[0] == 0,
                seq@.len() == k - 1,
                forall|j: int|
                    0 <= j < k - 1 ==> #[trigger] seq@[j] == first_at_least(self@, 0, j + 1) - 1,
            decreases target_size - k,
        {
            proof {
                lemma_first_at_least(self@, 0, k as int);
                assert(dual@[k as int] == first_at_least(self@, 0, k as int));
                if first_at_least(self@, 0, k as int) == 0 {
                    assert(self@[0] >= k);
                }
            }
            seq.push(dual.0[k] - 1);
            k = k + 1;
        }
        Monotone(seq)
    }
}

/// On a monotone map, the preimage of `t` is exactly the set of positions whose value
/// is `t`.
pub proof fn lemma_preimage_is_fibre(s: Seq<usize>, t: int, start: int, end: int, j: int)
    requires
        is_monotone(s),
        is_preimage_from(s, 0, t, start, end),
        0 <= j < s.len(),
    ensures
        (start <= j < end) <==> s[j] == t,
{
    if s[j] == t && j >= end {
        assert(s[end] <= s[j]);
        assert(s[end] >= t) by {
            if start < s.len() {
                assert(s[start] <= s[end]);
            }
        }
    }
}

/// `r` is what `cones` returns for `s`: the `k`-th entry is the fibre over `k` found by a
/// search that starts where the previous one ended.
pub open spec fn is_cones_of(s: Seq<usize>, r: Seq<Split>) -> bool {
    forall|k: int|
        0 <= k < r.len() ==> {
            &&& (#[trigger] r[k]).target == k
            &&& is_preimage_from(
                s,
                search_begin(r, k),
                k,
                r[k].source.start as int,
                r[k].source.end as int,
            )
        }
}

/// Where the search for the `k`-th fibre begins: where the previous fibre ended.
#[verifier::opaque]
pub open spec fn search_begin(r: Seq<Split>, k: int) -> int {
    if k <= 0 {
        0
    } else {
        r[k - 1].source.end as int
    }
}

/// The `k`-th fibre of `cones` and the search that found it.
proof fn lemma_cones_at(s: Seq<usize>, r: Seq<Split>, k: int)
    requires
        is_cones_of(s, r),
        0 <= k < r.len(),
    ensures
        r[k].target == k,
        is_preimage_from(
            s,
            if k == 0 {
                0
            } else {
                r[k - 1].source.end as int
            },
            k,
            r[k].source.start as int,
            r[k].source.end as int,
        ),
{
    reveal(search_begin);
}

proof fn lemma_cones_prefix(s: Seq<usize>, r: Seq<Split>, k: int)
    requires
        is_monotone(s),
        is_cones_of(s, r),
        0 <= k < r.len(),
    ensures
        forall|j: int| 0 <= j < r[k].source.end ==> s[j] <= k,
    decreases k,
{
    if k > 0 {
        lemma_cones_prefix(s, r, k - 1);
    }
    lemma_cones_at(s, r, k);
}

proof fn lemma_cones_end_value(s: Seq<usize>, r: Seq<Split>, k: int)
    requires
        is_monotone(s),
        is_cones_of(s, r),
        0 <= k < r.len(),
        r[k].source.end < s.len(),
    ensures
        s[r[k].source.end as int] >= k + 1,
{
    lemma_cones_at(s, r, k);
    let e = r[k].source.end as int;
    let st = r[k].source.start as int;
    assert(s[e] != k);
    if st < s.len() {
        assert(s[st] <= s[e]);
    }
}

proof fn lemma_cones_adjacent(s: Seq<usize>, r: Seq<Split>, k: int)
    requires
        is_monotone(s),
        is_cones_of(s, r),
        0 <= k < r.len() - 1,
    ensures
        r[k].source.end == r[k + 1].source.start,
{
    let k1 = k + 1;
    let e = r[k].source.end as int;
    lemma_cones_at(s, r, k1);
    if e < s.len() {
        lemma_cones_end_value(s, r, k);
        if r[k1].source.start > e {
            assert(s[e] < k1);
        }
    }
}

proof fn lemma_cones_fibre(s: Seq<usize>, r: Seq<Split>, k: int, j: int)
    requires
        is_monotone(s),
        is_cones_of(s, r),
        0 <= k < r.len(),
        0 <= j < s.len(),
    ensures
        (r[k].source.start <= j < r[k].source.end) <==> s[j] == k,
{
    lemma_cones_at(s, r, k);
    let st = r[k].source.start as int;
    let en = r[k].source.end as int;
    if s[j] == k {
        if j < st && k > 0 {
            lemma_cones_prefix(s, r, k - 1);
            if j < r[k - 1].source.end {
                assert(s[j] <= k - 1);
            }
        }
        if j >= en {
            lemma_cones_end_value(s, r, k);
            assert(s[en] <= s[j]);
        }
    }
}

/// The fibres that `cones` finds for a monotone map into `[m]` tile its source: they
/// follow each other without gap and together cover it, and each is the full fibre.
pub proof fn lemma_cones_tile(s: Seq<usize>, r: Seq<Split>, m: int)
    requires
        is_monotone(s),
        bounded_by(s, m),
        m >= 1,
        r.len() == m,
        is_cones_of(s, r),
    ensures
        r[0].source.start == 0,
        forall|k: int| 0 <= k < m - 1 ==> r[k].source.end == #[trigger] r[k + 1].source.start,
        r[m - 1].source.end == s.len(),
        forall|k: int, j: int|
            0 <= k < m && 0 <= j < s.len() ==> ((#[trigger] r[k].source.start <= j
                < r[k].source.end) <==> #[trigger] s[j] == k),
{
    lemma_cones_at(s, r, 0);
    if r[0].source.start > 0 {
        assert(s[0] < 0);
    }
    assert forall|k: int| 0 <= k < m - 1 implies r[k].source.end == #[trigger] r[k + 1].source.start by {
        lemma_cones_adjacent(s, r, k);
    }
    let e = r[m - 1].source.end as int;
    if e < s.len() {
        lemma_cones_end_value(s, r, m - 1);
        assert(s[e] < m);
    }
    assert forall|k: int, j: int|
        0 <= k < m && 0 <= j < s.len() implies ((#[trigger] r[k].source.start <= j
        < r[k].source.end) <==> #[trigger] s[j] == k) by {
        lemma_cones_fibre(s, r, k, j);
    }
}

/// Composition of maps is associative wherever the right-nested composite exists.
pub proof fn lemma_compose_assoc(a: Seq<usize>, b: Seq<usize>, c: Seq<usize>)
    requires
        bounded_by(a, b.len() as int),
        bounded_by(b, c.len() as int),
    ensures
        bounded_by(a.map_values(|i: usize| b[i as int]), c.len() as int),
        a.map_values(|i: usize| b[i as int]).map_values(|i: usize| c[i as int]) == a.map_values(
            |i: usize| b.map_values(|j: usize| c[j as int])[i as int],
        ),
{
    assert(a.map_values(|i: usize| b[i as int]).map_values(|i: usize| c[i as int]) =~= a.map_values(
        |i: usize| b.map_values(|j: usize| c[j as int])[i as int],
    ));
}

/// The composite of monotone maps is monotone.
pub proof fn lemma_compose_monotone(a: Seq<usize>, b: Seq<usize>)
    requires
        is_monotone(a),
        is_monotone(b),
        bounded_by(a, b.len() as int),
    ensures
        is_monotone(a.map_values(|i: usize| b[i as int])),
{
}

/// The dual of a map and the map are adjoint: for a monotone map the dual sends `i` to
/// a position at most `j` exactly when the value at `j` is at least `i`.
pub proof fn lemma_dual_galois(s: Seq<usize>, i: int, j: int)
    requires
        is_monotone(s),
        0 <= j < s.len(),
    ensures
        first_at_least(s, 0, i) <= j <==> s[j] >= i,
{
    lemma_first_at_least(s, 0, i);
    let f = first_at_least(s, 0, i);
    if f <= j && f < s.len() {
        assert(s[f] <= s[j]);
    }
}

/// The inverse dual undoes the dual: for a monotone map `s : [n] -> [m]` and its dual
/// `d = s.dual(m)`, `d` keeps the bottom and the top and lands in `[n + 1]` (as
/// `dual_inv` asks), and what `dual_inv(n + 1)` computes from `d` at each `k` is `s[k]`.
pub proof fn lemma_dual_inv_dual(s: Seq<usize>, m: int, d: Seq<usize>)
    requires
        is_monotone(s),
        bounded_by(s, m),
        m >= 1,
        d.len() == m + 1,
        forall|i: int| 0 <= i <= m ==> #[trigger] d[i] == first_at_least(s, 0, i),
    ensures
        d[0] == 0,
        d[m] == s.len(),
        bounded_by(d, s.len() + 1int),
        forall|k: int| 0 <= k < s.len() ==> #[trigger] first_at_least(d, 0, k + 1) - 1 == s[k],
{
    lemma_first_at_least(s, 0, 0);
    if s.len() > 0 {
        assert(d[0] == first_at_least(s, 0, 0));
    }
    lemma_first_at_least(s, 0, m);
    assert(d[m] == first_at_least(s, 0, m));
    if first_at_least(s, 0, m) < s.len() {
        assert(s[first_at_least(s, 0, m)] < m);
    }
    assert forall|i: int| 0 <= i < d.len() implies d[i] < s.len() + 1 by {
        lemma_first_at_least(s, 0, i);
    }
    assert forall|k: int| 0 <= k < s.len() implies #[trigger] first_at_least(d, 0, k + 1) - 1 == s[k] by {
        lemma_first_at_least(d, 0, k + 1);
        let q = first_at_least(d, 0, k + 1);
        assert forall|i: int| 0 <= i <= m implies (d[i] >= k + 1 <==> s[k] < i) by {
            lemma_first_at_least(s, 0, i);
            let p = first_at_least(s, 0, i);
            if s[k] < i && p <= k {
                assert(s[p] <= s[k]);
            }
        }
        assert(s[k] + 1 <= m);
        if q <= s[k] {
            assert(d[q] >= k + 1);
        }
        if q > s[k] + 1 {
            assert(d[s[k] + 1] < k + 1);
        }
    }
}

/// The dual of any map is monotone.
pub proof fn lemma_dual_monotone(s: Seq<usize>, i: int, k: int)
    requires
        0 <= i <= k,
    ensures
        first_at_least(s, 0, i) <= first_at_least(s, 0, k),
{
    lemma_first_at_least(s, 0, i);
    lemma_first_at_least(s, 0, k);
    let fk = first_at_least(s, 0, k);
    if fk < first_at_least(s, 0, i) {
        assert(s[fk] < i);
    }
}


/// Iterates over all sequences that lie element-wise within given ranges and are
/// monotone (or strictly monotone), in lexicographic order from either end.
#[derive(Debug)]
pub struct MonotoneIterator {
    /// The sequence most recently produced.
    pub cur: Option<Monotone>,
    /// Whether the sequences should be strictly monotone.
    pub strict: bool,
    /// Element-wise range constraints for the sequences.
    pub constraints: Vec<Range<usize>>,
}

/// The step between consecutive elements: one for strict sequences, none otherwise.
pub open spec fn step_of(strict: bool) -> int {
    if strict {
        1
    } else {
        0
    }
}

/// The lower bound of element `i` once the constraints are tightened from the left.
pub open spec fn tight_min(c: Seq<Range<usize>>, strict: bool, i: int) -> int
    decreases i,
{
    if i <= 0 {
        c[0].start as int
    } else {
        let prev = tight_min(c, strict, i - 1) + step_of(strict);
        if prev >= c[i].start {
            prev
        } else {
            c[i].start as int
        }
    }
}

/// The upper bound of element `c.len() - 1 - i` once the constraints are tightened from
/// the right.
pub open spec fn tight_max(c: Seq<Range<usize>>, strict: bool, i: int) -> int
    decreases i,
{
    if i <= 0 {
        c[c.len() - 1].end as int
    } else {
        let prev = tight_max(c, strict, i - 1) - step_of(strict);
        if prev <= c[c.len() - 1 - i].end {
            prev
        } else {
            c[c.len() - 1 - i].end as int
        }
    }
}

/// The tightening of the constraints can be computed without leaving the range of `usize`.
pub open spec fn tightening_fits(c: Seq<Range<usize>>, strict: bool) -> bool {
    strict && c.len() > 1 ==> forall|i: int|
        0 <= i < c.len() - 1 ==> tight_min(c, strict, i) < usize::MAX && tight_max(c, strict, i)
            >= 1
}

/// The sequence lies within the constraints.
pub open spec fn within(c: Seq<Range<usize>>, s: Seq<usize>) -> bool {
    &&& s.len() == c.len()
    &&& forall|i: int| 0 <= i < s.len() ==> c[i].start <= #[trigger] s[i] < c[i].end
}

/// The sequence is monotone, strictly so if `strict`.
pub open spec fn steps_up(s: Seq<usize>, strict: bool) -> bool {
    forall|i: int| 0 <= i < s.len() - 1 ==> s[i] + step_of(strict) <= #[trigger] s[i + 1]
}

/// The constraints are tight: their lower and upper bounds step up as the sequences do.
pub open spec fn constraints_tight(c: Seq<Range<usize>>, strict: bool) -> bool {
    forall|i: int, j: int|
        #![trigger c[i], c[j]]
        0 <= i && j == i + 1 && j < c.len() ==> {
            &&& c[i].start + step_of(strict) <= c[j].start
            &&& c[i].end + step_of(strict) <= c[j].end
        }
}

/// The position just after the last element of `s` that is below its upper bound, or `0`.
pub open spec fn last_non_max(c: Seq<Range<usize>>, s: Seq<usize>, k: int) -> int
    decreases k,
{
    if k <= 0 {
        0
    } else if s[k - 1] != c[k - 1].end - 1 {
        k
    } else {
        last_non_max(c, s, k - 1)
    }
}

/// The position of the first element of `s` that is above its lower bound, or `s.len()`.
pub open spec fn first_non_min(c: Seq<Range<usize>>, s: Seq<usize>, k: int) -> int
    decreases s.len() - k,
{
    if k >= s.len() {
        s.len() as int
    } else if s[k] != c[k].start {
        k
    } else {
        first_non_min(c, s, k + 1)
    }
}

/// The least value element `j` can take in a sequence that is `base` at position `k < j`
/// and as small as possible in between.
pub open spec fn least_after(c: Seq<Range<usize>>, strict: bool, base: int, k: int, j: int) -> int
    decreases j - k,
{
    if j <= k {
        base
    } else {
        let prev = least_after(c, strict, base, k, j - 1) + step_of(strict);
        if prev >= c[j].start {
            prev
        } else {
            c[j].start as int
        }
    }
}

/// The greatest value element `j` can take in a sequence that is `base` at position
/// `k > j` and as large as possible in between.
pub open spec fn greatest_before(c: Seq<Range<usize>>, strict: bool, base: int, k: int, j: int) -> int
    decreases k - j,
{
    if j >= k {
        base
    } else {
        let prev = greatest_before(c, strict, base, k, j + 1) - step_of(strict);
        if prev <= c[j].end - 1 {
            prev
        } else {
            c[j].end - 1
        }
    }
}

/// The sequence that follows `s` in lexicographic order: the last element that can
/// still grow grows by one, and everything after it becomes as small as it can be.
pub open spec fn successor(c: Seq<Range<usize>>, strict: bool, s: Seq<usize>) -> Option<Seq<usize>> {
    let e = last_non_max(c, s, s.len() as int);
    if e == 0 {
        None
    } else {
        Some(
            Seq::new(
                s.len(),
                |j: int|
                    if j < e - 1 {
                        s[j]
                    } else {
                        least_after(c, strict, s[e - 1] + 1, e - 1, j) as usize
                    },
            ),
        )
    }
}

/// The sequence that precedes `s` in lexicographic order: the first element that can
/// still shrink shrinks by one, and everything before it becomes as large as it can be.
pub open spec fn predecessor(c: Seq<Range<usize>>, strict: bool, s: Seq<usize>) -> Option<
    Seq<usize>,
> {
    let st = first_non_min(c, s, 0);
    if st == s.len() {
        None
    } else {
        Some(
            Seq::new(
                s.len(),
                |j: int|
                    if j > st {
                        s[j]
                    } else {
                        greatest_before(c, strict, s[st] - 1, st, j) as usize
                    },
            ),
        )
    }
}

proof fn lemma_least_after_bounds(c: Seq<Range<usize>>, strict: bool, base: int, k: int, j: int)
    requires
        0 <= k <= j < c.len(),
        constraints_tight(c, strict),
        forall|i: int| 0 <= i < c.len() ==> c[i].start < c[i].end,
        c[k].start <= base < c[k].end,
    ensures
        c[j].start <= least_after(c, strict, base, k, j) < c[j].end,
        j > k ==> least_after(c, strict, base, k, j - 1) + step_of(strict) <= least_after(
            c,
            strict,
            base,
            k,
            j,
        ),
    decreases j - k,
{
    if j > k {
        lemma_least_after_bounds(c, strict, base, k, j - 1);
        let i = j - 1;
        assert(c[i].end + step_of(strict) <= c[j].end);
    }
}

proof fn lemma_greatest_before_bounds(
    c: Seq<Range<usize>>,
    strict: bool,
    base: int,
    k: int,
    j: int,
)
    requires
        0 <= j <= k < c.len(),
        constraints_tight(c, strict),
        forall|i: int| 0 <= i < c.len() ==> c[i].start < c[i].end,
        c[k].start <= base < c[k].end,
    ensures
        c[j].start <= greatest_before(c, strict, base, k, j) < c[j].end,
        j < k ==> greatest_before(c, strict, base, k, j) + step_of(strict) <= greatest_before(
            c,
            strict,
            base,
            k,
            j + 1,
        ),
    decreases k - j,
{
    if j < k {
        lemma_greatest_before_bounds(c, strict, base, k, j + 1);
        let i = j + 1;
        assert(c[j].start + step_of(strict) <= c[i].start);
    }
}

proof fn lemma_last_non_max(c: Seq<Range<usize>>, s: Seq<usize>, k: int)
    requires
        0 <= k <= s.len(),
    ensures
        0 <= last_non_max(c, s, k) <= k,
        last_non_max(c, s, k) > 0 ==> s[last_non_max(c, s, k) - 1] != c[last_non_max(c, s, k)
            - 1].end - 1,
        forall|j: int| last_non_max(c, s, k) <= j < k ==> s[j] == c[j].end - 1,
    decreases k,
{
    if k > 0 {
        lemma_last_non_max(c, s, k - 1);
    }
}

proof fn lemma_first_non_min(c: Seq<Range<usize>>, s: Seq<usize>, k: int)
    requires
        0 <= k <= s.len(),
    ensures
        k <= first_non_min(c, s, k) <= s.len(),
        first_non_min(c, s, k) < s.len() ==> s[first_non_min(c, s, k)] != c[first_non_min(
            c,
            s,
            k,
        )].start,
        forall|j: int| k <= j < first_non_min(c, s, k) ==> s[j] == c[j].start,
    decreases s.len() - k,
{
    if k < s.len() {
        lemma_first_non_min(c, s, k + 1);
    }
}

/// `s` comes before `t` in lexicographic order.
pub open spec fn lex_less(s: Seq<usize>, t: Seq<usize>) -> bool {
    &&& s.len() == t.len()
    &&& exists|k: int|
        0 <= k < s.len() && #[trigger] s[k] < t[k] && forall|j: int| 0 <= j < k ==> s[j] == t[j]
}

/// `s` is one of the sequences the iterator walks through: within the constraints and
/// monotone (strictly so if `strict`).
pub open spec fn admissible(c: Seq<Range<usize>>, strict: bool, s: Seq<usize>) -> bool {
    within(c, s) && steps_up(s, strict)
}

/// The lower bounds of tight, non-empty constraints form the least admissible sequence:
/// it is admissible and no admissible sequence comes before it.
pub proof fn lemma_least_is_first(c: Seq<Range<usize>>, strict: bool, u: Seq<usize>)
    requires
        constraints_tight(c, strict),
        forall|i: int| 0 <= i < c.len() ==> #[trigger] c[i].start < c[i].end,
        admissible(c, strict, u),
    ensures
        admissible(c, strict, c.map_values(|r: Range<usize>| r.start)),
        !lex_less(u, c.map_values(|r: Range<usize>| r.start)),
{
    let s = c.map_values(|r: Range<usize>| r.start);
    assert forall|i: int| 0 <= i < s.len() - 1 implies s[i] + step_of(strict) <= #[trigger] s[i + 1] by {
        let j = i + 1;
        assert(c[i].start + step_of(strict) <= c[j].start);
    }
    assert forall|i: int| 0 <= i < s.len() implies c[i].start <= #[trigger] s[i] < c[i].end by {
        assert(c[i].start < c[i].end);
    }
    if lex_less(u, s) {
        let k = choose|k: int| 0 <= k < u.len() && #[trigger] u[k] < s[k] && forall|j: int| 0 <= j < k ==> u[j] == s[j];
        assert(c[k].start <= u[k]);
    }
}

/// The successor of an admissible sequence is admissible and comes after it.
pub proof fn lemma_successor_admissible(c: Seq<Range<usize>>, strict: bool, s: Seq<usize>)
    requires
        constraints_tight(c, strict),
        admissible(c, strict, s),
        successor(c, strict, s) is Some,
    ensures
        admissible(c, strict, successor(c, strict, s)->0),
        lex_less(s, successor(c, strict, s)->0),
{
    let e = last_non_max(c, s, s.len() as int);
    lemma_last_non_max(c, s, s.len() as int);
    let p = e - 1;
    let t = successor(c, strict, s)->0;
    let base = s[p] + 1;
    assert(c[p].start <= s[p] < c[p].end);
    assert forall|i: int| 0 <= i < c.len() implies c[i].start < c[i].end by {
        assert(c[i].start <= s[i] < c[i].end);
    }
    assert forall|j: int| 0 <= j < t.len() implies c[j].start <= #[trigger] t[j] < c[j].end by {
        if j >= p {
            lemma_least_after_bounds(c, strict, base, p, j);
        } else {
            assert(c[j].start <= s[j] < c[j].end);
        }
    }
    assert forall|i: int| 0 <= i < t.len() - 1 implies t[i] + step_of(strict) <= #[trigger] t[i + 1] by {
        if i + 1 > p {
            lemma_least_after_bounds(c, strict, base, p, i + 1);
            lemma_least_after_bounds(c, strict, base, p, i);
        } else {
            assert(s[i] + step_of(strict) <= s[i + 1]);
        }
    }
    assert(s[p] < t[p]);
}

/// The successor is the next admissible sequence in lexicographic order: whenever some
/// admissible `u` comes after `s`, the successor exists and `u` does not come before it.
pub proof fn lemma_successor_least(c: Seq<Range<usize>>, strict: bool, s: Seq<usize>, u: Seq<usize>)
    requires
        constraints_tight(c, strict),
        admissible(c, strict, s),
        admissible(c, strict, u),
        lex_less(s, u),
    ensures
        successor(c, strict, s) is Some,
        !lex_less(u, successor(c, strict, s)->0),
{
    let n = s.len() as int;
    let e = last_non_max(c, s, n);
    lemma_last_non_max(c, s, n);
    let k = choose|k: int| 0 <= k < s.len() && #[trigger] s[k] < u[k] && forall|j: int| 0 <= j < k ==> s[j] == u[j];
    assert(c[k].start <= u[k] < c[k].end);
    if k >= e {
        assert(s[k] == c[k].end - 1);
        assert(false);
    }
    let p = e - 1;
    let t = successor(c, strict, s)->0;
    let base = s[p] + 1;
    assert forall|i: int| 0 <= i < c.len() implies c[i].start < c[i].end by {
        assert(c[i].start <= s[i] < c[i].end);
    }
    assert(c[p].start <= s[p] < c[p].end);
    if lex_less(u, t) {
        let m = choose|m: int| 0 <= m < u.len() && #[trigger] u[m] < t[m] && forall|j: int| 0 <= j < m ==> u[j] == t[j];
        if m < k {
            assert(s[m] == u[m]);
            assert(t[m] == s[m]);
        } else if m == k {
            if k < p {
                assert(t[k] == s[k]);
            } else {
                assert(t[k] == base);
            }
        } else {
            // m > k: u and t agree at k.
            assert(u[k] == t[k]);
            if k < p {
                assert(t[k] == s[k]);
                assert(false);
            }
            assert(k == p);
            // From p on, t is as small as an admissible sequence that is `base` at p.
            assert forall|j: int| p <= j <= m implies #[trigger] t[j] == least_after(c, strict, base, p, j) by {
                lemma_least_after_bounds(c, strict, base, p, j);
            }
            lemma_least_after_bounds(c, strict, base, p, m);
            assert(u[m - 1] == t[m - 1]);
            assert(u[m - 1] + step_of(strict) <= u[m]);
            assert(c[m].start <= u[m]);
            if m - 1 > p {
                lemma_least_after_bounds(c, strict, base, p, m - 1);
            }
            assert(least_after(c, strict, base, p, m) <= u[m]);
            assert(false);
        }
    }
}

impl MonotoneIterator {
    /// The sequence most recently produced, if any.
    pub open spec fn current(&self) -> Option<Seq<usize>> {
        match self.cur {
            Some(m) => Some(m@),
            None => None,
        }
    }

    /// The iterator can be stepped: its constraints are tight and the sequence last
    /// produced lies within them.
    pub open spec fn well_formed(&self) -> bool {
        &&& constraints_tight(self.constraints@, self.strict)
        &&& self.current() matches Some(s) ==> within(self.constraints@, s)
    }

    /// A fresh iterator over the sequences within `c`, whose bounds have been tightened.
    pub open spec fn starts_over(&self, strict: bool, c: Seq<Range<usize>>) -> bool {
        &&& self.current() is None
        &&& self.strict == strict
        &&& self.constraints@.len() == c.len()
        &&& forall|k: int|
            0 <= k < c.len() ==> {
                &&& (#[trigger] self.constraints@[k]).start == tight_min(c, strict, k)
                &&& self.constraints@[k].end == tight_max(c, strict, c.len() - 1 - k)
            }
        &&& self.well_formed()
    }

    /// Creates an iterator over the sequences within `constraints`, after tightening the
    /// constraints: each lower bound is raised to what the bounds before it force, and
    /// each upper bound lowered to what the bounds after it force.
    pub fn new(strict: bool, constraints: &[Range<usize>]) -> (r: Self)
        requires
            tightening_fits(constraints@, strict),
        ensures
            r.starts_over(strict, constraints@),
            r.current() is None,
            r.strict == strict,
            r.constraints@.len() == constraints@.len(),
            forall|k: int|
                0 <= k < constraints@.len() ==> {
                    &&& (#[trigger] r.constraints@[k]).start == tight_min(constraints@, strict, k)
                    &&& r.constraints@[k].end == tight_max(
                        constraints@,
                        strict,
                        constraints@.len() - 1 - k,
                    )
                },
            r.well_formed(),
    {
        let len = constraints.len();
        let ghost c = constraints@;
        let mut tight: Vec<Range<usize>> = Vec::new();
        let mut k: usize = 0;
        while k < len
            invariant
                len == c.len(),
                constraints@ == c,
                k <= len,
                tight@.len() == k,
                forall|j: int| 0 <= j < k ==> #[trigger] tight@[j] == c[j],
            decreases len - k,
        {
            tight.push(Range { start: constraints[k].start, end: constraints[k].end });
            k = k + 1;
        }
        if len > 1 {
            let mut min = tight[0].start;
            let mut max = tight[len - 1].end;
            let mut i: usize = 1;
            while i < len
                invariant
                    len == c.len() == tight@.len(),
                    len > 1,
                    1 <= i <= len,
                    tightening_fits(c, strict),
                    min == tight_min(c, strict, i - 1),
                    max == tight_max(c, strict, i - 1),
                    forall|j: int|
                        0 <= j < len ==> (#[trigger] tight@[j]).start == if 1 <= j < i {
                            tight_min(c, strict, j)
                        } else {
                            c[j].start as int
                        },
                    forall|j: int|
                        0 <= j < len ==> (#[trigger] tight@[j]).end == if len - i <= j < len - 1 {
                            tight_max(c, strict, len - 1 - j)
                        } else {
                            c[j].end as int
                        },
                decreases len - i,
            {
                if strict {
                    let lo = tight[i].start;
                    min = if min + 1 >= lo {
                        min + 1
                    } else {
                        lo
                    };
                    let hi = tight[len - i - 1].end;
                    max = if max - 1 <= hi {
                        max - 1
                    } else {
                        hi
                    };
                } else {
                    let lo = tight[i].start;
                    min = if min >= lo {
                        min
                    } else {
                        lo
                    };
                    let hi = tight[len - i - 1].end;
                    max = if max <= hi {
                        max
                    } else {
                        hi
                    };
                }
                let e = tight[i].end;
                tight.set(i, Range { start: min, end: e });
                let j = len - i - 1;
                let s = tight[j].start;
                tight.set(j, Range { start: s, end: max });
                i = i + 1;
            }
        }
        let r = MonotoneIterator { cur: None, strict, constraints: tight };
        proof {
            assert forall|i: int, j: int|
                #![trigger r.constraints@[i], r.constraints@[j]]
                0 <= i && j == i + 1 && j < len implies {
                &&& r.constraints@[i].start + step_of(strict) <= r.constraints@[j].start
                &&& r.constraints@[i].end + step_of(strict) <= r.constraints@[j].end
            } by {
                assert(tight_min(c, strict, j) >= tight_min(c, strict, i) + step_of(strict));
                assert(tight_max(c, strict, len - 1 - i) <= tight_max(c, strict, len - 1 - j)
                    - step_of(strict));
            }
        }
        r
    }

    /// The length of the sequences.
    pub fn len(&self) -> (r: usize)
        ensures
            r == self.constraints@.len(),
    {
        self.constraints.len()
    }

    /// Checks if the constraints can only be satisfied by the identity sequence of the
    /// given length.
    pub fn is_trivial(&self, target_size: usize) -> (r: bool)
        ensures
            r == (self.constraints@.len() == target_size && forall|i: int|
                0 <= i < target_size ==> (#[trigger] self.constraints@[i]).start == i
                    && self.constraints@[i].end == i + 1),
    {
        if self.constraints.len() != target_size {
            return false;
        }
        let mut i: usize = 0;
        while i < self.constraints.len()
            invariant
                self.constraints@.len() == target_size,
                i <= target_size,
                forall|j: int|
                    0 <= j < i ==> (#[trigger] self.constraints@[j]).start == j
                        && self.constraints@[j].end == j + 1,
            decreases target_size - i,
        {
            if self.constraints[i].start != i || self.constraints[i].end != i + 1 {
                return false;
            }
            i = i + 1;
        }
        true
    }

    /// Restricts the iterator to those sequences that another iterator over sequences of
    /// the same length would also generate.
    pub fn restrict_to(&mut self, other: &Self)
        requires
            old(self).constraints@.len() == other.constraints@.len(),
        ensures
            final(self).strict == old(self).strict,
            final(self).current() == old(self).current(),
            final(self).constraints@.len() == old(self).constraints@.len(),
            forall|i: int|
                0 <= i < old(self).constraints@.len() ==> {
                    &&& (#[trigger] final(self).constraints@[i]).start == if old(self).constraints@[i].start >= other.constraints@[i].start {
                        old(self).constraints@[i].start
                    } else {
                        other.constraints@[i].start
                    }
                    &&& final(self).constraints@[i].end == if old(self).constraints@[i].end
                        <= other.constraints@[i].end {
                        old(self).constraints@[i].end
                    } else {
                        other.constraints@[i].end
                    }
                },
    {
        let n = self.constraints.len();
        let mut i: usize = 0;
        while i < n
            invariant
                n == self.constraints@.len() == old(self).constraints@.len()
                    == other.constraints@.len(),
                i <= n,
                self.strict == old(self).strict,
                self.cur == old(self).cur,
                forall|j: int|
                    i <= j < n ==> #[trigger] self.constraints@[j] == old(self).constraints@[j],
                forall|j: int|
                    0 <= j < i ==> {
                        &&& (#[trigger] self.constraints@[j]).start == if old(self).constraints@[j].start >= other.constraints@[j].start {
                            old(self).constraints@[j].start
                        } else {
                            other.constraints@[j].start
                        }
                        &&& self.constraints@[j].end == if old(self).constraints@[j].end
                            <= other.constraints@[j].end {
                            old(self).constraints@[j].end
                        } else {
                            other.constraints@[j].end
                        }
                    },
            decreases n - i,
        {
            let a = self.constraints[i].start;
            let b = other.constraints[i].start;
            let c = self.constraints[i].end;
            let d = other.constraints[i].end;
            let start = if a >= b {
                a
            } else {
                b
            };
            let end = if c <= d {
                c
            } else {
                d
            };
            self.constraints.set(i, Range { start, end });
            i = i + 1;
        }
    }

    /// Steps forward: the first call gives the least sequence (each element at its lower
    /// bound), or nothing when some constraint is empty; later calls give the successor
    /// of the sequence last produced, or nothing once the greatest has been reached.
    pub fn next(&mut self) -> (r: Option<Monotone>)
        requires
            old(self).well_formed(),
        ensures
            final(self).strict == old(self).strict,
            final(self).constraints == old(self).constraints,
            final(self).well_formed(),
            match old(self).current() {
                None => if exists|i: int|
                    0 <= i < old(self).constraints@.len() && #[trigger] old(self).constraints@[i].start >= old(self).constraints@[i].end {
                    r is None && final(self).current() is None
                } else {
                    &&& r matches Some(m) && m@ == old(self).constraints@.map_values(
                        |c: Range<usize>| c.start,
                    )
                    &&& final(self).current() == Some(r->0@)
                },
                Some(s) => match successor(old(self).constraints@, old(self).strict, s) {
                    None => r is None && final(self).current() == old(self).current(),
                    Some(t) => r matches Some(m) && m@ == t && final(self).current() == Some(t),
                },
            },
    {
        match self.cur.take() {
            None => match least_sequence(&self.constraints) {
                None => None,
                Some(v) => {
                    let m = Monotone(v);
                    self.cur = Some(m.clone());
                    Some(m)
                },
            },
            Some(cur) => {
                let mut seq = cur.0;
                if advance(&self.constraints, self.strict, &mut seq) {
                    let m = Monotone(seq);
                    self.cur = Some(m.clone());
                    Some(m)
                } else {
                    self.cur = Some(Monotone(seq));
                    None
                }
            },
        }
    }

    /// Steps backward: the first call gives the greatest sequence (each element one below
    /// its upper bound), or nothing when some constraint is empty; later calls give the
    /// predecessor of the sequence last produced, or nothing once the least has been
    /// reached.
    pub fn next_back(&mut self) -> (r: Option<Monotone>)
        requires
            old(self).well_formed(),
        ensures
            final(self).strict == old(self).strict,
            final(self).constraints == old(self).constraints,
            final(self).well_formed(),
            match old(self).current() {
                None => if exists|i: int|
                    0 <= i < old(self).constraints@.len() && #[trigger] old(self).constraints@[i].start >= old(self).constraints@[i].end {
                    r is None && final(self).current() is None
                } else {
                    &&& r matches Some(m) && m@ == old(self).constraints@.map_values(
                        |c: Range<usize>| (c.end - 1) as usize,
                    )
                    &&& final(self).current() == Some(r->0@)
                },
                Some(s) => match predecessor(old(self).constraints@, old(self).strict, s) {
                    None => r is None && final(self).current() == old(self).current(),
                    Some(t) => r matches Some(m) && m@ == t && final(self).current() == Some(t),
                },
            },
    {
        match self.cur.take() {
            None => match greatest_sequence(&self.constraints) {
                None => None,
                Some(v) => {
                    let m = Monotone(v);
                    self.cur = Some(m.clone());
                    Some(m)
                },
            },
            Some(cur) => {
                let mut seq = cur.0;
                if retreat(&self.constraints, self.strict, &mut seq) {
                    let m = Monotone(seq);
                    self.cur = Some(m.clone());
                    Some(m)
                } else {
                    self.cur = Some(Monotone(seq));
                    None
                }
            },
        }
    }
}

/// The sequence of lower bounds, unless some constraint is empty.
fn least_sequence(c: &Vec<Range<usize>>) -> (r: Option<Vec<usize>>)
    ensures
        (exists|i: int| 0 <= i < c@.len() && #[trigger] c@[i].start >= c@[i].end) ==> r is None,
        !(exists|i: int| 0 <= i < c@.len() && #[trigger] c@[i].start >= c@[i].end) ==> (r matches Some(
            v,
        ) && v@ == c@.map_values(|x: Range<usize>| x.start)),
{
    let n = c.len();
    let mut seq: Vec<usize> = Vec::new();
    let mut i: usize = 0;
    while i < n
        invariant
            n == c@.len(),
            i <= n,
            seq@.len() == i,
            forall|j: int| 0 <= j < i ==> #[trigger] seq@[j] == c@[j].start,
            forall|j: int| 0 <= j < i ==> c@[j].start < #[trigger] c@[j].end,
        decreases n - i,
    {
        if c[i].start >= c[i].end {
            assert(c@[i as int].start >= c@[i as int].end);
            return None;
        }
        seq.push(c[i].start);
        i = i + 1;
    }
    assert(seq@ =~= c@.map_values(|x: Range<usize>| x.start));
    Some(seq)
}

/// The sequence of greatest values, unless some constraint is empty.
fn greatest_sequence(c: &Vec<Range<usize>>) -> (r: Option<Vec<usize>>)
    ensures
        (exists|i: int| 0 <= i < c@.len() && #[trigger] c@[i].start >= c@[i].end) ==> r is None,
        !(exists|i: int| 0 <= i < c@.len() && #[trigger] c@[i].start >= c@[i].end) ==> (r matches Some(
            v,
        ) && v@ == c@.map_values(|x: Range<usize>| (x.end - 1) as usize)),
{
    let n = c.len();
    let mut seq: Vec<usize> = Vec::new();
    let mut i: usize = 0;
    while i < n
        invariant
            n == c@.len(),
            i <= n,
            seq@.len() == i,
            forall|j: int| 0 <= j < i ==> #[trigger] seq@[j] == c@[j].end - 1,
            forall|j: int| 0 <= j < i ==> c@[j].start < #[trigger] c@[j].end,
        decreases n - i,
    {
        if c[i].start >= c[i].end {
            assert(c@[i as int].start >= c@[i as int].end);
            return None;
        }
        seq.push(c[i].end - 1);
        i = i + 1;
    }
    assert(seq@ =~= c@.map_values(|x: Range<usize>| (x.end - 1) as usize));
    Some(seq)
}

/// Replaces a sequence within tight constraints by its successor, if it has one.
fn advance(c: &Vec<Range<usize>>, strict: bool, seq: &mut Vec<usize>) -> (r: bool)
    requires
        constraints_tight(c@, strict),
        within(c@, old(seq)@),
    ensures
        successor(c@, strict, old(seq)@) matches Some(t) ==> r && final(seq)@ == t,
        successor(c@, strict, old(seq)@) is None ==> !r && final(seq)@ == old(seq)@,
        within(c@, final(seq)@),
{
    let n = c.len();
    let ghost s = seq@;
    let mut end = n;
    proof {
        lemma_last_non_max(c@, s, n as int);
        assert forall|j: int| 0 <= j < n implies c@[j].start < c@[j].end by {
            assert(c@[j].start <= s[j] < c@[j].end);
        }
    }
    while end > 0 && seq[end - 1] == c[end - 1].end - 1
        invariant
            n == c@.len() == s.len(),
            seq@ == s,
            within(c@, s),
            end <= n,
            last_non_max(c@, s, end as int) == last_non_max(c@, s, n as int),
        decreases end,
    {
        end = end - 1;
    }
    if end == 0 {
        return false;
    }
    let ghost e = end as int;
    assert(s[e - 1] != c@[e - 1].end - 1);
    assert(c@[e - 1].start <= s[e - 1] < c@[e - 1].end);
    assert(s[e - 1] + 1 < c@[e - 1].end);
    let v = seq[end - 1] + 1;
    seq.set(end - 1, v);
    let mut min = v;
    let mut i = end;
    proof {
        lemma_least_after_bounds(c@, strict, v as int, e - 1, e - 1);
    }
    while i < n
        invariant
            n == c@.len() == s.len() == seq@.len(),
            constraints_tight(c@, strict),
            within(c@, s),
            forall|j: int| 0 <= j < n ==> c@[j].start < #[trigger] c@[j].end,
            1 <= e <= i <= n,
            s[e - 1] + 1 < c@[e - 1].end,
            v == s[e - 1] + 1,
            min == least_after(c@, strict, v as int, e - 1, i - 1),
            forall|j: int| 0 <= j < e - 1 ==> #[trigger] seq@[j] == s[j],
            forall|j: int|
                e - 1 <= j < i ==> #[trigger] seq@[j] == least_after(c@, strict, v as int, e - 1, j),
        decreases n - i,
    {
        proof {
            lemma_least_after_bounds(c@, strict, v as int, e - 1, i as int);
            lemma_least_after_bounds(c@, strict, v as int, e - 1, i - 1);
        }
        let lo = c[i].start;
        if strict {
            min = if min + 1 >= lo {
                min + 1
            } else {
                lo
            };
        } else {
            min = if min >= lo {
                min
            } else {
                lo
            };
        }
        seq.set(i, min);
        i = i + 1;
    }
    proof {
        assert(seq@ =~= successor(c@, strict, s)->0);
        assert forall|j: int| 0 <= j < n implies c@[j].start <= #[trigger] seq@[j] < c@[j].end by {
            if j >= e - 1 {
                lemma_least_after_bounds(c@, strict, v as int, e - 1, j);
            }
        }
    }
    true
}

/// Replaces a sequence within tight constraints by its predecessor, if it has one.
fn retreat(c: &Vec<Range<usize>>, strict: bool, seq: &mut Vec<usize>) -> (r: bool)
    requires
        constraints_tight(c@, strict),
        within(c@, old(seq)@),
    ensures
        predecessor(c@, strict, old(seq)@) matches Some(t) ==> r && final(seq)@ == t,
        predecessor(c@, strict, old(seq)@) is None ==> !r && final(seq)@ == old(seq)@,
        within(c@, final(seq)@),
{
    let n = c.len();
    let ghost s = seq@;
    let mut start: usize = 0;
    proof {
        lemma_first_non_min(c@, s, 0);
        assert forall|j: int| 0 <= j < n implies c@[j].start < c@[j].end by {
            assert(c@[j].start <= s[j] < c@[j].end);
        }
    }
    while start < n && seq[start] == c[start].start
        invariant
            n == c@.len() == s.len(),
            seq@ == s,
            start <= n,
            first_non_min(c@, s, start as int) == first_non_min(c@, s, 0),
        decreases n - start,
    {
        start = start + 1;
    }
    if start == n {
        return false;
    }
    let ghost st = start as int;
    let v = seq[start] - 1;
    seq.set(start, v);
    let mut max = v;
    let mut i = start;
    proof {
        lemma_greatest_before_bounds(c@, strict, v as int, st, st);
    }
    while i > 0
        invariant
            n == c@.len() == s.len() == seq@.len(),
            constraints_tight(c@, strict),
            within(c@, s),
            forall|j: int| 0 <= j < n ==> c@[j].start < #[trigger] c@[j].end,
            0 <= i <= st < n,
            c@[st].start <= v < c@[st].end,
            v == s[st] - 1,
            max == greatest_before(c@, strict, v as int, st, i as int),
            forall|j: int| st < j < n ==> #[trigger] seq@[j] == s[j],
            forall|j: int|
                i <= j <= st ==> #[trigger] seq@[j] == greatest_before(c@, strict, v as int, st, j),
        decreases i,
    {
        proof {
            lemma_greatest_before_bounds(c@, strict, v as int, st, i - 1);
            lemma_greatest_before_bounds(c@, strict, v as int, st, i as int);
        }
        i = i - 1;
        let hi = c[i].end - 1;
        if strict {
            max = if max - 1 <= hi {
                max - 1
            } else {
                hi
            };
        } else {
            max = if max <= hi {
                max
            } else {
                hi
            };
        }
        seq.set(i, max);
    }
    proof {
        assert(seq@ =~= predecessor(c@, strict, s)->0);
        assert forall|j: int| 0 <= j < n implies c@[j].start <= #[trigger] seq@[j] < c@[j].end by {
            if j <= st {
                lemma_greatest_before_bounds(c@, strict, v as int, st, j);
            }
        }
    }
    true
}

} // verus!
