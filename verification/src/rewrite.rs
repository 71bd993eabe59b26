use vstd::prelude::*;
use std::ops::Range;
use crate::common::{Boundary, Generator, Orientation};
use crate::diagram::Diagram0;
use crate::label::{clone_label, label_view, Label};
use crate::monotone::{Monotone, Split, is_cones_of, is_monotone, bounded_by, lemma_cones_tile, search_begin};

verus! {

/// Where a cone of a rewrite sits: it sends the `len` singular heights of the source
/// starting at `index` to one singular height of the target.
#[derive(Copy, Clone, Debug, PartialEq, Eq, Structural, Hash)]
pub struct Cone {
    pub index: usize,
    pub len: usize,
}

/// A rewrite between diagrams of positive dimension, recorded by where its cones sit; the
/// cospans and slices that the cones carry are not part of this record.
#[derive(Clone, Debug)]
pub struct RewriteN {
    dimension: usize,
    cones: Vec<Cone>,
}

/// Each cone starts at or after the end of every cone before it.
pub open spec fn cones_ordered(c: Seq<Cone>) -> bool {
    forall|k: int, l: int|
        #![trigger c[k], c[l]]
        0 <= k < l < c.len() ==> c[k].index + c[k].len <= c[l].index
}

/// How far the cones before the `k`-th one move what follows them: each adds one target
/// height and takes away its own source heights.
pub open spec fn shift(c: Seq<Cone>, k: int) -> int
    decreases k,
{
    if k <= 0 {
        0
    } else {
        shift(c, k - 1) + 1 - c[k - 1].len
    }
}

/// The singular height of the target that the `k`-th cone sends its source heights to.
pub open spec fn target_of(c: Seq<Cone>, k: int) -> int {
    c[k].index + shift(c, k)
}

/// The first cone, from `from` on, that reaches past the singular height `i`, or the number
/// of cones.
pub open spec fn first_reaching(c: Seq<Cone>, i: int, from: int) -> int
    decreases c.len() - from,
{
    if from >= c.len() {
        c.len() as int
    } else if i < c[from].index + c[from].len {
        from
    } else {
        first_reaching(c, i, from + 1)
    }
}

/// The singular height of the target that the singular height `i` of the source goes to:
/// that of its cone when a cone covers it, or `i` moved by the cones before it.
pub open spec fn singular_image_of(c: Seq<Cone>, i: int) -> int {
    let k = first_reaching(c, i, 0);
    if k < c.len() && c[k].index <= i {
        target_of(c, k)
    } else {
        i + shift(c, k)
    }
}

/// The number of cones and the total length of the cones before the `k`-th one.
pub open spec fn covered(c: Seq<Cone>, k: int) -> int
    decreases k,
{
    if k <= 0 {
        0
    } else {
        covered(c, k - 1) + c[k - 1].len
    }
}

/// The shift before the `k`-th cone is the number of cones before it less the heights
/// they cover.
pub proof fn lemma_shift_covered(c: Seq<Cone>, k: int)
    requires
        0 <= k,
    ensures
        shift(c, k) == k - covered(c, k),
    decreases k,
{
    if k > 0 {
        lemma_shift_covered(c, k - 1);
    }
}

/// The cones before the `k`-th one lie within the heights below the end of the one before.
pub proof fn lemma_covered_bound(c: Seq<Cone>, k: int)
    requires
        cones_ordered(c),
        0 < k <= c.len(),
    ensures
        0 <= covered(c, k) <= c[k - 1].index + c[k - 1].len,
    decreases k,
{
    if k > 1 {
        lemma_covered_bound(c, k - 1);
        assert(c[k - 2].index + c[k - 2].len <= c[k - 1].index);
    } else {
        assert(covered(c, 0) == 0);
    }
}

proof fn lemma_first_reaching(c: Seq<Cone>, i: int, from: int)
    requires
        0 <= from <= c.len(),
    ensures
        from <= first_reaching(c, i, from) <= c.len(),
        forall|j: int| from <= j < first_reaching(c, i, from) ==> c[j].index + c[j].len <= i,
        first_reaching(c, i, from) < c.len() ==> i < c[first_reaching(c, i, from)].index + c[first_reaching(c, i, from)].len,
    decreases c.len() - from,
{
    if from < c.len() && i >= c[from].index + c[from].len {
        lemma_first_reaching(c, i, from + 1);
    }
}

/// The cones go to distinct singular heights of the target, in order.
pub proof fn lemma_targets_increasing(c: Seq<Cone>, k: int, l: int)
    requires
        cones_ordered(c),
        0 <= k < l < c.len(),
    ensures
        target_of(c, k) < target_of(c, l),
    decreases l - k,
{
    assert(c[l - 1].index + c[l - 1].len <= c[l].index);
    assert(shift(c, l) == shift(c, l - 1) + 1 - c[l - 1].len);
    if k < l - 1 {
        lemma_targets_increasing(c, k, l - 1);
    }
}

/// Where a singular height of the source stands among the cones: inside the first cone
/// that reaches past it, or between that cone and the one before, with the bounds that
/// this puts on its image.
pub proof fn lemma_image_cases(c: Seq<Cone>, i: int)
    requires
        cones_ordered(c),
        0 <= i,
    ensures
        ({
            let a = first_reaching(c, i, 0);
            &&& 0 <= a <= c.len()
            &&& a > 0 ==> c[a - 1].index + c[a - 1].len <= i
            &&& (a < c.len() && c[a].index <= i) ==> singular_image_of(c, i) == target_of(c, a)
                && i < c[a].index + c[a].len
            &&& !(a < c.len() && c[a].index <= i) ==> {
                &&& singular_image_of(c, i) == i + shift(c, a)
                &&& a < c.len() ==> singular_image_of(c, i) < target_of(c, a)
                &&& a > 0 ==> singular_image_of(c, i) > target_of(c, a - 1)
            }
        }),
{
    lemma_first_reaching(c, i, 0);
    let a = first_reaching(c, i, 0);
    if a > 0 {
        assert(shift(c, a) == shift(c, a - 1) + 1 - c[a - 1].len);
    }
}

/// A singular height inside a cone goes where the cone goes.
pub proof fn lemma_image_in_cone(c: Seq<Cone>, k: int, i: int)
    requires
        cones_ordered(c),
        0 <= k < c.len(),
        c[k].index <= i < c[k].index + c[k].len,
    ensures
        singular_image_of(c, i) == target_of(c, k),
{
    lemma_first_reaching(c, i, 0);
    let a = first_reaching(c, i, 0);
    if a < k {
        assert(c[a].index + c[a].len <= c[k].index);
    } else if a > k {
        assert(c[k].index + c[k].len <= i);
    }
}

/// The singular image is monotone.
pub proof fn lemma_singular_image_monotone(c: Seq<Cone>, i: int, j: int)
    requires
        cones_ordered(c),
        0 <= i <= j,
    ensures
        singular_image_of(c, i) <= singular_image_of(c, j),
{
    lemma_image_cases(c, i);
    lemma_image_cases(c, j);
    lemma_first_reaching(c, i, 0);
    lemma_first_reaching(c, j, 0);
    let a = first_reaching(c, i, 0);
    let b = first_reaching(c, j, 0);
    if b < a {
        assert(c[b].index + c[b].len <= i);
    }
    if a < b {
        if a < b - 1 {
            lemma_targets_increasing(c, a, b - 1);
        }
        if b < c.len() && c[b].index <= j {
            lemma_targets_increasing(c, a, b);
        }
    }
}

/// The singular image only merges heights within a cone: outside the cones it is
/// strictly increasing.
proof fn lemma_image_injective_outside(c: Seq<Cone>, i: int, j: int)
    requires
        cones_ordered(c),
        0 <= i < j,
        !(first_reaching(c, i, 0) < c.len() && c[first_reaching(c, i, 0)].index <= i),
        !(first_reaching(c, j, 0) < c.len() && c[first_reaching(c, j, 0)].index <= j),
    ensures
        singular_image_of(c, i) < singular_image_of(c, j),
{
    lemma_image_cases(c, i);
    lemma_image_cases(c, j);
    lemma_first_reaching(c, i, 0);
    lemma_first_reaching(c, j, 0);
    let a = first_reaching(c, i, 0);
    let b = first_reaching(c, j, 0);
    if b < a {
        assert(c[b].index + c[b].len <= i);
    }
    if a < b - 1 {
        lemma_targets_increasing(c, a, b - 1);
    }
}

/// The first cone, from `from` on, whose target is at or above the singular height `j`,
/// or the number of cones.
pub open spec fn first_target_at_least(c: Seq<Cone>, j: int, from: int) -> int
    decreases c.len() - from,
{
    if from >= c.len() {
        c.len() as int
    } else if j <= target_of(c, from) {
        from
    } else {
        first_target_at_least(c, j, from + 1)
    }
}

/// The singular heights of the source that go to the singular height `j` of the target:
/// the heights of the cone that goes there, or the one height that the cones before move
/// there.
pub open spec fn singular_preimage_of(c: Seq<Cone>, j: int) -> (int, int) {
    let k = first_target_at_least(c, j, 0);
    if k < c.len() && target_of(c, k) == j {
        (c[k].index as int, c[k].index + c[k].len)
    } else {
        (j - shift(c, k), j - shift(c, k) + 1)
    }
}

/// `first_target_at_least` finds the first cone from `from` on whose target is at least `j`.
pub proof fn lemma_first_target_at_least(c: Seq<Cone>, j: int, from: int)
    requires
        0 <= from <= c.len(),
    ensures
        from <= first_target_at_least(c, j, from) <= c.len(),
        forall|k: int| from <= k < first_target_at_least(c, j, from) ==> target_of(c, k) < j,
        first_target_at_least(c, j, from) < c.len() ==> j <= target_of(c, first_target_at_least(c, j, from)),
    decreases c.len() - from,
{
    if from < c.len() && j > target_of(c, from) {
        lemma_first_target_at_least(c, j, from + 1);
    }
}

/// The preimage of a singular height is exactly the set of heights that go there.
pub proof fn lemma_singular_preimage_is_fibre(c: Seq<Cone>, j: int, i: int)
    requires
        cones_ordered(c),
        0 <= i,
        0 <= j,
    ensures
        0 <= singular_preimage_of(c, j).0 <= singular_preimage_of(c, j).1,
        singular_preimage_of(c, j).0 <= i < singular_preimage_of(c, j).1 <==> singular_image_of(c, i) == j,
{
    lemma_first_target_at_least(c, j, 0);
    let k = first_target_at_least(c, j, 0);
    lemma_image_cases(c, i);
    lemma_first_reaching(c, i, 0);
    let a = first_reaching(c, i, 0);
    if k > 0 {
        assert(shift(c, k) == shift(c, k - 1) + 1 - c[k - 1].len);
        assert(target_of(c, k - 1) < j);
    }
    if k < c.len() && target_of(c, k) == j {
        if c[k].index <= i < c[k].index + c[k].len {
            lemma_image_in_cone(c, k, i);
        } else if singular_image_of(c, i) == j {
            if a < c.len() && c[a].index <= i {
                if a < k {
                    lemma_targets_increasing(c, a, k);
                } else if a > k {
                    lemma_targets_increasing(c, k, a);
                }
            } else {
                if a <= k {
                    if a < k {
                        lemma_targets_increasing(c, a, k);
                    }
                } else {
                    if k < a - 1 {
                        lemma_targets_increasing(c, k, a - 1);
                    }
                }
            }
        }
    } else {
        let x = j - shift(c, k);
        if k > 0 {
            assert(c[k - 1].index + c[k - 1].len <= x);
        }
        if k < c.len() {
            assert(x < c[k].index);
        }
        // `x` stands between the cones, and goes to `j`.
        lemma_first_reaching(c, x, 0);
        let ax = first_reaching(c, x, 0);
        if ax < k {
            assert(c[ax].index + c[ax].len <= c[k - 1].index + c[k - 1].len) by {
                if ax < k - 1 {
                    assert(c[ax].index + c[ax].len <= c[k - 1].index);
                }
            }
        }
        if ax > k {
            assert(c[k].index + c[k].len <= x);
        }
        assert(ax == k);
        assert(singular_image_of(c, x) == j);
        if singular_image_of(c, i) == j && i != x {
            if a < c.len() && c[a].index <= i {
                if a < k {
                    assert(target_of(c, a) < j);
                } else if a > k {
                    lemma_targets_increasing(c, k, a);
                }
            } else if i < x {
                lemma_image_injective_outside(c, i, x);
            } else {
                lemma_image_injective_outside(c, x, i);
            }
        }
    }
}

proof fn lemma_covered_mono(c: Seq<Cone>, n: int)
    requires
        0 <= n,
    ensures
        forall|k: int| 0 <= k <= n ==> #[trigger] covered(c, k) <= covered(c, n),
    decreases n,
{
    if n > 0 {
        lemma_covered_mono(c, n - 1);
    }
}

/// The regular height of the source that the regular height `r` of the target comes from:
/// `r` moved back by the cones whose targets lie below it.
pub open spec fn regular_image_of(c: Seq<Cone>, r: int) -> int {
    r - shift(c, first_target_at_least(c, r, 0))
}

/// The regular image is monotone.
pub proof fn lemma_regular_image_monotone(c: Seq<Cone>, r1: int, r2: int)
    requires
        cones_ordered(c),
        0 <= r1 <= r2,
    ensures
        0 <= regular_image_of(c, r1) <= regular_image_of(c, r2),
{
    lemma_first_target_at_least(c, r1, 0);
    lemma_first_target_at_least(c, r2, 0);
    let a = first_target_at_least(c, r1, 0);
    let b = first_target_at_least(c, r2, 0);
    if b < a {
        assert(target_of(c, b) < r1);
    }
    lemma_shift_step_bound(c, a, b, r1, r2);
}

/// Between the cones `a` and `b`, the shift falls by at most the heights the cones cover,
/// which lie below `r2` when every target before `b` does.
proof fn lemma_shift_step_bound(c: Seq<Cone>, a: int, b: int, r1: int, r2: int)
    requires
        cones_ordered(c),
        0 <= a <= b <= c.len(),
        0 <= r1 <= r2,
        a < c.len() ==> r1 <= target_of(c, a),
        forall|k: int| 0 <= k < a ==> target_of(c, k) < r1,
        forall|k: int| 0 <= k < b ==> target_of(c, k) < r2,
    ensures
        0 <= r1 - shift(c, a) <= r2 - shift(c, b),
{
    if a > 0 {
        assert(target_of(c, a - 1) < r1);
        assert(shift(c, a) == shift(c, a - 1) + 1 - c[a - 1].len);
    }
    if a < b {
        assert(target_of(c, b - 1) < r2);
        assert(shift(c, b) == shift(c, b - 1) + 1 - c[b - 1].len);
        if a < b - 1 {
            assert(c[a].index + c[a].len <= c[b - 1].index);
        }
    }
}

/// The first cone, from `from` on, that does not lie wholly below the regular height `s`
/// of the source (starting below it and ending at or below it), or the number of cones.
pub open spec fn first_not_below(c: Seq<Cone>, s: int, from: int) -> int
    decreases c.len() - from,
{
    if from >= c.len() {
        c.len() as int
    } else if !(c[from].index < s && c[from].index + c[from].len <= s) {
        from
    } else {
        first_not_below(c, s, from + 1)
    }
}

/// How many cones from the `k`-th one on are unit cones (of no source heights) at `s`.
pub open spec fn units_at(c: Seq<Cone>, s: int, k: int) -> nat
    decreases c.len() - k,
{
    if 0 <= k < c.len() && c[k].index == s && c[k].len == 0 {
        1 + units_at(c, s, k + 1)
    } else {
        0
    }
}

/// The regular heights of the target that come from the regular height `s` of the
/// source: one height moved by the cones below, a run of heights when unit cones sit at
/// `s`, and none when `s` lies inside a cone.
pub open spec fn regular_preimage_of(c: Seq<Cone>, s: int) -> (int, int) {
    let k = first_not_below(c, s, 0);
    let start = s + shift(c, k);
    if k >= c.len() {
        (start, start + 1)
    } else if c[k].index > s || (c[k].len > 0 && c[k].index == s) {
        (start, start + 1)
    } else if c[k].index == s && c[k].len == 0 {
        (start, start + units_at(c, s, k) + 1)
    } else {
        (target_of(c, k), target_of(c, k))
    }
}

proof fn lemma_first_not_below(c: Seq<Cone>, s: int, from: int)
    requires
        0 <= from <= c.len(),
    ensures
        from <= first_not_below(c, s, from) <= c.len(),
        forall|k: int|
            from <= k < first_not_below(c, s, from) ==> c[k].index < s && c[k].index + c[k].len <= s,
        first_not_below(c, s, from) < c.len() ==> !(c[first_not_below(c, s, from)].index < s
            && c[first_not_below(c, s, from)].index + c[first_not_below(c, s, from)].len <= s),
    decreases c.len() - from,
{
    if from < c.len() && c[from].index < s && c[from].index + c[from].len <= s {
        lemma_first_not_below(c, s, from + 1);
    }
}

proof fn lemma_units_at(c: Seq<Cone>, s: int, k: int)
    requires
        0 <= k,
    ensures
        k + units_at(c, s, k) <= c.len() || units_at(c, s, k) == 0,
        forall|j: int| k <= j < k + units_at(c, s, k) ==> c[j].index == s && c[j].len == 0,
        k + units_at(c, s, k) < c.len() ==> !(c[k + units_at(c, s, k)].index == s && c[k + units_at(
            c,
            s,
            k,
        )].len == 0),
    decreases c.len() - k,
{
    if 0 <= k < c.len() && c[k].index == s && c[k].len == 0 {
        lemma_units_at(c, s, k + 1);
    }
}

/// From one regular height of the target to the next, the regular image steps by one,
/// except at the target of a cone, where it steps over the cone's source heights.
proof fn lemma_regular_step(c: Seq<Cone>, r: int)
    requires
        cones_ordered(c),
        0 <= r,
    ensures
        ({
            let a = first_target_at_least(c, r, 0);
            &&& (a < c.len() && target_of(c, a) == r) ==> regular_image_of(c, r + 1)
                == regular_image_of(c, r) + c[a].len
            &&& !(a < c.len() && target_of(c, a) == r) ==> regular_image_of(c, r + 1)
                == regular_image_of(c, r) + 1
        }),
{
    lemma_first_target_at_least(c, r, 0);
    lemma_first_target_at_least(c, r + 1, 0);
    let a = first_target_at_least(c, r, 0);
    let b = first_target_at_least(c, r + 1, 0);
    if a < c.len() && target_of(c, a) == r {
        if a + 1 < c.len() {
            lemma_targets_increasing(c, a, a + 1);
        }
        if b < a + 1 {
            if b < a {
                assert(target_of(c, b) < r);
            }
        }
        if b > a + 1 {
            assert(target_of(c, a + 1) < r + 1);
            lemma_targets_increasing(c, a, a + 1);
        }
        assert(b == a + 1);
        assert(shift(c, a + 1) == shift(c, a) + 1 - c[a].len);
    } else {
        if b < a {
            assert(target_of(c, b) < r);
        }
        if b > a {
            assert(target_of(c, a) < r + 1);
        }
        assert(b == a);
    }
}

/// The regular heights of the target below `s + shift(c, k)`, where `k` is the first cone
/// not wholly below `s`, all come from regular heights below `s`.
proof fn lemma_regular_below_start(c: Seq<Cone>, s: int, r: int)
    requires
        cones_ordered(c),
        0 <= s,
        0 <= r < s + shift(c, first_not_below(c, s, 0)),
        first_not_below(c, s, 0) >= c.len() || c[first_not_below(c, s, 0)].index >= s,
    ensures
        regular_image_of(c, r) < s,
{
    lemma_first_not_below(c, s, 0);
    let k = first_not_below(c, s, 0);
    let start = s + shift(c, k);
    let q = start - 1;
    lemma_regular_step(c, q);
    lemma_first_target_at_least(c, q, 0);
    lemma_first_target_at_least(c, start, 0);
    let a = first_target_at_least(c, q, 0);
    if k > 0 {
        assert(shift(c, k) == shift(c, k - 1) + 1 - c[k - 1].len);
        assert(target_of(c, k - 1) + 1 <= start);
        assert forall|j: int| 0 <= j < k implies target_of(c, j) < start by {
            if j < k - 1 {
                lemma_targets_increasing(c, j, k - 1);
            }
        }
    }
    if k < c.len() {
        assert(target_of(c, k) >= start);
    }
    // `start` comes from `s`.
    let b = first_target_at_least(c, start, 0);
    if b < k {
        assert(target_of(c, b) < start);
    }
    if b > k {
        assert(target_of(c, k) < start);
    }
    assert(regular_image_of(c, start) == s);
    // The step into `start` is at least one.
    if a < c.len() && target_of(c, a) == q {
        if a != k - 1 {
            if a < k - 1 {
                lemma_targets_increasing(c, a, k - 1);
            } else if a >= k && k < c.len() {
                if a > k {
                    lemma_targets_increasing(c, k, a);
                }
            }
        }
        assert(a == k - 1);
        assert(c[k - 1].len >= 1);
    }
    lemma_regular_image_monotone(c, r, q);
}

/// The preimage of a regular height is exactly the set of regular heights that come from
/// it.
pub proof fn lemma_regular_preimage_is_fibre(c: Seq<Cone>, s: int, r: int)
    requires
        cones_ordered(c),
        0 <= s,
        0 <= r,
    ensures
        regular_preimage_of(c, s).0 <= regular_preimage_of(c, s).1,
        regular_preimage_of(c, s).0 <= r < regular_preimage_of(c, s).1 <==> regular_image_of(c, r) == s,
{
    lemma_first_not_below(c, s, 0);
    let k = first_not_below(c, s, 0);
    let start = s + shift(c, k);
    if k > 0 {
        assert(shift(c, k) == shift(c, k - 1) + 1 - c[k - 1].len);
        assert(target_of(c, k - 1) + 1 <= start);
        assert forall|j: int| 0 <= j < k implies target_of(c, j) < start by {
            if j < k - 1 {
                lemma_targets_increasing(c, j, k - 1);
            }
        }
    }
    lemma_first_target_at_least(c, start, 0);
    let b = first_target_at_least(c, start, 0);
    if b < k {
        assert(target_of(c, b) < start);
    }
    if k < c.len() && c[k].index >= s {
        assert(target_of(c, k) >= start);
        if b > k {
            assert(target_of(c, k) < start);
        }
    }
    if r < start && (k >= c.len() || c[k].index >= s) {
        lemma_regular_below_start(c, s, r);
    }
    if k >= c.len() || c[k].index > s || (c[k].len > 0 && c[k].index == s) {
        // One height: `start`.
        assert(b == k);
        assert(regular_image_of(c, start) == s);
        lemma_regular_step(c, start);
        if b < c.len() && target_of(c, b) == start {
            assert(c[k].index == s);
            assert(c[k].len > 0);
        }
        assert(regular_image_of(c, start + 1) >= s + 1);
        if r > start {
            lemma_regular_image_monotone(c, start + 1, r);
        }
    } else if c[k].index == s && c[k].len == 0 {
        let m = units_at(c, s, k);
        lemma_units_at(c, s, k);
        lemma_unit_run(c, s, k, m);
        if start <= r <= start + m {
            assert(regular_image_of(c, s + shift(c, k) + (r - start)) == s);
        }
        if r > start + m {
            lemma_shift_units(c, k, m as int, m, s);
            lemma_regular_step(c, start + m);
            lemma_first_target_at_least(c, start + m, 0);
            let a = first_target_at_least(c, start + m, 0);
            if k + m < c.len() {
                assert(c[k + m].index >= s) by {
                    assert(c[k].index + c[k].len <= c[k + m].index);
                }
                assert(target_of(c, k + m) >= start + m);
            }
            if a < c.len() && target_of(c, a) == start + m {
                if a < k {
                    if a < k - 1 {
                        lemma_targets_increasing(c, a, k - 1);
                    }
                } else if a < k + m {
                    lemma_shift_units(c, k, a - k, m, s);
                } else if a > k + m {
                    assert(target_of(c, k + m) < start + m);
                }
                assert(a == k + m);
                assert(c[a].index == s);
                assert(c[a].len > 0);
            }
            assert(regular_image_of(c, start + m + 1) >= s + 1);
            lemma_regular_image_monotone(c, start + m + 1, r);
        }
    } else {
        // `s` lies inside the cone `k`: nothing comes from it.
        assert(c[k].index < s && s < c[k].index + c[k].len);
        let t = target_of(c, k);
        lemma_first_target_at_least(c, t, 0);
        let bt = first_target_at_least(c, t, 0);
        if bt < k {
            lemma_targets_increasing(c, bt, k);
        }
        assert(regular_image_of(c, t) == c[k].index);
        lemma_regular_step(c, t);
        assert(regular_image_of(c, t + 1) == c[k].index + c[k].len);
        if r <= t {
            lemma_regular_image_monotone(c, r, t);
        } else {
            lemma_regular_image_monotone(c, t + 1, r);
        }
    }
}

/// Over a run of `m` unit cones at `s`, starting with the `k`-th cone, the regular heights
/// `start ..= start + m` of the target all come from `s`.
proof fn lemma_unit_run(c: Seq<Cone>, s: int, k: int, m: nat)
    requires
        cones_ordered(c),
        0 <= s,
        0 <= k < c.len(),
        k == first_not_below(c, s, 0),
        c[k].index == s && c[k].len == 0,
        m == units_at(c, s, k),
        k + m <= c.len(),
        forall|j: int| k <= j < k + m ==> c[j].index == s && c[j].len == 0,
        k + m < c.len() ==> !(c[k + m].index == s && c[k + m].len == 0),
    ensures
        forall|x: int| 0 <= x <= m ==> #[trigger] regular_image_of(c, s + shift(c, k) + x) == s,
{
    lemma_first_not_below(c, s, 0);
    let start = s + shift(c, k);
    assert forall|x: int| 0 <= x <= m implies #[trigger] regular_image_of(c, start + x) == s by {
        lemma_unit_run_at(c, s, k, m, x);
    }
}

proof fn lemma_unit_run_at(c: Seq<Cone>, s: int, k: int, m: nat, x: int)
    requires
        cones_ordered(c),
        0 <= s,
        0 <= k < c.len(),
        forall|j: int| 0 <= j < k ==> c[j].index < s && c[j].index + c[j].len <= s,
        c[k].index == s && c[k].len == 0,
        k + m <= c.len(),
        forall|j: int| k <= j < k + m ==> c[j].index == s && c[j].len == 0,
        k + m < c.len() ==> !(c[k + m].index == s && c[k + m].len == 0),
        0 <= x <= m,
    ensures
        regular_image_of(c, s + shift(c, k) + x) == s,
        x < m ==> target_of(c, k + x) == s + shift(c, k) + x,
    decreases x,
{
    let start = s + shift(c, k);
    if x > 0 {
        lemma_unit_run_at(c, s, k, m, x - 1);
        assert(shift(c, k + x) == shift(c, k + x - 1) + 1 - c[k + x - 1].len);
    }
    let r = start + x;
    lemma_shift_units(c, k, x, m, s);
    lemma_first_target_at_least(c, r, 0);
    let b = first_target_at_least(c, r, 0);
    if k > 0 {
        assert(shift(c, k) == shift(c, k - 1) + 1 - c[k - 1].len);
        assert(target_of(c, k - 1) + 1 <= start);
    }
    assert forall|j: int| 0 <= j < k + x implies target_of(c, j) < r by {
        if j < k {
            if j < k - 1 {
                lemma_targets_increasing(c, j, k - 1);
            }
        } else {
            lemma_shift_units(c, k, j - k, m, s);
        }
    }
    if k + x < c.len() {
        assert(c[k + x].index >= s) by {
            if k + x > k {
                assert(c[k].index + c[k].len <= c[k + x].index);
            }
        }
        assert(target_of(c, k + x) >= r);
    }
    if b < k + x {
        assert(target_of(c, b) < r);
    }
    if b > k + x {
        assert(target_of(c, k + x) < r);
    }
}

/// Each unit cone in a run adds one to the shift.
proof fn lemma_shift_units(c: Seq<Cone>, k: int, x: int, m: nat, s: int)
    requires
        0 <= k,
        0 <= x <= m,
        k + m <= c.len(),
        forall|j: int| k <= j < k + m ==> c[j].index == s && c[j].len == 0,
    ensures
        shift(c, k + x) == shift(c, k) + x,
        x < m ==> target_of(c, k + x) == s + shift(c, k) + x,
    decreases x,
{
    if x > 0 {
        lemma_shift_units(c, k, x - 1, m, s);
        assert(shift(c, k + x) == shift(c, k + x - 1) + 1 - c[k + x - 1].len);
    }
}

/// The rewrite's cones are ordered and their heights, moved by at most their number, fit
/// in a `usize`.
pub open spec fn cones_fit(c: Seq<Cone>) -> bool {
    &&& cones_ordered(c)
    &&& forall|k: int| 0 <= k < c.len() ==> #[trigger] c[k].index + c[k].len + c.len() <= usize::MAX
}

impl RewriteN {
    pub closed spec fn cone_seq(&self) -> Seq<Cone> {
        self.cones@
    }

    pub closed spec fn dimension_spec(&self) -> usize {
        self.dimension
    }

    /// A rewrite with the given cones, all kept: whether a cone of one height changes
    /// nothing depends on its cospans, which this record leaves out.
    pub fn new(dimension: usize, cones: Vec<Cone>) -> (r: Self)
        requires
            dimension != 0,
        ensures
            r.dimension_spec() == dimension,
            r.cone_seq() == cones@,
    {
        RewriteN { dimension, cones }
    }

    /// The rewrite with no cones.
    pub fn identity(dimension: usize) -> (r: Self)
        requires
            dimension != 0,
        ensures
            r.dimension_spec() == dimension,
            r.cone_seq() == Seq::<Cone>::empty(),
    {
        RewriteN { dimension, cones: Vec::new() }
    }

    pub fn dimension(&self) -> (r: usize)
        ensures
            r == self.dimension_spec(),
    {
        self.dimension
    }

    /// A rewrite without cones changes nothing.
    pub fn is_identity(&self) -> (r: bool)
        ensures
            r == (self.cone_seq().len() == 0),
    {
        self.cones.len() == 0
    }

    /// Whether every cone sends exactly one source height to its target: the underlying
    /// singular monotone is then an identity.
    pub fn is_parallel(&self) -> (r: bool)
        ensures
            r == (forall|k: int| 0 <= k < self.cone_seq().len() ==> #[trigger] self.cone_seq()[k].len == 1),
    {
        let mut i: usize = 0;
        while i < self.cones.len()
            invariant
                i <= self.cones@.len(),
                forall|k: int| 0 <= k < i ==> #[trigger] self.cones@[k].len == 1,
            decreases self.cones@.len() - i,
        {
            if self.cones[i].len != 1 {
                proof {
                    assert(self.cone_seq()[i as int].len != 1);
                }
                return false;
            }
            i = i + 1;
        }
        true
    }

    pub fn cones(&self) -> (r: &Vec<Cone>)
        ensures
            r@ == self.cone_seq(),
    {
        &self.cones
    }

    /// For each cone, the singular height of the target it goes to.
    pub fn targets(&self) -> (r: Vec<usize>)
        requires
            cones_fit(self.cone_seq()),
        ensures
            r@.len() == self.cone_seq().len(),
            forall|k: int| 0 <= k < r@.len() ==> #[trigger] r@[k] == target_of(self.cone_seq(), k),
    {
        let ghost c = self.cones@;
        let mut r: Vec<usize> = Vec::new();
        let mut count: usize = 0;
        let mut cov: usize = 0;
        while count < self.cones.len()
            invariant
                c == self.cones@,
                cones_fit(c),
                count <= c.len(),
                r@.len() == count,
                cov == covered(c, count as int),
                forall|k: int| 0 <= k < count ==> #[trigger] r@[k] == target_of(c, k),
            decreases c.len() - count,
        {
            let cone = self.cones[count];
            proof {
                lemma_shift_covered(c, count as int);
                if count > 0 {
                    lemma_covered_bound(c, count as int);
                    assert(c[count as int - 1].index + c[count as int - 1].len <= c[count as int].index);
                }
                assert(c[count as int].index + c[count as int].len + c.len() <= usize::MAX);
            }
            r.push(cone.index + count - cov);
            cov = cov + cone.len;
            count = count + 1;
        }
        r
    }

    /// The singular height of the target that the singular height `index` of the source
    /// goes to.
    pub fn singular_image(&self, index: usize) -> (r: usize)
        requires
            cones_fit(self.cone_seq()),
            index + self.cone_seq().len() <= usize::MAX,
        ensures
            r == singular_image_of(self.cone_seq(), index as int),
    {
        let ghost c = self.cones@;
        proof {
            lemma_first_reaching(c, index as int, 0);
        }
        let mut count: usize = 0;
        let mut cov: usize = 0;
        while count < self.cones.len()
            invariant
                c == self.cones@,
                cones_fit(c),
                index + c.len() <= usize::MAX,
                count <= c.len(),
                cov == covered(c, count as int),
                count <= first_reaching(c, index as int, 0) <= c.len(),
                forall|j: int| 0 <= j < first_reaching(c, index as int, 0) ==> c[j].index + c[j].len <= index,
                first_reaching(c, index as int, 0) < c.len() ==> index < c[first_reaching(c, index as int, 0)].index + c[first_reaching(c, index as int, 0)].len,
                count > 0 ==> c[count - 1].index + c[count - 1].len <= index,
            decreases c.len() - count,
        {
            let cone = self.cones[count];
            proof {
                lemma_shift_covered(c, count as int);
                if count > 0 {
                    lemma_covered_bound(c, count as int);
                }
            }
            if index < cone.index {
                return index + count - cov;
            } else if index < cone.index + cone.len {
                proof {
                    if count > 0 {
                        assert(c[count as int - 1].index + c[count as int - 1].len <= c[count as int].index);
                    }
                }
                return cone.index + count - cov;
            }
            cov = cov + cone.len;
            count = count + 1;
        }
        proof {
            lemma_shift_covered(c, count as int);
            if count > 0 {
                lemma_covered_bound(c, count as int);
            }
        }
        index + count - cov
    }

    /// The singular heights of the source that go to the singular height `index` of the
    /// target.
    pub fn singular_preimage(&self, index: usize) -> (r: Range<usize>)
        requires
            cones_fit(self.cone_seq()),
            index + covered(self.cone_seq(), self.cone_seq().len() as int) < usize::MAX,
        ensures
            r.start == singular_preimage_of(self.cone_seq(), index as int).0,
            r.end == singular_preimage_of(self.cone_seq(), index as int).1,
    {
        let ghost c = self.cones@;
        proof {
            lemma_first_target_at_least(c, index as int, 0);
            lemma_covered_mono(c, c.len() as int);
        }
        let mut count: usize = 0;
        let mut cov: usize = 0;
        while count < self.cones.len()
            invariant
                c == self.cones@,
                cones_fit(c),
                index + covered(c, c.len() as int) < usize::MAX,
                forall|k: int| 0 <= k <= c.len() ==> #[trigger] covered(c, k) <= covered(c, c.len() as int),
                count <= c.len(),
                cov == covered(c, count as int),
                count <= first_target_at_least(c, index as int, 0) <= c.len(),
                forall|k: int| 0 <= k < first_target_at_least(c, index as int, 0) ==> target_of(c, k) < index,
                first_target_at_least(c, index as int, 0) < c.len() ==> index <= target_of(c, first_target_at_least(c, index as int, 0)),
            decreases c.len() - count,
        {
            let cone = self.cones[count];
            proof {
                lemma_shift_covered(c, count as int);
                assert(covered(c, count as int) <= covered(c, c.len() as int));
                if count > 0 {
                    lemma_shift_covered(c, count as int - 1);
                    assert(target_of(c, count as int - 1) < index);
                    assert(shift(c, count as int) == shift(c, count as int - 1) + 1 - c[count as int - 1].len);
                }
            }
            let adjusted = index + cov - count;
            proof {
                assert(target_of(c, count as int) == c[count as int].index + shift(c, count as int));
                assert(adjusted == index - shift(c, count as int));
                assert(covered(c, count as int + 1) == cov + cone.len);
                assert(covered(c, count as int + 1) <= covered(c, c.len() as int));
            }
            if adjusted < cone.index {
                proof {
                    assert(index < target_of(c, count as int));
                    assert(count == first_target_at_least(c, index as int, 0));
                }
                return adjusted..adjusted + 1;
            } else if adjusted == cone.index {
                proof {
                    assert(c[count as int].index + c[count as int].len + c.len() <= usize::MAX);
                    assert(index == target_of(c, count as int));
                    assert(count == first_target_at_least(c, index as int, 0));
                }
                return cone.index..cone.index + cone.len;
            }
            cov = cov + cone.len;
            count = count + 1;
        }
        proof {
            lemma_shift_covered(c, count as int);
            if count > 0 {
                lemma_shift_covered(c, count as int - 1);
                assert(target_of(c, count as int - 1) < index);
                assert(shift(c, count as int) == shift(c, count as int - 1) + 1 - c[count as int - 1].len);
            }
        }
        let adjusted = index + cov - count;
        adjusted..adjusted + 1
    }

    /// The first cone that goes to the singular height `height` of the target, if any.
    pub fn cone_over_target(&self, height: usize) -> (r: Option<&Cone>)
        requires
            cones_fit(self.cone_seq()),
        ensures
            r matches Some(cone) ==> exists|k: int|
                0 <= k < self.cone_seq().len() && self.cone_seq()[k] == *cone && target_of(
                    self.cone_seq(),
                    k,
                ) == height,
            r is None ==> forall|k: int|
                0 <= k < self.cone_seq().len() ==> target_of(self.cone_seq(), k) != height,
    {
        let ghost c = self.cones@;
        let mut count: usize = 0;
        let mut cov: usize = 0;
        while count < self.cones.len()
            invariant
                c == self.cones@,
                cones_fit(c),
                count <= c.len(),
                cov == covered(c, count as int),
                forall|k: int| 0 <= k < count ==> target_of(c, k) != height,
            decreases c.len() - count,
        {
            let cone = &self.cones[count];
            proof {
                lemma_shift_covered(c, count as int);
                if count > 0 {
                    lemma_covered_bound(c, count as int);
                    assert(c[count as int - 1].index + c[count as int - 1].len <= c[count as int].index);
                }
                assert(c[count as int].index + c[count as int].len + c.len() <= usize::MAX);
            }
            let target = cone.index + count - cov;
            if target == height {
                proof {
                    assert(c[count as int] == *cone && target_of(c, count as int) == height);
                    assert(self.cone_seq()[count as int] == *cone && target_of(self.cone_seq(), count as int) == height);
                }
                return Some(cone);
            }
            cov = cov + cone.len;
            count = count + 1;
        }
        None
    }

    /// The regular height of the source that the regular height `index` of the target comes
    /// from.
    pub fn regular_image(&self, index: usize) -> (r: usize)
        requires
            cones_fit(self.cone_seq()),
            index + covered(self.cone_seq(), self.cone_seq().len() as int) <= usize::MAX,
        ensures
            r == regular_image_of(self.cone_seq(), index as int),
    {
        let ghost c = self.cones@;
        proof {
            lemma_first_target_at_least(c, index as int, 0);
            lemma_covered_mono(c, c.len() as int);
        }
        let mut count: usize = 0;
        let mut cov: usize = 0;
        while count < self.cones.len()
            invariant
                c == self.cones@,
                cones_fit(c),
                index + covered(c, c.len() as int) <= usize::MAX,
                forall|k: int| 0 <= k <= c.len() ==> #[trigger] covered(c, k) <= covered(c, c.len() as int),
                count <= c.len(),
                cov == covered(c, count as int),
                count <= first_target_at_least(c, index as int, 0) <= c.len(),
                forall|k: int| 0 <= k < first_target_at_least(c, index as int, 0) ==> target_of(c, k) < index,
                first_target_at_least(c, index as int, 0) < c.len() ==> index <= target_of(c, first_target_at_least(c, index as int, 0)),
            decreases c.len() - count,
        {
            let cone = self.cones[count];
            proof {
                lemma_shift_covered(c, count as int);
                if count > 0 {
                    lemma_shift_covered(c, count as int - 1);
                    assert(target_of(c, count as int - 1) < index);
                    assert(shift(c, count as int) == shift(c, count as int - 1) + 1 - c[count as int - 1].len);
                }
                assert(covered(c, count as int + 1) == cov + cone.len);
                assert(covered(c, count as int + 1) <= covered(c, c.len() as int));
                assert(c[count as int].index + c[count as int].len + c.len() <= usize::MAX);
                if count > 0 {
                    lemma_covered_bound(c, count as int);
                    assert(c[count as int - 1].index + c[count as int - 1].len <= c[count as int].index);
                }
            }
            if index <= cone.index + count - cov {
                proof {
                    assert(index <= target_of(c, count as int));
                    assert(count == first_target_at_least(c, index as int, 0));
                }
                return index + cov - count;
            }
            cov = cov + cone.len;
            count = count + 1;
        }
        proof {
            lemma_shift_covered(c, count as int);
            if count > 0 {
                lemma_shift_covered(c, count as int - 1);
                assert(target_of(c, count as int - 1) < index);
                assert(shift(c, count as int) == shift(c, count as int - 1) + 1 - c[count as int - 1].len);
            }
        }
        index + cov - count
    }

    /// The singular image of each of the first `source_size` singular heights.
    pub fn singular_monotone(&self, source_size: usize) -> (r: Monotone)
        requires
            cones_fit(self.cone_seq()),
            source_size + self.cone_seq().len() <= usize::MAX,
        ensures
            r@.len() == source_size,
            forall|i: int| 0 <= i < source_size ==> #[trigger] r@[i] == singular_image_of(self.cone_seq(), i),
    {
        let mut v: Vec<usize> = Vec::new();
        let mut i: usize = 0;
        while i < source_size
            invariant
                cones_fit(self.cone_seq()),
                source_size + self.cone_seq().len() <= usize::MAX,
                i <= source_size,
                v@.len() == i,
                forall|j: int| 0 <= j < i ==> #[trigger] v@[j] == singular_image_of(self.cone_seq(), j),
            decreases source_size - i,
        {
            v.push(self.singular_image(i));
            i = i + 1;
        }
        Monotone::from_vec(v)
    }

    /// The regular image of each regular height of a target with `target_size` singular
    /// heights.
    pub fn regular_monotone(&self, target_size: usize) -> (r: Monotone)
        requires
            cones_fit(self.cone_seq()),
            target_size < usize::MAX,
            target_size + 1 + covered(self.cone_seq(), self.cone_seq().len() as int) <= usize::MAX,
        ensures
            r@.len() == target_size + 1,
            forall|i: int| 0 <= i <= target_size ==> #[trigger] r@[i] == regular_image_of(self.cone_seq(), i),
    {
        let mut v: Vec<usize> = Vec::new();
        let mut i: usize = 0;
        while i <= target_size
            invariant
                cones_fit(self.cone_seq()),
                target_size < usize::MAX,
                target_size + 1 + covered(self.cone_seq(), self.cone_seq().len() as int) <= usize::MAX,
                i <= target_size + 1,
                v@.len() == i,
                forall|j: int| 0 <= j < i ==> #[trigger] v@[j] == regular_image_of(self.cone_seq(), j),
            decreases target_size + 1 - i,
        {
            v.push(self.regular_image(i));
            i = i + 1;
        }
        Monotone::from_vec(v)
    }

    /// The regular heights of the target that come from the regular height `index` of the
    /// source.
    pub fn regular_preimage(&self, index: usize) -> (r: Range<usize>)
        requires
            cones_fit(self.cone_seq()),
            index + self.cone_seq().len() + 1 <= usize::MAX,
        ensures
            r.start == regular_preimage_of(self.cone_seq(), index as int).0,
            r.end == regular_preimage_of(self.cone_seq(), index as int).1,
    {
        let ghost c = self.cones@;
        let s = index;
        proof {
            lemma_first_not_below(c, s as int, 0);
        }
        let mut count: usize = 0;
        let mut cov: usize = 0;
        while count < self.cones.len()
            invariant
                c == self.cones@,
                cones_fit(c),
                s == index,
                index + c.len() + 1 <= usize::MAX,
                count <= c.len(),
                cov == covered(c, count as int),
                cov <= index,
                count <= first_not_below(c, s as int, 0) <= c.len(),
                forall|k: int|
                    0 <= k < first_not_below(c, s as int, 0) ==> c[k].index < s && c[k].index + c[k].len <= s,
                first_not_below(c, s as int, 0) < c.len() ==> !(c[first_not_below(c, s as int, 0)].index < s
                    && c[first_not_below(c, s as int, 0)].index + c[first_not_below(c, s as int, 0)].len <= s),
            decreases c.len() - count,
        {
            let cone = self.cones[count];
            proof {
                lemma_shift_covered(c, count as int);
                assert(c[count as int].index + c[count as int].len + c.len() <= usize::MAX);
                if count > 0 {
                    lemma_covered_bound(c, count as int);
                    assert(c[count as int - 1].index + c[count as int - 1].len <= c[count as int].index);
                }
            }
            let start = index + count - cov;
            if cone.index > index || (cone.len > 0 && cone.index == index) {
                proof {
                    assert(count == first_not_below(c, s as int, 0));
                }
                return start..start + 1;
            } else if cone.index == index && cone.len == 0 {
                proof {
                    assert(count == first_not_below(c, s as int, 0));
                    lemma_units_at(c, s as int, count as int);
                }
                let mut length: usize = 0;
                while count + length < self.cones.len() && self.cones[count + length].index == index
                    && self.cones[count + length].len == 0
                    invariant
                        c == self.cones@,
                        s == index,
                        c.len() == self.cones.len(),
                        count < c.len(),
                        count + length <= c.len(),
                        length <= units_at(c, s as int, count as int),
                        forall|j: int| count <= j < count + units_at(c, s as int, count as int) ==> c[j].index == s && c[j].len == 0,
                        count + units_at(c, s as int, count as int) <= c.len(),
                        count + units_at(c, s as int, count as int) < c.len() ==> !(c[count + units_at(c, s as int, count as int)].index == s
                            && c[count + units_at(c, s as int, count as int)].len == 0),
                    decreases c.len() - count - length,
                {
                    length = length + 1;
                }
                return start..start + length + 1;
            } else if cone.index < index && index < cone.index + cone.len {
                proof {
                    assert(count == first_not_below(c, s as int, 0));
                }
                let t = cone.index + count - cov;
                return t..t;
            }
            proof {
                assert(covered(c, count as int + 1) == cov + cone.len);
            }
            cov = cov + cone.len;
            count = count + 1;
        }
        proof {
            lemma_shift_covered(c, count as int);
        }
        let start = index + count - cov;
        start..start + 1
    }
}

} // verus!

verus! {

/// Why two rewrites do not compose.
#[derive(Copy, Clone, Debug, PartialEq, Eq, Structural, Hash)]
pub enum CompositionError {
    /// The rewrites have different dimensions.
    Dimension(usize, usize),
    /// The target of the first is not the source of the second.
    Incompatible,
}

/// A rewrite between 0-dimensional diagrams: the identity, or a rewrite from a source to a
/// target generator of at least its dimension, perhaps labelled.
#[derive(Clone, Debug, PartialEq, Eq)]
pub struct Rewrite0(Option<(Diagram0, Diagram0, Label)>);

/// A 0-rewrite as plain values: none for the identity, else source, target and label.
pub type Rewrite0View = Option<(Diagram0, Diagram0, Option<(Generator, crate::common::BoundaryPath, Set<Vec<crate::common::Height>>)>)>;

impl View for Rewrite0 {
    type V = Rewrite0View;

    closed spec fn view(&self) -> Rewrite0View {
        match self.0 {
            None => None,
            Some((s, t, l)) => Some((s, t, label_view(l))),
        }
    }
}

/// The 0-rewrite from `source` to `target` with `label`, or the identity when they agree.
pub open spec fn rewrite0_spec(
    source: Diagram0,
    target: Diagram0,
    label: Option<(Generator, crate::common::BoundaryPath, Set<Vec<crate::common::Height>>)>,
) -> Rewrite0View {
    if source == target {
        None
    } else {
        Some((source, target, label))
    }
}

/// A 0-rewrite goes to a generator of at least the dimension of its source, which it
/// differs from.
pub open spec fn rewrite0_wf(r: Rewrite0View) -> bool {
    match r {
        None => true,
        Some((s, t, _)) => s.generator.dimension <= t.generator.dimension && s != t,
    }
}

/// Composing two 0-rewrites: an identity gives the other one; otherwise the first must end
/// where the second starts, and the composite goes from the first source to the second
/// target, unlabelled.
pub open spec fn compose0_spec(f: Rewrite0View, g: Rewrite0View) -> Result<Rewrite0View, CompositionError> {
    match (f, g) {
        (Some(_), None) => Ok(f),
        (None, _) => Ok(g),
        (Some((fs, ft, _)), Some((gs, gt, _))) => if ft == gs {
            Ok(rewrite0_spec(fs, gt, None))
        } else {
            Err(CompositionError::Incompatible)
        },
    }
}

/// The 0-rewrite carries no label.
pub open spec fn unlabelled(r: Rewrite0View) -> bool {
    match r {
        None => true,
        Some((_, _, l)) => l is None,
    }
}

/// Two non-identity 0-rewrites that compose carry no label.
pub open spec fn composable_unlabelled(f: Rewrite0View, g: Rewrite0View) -> bool {
    match (f, g) {
        (Some((_, ft, _)), Some((gs, _, _))) => ft == gs ==> unlabelled(f) && unlabelled(g),
        _ => true,
    }
}

impl Rewrite0 {
    /// The rewrite from `source` to `target` with `label`, or the identity when they agree.
    pub fn new(source: Diagram0, target: Diagram0, label: Label) -> (r: Self)
        requires
            source.generator.dimension <= target.generator.dimension,
        ensures
            r@ == rewrite0_spec(source, target, label_view(label)),
            rewrite0_wf(r@),
    {
        if source == target {
            Self(None)
        } else {
            Self(Some((source, target, label)))
        }
    }

    pub fn identity() -> (r: Self)
        ensures
            r@ is None,
    {
        Self(None)
    }

    pub fn is_identity(&self) -> (r: bool)
        ensures
            r == (self@ is None),
    {
        self.0.is_none()
    }

    /// This rewrite followed by `g`.
    pub fn compose(&self, g: &Self) -> (r: Result<Self, CompositionError>)
        requires
            rewrite0_wf(self@),
            rewrite0_wf(g@),
            composable_unlabelled(self@, g@),
        ensures
            match r {
                Ok(c) => compose0_spec(self@, g@) == Ok::<Rewrite0View, CompositionError>(c@) && rewrite0_wf(c@),
                Err(e) => compose0_spec(self@, g@) == Err::<Rewrite0View, CompositionError>(e),
            },
    {
        match (&self.0, &g.0) {
            (Some((s, t, l)), None) => Ok(Self(Some((*s, *t, clone_label(l))))),
            (None, Some((s, t, l))) => Ok(Self(Some((*s, *t, clone_label(l))))),
            (None, None) => Ok(Self::identity()),
            (Some((f_s, f_t, _)), Some((g_s, g_t, _))) => {
                if *f_t == *g_s {
                    Ok(Self::new(*f_s, *g_t, None))
                } else {
                    Err(CompositionError::Incompatible)
                }
            },
        }
    }

    pub fn source(&self) -> (r: Option<Diagram0>)
        ensures
            r == (match self@ {
                None => None,
                Some((s, _, _)) => Some(s),
            }),
    {
        match &self.0 {
            None => None,
            Some((s, _, _)) => Some(*s),
        }
    }

    pub fn target(&self) -> (r: Option<Diagram0>)
        ensures
            r == (match self@ {
                None => None,
                Some((_, t, _)) => Some(t),
            }),
    {
        match &self.0 {
            None => None,
            Some((_, t, _)) => Some(*t),
        }
    }

    pub fn label(&self) -> (r: Label)
        ensures
            label_view(r) == (match self@ {
                None => None,
                Some((_, _, l)) => l,
            }),
    {
        match &self.0 {
            None => None,
            Some((_, _, l)) => clone_label(l),
        }
    }

    /// The source or the target generator of the rewrite.
    pub fn max_generator(&self, boundary: Boundary) -> (r: Option<Diagram0>)
        ensures
            r == (match (boundary, self@) {
                (_, None) => None,
                (Boundary::Source, Some((s, _, _))) => Some(s),
                (Boundary::Target, Some((_, t, _))) => Some(t),
            }),
    {
        match boundary {
            Boundary::Source => self.source(),
            Boundary::Target => self.target(),
        }
    }

    /// The same rewrite, with the target's orientation transformed by `k` where the target
    /// is of higher dimension than `dim`.
    pub fn orientation_transform_above(&self, k: Orientation, dim: usize) -> (r: Self)
        requires
            rewrite0_wf(self@),
        ensures
            r@ == (match self@ {
                None => None,
                Some((s, t, l)) => rewrite0_spec(
                    s,
                    if dim < t.generator.dimension {
                        (Diagram0 { generator: t.generator, orientation: t.orientation.spec_mul(k) })
                    } else {
                        t
                    },
                    l,
                ),
            }),
            rewrite0_wf(r@),
    {
        match &self.0 {
            None => Self(None),
            Some((source, target, label)) => {
                let mut target = *target;
                if dim < target.generator.dimension {
                    target = target.orientation_transform(k);
                }
                Self::new(*source, target, clone_label(label))
            },
        }
    }

    /// The same rewrite, without its label where its target is `generator`.
    pub fn remove_framing(&self, generator: Generator) -> (r: Self)
        requires
            rewrite0_wf(self@),
        ensures
            r@ == (match self@ {
                None => None,
                Some((s, t, l)) => rewrite0_spec(s, t, if t.generator == generator { None } else { l }),
            }),
            rewrite0_wf(r@),
    {
        match &self.0 {
            None => Self(None),
            Some((source, target, label)) => {
                let new_label = if target.generator == generator {
                    None
                } else {
                    clone_label(label)
                };
                Self::new(*source, *target, new_label)
            },
        }
    }
}

/// The identity 0-rewrite is a unit for composition on either side.
pub proof fn lemma_compose0_identity(f: Rewrite0View)
    ensures
        compose0_spec(None, f) == Ok::<Rewrite0View, CompositionError>(f),
        compose0_spec(f, None) == Ok::<Rewrite0View, CompositionError>(f),
{
}

/// Composing 0-rewrites that follow one another is associative.
pub proof fn lemma_compose0_associative(f: Rewrite0View, g: Rewrite0View, h: Rewrite0View)
    requires
        rewrite0_wf(f),
        rewrite0_wf(g),
        rewrite0_wf(h),
        compose0_spec(f, g) is Ok,
        compose0_spec(g, h) is Ok,
        composable_unlabelled(f, g),
        composable_unlabelled(g, h),
    ensures
        compose0_spec(compose0_spec(f, g)->Ok_0, h) == compose0_spec(f, compose0_spec(g, h)->Ok_0),
{
}

} // verus!

verus! {

/// The composite cone that the cone `g[b]` of the second rewrite becomes, the cones of the
/// first rewrite taken into it adding `del` to its length.
pub open spec fn merged_cone(f: Seq<Cone>, g: Seq<Cone>, a: int, b: int, del: int) -> Cone {
    Cone { index: (g[b].index - shift(f, a) - del) as usize, len: (g[b].len + del) as usize }
}

/// The cones of the composite of a rewrite with cones `f` followed by one with cones `g`,
/// from the point where the first `a` cones of `f` and the first `b` cones of `g` have been
/// dealt with, the cones of `f` taken into `g[b]` so far adding `del` to its length. A cone
/// of `f` whose target lies before `g[b]` stays as it is; one whose target lies within the
/// source of `g[b]` is taken into it; `g[b]` is placed once the next cone of `f` lies
/// beyond it.
pub open spec fn compose_from(f: Seq<Cone>, g: Seq<Cone>, a: int, b: int, del: int) -> Seq<Cone>
    decreases f.len() + g.len() - a - b,
{
    if a < 0 || b < 0 || a > f.len() || b > g.len() || (a == f.len() && b == g.len()) {
        seq![]
    } else if b == g.len() {
        seq![f[a]] + compose_from(f, g, a + 1, b, del)
    } else if a == f.len() {
        seq![merged_cone(f, g, a, b, del)] + compose_from(f, g, a, b + 1, 0)
    } else {
        let t = target_of(f, a);
        if t >= g[b].index + g[b].len {
            seq![merged_cone(f, g, a, b, del)] + compose_from(f, g, a, b + 1, 0)
        } else if t - g[b].index + del < 0 {
            seq![f[a]] + compose_from(f, g, a + 1, b, del)
        } else {
            compose_from(f, g, a + 1, b, del + f[a].len - 1)
        }
    }
}

/// The cones of a rewrite fit in a signed word: each ends at most at `isize::MAX`, and
/// there are at most that many.
pub open spec fn cones_fit_signed(c: Seq<Cone>) -> bool {
    &&& cones_ordered(c)
    &&& c.len() <= isize::MAX
    &&& forall|k: int| 0 <= k < c.len() ==> #[trigger] c[k].index + c[k].len <= isize::MAX
}

/// The targets of the cones spread out at least one height apart.
proof fn lemma_targets_spread(c: Seq<Cone>, k: int, l: int)
    requires
        cones_ordered(c),
        0 <= k <= l < c.len(),
    ensures
        target_of(c, l) >= target_of(c, k) + (l - k),
    decreases l - k,
{
    if k < l {
        lemma_targets_spread(c, k, l - 1);
        lemma_targets_increasing(c, l - 1, l);
    }
}

/// The first target is at least zero, so the `k`-th is at least `k`.
proof fn lemma_target_lower(c: Seq<Cone>, k: int)
    requires
        cones_ordered(c),
        0 <= k < c.len(),
    ensures
        target_of(c, k) >= k,
{
    lemma_targets_spread(c, 0, k);
    assert(shift(c, 0) == 0);
}

/// The shift after `k` cones is at most `k` and at least minus what they cover.
proof fn lemma_shift_bounds(c: Seq<Cone>, k: int)
    requires
        cones_ordered(c),
        0 <= k <= c.len(),
    ensures
        shift(c, k) <= k,
        k > 0 ==> -shift(c, k) <= c[k - 1].index + c[k - 1].len,
{
    lemma_shift_covered(c, k);
    if k > 0 {
        lemma_covered_bound(c, k);
    }
}

impl RewriteN {
    /// This rewrite followed by `g`: the rewrite whose singular heights go where `g` sends
    /// the heights this one sends them to. A cone of this rewrite whose target falls within
    /// the source of a cone of `g` is taken into that cone. Rewrites of one dimension always
    /// compose here: the cospans whose agreement would decide it are not recorded.
    pub fn compose(&self, g: &Self) -> (r: Result<Self, CompositionError>)
        requires
            cones_fit_signed(self.cone_seq()),
            cones_fit_signed(g.cone_seq()),
        ensures
            self.dimension_spec() != g.dimension_spec() ==> r == Err::<Self, CompositionError>(
                CompositionError::Dimension(self.dimension_spec(), g.dimension_spec()),
            ),
            self.dimension_spec() == g.dimension_spec() ==> (r matches Ok(c) && c.dimension_spec()
                == self.dimension_spec() && c.cone_seq() == compose_from(self.cone_seq(), g.cone_seq(), 0, 0, 0)
                && cones_ordered(c.cone_seq())
                && forall|i: int| 0 <= i ==> #[trigger] singular_image_of(c.cone_seq(), i)
                    == singular_image_of(g.cone_seq(), singular_image_of(self.cone_seq(), i))),
    {
        if self.dimension != g.dimension {
            return Err(CompositionError::Dimension(self.dimension, g.dimension));
        }
        let ghost fs = self.cones@;
        let ghost gs = g.cones@;
        let mut offset: i128 = 0;
        let mut delayed: i128 = 0;
        let mut cones: Vec<Cone> = Vec::new();
        let mut a: usize = 0;
        let mut b: usize = 0;
        let ghost mut a_free: int = 0;
        proof {
            assert(cones@ + compose_from(fs, gs, 0, 0, 0) == compose_from(fs, gs, 0, 0, 0));
        }
        while a < self.cones.len() || b < g.cones.len()
            invariant
                fs == self.cones@,
                gs == g.cones@,
                cones_fit_signed(fs),
                cones_fit_signed(gs),
                a <= fs.len(),
                b <= gs.len(),
                0 <= a_free <= a,
                b < gs.len() ==> offset == -shift(fs, a as int) - delayed,
                delayed == shift(fs, a_free) - shift(fs, a as int),
                b == gs.len() ==> a_free == a,
                b < gs.len() ==> forall|j: int| 0 <= j < a_free ==> #[trigger] target_of(fs, j) < gs[b as int].index,
                b < gs.len() ==> forall|j: int| a_free <= j < a ==> gs[b as int].index <= #[trigger] target_of(fs, j)
                    < gs[b as int].index + gs[b as int].len,
                cones@ + compose_from(fs, gs, a as int, b as int, delayed as int) == compose_from(fs, gs, 0, 0, 0),
            decreases fs.len() + gs.len() - a - b,
        {
            let ghost before = cones@;
            let ghost del = delayed as int;
            proof {
                lemma_shift_bounds(fs, a as int);
                lemma_shift_bounds(fs, a_free);
                if a > 0 {
                    assert(fs[a - 1].index + fs[a - 1].len <= isize::MAX);
                }
                if a_free > 0 {
                    assert(fs[a_free - 1].index + fs[a_free - 1].len <= isize::MAX);
                }
            }
            if b == g.cones.len() {
                cones.push(self.cones[a]);
                proof {
                    assert(cones@ + compose_from(fs, gs, a + 1, b as int, del) =~= before
                        + compose_from(fs, gs, a as int, b as int, del));
                    assert(shift(fs, a + 1) == shift(fs, a as int) + 1 - fs[a as int].len);
                }
                a = a + 1;
                proof {
                    a_free = a as int;
                }
            } else {
                let beyond = if a == self.cones.len() {
                    true
                } else {
                    proof {
                        assert(gs[b as int].index + gs[b as int].len <= isize::MAX);
                        assert(fs[a as int].index + fs[a as int].len <= isize::MAX);
                    }
                    let t: i128 = self.cones[a].index as i128 - g.cones[b].index as i128 - offset;
                    proof {
                        assert(t == target_of(fs, a as int) - gs[b as int].index + del);
                    }
                    t >= g.cones[b].len as i128 + delayed
                };
                if beyond {
                    proof {
                        lemma_emitted_cone_fits(fs, gs, a as int, b as int, a_free);
                        assert(gs[b as int].index + gs[b as int].len <= isize::MAX);
                    }
                    let cone = Cone {
                        index: (g.cones[b].index as i128 + offset) as usize,
                        len: (g.cones[b].len as i128 + delayed) as usize,
                    };
                    proof {
                        assert(cone == merged_cone(fs, gs, a as int, b as int, del));
                    }
                    cones.push(cone);
                    offset = offset + delayed;
                    delayed = 0;
                    proof {
                        assert(cones@ + compose_from(fs, gs, a as int, b + 1, 0) =~= before
                            + compose_from(fs, gs, a as int, b as int, del));
                        if b + 1 < gs.len() {
                            assert(gs[b as int].index + gs[b as int].len <= gs[b + 1].index);
                        }
                    }
                    b = b + 1;
                    proof {
                        a_free = a as int;
                    }
                } else {
                    let t: i128 = self.cones[a].index as i128 - g.cones[b].index as i128 - offset;
                    proof {
                        lemma_merge_start(fs, gs, a as int, b as int, a_free);
                        assert(shift(fs, a + 1) == shift(fs, a as int) + 1 - fs[a as int].len);
                    }
                    if t < 0 {
                        cones.push(self.cones[a]);
                        proof {
                            assert(cones@ + compose_from(fs, gs, a + 1, b as int, del) =~= before
                                + compose_from(fs, gs, a as int, b as int, del));
                        }
                        offset = offset + self.cones[a].len as i128 - 1;
                        a = a + 1;
                        proof {
                            a_free = a as int;
                        }
                    } else {
                        delayed = delayed + self.cones[a].len as i128 - 1;
                        proof {
                            assert(compose_from(fs, gs, a + 1, b as int, delayed as int)
                                == compose_from(fs, gs, a as int, b as int, del));
                        }
                        a = a + 1;
                    }
                }
            }
        }
        proof {
            assert(cones@ =~= compose_from(fs, gs, 0, 0, 0));
            lemma_compose_ordered_cones(fs, gs);
            assert forall|i: int| 0 <= i implies #[trigger] singular_image_of(cones@, i)
                == singular_image_of(gs, singular_image_of(fs, i)) by {
                lemma_compose_singular_image(fs, gs, i);
            }
        }
        Ok(RewriteN { dimension: self.dimension, cones })
    }
}

/// The composite cone that `g[b]` becomes starts at a height that is at least zero and ends
/// within a `usize`.
proof fn lemma_emitted_cone_fits(f: Seq<Cone>, g: Seq<Cone>, a: int, b: int, a_free: int)
    requires
        cones_fit_signed(f),
        cones_fit_signed(g),
        0 <= a_free <= a <= f.len(),
        0 <= b < g.len(),
        forall|j: int| 0 <= j < a_free ==> #[trigger] target_of(f, j) < g[b].index,
        forall|j: int| a_free <= j < a ==> g[b].index <= #[trigger] target_of(f, j) < g[b].index + g[b].len,
    ensures
        0 <= g[b].index - shift(f, a_free) <= usize::MAX,
        0 <= g[b].len + shift(f, a_free) - shift(f, a) <= usize::MAX,
{
    lemma_shift_bounds(f, a_free);
    lemma_shift_covered(f, a_free);
    lemma_shift_covered(f, a);
    lemma_covered_mono(f, a);
    assert(g[b].index + g[b].len <= isize::MAX);
    if a_free > 0 {
        lemma_target_lower(f, a_free - 1);
        assert(target_of(f, a_free - 1) < g[b].index);
        lemma_covered_bound(f, a_free);
        assert(f[a_free - 1].index + f[a_free - 1].len <= isize::MAX);
    }
    if a > a_free {
        lemma_targets_spread(f, a_free, a - 1);
        assert(target_of(f, a_free) >= g[b].index);
        assert(target_of(f, a - 1) < g[b].index + g[b].len);
        lemma_covered_bound(f, a);
        assert(f[a - 1].index + f[a - 1].len <= isize::MAX);
    }
    assert(covered(f, a_free) <= covered(f, a));
}

/// A cone of the first rewrite whose target lies at or after the start of `g[b]`'s source,
/// or after cones already taken into it, lies at or after that start; one that lies before
/// it comes before any cone taken into it.
proof fn lemma_merge_start(f: Seq<Cone>, g: Seq<Cone>, a: int, b: int, a_free: int)
    requires
        cones_fit_signed(f),
        0 <= a_free <= a < f.len(),
        0 <= b < g.len(),
        forall|j: int| a_free <= j < a ==> g[b].index <= #[trigger] target_of(f, j) < g[b].index + g[b].len,
    ensures
        target_of(f, a) - g[b].index + shift(f, a_free) - shift(f, a) < 0 ==> a_free == a,
        target_of(f, a) - g[b].index + shift(f, a_free) - shift(f, a) >= 0 ==> target_of(f, a) >= g[b].index,
{
    lemma_shift_covered(f, a_free);
    lemma_shift_covered(f, a);
    lemma_covered_mono(f, a);
    if a_free < a {
        lemma_targets_spread(f, a_free, a);
        assert(target_of(f, a_free) >= g[b].index);
        assert(covered(f, a_free) <= covered(f, a));
    }
}


/// The composite cones are ordered, each starting at or after `lo`, when `lo` lies past the
/// cones of the first rewrite already placed and before the next cone to place.
proof fn lemma_compose_ordered(f: Seq<Cone>, g: Seq<Cone>, a: int, b: int, a_free: int, lo: int)
    requires
        cones_fit_signed(f),
        cones_fit_signed(g),
        0 <= a_free <= a <= f.len(),
        0 <= b <= g.len(),
        b == g.len() ==> a_free == a,
        b < g.len() ==> forall|j: int| 0 <= j < a_free ==> #[trigger] target_of(f, j) < g[b].index,
        b < g.len() ==> forall|j: int| a_free <= j < a ==> g[b].index <= #[trigger] target_of(f, j)
            < g[b].index + g[b].len,
        0 <= lo,
        a_free > 0 ==> f[a_free - 1].index + f[a_free - 1].len <= lo,
        b < g.len() ==> lo <= g[b].index - shift(f, a_free),
        a_free == a && a < f.len() ==> lo <= f[a].index,
    ensures
        cones_ordered(compose_from(f, g, a, b, shift(f, a_free) - shift(f, a))),
        forall|k: int| 0 <= k < compose_from(f, g, a, b, shift(f, a_free) - shift(f, a)).len()
            ==> lo <= #[trigger] compose_from(f, g, a, b, shift(f, a_free) - shift(f, a))[k].index,
    decreases f.len() + g.len() - a - b,
{
    let del = shift(f, a_free) - shift(f, a);
    let r = compose_from(f, g, a, b, del);
    if a == f.len() && b == g.len() {
        assert(r == Seq::<Cone>::empty());
    } else if b == g.len() {
        assert(shift(f, a + 1) == shift(f, a) + 1 - f[a].len);
        if a + 1 < f.len() {
            assert(f[a].index + f[a].len <= f[a + 1].index);
        }
        lemma_compose_ordered(f, g, a + 1, b, a + 1, f[a].index + f[a].len);
        lemma_concat_ordered(f[a], compose_from(f, g, a + 1, b, del));
    } else {
        let t = target_of(f, a);
        if a == f.len() || t >= g[b].index + g[b].len {
            lemma_emitted_cone_fits(f, g, a, b, a_free);
            let m = merged_cone(f, g, a, b, del);
            assert(m.index == g[b].index - shift(f, a_free));
            assert(m.index + m.len == g[b].index + g[b].len - shift(f, a));
            if a > 0 {
                assert(shift(f, a) == shift(f, a - 1) + 1 - f[a - 1].len);
                assert(target_of(f, a - 1) < g[b].index + g[b].len);
            }
            if b + 1 < g.len() {
                assert(g[b].index + g[b].len <= g[b + 1].index);
                assert forall|j: int| 0 <= j < a implies #[trigger] target_of(f, j) < g[b + 1].index by {
                    if j < a_free {
                        assert(target_of(f, j) < g[b].index);
                    } else {
                        assert(target_of(f, j) < g[b].index + g[b].len);
                    }
                }
            }
            lemma_compose_ordered(f, g, a, b + 1, a, m.index + m.len);
            assert(compose_from(f, g, a, b, del) == seq![m] + compose_from(f, g, a, b + 1, 0));
            lemma_concat_ordered(m, compose_from(f, g, a, b + 1, 0));
        } else {
            lemma_merge_start(f, g, a, b, a_free);
            assert(shift(f, a + 1) == shift(f, a) + 1 - f[a].len);
            if t - g[b].index + del < 0 {
                assert(a_free == a);
                if a + 1 < f.len() {
                    assert(f[a].index + f[a].len <= f[a + 1].index);
                }
                lemma_compose_ordered(f, g, a + 1, b, a + 1, f[a].index + f[a].len);
                lemma_concat_ordered(f[a], compose_from(f, g, a + 1, b, del));
            } else {
                lemma_compose_ordered(f, g, a + 1, b, a_free, lo);
                assert(shift(f, a_free) - shift(f, a + 1) == del + f[a].len - 1);
            }
        }
    }
}

/// A cone followed by ordered cones that start at or after its end is ordered.
proof fn lemma_concat_ordered(x: Cone, r: Seq<Cone>)
    requires
        cones_ordered(r),
        forall|k: int| 0 <= k < r.len() ==> x.index + x.len <= #[trigger] r[k].index,
    ensures
        cones_ordered(seq![x] + r),
        forall|k: int| 0 <= k < (seq![x] + r).len() ==> x.index <= #[trigger] (seq![x] + r)[k].index,
{
    let c = seq![x] + r;
    assert forall|k: int, l: int| 0 <= k < l < c.len() implies #[trigger] c[k].index + c[k].len <= #[trigger] c[l].index by {
        if k == 0 {
            assert(c[l] == r[l - 1]);
        } else {
            assert(c[k] == r[k - 1] && c[l] == r[l - 1]);
        }
    }
    assert forall|k: int| 0 <= k < c.len() implies x.index <= #[trigger] c[k].index by {
        if k > 0 {
            assert(c[k] == r[k - 1]);
        }
    }
}


/// The shift after the first `k + 1` cones of a list that starts with `x` is the shift
/// after the first `k` of the rest, moved by `x`.
proof fn lemma_shift_cons(x: Cone, r: Seq<Cone>, k: int)
    requires
        0 <= k <= r.len(),
    ensures
        shift(seq![x] + r, k + 1) == shift(r, k) + 1 - x.len,
    decreases k,
{
    let c = seq![x] + r;
    assert(shift(c, k + 1) == shift(c, k) + 1 - c[k].len);
    if k > 0 {
        lemma_shift_cons(x, r, k - 1);
        assert(c[k] == r[k - 1]);
        assert(shift(r, k) == shift(r, k - 1) + 1 - r[k - 1].len);
    } else {
        assert(c[0] == x);
        assert(shift(c, 0) == 0 && shift(r, 0) == 0);
    }
}

/// Past the first cone, the first cone reaching past a height is found among the rest.
proof fn lemma_first_reaching_cons(x: Cone, r: Seq<Cone>, i: int, k: int)
    requires
        0 <= k <= r.len(),
    ensures
        first_reaching(seq![x] + r, i, k + 1) == first_reaching(r, i, k) + 1,
    decreases r.len() - k,
{
    let c = seq![x] + r;
    if k < r.len() {
        assert(c[k + 1] == r[k]);
        if i >= r[k].index + r[k].len {
            lemma_first_reaching_cons(x, r, i, k + 1);
        }
    }
}

/// Where a height goes under cones that start with `x`: it stays before `x`, goes to `x`'s
/// target within it, and past it goes where the rest sends it, moved by `x`.
proof fn lemma_image_cons(x: Cone, r: Seq<Cone>, i: int)
    requires
        cones_ordered(seq![x] + r),
        0 <= i,
    ensures
        singular_image_of(seq![x] + r, i) == if i < x.index {
            i
        } else if i < x.index + x.len {
            x.index as int
        } else {
            singular_image_of(r, i) + 1 - x.len
        },
{
    let c = seq![x] + r;
    assert(c[0] == x);
    if i >= x.index + x.len {
        lemma_first_reaching_cons(x, r, i, 0);
        let k = first_reaching(r, i, 0);
        lemma_first_reaching(r, i, 0);
        lemma_shift_cons(x, r, k);
        if k < r.len() {
            assert(c[k + 1] == r[k]);
        }
    }
}

/// A height between the cones `k - 1` and `k` is moved by the shift of the first `k`.
pub proof fn lemma_image_between(c: Seq<Cone>, k: int, i: int)
    requires
        cones_ordered(c),
        0 <= k <= c.len(),
        0 <= i,
        k > 0 ==> c[k - 1].index + c[k - 1].len <= i,
        k < c.len() ==> i < c[k].index,
    ensures
        singular_image_of(c, i) == i + shift(c, k),
{
    lemma_first_reaching(c, i, 0);
    let a = first_reaching(c, i, 0);
    if a < k {
        assert(c[a].index + c[a].len <= c[k - 1].index + c[k - 1].len) by {
            if a < k - 1 {
                assert(c[a].index + c[a].len <= c[k - 1].index);
            }
        }
    }
    if a > k {
        assert(c[k].index + c[k].len <= i);
    }
}


/// Over cones of at most one height each, the shift does not fall.
proof fn lemma_shift_nondecreasing(c: Seq<Cone>, k: int, a: int)
    requires
        0 <= k <= a <= c.len(),
        forall|m: int| k <= m < a ==> #[trigger] c[m].len <= 1,
    ensures
        shift(c, a) >= shift(c, k),
    decreases a - k,
{
    if a > k {
        lemma_shift_nondecreasing(c, k, a - 1);
        assert(shift(c, a) == shift(c, a - 1) + 1 - c[a - 1].len);
    }
}

/// A height past the cone `k - 1` and at most at the start of cone `k` goes at least as far
/// as the shift of the first `k` moves it.
proof fn lemma_image_at_least(c: Seq<Cone>, k: int, i: int)
    requires
        cones_ordered(c),
        0 <= k <= c.len(),
        0 <= i,
        k > 0 ==> c[k - 1].index + c[k - 1].len <= i,
        k < c.len() ==> i <= c[k].index,
    ensures
        singular_image_of(c, i) >= i + shift(c, k),
{
    if k == c.len() || i < c[k].index {
        lemma_image_between(c, k, i);
    } else {
        lemma_first_reaching(c, i, 0);
        let a = first_reaching(c, i, 0);
        if a < k {
            assert(c[a].index + c[a].len <= c[k - 1].index + c[k - 1].len) by {
                if a < k - 1 {
                    assert(c[a].index + c[a].len <= c[k - 1].index);
                }
            }
        }
        assert forall|m: int| k <= m < a implies #[trigger] c[m].len <= 1 by {
            if m > k {
                assert(c[k].index + c[k].len <= c[m].index);
            }
            assert(c[m].index + c[m].len <= i);
        }
        lemma_shift_nondecreasing(c, k, a);
        if a < c.len() && c[a].index <= i {
            if a > k {
                assert(c[k].index + c[k].len <= c[a].index);
            }
        }
    }
}

/// Heights before the place where the targets of the first `a` cones stay below `bound`
/// go below `bound`.
proof fn lemma_image_below(c: Seq<Cone>, a: int, bound: int, i: int)
    requires
        cones_ordered(c),
        0 <= a <= c.len(),
        forall|j: int| 0 <= j < a ==> #[trigger] target_of(c, j) < bound,
        a < c.len() ==> bound - shift(c, a) <= c[a].index,
        0 <= i < bound - shift(c, a),
    ensures
        singular_image_of(c, i) < bound,
{
    lemma_first_reaching(c, i, 0);
    let k = first_reaching(c, i, 0);
    if a < c.len() {
        assert(i < c[a].index + c[a].len);
        assert(k <= a);
    }
    if k < c.len() && c[k].index <= i {
        if k >= a {
            assert(c[k].index >= c[a].index) by {
                if k > a {
                    assert(c[a].index + c[a].len <= c[k].index);
                }
            }
        }
        assert(target_of(c, k) < bound);
    } else if k < a {
        assert(target_of(c, k) < bound);
    }
}

/// Where the sources of the first `b` cones end: at the end of the last of them.
pub open spec fn cones_end(g: Seq<Cone>, b: int) -> int {
    if b > 0 {
        g[b - 1].index + g[b - 1].len
    } else {
        0
    }
}

/// Where the composite sends a height at or after `lo` is where `g` sends where `f` sends
/// it, moved back by the cones already placed.
#[verifier::rlimit(40)]
proof fn lemma_compose_image(f: Seq<Cone>, g: Seq<Cone>, a: int, b: int, a_free: int, lo: int, i: int)
    requires
        cones_fit_signed(f),
        cones_fit_signed(g),
        0 <= a_free <= a <= f.len(),
        0 <= b <= g.len(),
        b == g.len() ==> a_free == a,
        b < g.len() ==> forall|j: int| 0 <= j < a_free ==> #[trigger] target_of(f, j) < g[b].index,
        b < g.len() ==> forall|j: int| a_free <= j < a ==> g[b].index <= #[trigger] target_of(f, j)
            < g[b].index + g[b].len,
        0 <= lo,
        a_free > 0 ==> f[a_free - 1].index + f[a_free - 1].len <= lo,
        b < g.len() ==> lo <= g[b].index - shift(f, a_free),
        a_free == a && a < f.len() ==> lo <= f[a].index,
        singular_image_of(f, lo) >= cones_end(g, b),
        lo <= i,
    ensures
        singular_image_of(compose_from(f, g, a, b, shift(f, a_free) - shift(f, a)), i) + shift(f, a_free) + shift(g, b)
            == singular_image_of(g, singular_image_of(f, i)),
    decreases f.len() + g.len() - a - b,
{
    let del = shift(f, a_free) - shift(f, a);
    let r = compose_from(f, g, a, b, del);
    lemma_compose_ordered(f, g, a, b, a_free, lo);
    lemma_singular_image_monotone(f, lo, i);
    let j = singular_image_of(f, i);
    if a == f.len() && b == g.len() {
        assert(r == Seq::<Cone>::empty());
        lemma_image_between(r, 0, i);
        assert(shift(r, 0) == 0);
        lemma_image_between(f, f.len() as int, i);
        lemma_image_between(g, g.len() as int, j);
    } else if b == g.len() {
        let x = f[a];
        let rest = compose_from(f, g, a + 1, b, del);
        assert(r == seq![x] + rest);
        assert(shift(f, a + 1) == shift(f, a) + 1 - f[a].len);
        if a + 1 < f.len() {
            assert(f[a].index + f[a].len <= f[a + 1].index);
        }
        lemma_compose_ordered(f, g, a + 1, b, a + 1, x.index + x.len);
        lemma_image_cons(x, rest, i);
        lemma_image_between(g, g.len() as int, j);
        if i < x.index {
            lemma_image_between(f, a, i);
        } else if i < x.index + x.len {
            lemma_image_in_cone(f, a, i);
        } else {
            lemma_singular_image_monotone(f, lo, x.index + x.len);
            lemma_compose_image(f, g, a + 1, b, a + 1, x.index + x.len, i);
        }
    } else {
        let t = target_of(f, a);
        if a == f.len() || t >= g[b].index + g[b].len {
            lemma_emitted_cone_fits(f, g, a, b, a_free);
            let m = merged_cone(f, g, a, b, del);
            let a_g = g[b].index - shift(f, a_free);
            let a_end = g[b].index + g[b].len - shift(f, a);
            assert(m.index == a_g);
            assert(m.index + m.len == a_end);
            let rest = compose_from(f, g, a, b + 1, 0);
            assert(r == seq![m] + rest);
            if a > 0 {
                assert(shift(f, a) == shift(f, a - 1) + 1 - f[a - 1].len);
                assert(target_of(f, a - 1) < g[b].index + g[b].len);
            }
            if a_free < f.len() {
                if a_free < a {
                    assert(target_of(f, a_free) >= g[b].index);
                }
                assert(a_g <= f[a_free].index);
            }
            lemma_image_cons(m, rest, i);
            if i < a_g {
                lemma_image_between(f, a_free, i);
                lemma_image_between(g, b, j);
            } else if i < a_end {
                lemma_image_at_least(f, a_free, a_g);
                lemma_singular_image_monotone(f, a_g, i);
                assert forall|k: int| 0 <= k < a implies #[trigger] target_of(f, k) < g[b].index + g[b].len by {
                    if k < a_free {
                        assert(target_of(f, k) < g[b].index);
                    }
                }
                lemma_image_below(f, a, g[b].index + g[b].len, i);
                lemma_image_in_cone(g, b, j);
            } else {
                if b + 1 < g.len() {
                    assert(g[b].index + g[b].len <= g[b + 1].index);
                    assert forall|k: int| 0 <= k < a implies #[trigger] target_of(f, k) < g[b + 1].index by {
                        if k < a_free {
                            assert(target_of(f, k) < g[b].index);
                        } else {
                            assert(target_of(f, k) < g[b].index + g[b].len);
                        }
                    }
                }
                lemma_image_at_least(f, a, a_end);
                lemma_singular_image_monotone(f, a_end, i);
                assert(shift(g, b + 1) == shift(g, b) + 1 - g[b].len);
                lemma_compose_image(f, g, a, b + 1, a, a_end, i);
            }
        } else {
            lemma_merge_start(f, g, a, b, a_free);
            assert(shift(f, a + 1) == shift(f, a) + 1 - f[a].len);
            if t - g[b].index + del < 0 {
                assert(a_free == a);
                let x = f[a];
                let rest = compose_from(f, g, a + 1, b, del);
                assert(r == seq![x] + rest);
                if a + 1 < f.len() {
                    assert(f[a].index + f[a].len <= f[a + 1].index);
                }
                lemma_compose_ordered(f, g, a + 1, b, a + 1, x.index + x.len);
                lemma_image_cons(x, rest, i);
                if i < x.index {
                    lemma_image_between(f, a, i);
                    lemma_image_between(g, b, j);
                } else if i < x.index + x.len {
                    lemma_image_in_cone(f, a, i);
                    lemma_image_between(g, b, j);
                } else {
                    lemma_singular_image_monotone(f, lo, x.index + x.len);
                    lemma_compose_image(f, g, a + 1, b, a + 1, x.index + x.len, i);
                }
            } else {
                assert(shift(f, a_free) - shift(f, a + 1) == del + f[a].len - 1);
                lemma_compose_image(f, g, a + 1, b, a_free, lo, i);
            }
        }
    }
}


/// Composing rewrites composes where they send singular heights: the composite sends a
/// height where the second rewrite sends the height that the first sends it to.
pub proof fn lemma_compose_singular_image(f: Seq<Cone>, g: Seq<Cone>, i: int)
    requires
        cones_fit_signed(f),
        cones_fit_signed(g),
        0 <= i,
    ensures
        singular_image_of(compose_from(f, g, 0, 0, 0), i) == singular_image_of(g, singular_image_of(f, i)),
{
    lemma_image_at_least(f, 0, 0);
    assert(shift(f, 0) == 0 && shift(g, 0) == 0);
    lemma_compose_image(f, g, 0, 0, 0, 0, i);
}

/// The composite of rewrites is a rewrite: its cones are ordered.
pub proof fn lemma_compose_ordered_cones(f: Seq<Cone>, g: Seq<Cone>)
    requires
        cones_fit_signed(f),
        cones_fit_signed(g),
    ensures
        cones_ordered(compose_from(f, g, 0, 0, 0)),
{
    lemma_compose_ordered(f, g, 0, 0, 0, 0);
}


/// A rewrite of any dimension.
#[derive(Clone, Debug)]
pub enum Rewrite {
    Rewrite0(Rewrite0),
    RewriteN(RewriteN),
}

/// What a rewrite can be composed with here: 0-rewrites that are well formed and carry no
/// label where they meet, or rewrites of positive dimension whose cones fit a signed word.
pub open spec fn rewrite_composable(f: Rewrite, g: Rewrite) -> bool {
    match (f, g) {
        (Rewrite::Rewrite0(f0), Rewrite::Rewrite0(g0)) => rewrite0_wf(f0@) && rewrite0_wf(g0@)
            && composable_unlabelled(f0@, g0@),
        (Rewrite::RewriteN(fnn), Rewrite::RewriteN(gn)) => cones_fit_signed(fnn.cone_seq())
            && cones_fit_signed(gn.cone_seq()),
        _ => true,
    }
}

/// The dimension of a rewrite.
pub open spec fn rewrite_dimension(r: Rewrite) -> usize {
    match r {
        Rewrite::Rewrite0(_) => 0,
        Rewrite::RewriteN(n) => n.dimension_spec(),
    }
}

impl Rewrite {
    /// The identity rewrite of the given dimension.
    pub fn identity(dimension: usize) -> (r: Self)
        ensures
            rewrite_dimension(r) == dimension,
            dimension == 0 ==> (r matches Rewrite::Rewrite0(z) && z@ is None),
            dimension != 0 ==> (r matches Rewrite::RewriteN(n) && n.cone_seq().len() == 0),
    {
        if dimension == 0 {
            Rewrite::Rewrite0(Rewrite0::identity())
        } else {
            Rewrite::RewriteN(RewriteN::identity(dimension))
        }
    }

    pub fn dimension(&self) -> (r: usize)
        ensures
            r == rewrite_dimension(*self),
    {
        match self {
            Rewrite::Rewrite0(_) => 0,
            Rewrite::RewriteN(r) => r.dimension(),
        }
    }

    pub fn is_identity(&self) -> (r: bool)
        ensures
            r == match *self {
                Rewrite::Rewrite0(z) => z@ is None,
                Rewrite::RewriteN(n) => n.cone_seq().len() == 0,
            },
    {
        match self {
            Rewrite::Rewrite0(r) => r.is_identity(),
            Rewrite::RewriteN(r) => r.is_identity(),
        }
    }

    /// This rewrite followed by `g`: rewrites of different dimensions do not compose.
    pub fn compose(&self, g: &Self) -> (r: Result<Self, CompositionError>)
        requires
            rewrite_composable(*self, *g),
        ensures
            rewrite_dimension(*self) != rewrite_dimension(*g) ==> r == Err::<Self, CompositionError>(
                CompositionError::Dimension(rewrite_dimension(*self), rewrite_dimension(*g)),
            ),
            match (*self, *g, r) {
                (Rewrite::Rewrite0(f0), Rewrite::Rewrite0(g0), Ok(Rewrite::Rewrite0(c))) => compose0_spec(f0@, g0@)
                    == Ok::<Rewrite0View, CompositionError>(c@),
                (Rewrite::Rewrite0(f0), Rewrite::Rewrite0(g0), Err(e)) => compose0_spec(f0@, g0@)
                    == Err::<Rewrite0View, CompositionError>(e),
                (Rewrite::RewriteN(fnn), Rewrite::RewriteN(gn), Ok(Rewrite::RewriteN(c))) => c.dimension_spec()
                    == fnn.dimension_spec() && c.cone_seq() == compose_from(fnn.cone_seq(), gn.cone_seq(), 0, 0, 0),
                (Rewrite::Rewrite0(_), Rewrite::Rewrite0(_), Ok(Rewrite::RewriteN(_))) => false,
                (Rewrite::RewriteN(_), Rewrite::RewriteN(_), Ok(Rewrite::Rewrite0(_))) => false,
                _ => true,
            },
            match (*self, *g) {
                (Rewrite::RewriteN(fnn), Rewrite::RewriteN(gn)) => fnn.dimension_spec() == gn.dimension_spec()
                    ==> (r matches Ok(Rewrite::RewriteN(c)) && c.dimension_spec() == fnn.dimension_spec()
                    && c.cone_seq() == compose_from(fnn.cone_seq(), gn.cone_seq(), 0, 0, 0)),
                (Rewrite::Rewrite0(f0), Rewrite::Rewrite0(g0)) => (r is Ok <==> compose0_spec(f0@, g0@) is Ok),
                _ => r is Err,
            },
    {
        match (self, g) {
            (Rewrite::Rewrite0(f), Rewrite::Rewrite0(g)) => match f.compose(g) {
                Ok(c) => Ok(Rewrite::Rewrite0(c)),
                Err(e) => Err(e),
            },
            (Rewrite::RewriteN(f), Rewrite::RewriteN(g)) => match f.compose(g) {
                Ok(c) => Ok(Rewrite::RewriteN(c)),
                Err(e) => Err(e),
            },
            (f, g) => Err(CompositionError::Dimension(f.dimension(), g.dimension())),
        }
    }
}


proof fn lemma_compose_from_no_first(g: Seq<Cone>, b: int)
    requires
        0 <= b <= g.len(),
    ensures
        compose_from(Seq::<Cone>::empty(), g, 0, b, 0) == g.subrange(b, g.len() as int),
    decreases g.len() - b,
{
    let f = Seq::<Cone>::empty();
    if b < g.len() {
        lemma_compose_from_no_first(g, b + 1);
        assert(shift(f, 0) == 0);
        assert(merged_cone(f, g, 0, b, 0) == g[b]);
        assert(g.subrange(b, g.len() as int) =~= seq![g[b]] + g.subrange(b + 1, g.len() as int));
    } else {
        assert(g.subrange(b, g.len() as int) =~= Seq::<Cone>::empty());
    }
}

proof fn lemma_compose_from_no_second(f: Seq<Cone>, a: int)
    requires
        0 <= a <= f.len(),
    ensures
        compose_from(f, Seq::<Cone>::empty(), a, 0, 0) == f.subrange(a, f.len() as int),
    decreases f.len() - a,
{
    if a < f.len() {
        lemma_compose_from_no_second(f, a + 1);
        assert(f.subrange(a, f.len() as int) =~= seq![f[a]] + f.subrange(a + 1, f.len() as int));
    } else {
        assert(f.subrange(a, f.len() as int) =~= Seq::<Cone>::empty());
    }
}

/// The rewrite without cones is a unit for composition on either side.
pub proof fn lemma_compose_identity(c: Seq<Cone>)
    ensures
        compose_from(Seq::<Cone>::empty(), c, 0, 0, 0) == c,
        compose_from(c, Seq::<Cone>::empty(), 0, 0, 0) == c,
{
    lemma_compose_from_no_first(c, 0);
    lemma_compose_from_no_second(c, 0);
    assert(c.subrange(0, c.len() as int) =~= c);
}


/// The sum of the first `t` sizes.
pub open spec fn size_prefix(sizes: Seq<usize>, t: int) -> int
    decreases t,
{
    if t <= 0 {
        0
    } else {
        size_prefix(sizes, t - 1) + sizes[t - 1]
    }
}

proof fn lemma_size_prefix_mono(sizes: Seq<usize>, t: int, u: int)
    requires
        0 <= t <= u,
    ensures
        size_prefix(sizes, t) <= size_prefix(sizes, u),
    decreases u - t,
{
    if t < u {
        lemma_size_prefix_mono(sizes, t, u - 1);
    }
}

/// One cone for each target height, taking the given number of source heights each, in
/// order.
pub open spec fn cones_of_sizes(sizes: Seq<usize>) -> Seq<Cone> {
    Seq::new(sizes.len(), |t: int| Cone { index: size_prefix(sizes, t) as usize, len: sizes[t] })
}

/// Cones laid out by sizes are ordered, and the cones before the `t`-th cover its start.
proof fn lemma_cones_of_sizes(sizes: Seq<usize>)
    requires
        size_prefix(sizes, sizes.len() as int) <= usize::MAX,
    ensures
        cones_ordered(cones_of_sizes(sizes)),
        forall|t: int| 0 <= t <= sizes.len() ==> #[trigger] covered(cones_of_sizes(sizes), t) == size_prefix(sizes, t),
{
    let c = cones_of_sizes(sizes);
    assert forall|t: int| 0 <= t <= sizes.len() implies size_prefix(sizes, t) <= usize::MAX by {
        lemma_size_prefix_mono(sizes, t, sizes.len() as int);
    }
    assert forall|k: int, l: int| 0 <= k < l < c.len() implies #[trigger] c[k].index + c[k].len <= #[trigger] c[l].index by {
        lemma_size_prefix_mono(sizes, k + 1, l);
        lemma_size_prefix_mono(sizes, 0, k);
        lemma_size_prefix_mono(sizes, l, sizes.len() as int);
        assert(c[k].index == size_prefix(sizes, k));
        assert(c[l].index == size_prefix(sizes, l));
    }
    assert forall|t: int| 0 <= t <= sizes.len() implies #[trigger] covered(c, t) == size_prefix(sizes, t) by {
        lemma_covered_of_sizes(sizes, t);
    }
}

proof fn lemma_covered_of_sizes(sizes: Seq<usize>, t: int)
    requires
        0 <= t <= sizes.len(),
        size_prefix(sizes, sizes.len() as int) <= usize::MAX,
    ensures
        covered(cones_of_sizes(sizes), t) == size_prefix(sizes, t),
    decreases t,
{
    if t > 0 {
        lemma_covered_of_sizes(sizes, t - 1);
    }
}

/// Each fibre that `cones` finds starts where the search for it began, at or after the end
/// of the one before, and lies within the source.
proof fn lemma_split_bounds(s: Seq<usize>, r: Seq<Split>, k: int)
    requires
        is_cones_of(s, r),
        0 <= k < r.len(),
    ensures
        r[k].source.start <= r[k].source.end <= s.len(),
        k > 0 ==> r[k - 1].source.end <= r[k].source.start,
{
    reveal(search_begin);
    assert(r[k].target == k);
}

/// The number of source heights in each fibre.
pub open spec fn fibre_sizes(r: Seq<Split>) -> Seq<usize> {
    r.map_values(|x: Split| (x.source.end - x.source.start) as usize)
}

impl RewriteN {
    /// The rewrite with one cone over each target height, taking the given numbers of
    /// source heights in order.
    pub fn from_cone_sizes(dimension: usize, sizes: &Vec<usize>) -> (r: Self)
        requires
            dimension != 0,
            size_prefix(sizes@, sizes@.len() as int) <= usize::MAX,
        ensures
            r.dimension_spec() == dimension,
            r.cone_seq() == cones_of_sizes(sizes@),
    {
        let mut cones: Vec<Cone> = Vec::new();
        let mut index: usize = 0;
        let mut target: usize = 0;
        while target < sizes.len()
            invariant
                target <= sizes@.len(),
                size_prefix(sizes@, sizes@.len() as int) <= usize::MAX,
                index == size_prefix(sizes@, target as int),
                cones@ == cones_of_sizes(sizes@).subrange(0, target as int),
            decreases sizes@.len() - target,
        {
            proof {
                lemma_size_prefix_mono(sizes@, target + 1, sizes@.len() as int);
            }
            let size = sizes[target];
            cones.push(Cone { index, len: size });
            index = index + size;
            target = target + 1;
            proof {
                assert(cones@ =~= cones_of_sizes(sizes@).subrange(0, target as int));
            }
        }
        proof {
            assert(cones@ =~= cones_of_sizes(sizes@));
        }
        RewriteN::new(dimension, cones)
    }

    /// The rewrite with one cone over each of the `target_size` target heights, taking the
    /// source heights that `mono` sends there.
    pub fn from_monotone(dimension: usize, mono: &Monotone, target_size: usize) -> (r: Self)
        requires
            dimension != 0,
        ensures
            r.dimension_spec() == dimension,
            exists|splits: Seq<Split>| #![trigger fibre_sizes(splits)]
                splits.len() == target_size && is_cones_of(mono@, splits)
                && r.cone_seq() == cones_of_sizes(fibre_sizes(splits)),
    {
        let splits = mono.cones(target_size);
        let mut sizes: Vec<usize> = Vec::new();
        let mut t: usize = 0;
        while t < splits.len()
            invariant
                t <= splits@.len(),
                is_cones_of(mono@, splits@),
                sizes@ == fibre_sizes(splits@).subrange(0, t as int),
                size_prefix(fibre_sizes(splits@), t as int) <= if t == 0 { 0 } else { splits@[t - 1].source.end as int },
            decreases splits@.len() - t,
        {
            let split = &splits[t];
            proof {
                lemma_split_bounds(mono@, splits@, t as int);
            }
            sizes.push(split.source.end - split.source.start);
            proof {
                assert(sizes@ =~= fibre_sizes(splits@).subrange(0, t + 1));
            }
            t = t + 1;
        }
        proof {
            assert(sizes@ =~= fibre_sizes(splits@));
        }
        Self::from_cone_sizes(dimension, &sizes)
    }
}


/// The sizes of tiling fibres add up to where each fibre starts.
proof fn lemma_fibre_prefix(s: Seq<usize>, r: Seq<Split>, m: int, t: int)
    requires
        r.len() == m,
        m >= 1,
        r[0].source.start == 0,
        forall|k: int| 0 <= k < m - 1 ==> r[k].source.end == #[trigger] r[k + 1].source.start,
        forall|k: int| 0 <= k < m ==> (#[trigger] r[k]).source.start <= r[k].source.end,
        0 <= t < m,
    ensures
        size_prefix(fibre_sizes(r), t) == r[t].source.start,
        size_prefix(fibre_sizes(r), t + 1) == r[t].source.end,
    decreases t,
{
    assert(r[t].source.start <= r[t].source.end);
    assert(fibre_sizes(r)[t] == r[t].source.end - r[t].source.start);
    assert(size_prefix(fibre_sizes(r), t + 1) == size_prefix(fibre_sizes(r), t) + fibre_sizes(r)[t]);
    if t > 0 {
        lemma_fibre_prefix(s, r, m, t - 1);
        assert(r[t - 1].source.end == r[t].source.start);
    }
}

/// The rewrite made from a monotone map sends each singular height where the map does.
pub proof fn lemma_from_monotone_image(s: Seq<usize>, r: Seq<Split>, m: int, i: int)
    requires
        is_monotone(s),
        bounded_by(s, m),
        m >= 1,
        r.len() == m,
        is_cones_of(s, r),
        s.len() <= usize::MAX,
        0 <= i < s.len(),
    ensures
        singular_image_of(cones_of_sizes(fibre_sizes(r)), i) == s[i],
{
    lemma_cones_tile(s, r, m);
    let sizes = fibre_sizes(r);
    assert forall|k: int| 0 <= k < m implies (#[trigger] r[k]).source.start <= r[k].source.end by {
        lemma_split_bounds(s, r, k);
    }
    lemma_fibre_prefix(s, r, m, m - 1);
    lemma_cones_of_sizes(sizes);
    let c = cones_of_sizes(sizes);
    let t = s[i] as int;
    assert(0 <= t < m);
    lemma_fibre_prefix(s, r, m, t);
    assert(r[t].source.start <= i < r[t].source.end);
    lemma_shift_covered(c, t);
    assert(c[t].index == r[t].source.start && c[t].len == r[t].source.end - r[t].source.start);
    lemma_image_in_cone(c, t, i);
}


/// The regular image and the singular image are adjoint: a singular height of the source
/// lies below the regular image of `r` exactly when it goes below `r`.
pub proof fn lemma_regular_singular_galois(c: Seq<Cone>, r: int, i: int)
    requires
        cones_ordered(c),
        0 <= r,
        0 <= i,
    ensures
        i < regular_image_of(c, r) <==> singular_image_of(c, i) < r,
{
    lemma_first_target_at_least(c, r, 0);
    let k = first_target_at_least(c, r, 0);
    let bound = r - shift(c, k);
    if k < c.len() {
        assert(target_of(c, k) >= r);
    }
    if i < bound {
        lemma_image_below(c, k, r, i);
    } else {
        lemma_regular_image_monotone(c, 0, r);
        if k > 0 {
            assert(target_of(c, k - 1) < r);
            assert(shift(c, k) == shift(c, k - 1) + 1 - c[k - 1].len);
        }
        lemma_image_at_least(c, k, bound);
        lemma_singular_image_monotone(c, bound, i);
    }
}

/// Every singular height goes to a height at least zero.
proof fn lemma_image_nonnegative(c: Seq<Cone>, i: int)
    requires
        cones_ordered(c),
        0 <= i,
    ensures
        0 <= singular_image_of(c, i),
{
    lemma_image_at_least(c, 0, 0);
    assert(shift(c, 0) == 0);
    lemma_singular_image_monotone(c, 0, i);
}

/// Composing rewrites composes their regular images the other way round: the composite
/// takes a regular height back where the first rewrite takes the height that the second
/// takes it back to.
pub proof fn lemma_compose_regular_image(f: Seq<Cone>, g: Seq<Cone>, r: int)
    requires
        cones_fit_signed(f),
        cones_fit_signed(g),
        0 <= r,
    ensures
        regular_image_of(compose_from(f, g, 0, 0, 0), r) == regular_image_of(f, regular_image_of(g, r)),
{
    let c = compose_from(f, g, 0, 0, 0);
    lemma_compose_ordered_cones(f, g);
    lemma_regular_image_monotone(c, 0, r);
    lemma_regular_image_monotone(g, 0, r);
    let s = regular_image_of(g, r);
    lemma_regular_image_monotone(f, 0, s);
    let a = regular_image_of(c, r);
    let b = regular_image_of(f, s);
    if a != b {
        let i = if a < b { a } else { b };
        lemma_regular_singular_galois(c, r, i);
        lemma_regular_singular_galois(f, s, i);
        lemma_image_nonnegative(f, i);
        lemma_regular_singular_galois(g, r, singular_image_of(f, i));
        lemma_compose_singular_image(f, g, i);
    }
}

} // verus!
