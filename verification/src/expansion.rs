use vstd::prelude::*;
use crate::common::{DimensionError, Direction};
use crate::typecheck::TypeError;
use crate::diagram::{Cospan, DiagramN, diagram_dimension};
use crate::rewrite::{
    Rewrite,
    Cone,
    RewriteN,
    cones_fit_signed,
    cones_ordered,
    covered,
    shift,
    target_of,
    first_target_at_least,
    regular_image_of,
    lemma_targets_increasing,
    lemma_first_target_at_least,
    lemma_covered_bound,
    lemma_shift_covered,
    singular_image_of,
    first_reaching,
    lemma_image_cases,
    lemma_image_in_cone,
    lemma_image_between,
};

verus! {

/// Why an expansion could not be made.
#[derive(Copy, Clone, Debug, PartialEq, Eq, Structural)]
pub enum ExpansionError {
    WrongLocation,
    RegularSlice,
    OutOfBounds,
    SingleComponent,
    NoComponent,
    Unsmoothable,
    FailedToPropagate,
    IllTyped(TypeError),
    Dimension(DimensionError),
}

/// The first cone, from `from` on, that goes to the singular height `h`, or the number of
/// cones.
pub open spec fn cone_to(c: Seq<Cone>, h: int, from: int) -> int
    decreases c.len() - from,
{
    if from >= c.len() {
        c.len() as int
    } else if target_of(c, from) == h {
        from
    } else {
        cone_to(c, h, from + 1)
    }
}

/// The first cone that goes to the singular height `h`, if any.
pub open spec fn cone_index(c: Seq<Cone>, h: int) -> Option<int> {
    if cone_to(c, h, 0) < c.len() {
        Some(cone_to(c, h, 0))
    } else {
        None
    }
}

/// The heights lost below `h`: over the cones whose targets lie below `h`, their lengths
/// less one each, summed.
pub open spec fn delta_below(c: Seq<Cone>, h: int) -> int {
    covered(c, first_target_at_least(c, h, 0)) - first_target_at_least(c, h, 0)
}

/// The length less one of the cone that goes to `h`, or nothing when there is none.
pub open spec fn offset_at(c: Seq<Cone>, h: int) -> int {
    match cone_index(c, h) {
        Some(i) => c[i].len - 1,
        None => 0,
    }
}

/// The first `n` cones of `b` without the one that goes to `h`, those above it moved by
/// `d`.
pub open spec fn cones_around(b: Seq<Cone>, h: int, d: int, n: int) -> Seq<Cone>
    decreases n,
{
    if n <= 0 {
        Seq::empty()
    } else if target_of(b, n - 1) > h {
        cones_around(b, h, d, n - 1).push(Cone { index: (b[n - 1].index + d) as usize, len: b[n - 1].len })
    } else if target_of(b, n - 1) < h {
        cones_around(b, h, d, n - 1).push(b[n - 1])
    } else {
        cones_around(b, h, d, n - 1)
    }
}

/// The cones of `b` without the `i`-th, those after it moved down by `off`.
pub open spec fn cones_without(b: Seq<Cone>, i: int, off: int) -> Seq<Cone> {
    Seq::new(
        (b.len() - 1) as nat,
        |j: int|
            if j < i {
                b[j]
            } else {
                Cone { index: (b[j + 1].index - off) as usize, len: b[j + 1].len }
            },
    )
}

/// Counting from the last cone down, the first whose target lies above `h`, or the number
/// of cones.
pub open spec fn last_above(c: Seq<Cone>, h: int, r: int) -> int
    decreases c.len() - r,
{
    if r >= c.len() {
        c.len() as int
    } else if target_of(c, c.len() - 1 - r) > h {
        r
    } else {
        last_above(c, h, r + 1)
    }
}

/// The position of the first cone with target `h`, as `cone_to` finds it.
fn position_of(targets: &Vec<usize>, h: usize, Ghost(c): Ghost<Seq<Cone>>) -> (r: Option<usize>)
    requires
        targets@.len() == c.len(),
        forall|k: int| 0 <= k < c.len() ==> #[trigger] targets@[k] == target_of(c, k),
    ensures
        r matches Some(i) ==> cone_index(c, h as int) == Some(i as int),
        r is None ==> cone_index(c, h as int) is None,
{
    let mut i: usize = 0;
    while i < targets.len()
        invariant
            i <= targets@.len(),
            targets@.len() == c.len(),
            forall|k: int| 0 <= k < c.len() ==> #[trigger] targets@[k] == target_of(c, k),
            cone_to(c, h as int, i as int) == cone_to(c, h as int, 0),
        decreases targets@.len() - i,
    {
        if targets[i] == h {
            return Some(i);
        }
        i = i + 1;
    }
    None
}

proof fn lemma_cone_to(c: Seq<Cone>, h: int, from: int)
    requires
        0 <= from <= c.len(),
    ensures
        from <= cone_to(c, h, from) <= c.len(),
        forall|k: int| from <= k < cone_to(c, h, from) ==> target_of(c, k) != h,
        cone_to(c, h, from) < c.len() ==> target_of(c, cone_to(c, h, from)) == h,
    decreases c.len() - from,
{
    if from < c.len() && target_of(c, from) != h {
        lemma_cone_to(c, h, from + 1);
    }
}

/// Each cone's target is at least its position.
proof fn lemma_target_at_least_position(c: Seq<Cone>, k: int)
    requires
        cones_ordered(c),
        0 <= k < c.len(),
    ensures
        target_of(c, k) >= k,
    decreases k,
{
    if k > 0 {
        lemma_target_at_least_position(c, k - 1);
        lemma_targets_increasing(c, k - 1, k);
    }
}

/// For ordered cones, the cone that goes to `h` is the first whose target is at least `h`,
/// and when none goes there, no target is `h`.
proof fn lemma_cone_index(c: Seq<Cone>, h: int)
    requires
        cones_ordered(c),
    ensures
        cone_index(c, h) matches Some(i) ==> first_target_at_least(c, h, 0) == i && target_of(c, i) == h
            && 0 <= i < c.len(),
        cone_index(c, h) is None ==> forall|k: int| 0 <= k < c.len() ==> target_of(c, k) != h,
        first_target_at_least(c, h, 0) <= c.len(),
        forall|k: int| 0 <= k < first_target_at_least(c, h, 0) ==> target_of(c, k) < h,
{
    lemma_cone_to(c, h, 0);
    lemma_first_target_at_least(c, h, 0);
    let i = cone_to(c, h, 0);
    let kf = first_target_at_least(c, h, 0);
    if i < c.len() {
        if kf < i {
            lemma_targets_increasing(c, kf, i);
        }
        if i < kf {
            assert(target_of(c, i) < h);
        }
    }
}

/// A cone after the `b`-th starts at or after the end of the `b`-th.
proof fn lemma_after_cone(c: Seq<Cone>, b: int, j: int)
    requires
        cones_ordered(c),
        0 <= b < j < c.len(),
    ensures
        c[j].index >= c[b].index + c[b].len,
{
    assert(c[b].index + c[b].len <= c[j].index);
}

/// When no cone goes to `h`, a cone whose target lies above `h` starts above 0.
proof fn lemma_above_starts_late(c: Seq<Cone>, h: int, j: int)
    requires
        cones_ordered(c),
        0 <= h,
        0 <= j < c.len(),
        target_of(c, j) > h,
        forall|k: int| 0 <= k < c.len() ==> target_of(c, k) != h,
    ensures
        c[j].index >= 1,
{
    if c[j].index == 0 {
        assert forall|k: int| 0 <= k <= j implies target_of(c, k) == k by {
            lemma_zero_prefix(c, j, k);
        }
        assert(h < j);
        assert(target_of(c, h) == h);
    }
}

proof fn lemma_zero_prefix(c: Seq<Cone>, j: int, k: int)
    requires
        cones_ordered(c),
        0 <= k <= j < c.len(),
        c[j].index == 0,
    ensures
        shift(c, k) == k,
        target_of(c, k) == k,
    decreases k,
{
    if k > 0 {
        lemma_zero_prefix(c, j, k - 1);
        assert(c[k - 1].index + c[k - 1].len <= c[j].index);
    }
    if k < j {
        assert(c[k].index + c[k].len <= c[j].index);
    }
}

/// The cones below `h`: how many there are, and how many heights they cover.
fn cones_below(cones: &Vec<Cone>, targets: &Vec<usize>, h: usize) -> (r: (usize, usize))
    requires
        cones_fit_signed(cones@),
        targets@.len() == cones@.len(),
        forall|k: int| 0 <= k < cones@.len() ==> #[trigger] targets@[k] == target_of(cones@, k),
    ensures
        r.0 == first_target_at_least(cones@, h as int, 0),
        r.1 == covered(cones@, r.0 as int),
{
    let ghost c = cones@;
    let mut k: usize = 0;
    let mut cov: usize = 0;
    proof {
        lemma_first_target_at_least(c, h as int, 0);
    }
    while k < targets.len() && targets[k] < h
        invariant
            c == cones@,
            cones_fit_signed(c),
            k <= c.len(),
            targets@.len() == c.len(),
            forall|q: int| 0 <= q < c.len() ==> #[trigger] targets@[q] == target_of(c, q),
            first_target_at_least(c, h as int, k as int) == first_target_at_least(c, h as int, 0),
            cov == covered(c, k as int),
        decreases c.len() - k,
    {
        proof {
            lemma_covered_bound(c, k as int + 1);
            assert(c[k as int].index + c[k as int].len <= isize::MAX);
        }
        cov = cov + cones[k].len;
        k = k + 1;
    }
    (k, cov)
}

fn copy_cones(v: &Vec<Cone>) -> (r: Vec<Cone>)
    ensures
        r@ == v@,
{
    let mut r: Vec<Cone> = Vec::new();
    let mut i: usize = 0;
    while i < v.len()
        invariant
            i <= v@.len(),
            r@ == v@.subrange(0, i as int),
        decreases v@.len() - i,
    {
        r.push(v[i]);
        i = i + 1;
        assert(r@ =~= v@.subrange(0, i as int));
    }
    assert(r@ =~= v@);
    r
}

proof fn lemma_cones_around_len(b: Seq<Cone>, h: int, d: int, n: int)
    requires
        cones_ordered(b),
        0 <= n <= b.len(),
    ensures
        cones_around(b, h, d, n).len() == n - (if cone_index(b, h) matches Some(i) && i < n {
            1int
        } else {
            0int
        }),
    decreases n,
{
    lemma_cone_index(b, h);
    if n > 0 {
        lemma_cones_around_len(b, h, d, n - 1);
        if let Some(i) = cone_index(b, h) {
            if n - 1 != i && target_of(b, n - 1) == h {
                if n - 1 < i {
                    lemma_targets_increasing(b, n - 1, i);
                } else {
                    lemma_targets_increasing(b, i, n - 1);
                }
            }
        }
    }
}

proof fn lemma_last_above(c: Seq<Cone>, h: int, r: int)
    requires
        0 <= r <= c.len(),
    ensures
        r <= last_above(c, h, r) <= c.len(),
    decreases c.len() - r,
{
    if r < c.len() && target_of(c, c.len() - 1 - r) <= h {
        lemma_last_above(c, h, r + 1);
    }
}

/// The cones of `b` around the one that goes to `h`, as `cones_around` lists them, with
/// the cones above `h` moved by `fo1 - bo1`.
fn cones_around_of(bc: &Vec<Cone>, bt: &Vec<usize>, h: usize, fo1: usize, bo1: usize) -> (r: Vec<Cone>)
    requires
        bt@.len() == bc@.len(),
        forall|k: int| 0 <= k < bc@.len() ==> #[trigger] bt@[k] == target_of(bc@, k),
        cones_fit_signed(bc@),
        fo1 <= isize::MAX,
        forall|k: int| 0 <= k < bc@.len() && target_of(bc@, k) > h ==> bo1 <= (#[trigger] bc@[k]).index,
    ensures
        r@ == cones_around(bc@, h as int, fo1 - bo1, bc@.len() as int),
{
    let mut r: Vec<Cone> = Vec::new();
    let mut j: usize = 0;
    while j < bc.len()
        invariant
            j <= bc@.len(),
            bt@.len() == bc@.len(),
            forall|k: int| 0 <= k < bc@.len() ==> #[trigger] bt@[k] == target_of(bc@, k),
            cones_fit_signed(bc@),
            fo1 <= isize::MAX,
            forall|k: int| 0 <= k < bc@.len() && target_of(bc@, k) > h ==> bo1 <= (#[trigger] bc@[k]).index,
            r@ == cones_around(bc@, h as int, fo1 - bo1, j as int),
        decreases bc@.len() - j,
    {
        let c = bc[j];
        if bt[j] > h {
            proof {
                assert(bo1 <= bc@[j as int].index);
                assert(c.index + c.len <= isize::MAX);
            }
            r.push(Cone { index: c.index - bo1 + fo1, len: c.len });
        } else if bt[j] < h {
            r.push(c);
        }
        j = j + 1;
    }
    r
}

/// The cones of `b` without the `i`-th, those after it moved down by its length less one.
fn cones_without_of(bc: &Vec<Cone>, i: usize) -> (r: Vec<Cone>)
    requires
        i < bc@.len(),
        cones_fit_signed(bc@),
    ensures
        r@ == cones_without(bc@, i as int, bc@[i as int].len - 1),
{
    let bo1 = bc[i].len;
    let mut r: Vec<Cone> = Vec::new();
    let mut j: usize = 0;
    while j < bc.len() - 1
        invariant
            i < bc@.len(),
            cones_fit_signed(bc@),
            bo1 == bc@[i as int].len,
            j <= bc@.len() - 1,
            r@ == cones_without(bc@, i as int, bo1 - 1).subrange(0, j as int),
        decreases bc@.len() - j,
    {
        if j < i {
            r.push(bc[j]);
        } else {
            let c = bc[j + 1];
            proof {
                lemma_after_cone(bc@, i as int, j + 1);
                assert(c.index + c.len <= isize::MAX);
            }
            r.push(Cone { index: c.index - bo1 + 1, len: c.len });
        }
        j = j + 1;
        assert(r@ =~= cones_without(bc@, i as int, bo1 - 1).subrange(0, j as int));
    }
    assert(r@ =~= cones_without(bc@, i as int, bo1 - 1));
    r
}

/// Counting from the last target down, the first above `h`, as `last_above` finds it.
fn last_above_of(bt: &Vec<usize>, h: usize, Ghost(c): Ghost<Seq<Cone>>) -> (r: usize)
    requires
        bt@.len() == c.len(),
        forall|k: int| 0 <= k < c.len() ==> #[trigger] bt@[k] == target_of(c, k),
    ensures
        r == last_above(c, h as int, 0),
{
    let n = bt.len();
    let mut r: usize = 0;
    while r < n && bt[n - 1 - r] <= h
        invariant
            n == c.len(),
            r <= n,
            bt@.len() == c.len(),
            forall|k: int| 0 <= k < c.len() ==> #[trigger] bt@[k] == target_of(c, k),
            last_above(c, h as int, r as int) == last_above(c, h as int, 0),
        decreases n - r,
    {
        r = r + 1;
    }
    r
}

/// What expanding a cospan at a singular height gives: the cospan below
/// (`forward0`, `backward0`), the cospan above (`forward1`, `backward1`), the regular
/// slice between them, and the singular slices of the two new singular heights.
pub struct ExpandedCospan {
    pub forward0: RewriteN,
    pub backward0: RewriteN,
    pub forward1: RewriteN,
    pub backward1: RewriteN,
    pub regular_slice: RewriteN,
    pub singular_slice0: RewriteN,
    pub singular_slice1: RewriteN,
}

/// There is a single component to expand: one cone in all, or one cone on each side, both
/// going to `h`.
pub open spec fn single_component(f: Seq<Cone>, b: Seq<Cone>, h: int) -> bool {
    f.len() + b.len() == 1 || (f.len() == 1 && b.len() == 1 && cone_index(f, h) is Some && cone_index(
        b,
        h,
    ) is Some)
}

/// The forward rewrite below: `f` without its cone to `h`.
pub open spec fn forward0_cones(f: Seq<Cone>, h: int) -> Seq<Cone> {
    match cone_index(f, h) {
        Some(i) => f.remove(i),
        None => f,
    }
}

/// The backward rewrite below: `b` without its cone to `h`, the cones above `h` moved by
/// the difference of the two offsets.
pub open spec fn backward0_cones(f: Seq<Cone>, b: Seq<Cone>, h: int) -> Seq<Cone> {
    cones_around(b, h, offset_at(f, h) - offset_at(b, h), b.len() as int)
}

/// The forward rewrite above: the cone of `f` to `h`, placed at the regular height of `b`'s
/// source that lies under `h`.
pub open spec fn forward1_cones(f: Seq<Cone>, b: Seq<Cone>, h: int) -> Seq<Cone> {
    match cone_index(f, h) {
        Some(i) => seq![Cone { index: regular_image_of(b, h) as usize, len: f[i].len }],
        None => Seq::empty(),
    }
}

/// The backward rewrite above: the cone of `b` to `h`.
pub open spec fn backward1_cones(b: Seq<Cone>, h: int) -> Seq<Cone> {
    match cone_index(b, h) {
        Some(i) => seq![b[i]],
        None => Seq::empty(),
    }
}

/// The first singular slice: the cone of `f` to `h`, starting at `h`.
pub open spec fn singular0_cones(f: Seq<Cone>, h: int) -> Seq<Cone> {
    match cone_index(f, h) {
        Some(i) => seq![Cone { index: h as usize, len: f[i].len }],
        None => Seq::empty(),
    }
}

/// The second singular slice: `b` without its cone to `h`, the later cones moved down by
/// its length less one.
pub open spec fn singular1_cones(b: Seq<Cone>, h: int) -> Seq<Cone> {
    match cone_index(b, h) {
        Some(i) => cones_without(b, i, b[i].len - 1),
        None => b,
    }
}

/// The regular slice: the backward rewrite below, with the cone of the forward rewrite above
/// inserted where `b`'s cone to `h` was, or, when there was none, at the count from the end
/// of the first target above `h`.
pub open spec fn regular_cones(f: Seq<Cone>, b: Seq<Cone>, h: int) -> Seq<Cone> {
    match cone_index(f, h) {
        Some(_) => backward0_cones(f, b, h).insert(
            match cone_index(b, h) {
                Some(i) => i,
                None => last_above(b, h, 0),
            },
            forward1_cones(f, b, h)[0],
        ),
        None => backward0_cones(f, b, h),
    }
}

/// `x` is the expansion of the cospan with cones `f` and `b` at `h`, all of dimension `d`.
pub open spec fn is_expansion(f: Seq<Cone>, b: Seq<Cone>, h: int, d: usize, x: ExpandedCospan) -> bool {
    &&& x.forward0.cone_seq() == forward0_cones(f, h)
    &&& x.backward0.cone_seq() == backward0_cones(f, b, h)
    &&& x.forward1.cone_seq() == forward1_cones(f, b, h)
    &&& x.backward1.cone_seq() == backward1_cones(b, h)
    &&& x.regular_slice.cone_seq() == regular_cones(f, b, h)
    &&& x.singular_slice0.cone_seq() == singular0_cones(f, h)
    &&& x.singular_slice1.cone_seq() == singular1_cones(b, h)
    &&& x.forward0.dimension_spec() == d
    &&& x.backward0.dimension_spec() == d
    &&& x.forward1.dimension_spec() == d
    &&& x.backward1.dimension_spec() == d
    &&& x.regular_slice.dimension_spec() == d
    &&& x.singular_slice0.dimension_spec() == d
    &&& x.singular_slice1.dimension_spec() == d
}

/// `i` is where `cone_index` finds a cone.
pub open spec fn found(i: Option<usize>, ci: Option<int>) -> bool {
    match i {
        Some(k) => ci == Some(k as int),
        None => ci is None,
    }
}

fn forward0_of(fc: &Vec<Cone>, fi: Option<usize>, Ghost(h): Ghost<int>) -> (r: Vec<Cone>)
    requires
        found(fi, cone_index(fc@, h)),
        cone_index(fc@, h) matches Some(i) ==> 0 <= i < fc@.len(),
    ensures
        r@ == forward0_cones(fc@, h),
{
    let mut f0 = copy_cones(fc);
    match fi {
        Some(i) => {
            f0.remove(i);
        },
        None => {},
    }
    f0
}

fn backward0_of(
    fc: &Vec<Cone>,
    bc: &Vec<Cone>,
    bt: &Vec<usize>,
    h: usize,
    fi: Option<usize>,
    bi: Option<usize>,
) -> (r: Vec<Cone>)
    requires
        cones_fit_signed(fc@),
        cones_fit_signed(bc@),
        bt@.len() == bc@.len(),
        forall|k: int| 0 <= k < bc@.len() ==> #[trigger] bt@[k] == target_of(bc@, k),
        found(fi, cone_index(fc@, h as int)),
        found(bi, cone_index(bc@, h as int)),
    ensures
        r@ == backward0_cones(fc@, bc@, h as int),
{
    let ghost b = bc@;
    proof {
        lemma_cone_index(fc@, h as int);
        lemma_cone_index(b, h as int);
    }
    let fo1: usize = match fi {
        Some(i) => fc[i].len,
        None => 1,
    };
    let bo1: usize = match bi {
        Some(i) => bc[i].len,
        None => 1,
    };
    proof {
        if fi is Some {
            assert(fc@[fi->0 as int].index + fc@[fi->0 as int].len <= isize::MAX);
        }
        assert forall|k: int| 0 <= k < b.len() && target_of(b, k) > h implies bo1 <= (#[trigger] b[k]).index by {
            match bi {
                Some(i) => {
                    if k < i {
                        lemma_targets_increasing(b, k, i as int);
                    }
                    lemma_after_cone(b, i as int, k);
                },
                None => {
                    lemma_above_starts_late(b, h as int, k);
                },
            }
        }
        assert(fo1 - bo1 == offset_at(fc@, h as int) - offset_at(b, h as int));
    }
    cones_around_of(bc, bt, h, fo1, bo1)
}

fn above_of(fc: &Vec<Cone>, bc: &Vec<Cone>, bt: &Vec<usize>, h: usize, fi: Option<usize>) -> (r: (
    Vec<Cone>,
    Vec<Cone>,
))
    requires
        cones_fit_signed(fc@),
        cones_fit_signed(bc@),
        h <= isize::MAX,
        bt@.len() == bc@.len(),
        forall|k: int| 0 <= k < bc@.len() ==> #[trigger] bt@[k] == target_of(bc@, k),
        found(fi, cone_index(fc@, h as int)),
    ensures
        r.0@ == forward1_cones(fc@, bc@, h as int),
        r.1@ == singular0_cones(fc@, h as int),
{
    let ghost b = bc@;
    proof {
        lemma_cone_index(fc@, h as int);
    }
    let mut f1: Vec<Cone> = Vec::new();
    let mut s0: Vec<Cone> = Vec::new();
    match fi {
        Some(i) => {
            let (kb, covb) = cones_below(bc, bt, h);
            proof {
                lemma_cone_index(b, h as int);
                lemma_shift_covered(b, kb as int);
                if kb > 0 {
                    lemma_target_at_least_position(b, kb - 1);
                    lemma_covered_bound(b, kb as int);
                }
            }
            f1.push(Cone { index: h - kb + covb, len: fc[i].len });
            s0.push(Cone { index: h, len: fc[i].len });
        },
        None => {},
    }
    (f1, s0)
}

fn backward1_of(bc: &Vec<Cone>, bi: Option<usize>, Ghost(h): Ghost<int>) -> (r: Vec<Cone>)
    requires
        found(bi, cone_index(bc@, h)),
        cone_index(bc@, h) matches Some(i) ==> 0 <= i < bc@.len(),
    ensures
        r@ == backward1_cones(bc@, h),
{
    let mut b1: Vec<Cone> = Vec::new();
    match bi {
        Some(i) => {
            b1.push(bc[i]);
        },
        None => {},
    }
    b1
}

fn singular1_of(bc: &Vec<Cone>, bi: Option<usize>, Ghost(h): Ghost<int>) -> (r: Vec<Cone>)
    requires
        cones_fit_signed(bc@),
        found(bi, cone_index(bc@, h)),
        cone_index(bc@, h) matches Some(i) ==> 0 <= i < bc@.len(),
    ensures
        r@ == singular1_cones(bc@, h),
{
    match bi {
        Some(i) => cones_without_of(bc, i),
        None => copy_cones(bc),
    }
}

fn regular_of(
    b0: &Vec<Cone>,
    f1: &Vec<Cone>,
    bt: &Vec<usize>,
    h: usize,
    bi: Option<usize>,
    Ghost(f): Ghost<Seq<Cone>>,
    Ghost(b): Ghost<Seq<Cone>>,
) -> (r: Vec<Cone>)
    requires
        cones_fit_signed(f),
        cones_fit_signed(b),
        bt@.len() == b.len(),
        forall|k: int| 0 <= k < b.len() ==> #[trigger] bt@[k] == target_of(b, k),
        found(bi, cone_index(b, h as int)),
        b0@ == backward0_cones(f, b, h as int),
        f1@ == forward1_cones(f, b, h as int),
    ensures
        r@ == regular_cones(f, b, h as int),
{
    proof {
        lemma_cone_index(f, h as int);
        lemma_cone_index(b, h as int);
    }
    let mut reg = copy_cones(b0);
    if f1.len() > 0 {
        let index = match bi {
            Some(i) => i,
            None => last_above_of(bt, h, Ghost(b)),
        };
        proof {
            lemma_cones_around_len(b, h as int, offset_at(f, h as int) - offset_at(b, h as int), b.len() as int);
            lemma_last_above(b, h as int, 0);
        }
        reg.insert(index, f1[0]);
    }
    reg
}

/// Expands the cospan `forward`, `backward` at the singular height `height` into two
/// cospans, one for the cones that go to `height` and one for the rest. Fails when no cone
/// goes there, or when there is only a single component.
pub fn expand_cospan(height: usize, forward: &RewriteN, backward: &RewriteN) -> (r: Result<
    ExpandedCospan,
    ExpansionError,
>)
    requires
        forward.dimension_spec() == backward.dimension_spec(),
        forward.dimension_spec() != 0,
        cones_fit_signed(forward.cone_seq()),
        cones_fit_signed(backward.cone_seq()),
        height <= isize::MAX,
    ensures
        cone_index(forward.cone_seq(), height as int) is None && cone_index(backward.cone_seq(), height as int)
            is None ==> (r matches Err(e) && e == ExpansionError::NoComponent),
        !(cone_index(forward.cone_seq(), height as int) is None && cone_index(
            backward.cone_seq(),
            height as int,
        ) is None) && single_component(forward.cone_seq(), backward.cone_seq(), height as int) ==> (r matches Err(e)
            && e == ExpansionError::SingleComponent),
        !(cone_index(forward.cone_seq(), height as int) is None && cone_index(
            backward.cone_seq(),
            height as int,
        ) is None) && !single_component(forward.cone_seq(), backward.cone_seq(), height as int) ==> (r matches Ok(x)
            && is_expansion(forward.cone_seq(), backward.cone_seq(), height as int, forward.dimension_spec(), x)),
{
    let ghost f = forward.cone_seq();
    let ghost b = backward.cone_seq();
    let h = height;
    let dim = forward.dimension();
    let fc = forward.cones();
    let bc = backward.cones();
    let ft = forward.targets();
    let bt = backward.targets();
    let fi = position_of(&ft, h, Ghost(f));
    let bi = position_of(&bt, h, Ghost(b));
    proof {
        lemma_cone_index(f, h as int);
        lemma_cone_index(b, h as int);
    }
    if fi.is_none() && bi.is_none() {
        return Err(ExpansionError::NoComponent);
    }
    if ft.len() + bt.len() == 1 || (ft.len() == 1 && bt.len() == 1 && fi.is_some() && bi.is_some()) {
        return Err(ExpansionError::SingleComponent);
    }
    let f0 = forward0_of(fc, fi, Ghost(h as int));
    let b0 = backward0_of(fc, bc, &bt, h, fi, bi);
    let (f1, s0) = above_of(fc, bc, &bt, h, fi);
    let b1 = backward1_of(bc, bi, Ghost(h as int));
    let s1 = singular1_of(bc, bi, Ghost(h as int));
    let reg = regular_of(&b0, &f1, &bt, h, bi, Ghost(f), Ghost(b));
    Ok(
        ExpandedCospan {
            forward0: RewriteN::new(dim, f0),
            backward0: RewriteN::new(dim, b0),
            forward1: RewriteN::new(dim, f1),
            backward1: RewriteN::new(dim, b1),
            regular_slice: RewriteN::new(dim, reg),
            singular_slice0: RewriteN::new(dim, s0),
            singular_slice1: RewriteN::new(dim, s1),
        },
    )
}

/// The legs of every cospan of `d` that are rewrites of positive dimension have ordered
/// cones that fit in a signed word and a common positive dimension, and the dimension of
/// `d` fits in a `usize`.
pub open spec fn cospans_fit(d: DiagramN) -> bool {
    &&& diagram_dimension(*d.source_spec()) < usize::MAX
    &&& forall|i: int|
        0 <= i < d.cospan_seq().len() ==> {
            &&& ((#[trigger] d.cospan_seq()[i]).forward matches Rewrite::RewriteN(f) ==> cones_fit_signed(
                f.cone_seq(),
            ) && f.dimension_spec() != 0)
            &&& (d.cospan_seq()[i].backward matches Rewrite::RewriteN(b) ==> cones_fit_signed(b.cone_seq())
                && b.dimension_spec() != 0)
            &&& (d.cospan_seq()[i].forward matches Rewrite::RewriteN(f) ==> (d.cospan_seq()[i].backward matches Rewrite::RewriteN(b)
                ==> f.dimension_spec() == b.dimension_spec()))
        }
}

/// Expands the singular height `h0` of `d`, splitting its cospan at the singular height
/// `h1` of its slice: gives the rewrite into `d` with one cone at `h0` over the two new
/// cospans, and the expanded cospan. Going backward expands the cospan read from its
/// target side. Fails when `h0` is outside `d`, when a leg of its cospan is a 0-rewrite, or
/// when the cospan cannot be expanded at `h1`.
pub fn expand_base_singular(d: &DiagramN, h0: usize, h1: usize, direction: Direction) -> (r: Result<
    (RewriteN, ExpandedCospan),
    ExpansionError,
>)
    requires
        cospans_fit(*d),
        h1 <= isize::MAX,
    ensures
        h0 >= d.cospan_seq().len() ==> (r matches Err(e) && e == ExpansionError::OutOfBounds),
        h0 < d.cospan_seq().len() && !(d.cospan_seq()[h0 as int].forward is RewriteN && d.cospan_seq()[h0 as int].backward is RewriteN)
            ==> (r matches Err(e) && e == ExpansionError::Dimension(DimensionError)),
        h0 < d.cospan_seq().len() ==> (d.cospan_seq()[h0 as int].forward matches Rewrite::RewriteN(f) ==> (
        d.cospan_seq()[h0 as int].backward matches Rewrite::RewriteN(b) ==> {
            let (lo, hi) = match direction {
                Direction::Forward => (f.cone_seq(), b.cone_seq()),
                Direction::Backward => (b.cone_seq(), f.cone_seq()),
            };
            let none = cone_index(lo, h1 as int) is None && cone_index(hi, h1 as int) is None;
            &&& none ==> (r matches Err(e) && e == ExpansionError::NoComponent)
            &&& !none && single_component(lo, hi, h1 as int) ==> (r matches Err(e) && e == ExpansionError::SingleComponent)
            &&& !none && !single_component(lo, hi, h1 as int) ==> (r matches Ok(x) && {
                &&& x.0.cone_seq() == seq![Cone { index: h0, len: 2 }]
                &&& x.0.dimension_spec() == diagram_dimension(*d.source_spec()) + 1
                &&& is_expansion(lo, hi, h1 as int, f.dimension_spec(), x.1)
            })
        })),
{
    let cospans = d.cospans();
    if h0 >= cospans.len() {
        return Err(ExpansionError::OutOfBounds);
    }
    let cospan: &Cospan = &cospans[h0];
    let forward = match &cospan.forward {
        Rewrite::RewriteN(f) => f,
        Rewrite::Rewrite0(_) => {
            return Err(ExpansionError::Dimension(DimensionError));
        },
    };
    let backward = match &cospan.backward {
        Rewrite::RewriteN(b) => b,
        Rewrite::Rewrite0(_) => {
            return Err(ExpansionError::Dimension(DimensionError));
        },
    };
    proof {
        assert(d.cospan_seq()[h0 as int] == *cospan);
    }
    let expansion = match direction {
        Direction::Forward => expand_cospan(h1, forward, backward),
        Direction::Backward => expand_cospan(h1, backward, forward),
    };
    match expansion {
        Ok(x) => {
            let dim = d.dimension();
            Ok((RewriteN::new(dim, vec![Cone { index: h0, len: 2 }]), x))
        },
        Err(e) => Err(e),
    }
}

proof fn lemma_shift_removed(f: Seq<Cone>, i: int, k: int)
    requires
        0 <= i < f.len(),
        0 <= k <= f.len() - 1,
    ensures
        k <= i ==> shift(f.remove(i), k) == shift(f, k),
        k >= i ==> shift(f.remove(i), k) == shift(f, k + 1) - 1 + f[i].len,
    decreases k,
{
    let g = f.remove(i);
    assert(shift(f, k + 1) == shift(f, k) + 1 - f[k].len);
    if k > 0 {
        lemma_shift_removed(f, i, k - 1);
        assert(shift(g, k) == shift(g, k - 1) + 1 - g[k - 1].len);
        if k - 1 < i {
            assert(g[k - 1] == f[k - 1]);
        } else {
            assert(g[k - 1] == f[k]);
        }
    }
}

/// Singular images are never negative.
proof fn lemma_image_nonneg(c: Seq<Cone>, x: int)
    requires
        cones_ordered(c),
        0 <= x,
    ensures
        singular_image_of(c, x) >= 0,
{
    lemma_image_cases(c, x);
    let a = first_reaching(c, x, 0);
    if a < c.len() && c[a].index <= x {
        lemma_target_at_least_position(c, a);
    } else {
        lemma_shift_covered(c, a);
        if a > 0 {
            lemma_covered_bound(c, a);
        }
    }
}

/// The cones of `f` without the `i`-th are ordered.
proof fn lemma_removed_ordered(f: Seq<Cone>, i: int)
    requires
        cones_ordered(f),
        0 <= i < f.len(),
    ensures
        cones_ordered(f.remove(i)),
{
    let g = f.remove(i);
    assert forall|k: int, l: int|
        #![trigger g[k], g[l]]
        0 <= k < l < g.len() implies g[k].index + g[k].len <= g[l].index by {
        let k2 = if k < i { k } else { k + 1 };
        let l2 = if l < i { l } else { l + 1 };
        assert(g[k] == f[k2] && g[l] == f[l2]);
        assert(f[k2].index + f[k2].len <= f[l2].index);
    }
}

/// The factoring for a height inside a cone of `f`.
proof fn lemma_factors_in_cone(f: Seq<Cone>, i: int, h: int, x: int, a: int)
    requires
        cones_ordered(f),
        0 <= i < f.len(),
        target_of(f, i) == h,
        0 <= h <= isize::MAX,
        0 <= a < f.len(),
        f[a].index <= x < f[a].index + f[a].len,
    ensures
        singular_image_of(seq![Cone { index: h as usize, len: f[i].len }], singular_image_of(f.remove(i), x))
            == target_of(f, a),
{
    let g = f.remove(i);
    let ln = f[i].len as int;
    let s = seq![Cone { index: h as usize, len: f[i].len }];
    lemma_removed_ordered(f, i);
    assert(target_of(s, 0) == h);
    lemma_shift_removed(f, i, i);
    if a < i {
        lemma_shift_removed(f, i, a);
        assert(g[a] == f[a]);
        lemma_image_in_cone(g, a, x);
        lemma_targets_increasing(f, a, i);
        lemma_target_at_least_position(f, a);
        lemma_image_between(s, 0, target_of(f, a));
    } else if a == i {
        if i > 0 {
            assert(g[i - 1] == f[i - 1]);
            assert(f[i - 1].index + f[i - 1].len <= f[i].index);
        }
        if i < g.len() {
            assert(g[i] == f[i + 1]);
            assert(f[i].index + f[i].len <= f[i + 1].index);
        }
        lemma_image_between(g, i, x);
        lemma_image_in_cone(s, 0, x + shift(f, i));
    } else {
        lemma_shift_removed(f, i, a - 1);
        assert(g[a - 1] == f[a]);
        lemma_image_in_cone(g, a - 1, x);
        lemma_targets_increasing(f, i, a);
        assert(shift(s, 1) == 1 - ln);
        lemma_image_between(s, 1, target_of(f, a) - 1 + ln);
    }
}

/// The factoring for a height between the cones `a - 1` and `a` of `f`.
proof fn lemma_factors_between(f: Seq<Cone>, i: int, h: int, x: int, a: int)
    requires
        cones_ordered(f),
        0 <= i < f.len(),
        target_of(f, i) == h,
        0 <= h <= isize::MAX,
        0 <= a <= f.len(),
        0 <= x,
        a > 0 ==> f[a - 1].index + f[a - 1].len <= x,
        a < f.len() ==> x < f[a].index,
    ensures
        singular_image_of(seq![Cone { index: h as usize, len: f[i].len }], singular_image_of(f.remove(i), x))
            == x + shift(f, a),
{
    let g = f.remove(i);
    let ln = f[i].len as int;
    let s = seq![Cone { index: h as usize, len: f[i].len }];
    lemma_removed_ordered(f, i);
    assert(target_of(s, 0) == h);
    lemma_image_between(f, a, x);
    lemma_image_nonneg(f, x);
    if a <= i {
        lemma_shift_removed(f, i, a);
        if a > 0 {
            assert(g[a - 1] == f[a - 1]);
        }
        if a < g.len() {
            if a < i {
                assert(g[a] == f[a]);
            } else {
                assert(g[a] == f[a + 1]);
                assert(f[a].index + f[a].len <= f[a + 1].index);
            }
        }
        lemma_image_between(g, a, x);
        lemma_image_cases(f, x);
        lemma_first_reaching_is(f, x, a);
        if a < i {
            lemma_targets_increasing(f, a, i);
        }
        lemma_image_between(s, 0, x + shift(f, a));
    } else {
        lemma_shift_removed(f, i, a - 1);
        if a - 1 > 0 {
            if a - 2 < i {
                assert(g[a - 2] == f[a - 2]);
                assert(f[a - 2].index + f[a - 2].len <= f[i].index);
                assert(f[i].index + f[i].len <= f[a - 1].index + f[a - 1].len);
            } else {
                assert(g[a - 2] == f[a - 1]);
            }
        }
        if a - 1 < g.len() {
            assert(g[a - 1] == f[a]);
        }
        lemma_image_between(g, a - 1, x);
        lemma_image_cases(f, x);
        lemma_first_reaching_is(f, x, a);
        if a - 1 > i {
            lemma_targets_increasing(f, i, a - 1);
        }
        assert(shift(s, 1) == 1 - ln);
        lemma_image_between(s, 1, x + shift(f, a) - 1 + ln);
    }
}

/// A height between the cones `a - 1` and `a` is reached first by the cone `a`.
proof fn lemma_first_reaching_is(f: Seq<Cone>, x: int, a: int)
    requires
        cones_ordered(f),
        0 <= a <= f.len(),
        a > 0 ==> f[a - 1].index + f[a - 1].len <= x,
        a < f.len() ==> x < f[a].index,
    ensures
        first_reaching(f, x, 0) == a,
{
    lemma_first_reaching_from(f, x, 0, a);
}

proof fn lemma_first_reaching_from(f: Seq<Cone>, x: int, from: int, a: int)
    requires
        cones_ordered(f),
        0 <= from <= a <= f.len(),
        a > 0 ==> f[a - 1].index + f[a - 1].len <= x,
        a < f.len() ==> x < f[a].index,
    ensures
        first_reaching(f, x, from) == a,
    decreases a - from,
{
    if from < a {
        if from < a - 1 {
            assert(f[from].index + f[from].len <= f[a - 1].index);
        }
        lemma_first_reaching_from(f, x, from + 1, a);
    }
}

/// The first new cospan's forward rewrite followed by the first singular slice sends each
/// singular height where the old forward rewrite does.
pub proof fn lemma_expansion_forward_factors(f: Seq<Cone>, h: int, x: int)
    requires
        cones_ordered(f),
        0 <= h <= isize::MAX,
        0 <= x,
    ensures
        singular_image_of(singular0_cones(f, h), singular_image_of(forward0_cones(f, h), x))
            == singular_image_of(f, x),
{
    lemma_cone_index(f, h);
    match cone_index(f, h) {
        None => {
            let e = Seq::<Cone>::empty();
            lemma_image_nonneg(f, x);
            lemma_image_between(e, 0, singular_image_of(f, x));
        },
        Some(i) => {
            assert(singular0_cones(f, h) == seq![Cone { index: h as usize, len: f[i].len }]);
            assert(forward0_cones(f, h) == f.remove(i));
            lemma_image_cases(f, x);
            let a = first_reaching(f, x, 0);
            if a < f.len() && f[a].index <= x {
                lemma_factors_in_cone(f, i, h, x, a);
            } else {
                lemma_factors_between(f, i, h, x, a);
            }
        },
    }
}

/// The shift depends only on the lengths of the cones.
proof fn lemma_shift_lengths(c: Seq<Cone>, d: Seq<Cone>, k: int)
    requires
        0 <= k <= c.len(),
        c.len() == d.len(),
        forall|j: int| 0 <= j < c.len() ==> (#[trigger] c[j]).len == d[j].len,
    ensures
        shift(c, k) == shift(d, k),
    decreases k,
{
    if k > 0 {
        lemma_shift_lengths(c, d, k - 1);
    }
}

/// The shift of the cones of `b` without the `i`-th, moved: as if the cone were removed.
proof fn lemma_shift_without(b: Seq<Cone>, i: int, k: int)
    requires
        cones_ordered(b),
        0 <= i < b.len(),
        0 <= k <= b.len() - 1,
    ensures
        k <= i ==> shift(cones_without(b, i, b[i].len - 1), k) == shift(b, k),
        k >= i ==> shift(cones_without(b, i, b[i].len - 1), k) == shift(b, k + 1) - 1 + b[i].len,
{
    let s = cones_without(b, i, b[i].len - 1);
    let g = b.remove(i);
    assert forall|j: int| 0 <= j < s.len() implies (#[trigger] s[j]).len == g[j].len by {
        if j >= i {
            assert(g[j] == b[j + 1]);
        }
    }
    lemma_shift_lengths(s, g, k);
    lemma_shift_removed(b, i, k);
}

/// The cones of `b` without the `i`-th, moved, are ordered.
proof fn lemma_without_ordered(b: Seq<Cone>, i: int)
    requires
        cones_fit_signed(b),
        0 <= i < b.len(),
    ensures
        cones_ordered(cones_without(b, i, b[i].len - 1)),
        forall|j: int| i <= j < b.len() - 1 ==> (#[trigger] cones_without(b, i, b[i].len - 1)[j]).index
            == b[j + 1].index - b[i].len + 1,
{
    let s = cones_without(b, i, b[i].len - 1);
    assert forall|j: int| i <= j < b.len() - 1 implies (#[trigger] s[j]).index == b[j + 1].index - b[i].len + 1 by {
        lemma_after_cone(b, i, j + 1);
    }
    assert forall|k: int, l: int|
        #![trigger s[k], s[l]]
        0 <= k < l < s.len() implies s[k].index + s[k].len <= s[l].index by {
        let k2 = if k < i { k } else { k + 1 };
        let l2 = if l < i { l } else { l + 1 };
        assert(b[k2].index + b[k2].len <= b[l2].index);
        if l >= i {
            lemma_after_cone(b, i, l2);
            if k < i {
                assert(b[k2].index + b[k2].len <= b[i].index);
            }
        }
    }
}

/// The second new cospan's backward rewrite followed by the second singular slice sends
/// each singular height where the old backward rewrite does.
pub proof fn lemma_expansion_backward_factors(b: Seq<Cone>, h: int, x: int)
    requires
        cones_fit_signed(b),
        0 <= h,
        0 <= x,
    ensures
        singular_image_of(singular1_cones(b, h), singular_image_of(backward1_cones(b, h), x))
            == singular_image_of(b, x),
{
    lemma_cone_index(b, h);
    match cone_index(b, h) {
        None => {
            let e = Seq::<Cone>::empty();
            lemma_image_between(e, 0, x);
        },
        Some(i) => {
            let ln = b[i].len as int;
            let t = seq![b[i]];
            let s = cones_without(b, i, ln - 1);
            assert(backward1_cones(b, h) == t);
            assert(singular1_cones(b, h) == s);
            assert(cones_ordered(t));
            lemma_without_ordered(b, i);
            lemma_shift_without(b, i, i);
            assert(t[0] == b[i]);
            assert(shift(t, 1) == shift(t, 0) + 1 - t[0].len);
            assert(shift(t, 1) == 1 - ln);
            lemma_image_cases(b, x);
            let a = first_reaching(b, x, 0);
            if a < b.len() && b[a].index <= x {
                if a < i {
                    lemma_after_cone(b, a, i);
                    lemma_image_between(t, 0, x);
                    lemma_shift_without(b, i, a);
                    assert(s[a] == b[a]);
                    lemma_image_in_cone(s, a, x);
                } else if a == i {
                    lemma_image_in_cone(t, 0, x);
                    let y = b[i].index as int;
                    if i > 0 {
                        assert(s[i - 1] == b[i - 1]);
                        lemma_after_cone(b, i - 1, i);
                    }
                    lemma_image_between(s, i, y);
                } else {
                    lemma_after_cone(b, i, a);
                    lemma_image_between(t, 1, x);
                    lemma_shift_without(b, i, a - 1);
                    lemma_image_in_cone(s, a - 1, x + 1 - ln);
                }
            } else {
                if a <= i {
                    if a < i {
                        lemma_after_cone(b, a, i);
                    }
                    if a < b.len() {
                        assert(x < b[i].index);
                    }
                    lemma_image_between(t, 0, x);
                    lemma_shift_without(b, i, a);
                    if a > 0 {
                        assert(s[a - 1] == b[a - 1]);
                    }
                    lemma_image_between(b, a, x);
                    lemma_image_between(s, a, x);
                } else {
                    if a - 1 > i {
                        lemma_after_cone(b, i, a - 1);
                    }
                    assert(x >= b[i].index + ln);
                    lemma_image_between(t, 1, x);
                    lemma_shift_without(b, i, a - 1);
                    if a - 2 >= 0 && a - 2 < i {
                        assert(s[a - 2] == b[a - 2]);
                        lemma_after_cone(b, a - 2, i);
                    }
                    lemma_image_between(b, a, x);
                    lemma_image_between(s, a - 1, x + 1 - ln);
                }
            }
        },
    }
}

} // verus!
