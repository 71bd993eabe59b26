use vstd::prelude::*;
use crate::common::Direction;

verus! {

/// The smaller of two depths, where an undefined depth gives way to a defined one.
pub fn min_defined(a: Option<usize>, b: Option<usize>) -> (r: Option<usize>)
    ensures
        r == spec_min_defined(a, b),
        r is None <==> a is None && b is None,
        r matches Some(m) ==> (r == a || r == b) && (a matches Some(x) ==> m <= x) && (b matches Some(y) ==> m <= y),
{
    match (a, b) {
        (None, None) => None,
        (None, Some(b)) => Some(b),
        (Some(a), None) => Some(a),
        (Some(a), Some(b)) => Some(if a <= b { a } else { b }),
    }
}

/// Taking the defined minimum is commutative and associative, and an undefined depth is
/// its unit.
pub proof fn lemma_min_defined_monoid(a: Option<usize>, b: Option<usize>, c: Option<usize>)
    ensures
        spec_min_defined(a, b) == spec_min_defined(b, a),
        spec_min_defined(spec_min_defined(a, b), c) == spec_min_defined(a, spec_min_defined(b, c)),
        spec_min_defined(a, None) == a,
{
}

/// The value `min_defined` computes.
pub open spec fn spec_min_defined(a: Option<usize>, b: Option<usize>) -> Option<usize> {
    match (a, b) {
        (None, None) => None,
        (None, Some(y)) => Some(y),
        (Some(x), None) => Some(x),
        (Some(x), Some(y)) => Some(if x <= y { x } else { y }),
    }
}

} // verus!

verus! {

/// The kind of homotopy that a point of a projection shows.
#[derive(Copy, Clone, Debug, PartialEq, Eq, Structural, Hash)]
pub enum Homotopy {
    Complex,
    Duality,
    Identity,
    HalfBraid,
    FullBraid,
}

/// An edge into a point of a projection: whether it comes in forwards (an input strand)
/// or backwards (an output strand), the depth of its layer, and whether its rewrite is an
/// identity.
#[derive(Copy, Clone, Debug, PartialEq, Eq, Hash)]
pub struct Strand {
    pub direction: Direction,
    pub depth: Option<usize>,
    pub identity: bool,
}

/// The positions, among the first `n` strands, of those in `direction` with depth
/// `depth`, or with any depth when `any_depth` holds.
pub open spec fn strand_positions(s: Seq<Strand>, direction: Direction, any_depth: bool, depth: Option<usize>, n: int) -> Seq<int>
    decreases n,
{
    if n <= 0 {
        seq![]
    } else {
        strand_positions(s, direction, any_depth, depth, n - 1) + if s[n - 1].direction == direction && (any_depth || s[n - 1].depth == depth) {
            seq![n - 1]
        } else {
            seq![]
        }
    }
}

/// The smaller of two depths, an undefined depth being the smallest.
pub open spec fn depth_min(a: Option<usize>, b: Option<usize>) -> Option<usize> {
    match (a, b) {
        (Some(x), Some(y)) => Some(if x <= y { x } else { y }),
        _ => None,
    }
}

/// The smallest depth among the first `n` strands, `n` at least one.
pub open spec fn min_strand_depth(s: Seq<Strand>, n: int) -> Option<usize>
    decreases n,
{
    if n <= 1 {
        s[0].depth
    } else {
        depth_min(min_strand_depth(s, n - 1), s[n - 1].depth)
    }
}

/// What the point shows, where `crossing` tells whether the front input and output
/// strands cross: nothing off the singular points, a duality without inputs or without
/// outputs, an identity or a complex homotopy for one strand each way, and otherwise a
/// braid when the front layer has one strand each way.
pub open spec fn homotopy_of(all_singular: bool, s: Seq<Strand>, crossing: bool) -> Option<Homotopy> {
    let ins = strand_positions(s, Direction::Forward, true, None, s.len() as int);
    let outs = strand_positions(s, Direction::Backward, true, None, s.len() as int);
    let front = min_strand_depth(s, s.len() as int);
    let front_ins = strand_positions(s, Direction::Forward, false, front, s.len() as int);
    let front_outs = strand_positions(s, Direction::Backward, false, front, s.len() as int);
    if !all_singular {
        None
    } else if ins.len() == 0 || outs.len() == 0 {
        Some(Homotopy::Duality)
    } else if ins.len() == 1 && outs.len() == 1 {
        if s[ins[0]].identity && s[outs[0]].identity {
            Some(Homotopy::Identity)
        } else {
            Some(Homotopy::Complex)
        }
    } else if front_ins.len() != 1 || front_outs.len() != 1 {
        Some(Homotopy::Complex)
    } else if crossing {
        Some(Homotopy::FullBraid)
    } else {
        Some(Homotopy::HalfBraid)
    }
}

/// The strands of the front layer that a braid check compares: the one input and the one
/// output strand at the smallest depth.
pub open spec fn braid_strands(s: Seq<Strand>) -> (int, int) {
    let front = min_strand_depth(s, s.len() as int);
    (
        strand_positions(s, Direction::Forward, false, front, s.len() as int)[0],
        strand_positions(s, Direction::Backward, false, front, s.len() as int)[0],
    )
}

proof fn lemma_strand_positions_bound(s: Seq<Strand>, direction: Direction, any_depth: bool, depth: Option<usize>, n: int)
    requires
        0 <= n,
    ensures
        strand_positions(s, direction, any_depth, depth, n).len() <= n,
        forall|k: int| 0 <= k < strand_positions(s, direction, any_depth, depth, n).len()
            ==> 0 <= #[trigger] strand_positions(s, direction, any_depth, depth, n)[k] < n,
    decreases n,
{
    if n > 0 {
        lemma_strand_positions_bound(s, direction, any_depth, depth, n - 1);
    }
}

proof fn lemma_strand_split(s: Seq<Strand>, n: int)
    requires
        0 <= n <= s.len(),
    ensures
        strand_positions(s, Direction::Forward, true, None, n).len() + strand_positions(
            s,
            Direction::Backward,
            true,
            None,
            n,
        ).len() == n,
        strand_positions(s, Direction::Forward, true, None, n).len() == 0 <==> forall|k: int|
            0 <= k < n ==> s[k].direction == Direction::Backward,
        strand_positions(s, Direction::Backward, true, None, n).len() == 0 <==> forall|k: int|
            0 <= k < n ==> s[k].direction == Direction::Forward,
        forall|k: int|
            0 <= k < strand_positions(s, Direction::Forward, true, None, n).len() ==> s[#[trigger] strand_positions(
                s,
                Direction::Forward,
                true,
                None,
                n,
            )[k]].direction == Direction::Forward,
        forall|k: int|
            0 <= k < strand_positions(s, Direction::Backward, true, None, n).len() ==> s[#[trigger] strand_positions(
                s,
                Direction::Backward,
                true,
                None,
                n,
            )[k]].direction == Direction::Backward,
    decreases n,
{
    if n > 0 {
        lemma_strand_split(s, n - 1);
        lemma_strand_positions_bound(s, Direction::Forward, true, None, n - 1);
        lemma_strand_positions_bound(s, Direction::Backward, true, None, n - 1);
        let f = strand_positions(s, Direction::Forward, true, None, n);
        let b = strand_positions(s, Direction::Backward, true, None, n);
        let f0 = strand_positions(s, Direction::Forward, true, None, n - 1);
        let b0 = strand_positions(s, Direction::Backward, true, None, n - 1);
        if s[n - 1].direction == Direction::Forward {
            assert(f == f0 + seq![n - 1]);
            assert(b == b0);
            assert(f.len() > 0);
            assert(f[f.len() - 1] == n - 1);
        } else {
            assert(b == b0 + seq![n - 1]);
            assert(f == f0);
            assert(b[b.len() - 1] == n - 1);
        }
        assert forall|k: int| 0 <= k < f.len() implies s[#[trigger] f[k]].direction == Direction::Forward by {
            if k < f0.len() {
                assert(f[k] == f0[k]);
            }
        }
        assert forall|k: int| 0 <= k < b.len() implies s[#[trigger] b[k]].direction == Direction::Backward by {
            if k < b0.len() {
                assert(b[k] == b0[k]);
            }
        }
        if f.len() == 0 {
            assert(s[n - 1].direction == Direction::Backward);
        }
        if b.len() == 0 {
            assert(s[n - 1].direction == Direction::Forward);
        }
        if (forall|k: int| 0 <= k < n ==> s[k].direction == Direction::Backward) {
            assert(s[n - 1].direction == Direction::Backward);
        }
        if (forall|k: int| 0 <= k < n ==> s[k].direction == Direction::Forward) {
            assert(s[n - 1].direction == Direction::Forward);
        }
    }
}

/// What a point shows, in terms of its strands: nothing off the singular points; a duality
/// exactly when all strands go the same way (or there are none); an identity only for one
/// input and one output strand whose rewrites are both identities; and for one input and
/// one output strand, a complex homotopy when either rewrite is not an identity.
pub proof fn lemma_homotopy_cases(all_singular: bool, s: Seq<Strand>, crossing: bool)
    ensures
        !all_singular ==> homotopy_of(all_singular, s, crossing) is None,
        all_singular ==> (homotopy_of(all_singular, s, crossing) == Some(Homotopy::Duality) <==> ((forall|k: int|
            0 <= k < s.len() ==> s[k].direction == Direction::Forward) || (forall|k: int|
            0 <= k < s.len() ==> s[k].direction == Direction::Backward))),
        all_singular && s.len() == 2 && s[0].direction != s[1].direction ==> homotopy_of(all_singular, s, crossing)
            == if s[0].identity && s[1].identity {
            Some(Homotopy::Identity)
        } else {
            Some(Homotopy::Complex)
        },
        homotopy_of(all_singular, s, crossing) == Some(Homotopy::Identity) ==> all_singular && s.len() == 2
            && s[0].direction != s[1].direction && s[0].identity && s[1].identity,
{
    let n = s.len() as int;
    lemma_strand_split(s, n);
    let ins = strand_positions(s, Direction::Forward, true, None, n);
    let outs = strand_positions(s, Direction::Backward, true, None, n);
    lemma_strand_positions_bound(s, Direction::Forward, true, None, n);
    lemma_strand_positions_bound(s, Direction::Backward, true, None, n);
    if ins.len() == 1 && outs.len() == 1 {
        assert(n == 2);
        assert(s[ins[0]].direction == Direction::Forward);
        assert(s[outs[0]].direction == Direction::Backward);
        assert(ins[0] != outs[0]);
        assert(s[0].direction != s[1].direction);
    }
    if all_singular && s.len() == 2 && s[0].direction != s[1].direction {
        assert(ins.len() == 1 && outs.len() == 1) by {
            if ins.len() == 0 {
                assert(s[0].direction == Direction::Backward && s[1].direction == Direction::Backward);
            }
            if outs.len() == 0 {
                assert(s[0].direction == Direction::Forward && s[1].direction == Direction::Forward);
            }
        }
        assert(ins[0] != outs[0]);
        if s[0].direction == Direction::Forward {
            assert(ins[0] == 0 && outs[0] == 1);
        } else {
            assert(ins[0] == 1 && outs[0] == 0);
        }
    }
}

/// `a` lies no deeper than `b`, an undefined depth lying in front of all others.
pub open spec fn depth_le(a: Option<usize>, b: Option<usize>) -> bool {
    match (a, b) {
        (None, _) => true,
        (Some(_), None) => false,
        (Some(x), Some(y)) => x <= y,
    }
}

/// `i` and `j` are the front strands of a braid: an input and an output strand at the
/// front depth, no strand lying in front of them, and no other strand at their depth.
pub open spec fn front_pair(s: Seq<Strand>, i: int, j: int) -> bool {
    &&& 0 <= i < s.len()
    &&& 0 <= j < s.len()
    &&& s[i].direction == Direction::Forward
    &&& s[j].direction == Direction::Backward
    &&& s[i].depth == s[j].depth
    &&& forall|k: int| 0 <= k < s.len() ==> depth_le(s[i].depth, #[trigger] s[k].depth)
    &&& forall|k: int| 0 <= k < s.len() && #[trigger] s[k].depth == s[i].depth ==> k == i || k == j
}

proof fn lemma_min_strand_depth(s: Seq<Strand>, n: int)
    requires
        1 <= n <= s.len(),
    ensures
        forall|k: int| 0 <= k < n ==> depth_le(min_strand_depth(s, n), #[trigger] s[k].depth),
    decreases n,
{
    if n > 1 {
        lemma_min_strand_depth(s, n - 1);
    }
}

proof fn lemma_depth_positions(s: Seq<Strand>, d: Direction, depth: Option<usize>, n: int)
    requires
        0 <= n <= s.len(),
    ensures
        forall|k: int|
            0 <= k < strand_positions(s, d, false, depth, n).len() ==> s[#[trigger] strand_positions(s, d, false, depth, n)[k]].direction
                == d && s[strand_positions(s, d, false, depth, n)[k]].depth == depth,
        forall|q: int|
            0 <= q < n && (#[trigger] s[q]).direction == d && s[q].depth == depth ==> strand_positions(
                s,
                d,
                false,
                depth,
                n,
            ).contains(q),
    decreases n,
{
    if n > 0 {
        lemma_depth_positions(s, d, depth, n - 1);
        let p = strand_positions(s, d, false, depth, n);
        let p0 = strand_positions(s, d, false, depth, n - 1);
        if s[n - 1].direction == d && s[n - 1].depth == depth {
            assert(p == p0 + seq![n - 1]);
            assert(p[p.len() - 1] == n - 1);
        } else {
            assert(p == p0);
        }
        assert forall|k: int| 0 <= k < p.len() implies s[#[trigger] p[k]].direction == d && s[p[k]].depth == depth by {
            if k < p0.len() {
                assert(p[k] == p0[k]);
            }
        }
        assert forall|q: int| 0 <= q < n && (#[trigger] s[q]).direction == d && s[q].depth == depth implies p.contains(q) by {
            if q < n - 1 {
                let m = choose|m: int| 0 <= m < p0.len() && p0[m] == q;
                assert(p[m] == q);
            } else {
                assert(p[p.len() - 1] == q);
            }
        }
    }
}

/// When the front layer has one input and one output strand, they form a front pair.
proof fn lemma_front_pair(s: Seq<Strand>)
    requires
        s.len() >= 1,
        strand_positions(s, Direction::Forward, false, min_strand_depth(s, s.len() as int), s.len() as int).len() == 1,
        strand_positions(s, Direction::Backward, false, min_strand_depth(s, s.len() as int), s.len() as int).len() == 1,
    ensures
        front_pair(s, braid_strands(s).0, braid_strands(s).1),
{
    let n = s.len() as int;
    let front = min_strand_depth(s, n);
    lemma_min_strand_depth(s, n);
    lemma_depth_positions(s, Direction::Forward, front, n);
    lemma_depth_positions(s, Direction::Backward, front, n);
    lemma_strand_positions_bound(s, Direction::Forward, false, front, n);
    lemma_strand_positions_bound(s, Direction::Backward, false, front, n);
    let fi = strand_positions(s, Direction::Forward, false, front, n);
    let fo = strand_positions(s, Direction::Backward, false, front, n);
    let i = fi[0];
    let j = fo[0];
    assert(s[i].depth == front && s[j].depth == front);
    assert forall|k: int| 0 <= k < n && #[trigger] s[k].depth == s[i].depth implies k == i || k == j by {
        if s[k].direction == Direction::Forward {
            assert(fi.contains(k));
        } else {
            assert(fo.contains(k));
        }
    }
}

proof fn lemma_min_strand_depth_attained(s: Seq<Strand>, n: int)
    requires
        1 <= n <= s.len(),
    ensures
        exists|k: int| 0 <= k < n && s[k].depth == min_strand_depth(s, n),
    decreases n,
{
    if n > 1 {
        lemma_min_strand_depth_attained(s, n - 1);
        let k = choose|k: int| 0 <= k < n - 1 && s[k].depth == min_strand_depth(s, n - 1);
        if min_strand_depth(s, n) == s[k].depth {
            assert(0 <= k < n);
        } else {
            assert(s[n - 1].depth == min_strand_depth(s, n));
        }
    } else {
        assert(s[0].depth == min_strand_depth(s, n));
    }
}

proof fn lemma_positions_increasing(s: Seq<Strand>, d: Direction, any: bool, depth: Option<usize>, n: int)
    requires
        0 <= n,
    ensures
        forall|a: int, b: int|
            0 <= a < b < strand_positions(s, d, any, depth, n).len() ==> strand_positions(s, d, any, depth, n)[a]
                < strand_positions(s, d, any, depth, n)[b],
    decreases n,
{
    if n > 0 {
        lemma_positions_increasing(s, d, any, depth, n - 1);
        lemma_strand_positions_bound(s, d, any, depth, n - 1);
        let p = strand_positions(s, d, any, depth, n);
        let p0 = strand_positions(s, d, any, depth, n - 1);
        assert forall|a: int, b: int| 0 <= a < b < p.len() implies p[a] < p[b] by {
            if b < p0.len() {
                assert(p[a] == p0[a] && p[b] == p0[b]);
            } else {
                assert(p[a] == p0[a]);
                assert(p[b] == n - 1);
            }
        }
    }
}

/// A sequence of positions, increasing, all equal to `i`, has at most one entry.
proof fn lemma_single_position(p: Seq<int>, i: int)
    requires
        p.contains(i),
        forall|k: int| 0 <= k < p.len() ==> p[k] == i,
        forall|a: int, b: int| 0 <= a < b < p.len() ==> p[a] < p[b],
    ensures
        p.len() == 1,
{
    if p.len() > 1 {
        assert(p[0] < p[1]);
    }
}

/// A front pair is exactly what the braid check finds: the front layer then has one input
/// and one output strand.
proof fn lemma_front_pair_found(s: Seq<Strand>, i: int, j: int)
    requires
        front_pair(s, i, j),
    ensures
        strand_positions(s, Direction::Forward, false, min_strand_depth(s, s.len() as int), s.len() as int).len() == 1,
        strand_positions(s, Direction::Backward, false, min_strand_depth(s, s.len() as int), s.len() as int).len() == 1,
{
    let n = s.len() as int;
    let front = min_strand_depth(s, n);
    lemma_min_strand_depth(s, n);
    lemma_min_strand_depth_attained(s, n);
    let k = choose|k: int| 0 <= k < n && s[k].depth == front;
    assert(depth_le(s[i].depth, s[k].depth));
    assert(depth_le(front, s[i].depth));
    assert(s[i].depth == front);
    lemma_depth_positions(s, Direction::Forward, front, n);
    lemma_depth_positions(s, Direction::Backward, front, n);
    lemma_positions_increasing(s, Direction::Forward, false, front, n);
    lemma_positions_increasing(s, Direction::Backward, false, front, n);
    lemma_strand_positions_bound(s, Direction::Forward, false, front, n);
    lemma_strand_positions_bound(s, Direction::Backward, false, front, n);
    let fi = strand_positions(s, Direction::Forward, false, front, n);
    let fo = strand_positions(s, Direction::Backward, false, front, n);
    assert(fi.contains(i));
    assert(fo.contains(j));
    assert forall|m: int| 0 <= m < fi.len() implies fi[m] == i by {
        let q = fi[m];
        assert(s[q].depth == s[i].depth);
        assert(q == i || q == j);
    }
    assert forall|m: int| 0 <= m < fo.len() implies fo[m] == j by {
        let q = fo[m];
        assert(s[q].depth == s[i].depth);
        assert(q == i || q == j);
    }
    lemma_single_position(fi, i);
    lemma_single_position(fo, j);
}

/// Braids, in terms of the strands: a point with more than two strands going both ways shows
/// a braid exactly when its front layer is a front pair (a full one when the pair crosses,
/// a half one when it does not), and a complex homotopy otherwise.
pub proof fn lemma_homotopy_braids(all_singular: bool, s: Seq<Strand>, crossing: bool)
    ensures
        homotopy_of(all_singular, s, crossing) == Some(Homotopy::FullBraid) || homotopy_of(all_singular, s, crossing)
            == Some(Homotopy::HalfBraid) ==> all_singular && s.len() > 2 && front_pair(
            s,
            braid_strands(s).0,
            braid_strands(s).1,
        ) && (homotopy_of(all_singular, s, crossing) == Some(Homotopy::FullBraid) <==> crossing),
        all_singular && s.len() > 2 && homotopy_of(all_singular, s, crossing) != Some(Homotopy::Duality) ==> (
        (exists|i: int, j: int| #[trigger] front_pair(s, i, j)) <==> (homotopy_of(all_singular, s, crossing)
            == Some(Homotopy::FullBraid) || homotopy_of(all_singular, s, crossing) == Some(Homotopy::HalfBraid))),
        all_singular && s.len() > 2 && homotopy_of(all_singular, s, crossing) != Some(Homotopy::Duality) ==> homotopy_of(
            all_singular,
            s,
            crossing,
        ) != Some(Homotopy::Identity),
{
    let n = s.len() as int;
    lemma_strand_split(s, n);
    lemma_homotopy_cases(all_singular, s, crossing);
    let h = homotopy_of(all_singular, s, crossing);
    if n >= 1 {
        let front = min_strand_depth(s, n);
        let fi = strand_positions(s, Direction::Forward, false, front, n);
        let fo = strand_positions(s, Direction::Backward, false, front, n);
        if fi.len() == 1 && fo.len() == 1 {
            lemma_front_pair(s);
        }
        if exists|i: int, j: int| front_pair(s, i, j) {
            let (i, j) = choose|i: int, j: int| front_pair(s, i, j);
            lemma_front_pair_found(s, i, j);
        }
    }
}

/// The homotopy shown at a point with the given strands, `all_singular` telling whether
/// all its coordinates are singular heights; `crosses` is asked, for the front input and
/// output strands of a braid, whether they cross.
pub fn homotopy_at<F: Fn(usize, usize) -> bool>(all_singular: bool, strands: &Vec<Strand>, crosses: F) -> (r: Option<Homotopy>)
    requires
        forall|i: usize, j: usize| i < strands@.len() && j < strands@.len() ==> call_requires(crosses, (i, j)),
    ensures
        exists|crossing: bool|
            r == homotopy_of(all_singular, strands@, crossing)
            && (r == Some(Homotopy::FullBraid) || r == Some(Homotopy::HalfBraid)
                ==> call_ensures(crosses, (braid_strands(strands@).0 as usize, braid_strands(strands@).1 as usize), crossing)),
        !all_singular ==> r is None,
        all_singular ==> (r == Some(Homotopy::Duality) <==> ((forall|k: int|
            0 <= k < strands@.len() ==> strands@[k].direction == Direction::Forward) || (forall|k: int|
            0 <= k < strands@.len() ==> strands@[k].direction == Direction::Backward))),
        all_singular && strands@.len() == 2 && strands@[0].direction != strands@[1].direction ==> r == if strands@[0].identity
            && strands@[1].identity {
            Some(Homotopy::Identity)
        } else {
            Some(Homotopy::Complex)
        },
        r == Some(Homotopy::Identity) ==> all_singular && strands@.len() == 2 && strands@[0].direction
            != strands@[1].direction && strands@[0].identity && strands@[1].identity,
        r == Some(Homotopy::FullBraid) || r == Some(Homotopy::HalfBraid) ==> all_singular && strands@.len() > 2
            && exists|i: int, j: int|
            #[trigger] front_pair(strands@, i, j) && call_ensures(crosses, (i as usize, j as usize), r == Some(Homotopy::FullBraid)),
        all_singular && strands@.len() > 2 && r != Some(Homotopy::Duality) && (exists|i: int, j: int|
            #[trigger] front_pair(strands@, i, j)) ==> r == Some(Homotopy::FullBraid) || r == Some(Homotopy::HalfBraid),
        all_singular && strands@.len() > 2 && r != Some(Homotopy::Duality) && !(exists|i: int, j: int|
            #[trigger] front_pair(strands@, i, j)) ==> r == Some(Homotopy::Complex),
{
    let ghost s = strands@;
    proof {
        lemma_homotopy_cases(all_singular, s, false);
        lemma_homotopy_cases(all_singular, s, true);
    }
    if !all_singular {
        proof {
            assert(None::<Homotopy> == homotopy_of(all_singular, s, false));
        }
        return None;
    }
    let mut inputs: usize = 0;
    let mut outputs: usize = 0;
    let mut first_input: usize = 0;
    let mut first_output: usize = 0;
    let mut i: usize = 0;
    while i < strands.len()
        invariant
            i <= s.len(),
            s == strands@,
            inputs == strand_positions(s, Direction::Forward, true, None, i as int).len(),
            outputs == strand_positions(s, Direction::Backward, true, None, i as int).len(),
            inputs > 0 ==> first_input == strand_positions(s, Direction::Forward, true, None, i as int)[0],
            outputs > 0 ==> first_output == strand_positions(s, Direction::Backward, true, None, i as int)[0],
        decreases s.len() - i,
    {
        proof {
            lemma_strand_positions_bound(s, Direction::Forward, true, None, i as int);
            lemma_strand_positions_bound(s, Direction::Backward, true, None, i as int);
        }
        match strands[i].direction {
            Direction::Forward => {
                if inputs == 0 {
                    first_input = i;
                }
                inputs = inputs + 1;
            },
            Direction::Backward => {
                if outputs == 0 {
                    first_output = i;
                }
                outputs = outputs + 1;
            },
        }
        i = i + 1;
    }
    proof {
        lemma_strand_positions_bound(s, Direction::Forward, true, None, s.len() as int);
        lemma_strand_positions_bound(s, Direction::Backward, true, None, s.len() as int);
    }
    if inputs == 0 || outputs == 0 {
        proof {
            assert(Some(Homotopy::Duality) == homotopy_of(all_singular, s, false));
        }
        return Some(Homotopy::Duality);
    }
    proof {
        lemma_strand_split(s, s.len() as int);
    }
    if inputs == 1 && outputs == 1 {
        if strands[first_input].identity && strands[first_output].identity {
            proof {
                assert(Some(Homotopy::Identity) == homotopy_of(all_singular, s, false));
            }
            return Some(Homotopy::Identity);
        } else {
            proof {
                assert(Some(Homotopy::Complex) == homotopy_of(all_singular, s, false));
            }
            return Some(Homotopy::Complex);
        }
    }
    // The depth of the front layer.
    let mut min_depth: Option<usize> = strands[0].depth;
    let mut i: usize = 1;
    while i < strands.len()
        invariant
            1 <= i <= s.len(),
            s == strands@,
            min_depth == min_strand_depth(s, i as int),
        decreases s.len() - i,
    {
        min_depth = match (min_depth, strands[i].depth) {
            (Some(x), Some(y)) => Some(if x <= y { x } else { y }),
            _ => None,
        };
        i = i + 1;
    }
    // The incoming and outgoing strands of the front layer.
    let mut front_inputs: usize = 0;
    let mut front_outputs: usize = 0;
    let mut front_input: usize = 0;
    let mut front_output: usize = 0;
    let mut i: usize = 0;
    while i < strands.len()
        invariant
            i <= s.len(),
            s == strands@,
            front_inputs == strand_positions(s, Direction::Forward, false, min_depth, i as int).len(),
            front_outputs == strand_positions(s, Direction::Backward, false, min_depth, i as int).len(),
            front_inputs > 0 ==> front_input == strand_positions(s, Direction::Forward, false, min_depth, i as int)[0],
            front_outputs > 0 ==> front_output == strand_positions(s, Direction::Backward, false, min_depth, i as int)[0],
        decreases s.len() - i,
    {
        proof {
            lemma_strand_positions_bound(s, Direction::Forward, false, min_depth, i as int);
            lemma_strand_positions_bound(s, Direction::Backward, false, min_depth, i as int);
        }
        if strands[i].depth == min_depth {
            match strands[i].direction {
                Direction::Forward => {
                    if front_inputs == 0 {
                        front_input = i;
                    }
                    front_inputs = front_inputs + 1;
                },
                Direction::Backward => {
                    if front_outputs == 0 {
                        front_output = i;
                    }
                    front_outputs = front_outputs + 1;
                },
            }
        }
        i = i + 1;
    }
    proof {
        lemma_strand_positions_bound(s, Direction::Forward, false, min_depth, s.len() as int);
        lemma_strand_positions_bound(s, Direction::Backward, false, min_depth, s.len() as int);
    }
    if front_inputs != 1 || front_outputs != 1 {
        proof {
            assert(Some(Homotopy::Complex) == homotopy_of(all_singular, s, false));
            assert forall|i: int, j: int| !front_pair(s, i, j) by {
                if front_pair(s, i, j) {
                    lemma_front_pair_found(s, i, j);
                }
            }
        }
        return Some(Homotopy::Complex);
    }
    let crossing = crosses(front_input, front_output);
    proof {
        assert(braid_strands(s) == (front_input as int, front_output as int));
        lemma_front_pair(s);
        lemma_strand_split(s, s.len() as int);
        assert(front_pair(s, front_input as int, front_output as int));
    }
    if crossing {
        proof {
            assert(Some(Homotopy::FullBraid) == homotopy_of(all_singular, s, crossing));
        }
        Some(Homotopy::FullBraid)
    } else {
        proof {
            assert(Some(Homotopy::HalfBraid) == homotopy_of(all_singular, s, crossing));
        }
        Some(Homotopy::HalfBraid)
    }
}

} // verus!
