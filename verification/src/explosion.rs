use vstd::prelude::*;
use crate::common::{Boundary, DimensionError, Direction, SliceIndex, slice_at};
use crate::diagram::{Diagram, diagram_size};
use crate::graph::{Edge, EdgeData, Graph, Node, NodeData};
use crate::rewrite::{
    Cone,
    Rewrite,
    RewriteN,
    cones_fit,
    covered,
    regular_image_of,
    singular_preimage_of,
    lemma_regular_image_monotone,
    lemma_singular_preimage_is_fibre,
};

verus! {

/// Where a rewrite between slices of an exploded graph comes from.
#[derive(Copy, Clone, Debug, PartialEq, Eq, Structural, Hash)]
pub enum RewriteOrigin {
    /// Padded identity along a boundary.
    Boundary(Boundary),
    /// A leg of a diagram's cospan at a singular height.
    Internal(usize, Direction),
    /// Sparse identity from a rewrite, into a regular height of its target.
    Sparse(usize),
    /// Unit slices from a rewrite.
    UnitSlice,
    /// Cone regular slices from a rewrite.
    RegularSlice,
    /// Cone singular slices from a rewrite, at a singular height of its source.
    SingularSlice(usize),
}

/// The leg of the `i`-th cospan of a diagram, as a step between slice positions (the
/// source boundary at position 0, then the heights, then the target boundary).
pub open spec fn cospan_leg(i: int, forward: bool) -> (usize, usize, RewriteOrigin) {
    if forward {
        ((2 * i + 1) as usize, (2 * i + 2) as usize, RewriteOrigin::Internal(i as usize, Direction::Forward))
    } else {
        ((2 * i + 3) as usize, (2 * i + 2) as usize, RewriteOrigin::Internal(i as usize, Direction::Backward))
    }
}

/// The rewrites among the slices of one diagram of size `k`, as steps between slice
/// positions: from the source boundary to the first regular height, the two legs of each
/// cospan, and from the target boundary to the last regular height.
pub open spec fn internal_steps(k: nat) -> Seq<(usize, usize, RewriteOrigin)> {
    seq![(0usize, 1usize, RewriteOrigin::Boundary(Boundary::Source))] + Seq::new(
        2 * k,
        |x: int| cospan_leg(x / 2, x % 2 == 0),
    ) + seq![((2 * k + 2) as usize, (2 * k + 1) as usize, RewriteOrigin::Boundary(Boundary::Target))]
}

/// The `x`-th step of a cone whose source heights start at `start`, into the target slice
/// at position `p`: regular and singular slices of the source in turn.
pub open spec fn cone_slice_step(start: int, x: int, p: int) -> (usize, usize, RewriteOrigin) {
    let sh = start + x / 2;
    if x % 2 == 0 {
        (
            (2 * sh + 1) as usize,
            p as usize,
            if sh == start {
                RewriteOrigin::UnitSlice
            } else {
                RewriteOrigin::RegularSlice
            },
        )
    } else {
        ((2 * sh + 2) as usize, p as usize, RewriteOrigin::SingularSlice(sh as usize))
    }
}

/// The steps into the target slice at position `p` from the source heights `pre`: one from
/// each regular and each singular height in the range, and one from the regular height
/// that closes it.
pub open spec fn cone_steps(pre: (int, int), p: int) -> Seq<(usize, usize, RewriteOrigin)> {
    Seq::new((2 * (pre.1 - pre.0)) as nat, |x: int| cone_slice_step(pre.0, x, p)) + seq![
        (
            (2 * pre.1 + 1) as usize,
            p as usize,
            if pre.0 < pre.1 {
                RewriteOrigin::UnitSlice
            } else {
                RewriteOrigin::RegularSlice
            },
        ),
    ]
}

/// The steps into the slice at position `p` of the target of a rewrite with cones `c`
/// from a diagram of size `ks` to one of size `kt`: boundaries go to boundaries, a regular
/// height comes from its regular image, and a singular height from the heights of its
/// preimage.
pub open spec fn steps_into(c: Seq<Cone>, ks: nat, kt: nat, p: int) -> Seq<(usize, usize, RewriteOrigin)> {
    if p == 0 {
        seq![(0usize, 0usize, RewriteOrigin::Boundary(Boundary::Source))]
    } else if p == 2 * kt + 2 {
        seq![((2 * ks + 2) as usize, p as usize, RewriteOrigin::Boundary(Boundary::Target))]
    } else if p % 2 == 1 {
        seq![
            (
                (2 * regular_image_of(c, (p - 1) / 2) + 1) as usize,
                p as usize,
                RewriteOrigin::Sparse(((p - 1) / 2) as usize),
            ),
        ]
    } else {
        cone_steps(singular_preimage_of(c, (p - 2) / 2), p)
    }
}

/// The steps into the first `p` target slices, in order.
pub open spec fn steps_upto(c: Seq<Cone>, ks: nat, kt: nat, p: int) -> Seq<(usize, usize, RewriteOrigin)>
    decreases p,
{
    if p <= 0 {
        Seq::empty()
    } else {
        steps_upto(c, ks, kt, p - 1) + steps_into(c, ks, kt, p - 1)
    }
}

/// The steps between the slices of the source and of the target of a rewrite with cones
/// `c` from a diagram of size `ks` to one of size `kt`, target slice by target slice.
pub open spec fn external_steps(c: Seq<Cone>, ks: nat, kt: nat) -> Seq<(usize, usize, RewriteOrigin)> {
    steps_upto(c, ks, kt, (2 * kt + 3) as int)
}

/// A rewrite with cones `c` fits between diagrams of sizes `ks` and `kt`: the preimage of
/// every singular height and the image of every regular height of the target lie within
/// the source, and the heights involved fit in a `usize`.
pub open spec fn fits_between(c: Seq<Cone>, ks: nat, kt: nat) -> bool {
    &&& cones_fit(c)
    &&& kt + covered(c, c.len() as int) < usize::MAX
    &&& 2 * ks + 3 <= usize::MAX
    &&& 2 * kt + 3 <= usize::MAX
    &&& forall|j: int| 0 <= j < kt ==> #[trigger] singular_preimage_of(c, j).1 <= ks
    &&& forall|j: int| 0 <= j <= kt ==> #[trigger] regular_image_of(c, j) <= ks
}

/// Every step lies between the slices of a diagram of size `ks` and one of size `kt`.
pub open spec fn steps_within(s: Seq<(usize, usize, RewriteOrigin)>, ks: nat, kt: nat) -> bool {
    forall|q: int| 0 <= q < s.len() ==> (#[trigger] s[q]).0 < 2 * ks + 3 && s[q].1 < 2 * kt + 3
}

/// The internal steps of a diagram of size `k`.
fn internal_steps_of(k: usize) -> (r: Vec<(usize, usize, RewriteOrigin)>)
    requires
        2 * k + 3 <= usize::MAX,
    ensures
        r@ == internal_steps(k as nat),
        steps_within(r@, k as nat, k as nat),
{
    let mut r: Vec<(usize, usize, RewriteOrigin)> = Vec::new();
    r.push((0, 1, RewriteOrigin::Boundary(Boundary::Source)));
    let mut i: usize = 0;
    while i < k
        invariant
            i <= k,
            2 * k + 3 <= usize::MAX,
            r@ == seq![(0usize, 1usize, RewriteOrigin::Boundary(Boundary::Source))] + Seq::new(
                2 * i as nat,
                |x: int| cospan_leg(x / 2, x % 2 == 0),
            ),
            steps_within(r@, k as nat, k as nat),
        decreases k - i,
    {
        r.push((2 * i + 1, 2 * i + 2, RewriteOrigin::Internal(i, Direction::Forward)));
        r.push((2 * i + 3, 2 * i + 2, RewriteOrigin::Internal(i, Direction::Backward)));
        proof {
            let x = 2 * i as int;
            assert(cospan_leg(x / 2, x % 2 == 0) == cospan_leg(i as int, true));
            assert(cospan_leg((x + 1) / 2, (x + 1) % 2 == 0) == cospan_leg(i as int, false));
        }
        i = i + 1;
        assert(r@ =~= seq![(0usize, 1usize, RewriteOrigin::Boundary(Boundary::Source))] + Seq::new(
            2 * i as nat,
            |x: int| cospan_leg(x / 2, x % 2 == 0),
        ));
    }
    r.push((2 * k + 2, 2 * k + 1, RewriteOrigin::Boundary(Boundary::Target)));
    assert(r@ =~= internal_steps(k as nat));
    r
}

/// Appends the steps into the target slice at position `p` from the source heights
/// `start..end`.
fn push_cone_steps(
    r: &mut Vec<(usize, usize, RewriteOrigin)>,
    start: usize,
    end: usize,
    p: usize,
    ks: usize,
    kt: usize,
)
    requires
        start <= end <= ks,
        2 * ks + 3 <= usize::MAX,
        p < 2 * kt + 3,
        steps_within(old(r)@, ks as nat, kt as nat),
    ensures
        final(r)@ == old(r)@ + cone_steps((start as int, end as int), p as int),
        steps_within(final(r)@, ks as nat, kt as nat),
{
    let ghost mid = r@;
    let mut sh: usize = start;
    while sh < end
        invariant
            start <= sh <= end,
            end <= ks,
            2 * ks + 3 <= usize::MAX,
            p < 2 * kt + 3,
            r@ == mid + Seq::new((2 * (sh - start)) as nat, |x: int| cone_slice_step(start as int, x, p as int)),
            steps_within(r@, ks as nat, kt as nat),
        decreases end - sh,
    {
        let o = if sh == start {
            RewriteOrigin::UnitSlice
        } else {
            RewriteOrigin::RegularSlice
        };
        r.push((2 * sh + 1, p, o));
        r.push((2 * sh + 2, p, RewriteOrigin::SingularSlice(sh)));
        proof {
            let x = 2 * (sh - start);
            assert(cone_slice_step(start as int, x, p as int) == ((2 * sh + 1) as usize, p, o));
            assert(cone_slice_step(start as int, x + 1, p as int) == (
                (2 * sh + 2) as usize,
                p,
                RewriteOrigin::SingularSlice(sh),
            ));
        }
        sh = sh + 1;
        assert(r@ =~= mid + Seq::new(
            (2 * (sh - start)) as nat,
            |x: int| cone_slice_step(start as int, x, p as int),
        ));
    }
    let o = if start < end {
        RewriteOrigin::UnitSlice
    } else {
        RewriteOrigin::RegularSlice
    };
    r.push((2 * end + 1, p, o));
    assert(r@ =~= mid + cone_steps((start as int, end as int), p as int));
}

/// The external steps of a rewrite with cones `c` from a diagram of size `ks` to one of
/// size `kt`.
fn external_steps_of(rw: &RewriteN, ks: usize, kt: usize) -> (r: Vec<(usize, usize, RewriteOrigin)>)
    requires
        fits_between(rw.cone_seq(), ks as nat, kt as nat),
    ensures
        r@ == external_steps(rw.cone_seq(), ks as nat, kt as nat),
        steps_within(r@, ks as nat, kt as nat),
{
    let ghost c = rw.cone_seq();
    let mut r: Vec<(usize, usize, RewriteOrigin)> = Vec::new();
    r.push((0, 0, RewriteOrigin::Boundary(Boundary::Source)));
    assert(steps_upto(c, ks as nat, kt as nat, 0) == Seq::<(usize, usize, RewriteOrigin)>::empty());
    assert(r@ =~= steps_upto(c, ks as nat, kt as nat, 0) + steps_into(c, ks as nat, kt as nat, 0));
    let mut j: usize = 0;
    while j < kt
        invariant
            j <= kt,
            c == rw.cone_seq(),
            fits_between(c, ks as nat, kt as nat),
            r@ == steps_upto(c, ks as nat, kt as nat, 2 * j + 1),
            steps_within(r@, ks as nat, kt as nat),
        decreases kt - j,
    {
        let ghost before = r@;
        proof {
            lemma_regular_image_monotone(c, j as int, j as int);
        }
        let ri = rw.regular_image(j);
        r.push((2 * ri + 1, 2 * j + 1, RewriteOrigin::Sparse(j)));
        proof {
            let p = 2 * j + 1;
            assert((p - 1) / 2 == j);
            assert(r@ =~= steps_upto(c, ks as nat, kt as nat, p + 1));
        }
        let pre = rw.singular_preimage(j);
        let p: usize = 2 * j + 2;
        proof {
            lemma_singular_preimage_is_fibre(c, j as int, 0);
            assert((p - 2) / 2 == j);
        }
        let ghost mid = r@;
        push_cone_steps(&mut r, pre.start, pre.end, p, ks, kt);
        proof {
            assert(steps_into(c, ks as nat, kt as nat, p as int) == cone_steps((pre.start as int, pre.end as int), p as int));
            assert(r@ =~= steps_upto(c, ks as nat, kt as nat, p + 1));
        }
        j = j + 1;
    }
    proof {
        lemma_regular_image_monotone(c, kt as int, kt as int);
    }
    let ri = rw.regular_image(kt);
    r.push((2 * ri + 1, 2 * kt + 1, RewriteOrigin::Sparse(kt)));
    proof {
        let p = 2 * kt + 1;
        assert((p - 1) / 2 == kt);
        assert(r@ =~= steps_upto(c, ks as nat, kt as nat, p + 1));
    }
    r.push((2 * ks + 2, 2 * kt + 2, RewriteOrigin::Boundary(Boundary::Target)));
    assert(r@ =~= steps_upto(c, ks as nat, kt as nat, 2 * kt + 3));
    r
}

/// The number of singular heights of a diagram, or none for a point.
pub open spec fn size_of(d: Diagram) -> nat {
    match diagram_size(d) {
        Some(k) => k,
        None => 0,
    }
}

/// The sizes of the diagrams at the nodes of `g`.
pub open spec fn node_sizes(g: Graph<Diagram, Rewrite>) -> Seq<nat> {
    g.node_seq().map_values(|nd: NodeData<Diagram>| size_of(nd.weight()))
}

/// Every node of `g` holds a diagram of positive dimension and every edge a rewrite of
/// positive dimension.
pub open spec fn well_typed(g: Graph<Diagram, Rewrite>) -> bool {
    &&& forall|n: int| 0 <= n < g.node_seq().len() ==> (#[trigger] g.node_seq()[n]).weight() is DiagramN
    &&& forall|e: int| 0 <= e < g.edge_seq().len() ==> (#[trigger] g.edge_seq()[e]).weight() is RewriteN
}

/// The slices of the first `n` diagrams, each named by its node and its slice index.
pub open spec fn slices_upto(sizes: Seq<nat>, n: int) -> Seq<(Node, SliceIndex)>
    decreases n,
{
    if n <= 0 {
        Seq::empty()
    } else {
        slices_upto(sizes, n - 1) + Seq::new(
            2 * sizes[n - 1] + 3,
            |p: int| (Node((n - 1) as usize), slice_at(p, sizes[n - 1] as int)),
        )
    }
}

/// Steps moved from slice positions to node indices: sources by `sbase`, targets by
/// `tbase`.
pub open spec fn place(steps: Seq<(usize, usize, RewriteOrigin)>, sbase: int, tbase: int) -> Seq<
    (usize, usize, RewriteOrigin),
> {
    steps.map_values(
        |st: (usize, usize, RewriteOrigin)| ((st.0 + sbase) as usize, (st.1 + tbase) as usize, st.2),
    )
}

/// The rewrites among the slices of each of the first `n` diagrams, placed at their
/// slices.
pub open spec fn internal_upto(sizes: Seq<nat>, n: int) -> Seq<(usize, usize, RewriteOrigin)>
    decreases n,
{
    if n <= 0 {
        Seq::empty()
    } else {
        internal_upto(sizes, n - 1) + place(
            internal_steps(sizes[n - 1]),
            slices_upto(sizes, n - 1).len() as int,
            slices_upto(sizes, n - 1).len() as int,
        )
    }
}

/// The steps of the rewrite at edge `e`, between the slices of its source and target.
pub open spec fn edge_steps(g: Graph<Diagram, Rewrite>, e: int) -> Seq<(usize, usize, RewriteOrigin)> {
    let ed = g.edge_seq()[e];
    match ed.weight() {
        Rewrite::RewriteN(r) => external_steps(
            r.cone_seq(),
            node_sizes(g)[ed.source_spec().0 as int],
            node_sizes(g)[ed.target_spec().0 as int],
        ),
        Rewrite::Rewrite0(_) => Seq::empty(),
    }
}

/// The steps of the first `m` edges, placed at the slices of their endpoints.
pub open spec fn external_upto(g: Graph<Diagram, Rewrite>, m: int) -> Seq<(usize, usize, RewriteOrigin)>
    decreases m,
{
    if m <= 0 {
        Seq::empty()
    } else {
        let ed = g.edge_seq()[m - 1];
        external_upto(g, m - 1) + place(
            edge_steps(g, m - 1),
            slices_upto(node_sizes(g), ed.source_spec().0 as int).len() as int,
            slices_upto(node_sizes(g), ed.target_spec().0 as int).len() as int,
        )
    }
}

/// Every rewrite of `g` fits between the diagrams at its ends.
pub open spec fn rewrites_fit(g: Graph<Diagram, Rewrite>) -> bool {
    forall|e: int|
        0 <= e < g.edge_seq().len() ==> ((#[trigger] g.edge_seq()[e]).weight() matches Rewrite::RewriteN(r)
            ==> fits_between(
            r.cone_seq(),
            node_sizes(g)[g.edge_seq()[e].source_spec().0 as int],
            node_sizes(g)[g.edge_seq()[e].target_spec().0 as int],
        ))
}

/// The exploded graph can be indexed by `usize`.
pub open spec fn explosion_fits(g: Graph<Diagram, Rewrite>) -> bool {
    &&& slices_upto(node_sizes(g), g.node_seq().len() as int).len() <= usize::MAX
    &&& internal_upto(node_sizes(g), g.node_seq().len() as int).len() + external_upto(
        g,
        g.edge_seq().len() as int,
    ).len() <= usize::MAX
}

/// The weights of the nodes of a graph, in order.
pub open spec fn node_weights<V, E>(g: Graph<V, E>) -> Seq<V> {
    g.node_seq().map_values(|nd: NodeData<V>| nd.weight())
}

/// The edges of a graph as (source, target, weight), in order.
pub open spec fn edge_triples<V, E>(g: Graph<V, E>) -> Seq<(usize, usize, E)> {
    g.edge_seq().map_values(|ed: EdgeData<E>| (ed.source_spec().0, ed.target_spec().0, ed.weight()))
}

proof fn lemma_slices_upto_len(sizes: Seq<nat>, m: int, n: int)
    requires
        0 <= m <= n <= sizes.len(),
    ensures
        slices_upto(sizes, m).len() <= slices_upto(sizes, n).len(),
        m < n ==> slices_upto(sizes, m).len() + 2 * sizes[m] + 3 <= slices_upto(sizes, n).len(),
    decreases n - m,
{
    if m < n {
        lemma_slices_upto_len(sizes, m + 1, n);
    }
}

/// Adds the slices of a diagram of size `k` at node `n`.
fn add_slices(out: &mut Graph<(Node, SliceIndex), RewriteOrigin>, n: Node, k: usize) -> (r: Vec<Node>)
    requires
        old(out).wf(),
        old(out).node_seq().len() + 2 * k + 3 <= usize::MAX,
    ensures
        final(out).wf(),
        node_weights(*final(out)) == node_weights(*old(out)) + Seq::new(
            2 * k as nat + 3,
            |p: int| (n, slice_at(p, k as int)),
        ),
        edge_triples(*final(out)) == edge_triples(*old(out)),
        r@ == Seq::new(2 * k as nat + 3, |p: int| Node((old(out).node_seq().len() + p) as usize)),
{
    let indices = SliceIndex::for_size(k);
    let ghost start = old(out).node_seq().len();
    let ghost w0 = node_weights(*out);
    let ghost t0 = edge_triples(*out);
    let mut r: Vec<Node> = Vec::new();
    let mut i: usize = 0;
    while i < indices.len()
        invariant
            indices@.len() == 2 * k + 3,
            forall|q: int| 0 <= q < indices@.len() ==> #[trigger] indices@[q] == slice_at(q, k as int),
            i <= indices@.len(),
            out.wf(),
            out.node_seq().len() == start + i,
            start + 2 * k + 3 <= usize::MAX,
            node_weights(*out) == w0 + Seq::new(i as nat, |p: int| (n, slice_at(p, k as int))),
            edge_triples(*out) == t0,
            r@ == Seq::new(i as nat, |p: int| Node((start + p) as usize)),
        decreases indices@.len() - i,
    {
        let ghost before = *out;
        let id = out.add_node((n, indices[i]));
        r.push(id);
        i = i + 1;
        proof {
            assert(node_weights(*out) =~= node_weights(before).push((n, slice_at(i - 1, k as int))));
            assert(node_weights(*out) =~= w0 + Seq::new(i as nat, |p: int| (n, slice_at(p, k as int))));
            assert(edge_triples(*out) =~= edge_triples(before));
            assert(r@ =~= Seq::new(i as nat, |p: int| Node((start + p) as usize)));
        }
    }
    r
}

/// Adds the steps as edges, their sources moved by `sbase` and their targets by `tbase`.
fn add_steps(
    out: &mut Graph<(Node, SliceIndex), RewriteOrigin>,
    steps: &Vec<(usize, usize, RewriteOrigin)>,
    sbase: usize,
    tbase: usize,
) -> (r: Vec<Edge>)
    requires
        old(out).wf(),
        forall|q: int|
            0 <= q < steps@.len() ==> sbase + (#[trigger] steps@[q]).0 < old(out).node_seq().len() && tbase
                + steps@[q].1 < old(out).node_seq().len(),
    ensures
        final(out).wf(),
        node_weights(*final(out)) == node_weights(*old(out)),
        edge_triples(*final(out)) == edge_triples(*old(out)) + place(steps@, sbase as int, tbase as int),
        r@ == Seq::new(steps@.len(), |q: int| Edge((old(out).edge_seq().len() + q) as usize)),
{
    let ghost start = old(out).edge_seq().len();
    let ghost w0 = node_weights(*out);
    let ghost t0 = edge_triples(*out);
    let mut r: Vec<Edge> = Vec::new();
    let mut i: usize = 0;
    while i < steps.len()
        invariant
            i <= steps@.len(),
            out.wf(),
            out.node_seq().len() == old(out).node_seq().len(),
            out.edge_seq().len() == start + i,
            forall|q: int|
                0 <= q < steps@.len() ==> sbase + (#[trigger] steps@[q]).0 < out.node_seq().len() && tbase
                    + steps@[q].1 < out.node_seq().len(),
            node_weights(*out) == w0,
            edge_triples(*out) == t0 + place(steps@.subrange(0, i as int), sbase as int, tbase as int),
            r@ == Seq::new(i as nat, |q: int| Edge((start + q) as usize)),
        decreases steps@.len() - i,
    {
        let ghost before = *out;
        let st = steps[i];
        proof {
            out.lemma_size_bound();
            assert(st == steps@[i as int]);
        }
        let id = out.add_edge(Node(sbase + st.0), Node(tbase + st.1), st.2);
        r.push(id);
        i = i + 1;
        proof {
            assert(node_weights(*out) =~= node_weights(before));
            assert(steps@.subrange(0, i as int) =~= steps@.subrange(0, i - 1).push(st));
            assert(edge_triples(*out) =~= edge_triples(before).push(
                ((sbase + st.0) as usize, (tbase + st.1) as usize, st.2),
            ));
            assert(place(steps@.subrange(0, i as int), sbase as int, tbase as int) =~= place(
                steps@.subrange(0, i - 1),
                sbase as int,
                tbase as int,
            ).push(((st.0 + sbase) as usize, (st.1 + tbase) as usize, st.2)));
            assert(edge_triples(*out) =~= t0 + place(steps@.subrange(0, i as int), sbase as int, tbase as int));
            assert(r@ =~= Seq::new(i as nat, |q: int| Edge((start + q) as usize)));
        }
    }
    assert(steps@.subrange(0, steps@.len() as int) =~= steps@);
    r
}

/// The exploded graph: one node per slice of each diagram, one edge per rewrite between
/// slices, and for each node and edge of the graph that was exploded the nodes and edges
/// that came from it.
pub struct ExplosionOutput {
    pub output: Graph<(Node, SliceIndex), RewriteOrigin>,
    pub node_to_nodes: Vec<Vec<Node>>,
    pub node_to_edges: Vec<Vec<Edge>>,
    pub edge_to_edges: Vec<Vec<Edge>>,
}

/// `x` is the explosion of `g`: the slices of the diagrams, node by node, each named by its
/// node and slice index; then the rewrites among the slices of each diagram, node by node;
/// then the rewrites that each edge induces between the slices of its ends, edge by edge.
/// The maps list, for each node, its slices and its internal rewrites, and for each edge
/// its rewrites, in the order they were added.
pub open spec fn is_explosion(g: Graph<Diagram, Rewrite>, x: ExplosionOutput) -> bool {
    let sizes = node_sizes(g);
    let n = g.node_seq().len() as int;
    let m = g.edge_seq().len() as int;
    &&& x.output.wf()
    &&& node_weights(x.output) == slices_upto(sizes, n)
    &&& edge_triples(x.output) == internal_upto(sizes, n) + external_upto(g, m)
    &&& x.node_to_nodes@.len() == n
    &&& forall|v: int|
        0 <= v < n ==> (#[trigger] x.node_to_nodes@[v])@ == Seq::new(
            2 * sizes[v] + 3,
            |p: int| Node((slices_upto(sizes, v).len() + p) as usize),
        )
    &&& x.node_to_edges@.len() == n
    &&& forall|v: int|
        0 <= v < n ==> (#[trigger] x.node_to_edges@[v])@ == Seq::new(
            2 * sizes[v] + 2,
            |q: int| Edge((internal_upto(sizes, v).len() + q) as usize),
        )
    &&& x.edge_to_edges@.len() == m
    &&& forall|e: int|
        0 <= e < m ==> (#[trigger] x.edge_to_edges@[e])@ == Seq::new(
            edge_steps(g, e).len(),
            |q: int| Edge((internal_upto(sizes, n).len() + external_upto(g, e).len() + q) as usize),
        )
}

proof fn lemma_internal_upto_len(sizes: Seq<nat>, n: int)
    requires
        0 <= n,
    ensures
        internal_upto(sizes, n + 1).len() == internal_upto(sizes, n).len() + 2 * sizes[n] + 2,
{
    assert(internal_upto(sizes, n + 1) == internal_upto(sizes, n) + place(
        internal_steps(sizes[n]),
        slices_upto(sizes, n).len() as int,
        slices_upto(sizes, n).len() as int,
    ));
}

proof fn lemma_external_upto_len(g: Graph<Diagram, Rewrite>, m: int, k: int)
    requires
        0 <= m <= k,
    ensures
        external_upto(g, m).len() <= external_upto(g, k).len(),
    decreases k - m,
{
    if m < k {
        lemma_external_upto_len(g, m, k - 1);
    }
}

/// Explodes a graph of diagrams and rewrites into the graph of their slices one dimension
/// down. Fails when some node holds a point or some edge a 0-rewrite.
pub fn explode(g: &Graph<Diagram, Rewrite>) -> (r: Result<ExplosionOutput, DimensionError>)
    requires
        g.wf(),
        well_typed(*g) ==> rewrites_fit(*g) && explosion_fits(*g),
    ensures
        r is Err <==> !well_typed(*g),
        r matches Ok(x) ==> is_explosion(*g, x),
{
    let ghost sizes = node_sizes(*g);
    let nn = g.node_count();
    let ne = g.edge_count();
    let mut ks: Vec<usize> = Vec::new();
    let mut i: usize = 0;
    while i < nn
        invariant
            nn == g.node_seq().len(),
            i <= nn,
            sizes == node_sizes(*g),
            ks@.len() == i,
            forall|v: int| 0 <= v < i ==> ks@[v] == sizes[v] && (#[trigger] g.node_seq()[v]).weight() is DiagramN,
        decreases nn - i,
    {
        assert(sizes[i as int] == size_of(g.node_seq()[i as int].weight()));
        match g.node_weight(Node(i)) {
            Some(Diagram::DiagramN(d)) => {
                ks.push(d.size());
            },
            _ => {
                assert(!(g.node_seq()[i as int].weight() is DiagramN));
                return Err(DimensionError);
            },
        }
        i = i + 1;
    }
    let mut e: usize = 0;
    while e < ne
        invariant
            ne == g.edge_seq().len(),
            e <= ne,
            forall|f: int| 0 <= f < e ==> (#[trigger] g.edge_seq()[f]).weight() is RewriteN,
        decreases ne - e,
    {
        match g.edge_weight(Edge(e)) {
            Some(Rewrite::RewriteN(_)) => {},
            _ => {
                assert(!(g.edge_seq()[e as int].weight() is RewriteN));
                return Err(DimensionError);
            },
        }
        e = e + 1;
    }
    assert(well_typed(*g));
    let ghost total = slices_upto(sizes, nn as int).len();
    let mut out: Graph<(Node, SliceIndex), RewriteOrigin> = Graph::new();
    let mut node_to_nodes: Vec<Vec<Node>> = Vec::new();
    let mut node_to_edges: Vec<Vec<Edge>> = Vec::new();
    let mut bases: Vec<usize> = Vec::new();
    assert(node_weights(out) =~= slices_upto(sizes, 0));
    assert(edge_triples(out) =~= internal_upto(sizes, 0));
    let mut n: usize = 0;
    while n < nn
        invariant
            nn == g.node_seq().len(),
            n <= nn,
            sizes == node_sizes(*g),
            sizes.len() == nn,
            ks@.len() == nn,
            forall|v: int| 0 <= v < nn ==> ks@[v] == sizes[v],
            total == slices_upto(sizes, nn as int).len(),
            total <= usize::MAX,
            out.wf(),
            node_weights(out) == slices_upto(sizes, n as int),
            edge_triples(out) == internal_upto(sizes, n as int),
            bases@.len() == n,
            forall|v: int| 0 <= v < n ==> bases@[v] == slices_upto(sizes, v).len(),
            node_to_nodes@.len() == n,
            forall|v: int|
                0 <= v < n ==> (#[trigger] node_to_nodes@[v])@ == Seq::new(
                    2 * sizes[v] + 3,
                    |p: int| Node((slices_upto(sizes, v).len() + p) as usize),
                ),
            node_to_edges@.len() == n,
            forall|v: int|
                0 <= v < n ==> (#[trigger] node_to_edges@[v])@ == Seq::new(
                    2 * sizes[v] + 2,
                    |q: int| Edge((internal_upto(sizes, v).len() + q) as usize),
                ),
        decreases nn - n,
    {
        let k = ks[n];
        let base = out.node_count();
        proof {
            lemma_slices_upto_len(sizes, n as int, nn as int);
            assert(base == slices_upto(sizes, n as int).len());
        }
        let ids = add_slices(&mut out, Node(n), k);
        let steps = internal_steps_of(k);
        proof {
            assert(node_weights(out).len() == out.node_seq().len());
            assert(out.node_seq().len() == base + 2 * k + 3);
            assert forall|q: int| 0 <= q < steps@.len() implies base + (#[trigger] steps@[q]).0 < out.node_seq().len()
                && base + steps@[q].1 < out.node_seq().len() by {
                assert(steps@[q].0 < 2 * k + 3 && steps@[q].1 < 2 * k + 3);
            }
        }
        let eids = add_steps(&mut out, &steps, base, base);
        proof {
            assert(node_weights(out) =~= slices_upto(sizes, n + 1));
            assert(edge_triples(out) =~= internal_upto(sizes, n + 1));
            lemma_internal_upto_len(sizes, n as int);
            assert(eids@ =~= Seq::new(
                2 * sizes[n as int] + 2,
                |q: int| Edge((internal_upto(sizes, n as int).len() + q) as usize),
            ));
        }
        bases.push(base);
        node_to_nodes.push(ids);
        node_to_edges.push(eids);
        n = n + 1;
    }
    let ghost internal = internal_upto(sizes, nn as int);
    let mut edge_to_edges: Vec<Vec<Edge>> = Vec::new();
    assert(edge_triples(out) =~= internal + external_upto(*g, 0));
    let mut e: usize = 0;
    while e < ne
        invariant
            nn == g.node_seq().len(),
            ne == g.edge_seq().len(),
            g.wf(),
            e <= ne,
            sizes == node_sizes(*g),
            sizes.len() == nn,
            ks@.len() == nn,
            forall|v: int| 0 <= v < nn ==> ks@[v] == sizes[v],
            bases@.len() == nn,
            forall|v: int| 0 <= v < nn ==> bases@[v] == slices_upto(sizes, v).len(),
            well_typed(*g),
            rewrites_fit(*g),
            out.wf(),
            node_weights(out) == slices_upto(sizes, nn as int),
            internal == internal_upto(sizes, nn as int),
            edge_triples(out) == internal + external_upto(*g, e as int),
            edge_to_edges@.len() == e,
            forall|f: int|
                0 <= f < e ==> (#[trigger] edge_to_edges@[f])@ == Seq::new(
                    edge_steps(*g, f).len(),
                    |q: int| Edge((internal.len() + external_upto(*g, f).len() + q) as usize),
                ),
        decreases ne - e,
    {
        let s = g.source(Edge(e));
        let t = g.target(Edge(e));
        match g.edge_weight(Edge(e)) {
            Some(Rewrite::RewriteN(rw)) => {
                let steps = external_steps_of(rw, ks[s.0], ks[t.0]);
                proof {
                    lemma_slices_upto_len(sizes, s.0 as int, nn as int);
                    lemma_slices_upto_len(sizes, t.0 as int, nn as int);
                }
                proof {
                    assert(node_weights(out).len() == out.node_seq().len());
                    assert forall|q: int| 0 <= q < steps@.len() implies bases@[s.0 as int] + (#[trigger] steps@[q]).0
                        < out.node_seq().len() && bases@[t.0 as int] + steps@[q].1 < out.node_seq().len() by {
                        assert(steps@[q].0 < 2 * ks@[s.0 as int] + 3 && steps@[q].1 < 2 * ks@[t.0 as int] + 3);
                    }
                }
                let eids = add_steps(&mut out, &steps, bases[s.0], bases[t.0]);
                proof {
                    assert(steps@ == edge_steps(*g, e as int));
                    assert(edge_triples(out) =~= internal + external_upto(*g, e + 1));
                }
                edge_to_edges.push(eids);
            },
            _ => {
                assert(false);
                return Err(DimensionError);
            },
        }
        e = e + 1;
    }
    Ok(ExplosionOutput { output: out, node_to_nodes, node_to_edges, edge_to_edges })
}

proof fn lemma_slices_upto_index(sizes: Seq<nat>, m: int, n: int, p: int)
    requires
        0 <= n < m <= sizes.len(),
        0 <= p < 2 * sizes[n] + 3,
    ensures
        slices_upto(sizes, n).len() + p < slices_upto(sizes, m).len(),
        slices_upto(sizes, m)[slices_upto(sizes, n).len() + p] == (Node(n as usize), slice_at(p, sizes[n] as int)),
    decreases m,
{
    lemma_slices_upto_len(sizes, n, m);
    if n < m - 1 {
        lemma_slices_upto_index(sizes, m - 1, n, p);
        lemma_slices_upto_len(sizes, n, m - 1);
    }
}

proof fn lemma_internal_upto_index(sizes: Seq<nat>, m: int, n: int, q: int)
    requires
        0 <= n < m <= sizes.len(),
        0 <= q < 2 * sizes[n] + 2,
    ensures
        internal_upto(sizes, n).len() + q < internal_upto(sizes, m).len(),
        internal_upto(sizes, m)[internal_upto(sizes, n).len() + q] == place(
            internal_steps(sizes[n]),
            slices_upto(sizes, n).len() as int,
            slices_upto(sizes, n).len() as int,
        )[q],
    decreases m,
{
    lemma_internal_upto_len(sizes, n);
    lemma_internal_upto_len(sizes, m - 1);
    if n < m - 1 {
        lemma_internal_upto_index(sizes, m - 1, n, q);
    }
}

proof fn lemma_external_upto_index(g: Graph<Diagram, Rewrite>, m: int, e: int, q: int)
    requires
        0 <= e < m,
        0 <= q < edge_steps(g, e).len(),
    ensures
        external_upto(g, e).len() + q < external_upto(g, m).len(),
        external_upto(g, m)[external_upto(g, e).len() + q] == place(
            edge_steps(g, e),
            slices_upto(node_sizes(g), g.edge_seq()[e].source_spec().0 as int).len() as int,
            slices_upto(node_sizes(g), g.edge_seq()[e].target_spec().0 as int).len() as int,
        )[q],
    decreases m,
{
    if e < m - 1 {
        lemma_external_upto_index(g, m - 1, e, q);
    } else {
        lemma_external_upto_len(g, e, m - 1);
    }
}

/// The steps among the slices of a diagram of size `k` stay within its slices.
proof fn lemma_internal_steps_within(k: nat)
    ensures
        steps_within(internal_steps(k), k, k),
{
    let s = internal_steps(k);
    assert forall|q: int| 0 <= q < s.len() implies (#[trigger] s[q]).0 < 2 * k + 3 && s[q].1 < 2 * k + 3 by {
        if 1 <= q < 2 * k + 1 {
            let x = q - 1;
            assert(s[q] == cospan_leg(x / 2, x % 2 == 0));
        }
    }
}

/// The steps of a rewrite that fits between diagrams of sizes `ks` and `kt` go from slices
/// of the first to slices of the second.
proof fn lemma_external_steps_within(c: Seq<Cone>, ks: nat, kt: nat, p: int)
    requires
        fits_between(c, ks, kt),
        0 <= p <= 2 * kt + 3,
    ensures
        steps_within(steps_upto(c, ks, kt, p), ks, kt),
    decreases p,
{
    if p > 0 {
        lemma_external_steps_within(c, ks, kt, p - 1);
        let prev = steps_upto(c, ks, kt, p - 1);
        let here = steps_into(c, ks, kt, p - 1);
        let pp = p - 1;
        assert forall|q: int| 0 <= q < here.len() implies (#[trigger] here[q]).0 < 2 * ks + 3 && here[q].1 < 2
            * kt + 3 by {
            if pp == 0 || pp == 2 * kt + 2 {
            } else if pp % 2 == 1 {
                let j = (pp - 1) / 2;
                lemma_regular_image_monotone(c, j, j);
            } else {
                let j = (pp - 2) / 2;
                lemma_singular_preimage_is_fibre(c, j, 0);
                let pre = singular_preimage_of(c, j);
                if q < 2 * (pre.1 - pre.0) {
                    assert(here[q] == cone_slice_step(pre.0, q, pp));
                }
            }
        }
        let all = steps_upto(c, ks, kt, p);
        assert(all == prev + here);
        assert forall|q: int| 0 <= q < all.len() implies (#[trigger] all[q]).0 < 2 * ks + 3 && all[q].1 < 2 * kt
            + 3 by {
            if q < prev.len() {
                assert(all[q] == prev[q]);
            } else {
                assert(all[q] == here[q - prev.len()]);
            }
        }
    }
}

/// The maps from a graph into its explosion follow the graph: the slices listed for a node
/// are named by that node, each internal rewrite of a node joins two of its slices, and
/// each rewrite listed for an edge goes from a slice of the edge's source to a slice of
/// its target.
pub proof fn lemma_explosion_follows_graph(g: Graph<Diagram, Rewrite>, x: ExplosionOutput)
    requires
        g.wf(),
        well_typed(g),
        rewrites_fit(g),
        explosion_fits(g),
        is_explosion(g, x),
    ensures
        forall|n: int, p: int|
            0 <= n < g.node_seq().len() && 0 <= p < x.node_to_nodes@[n]@.len() ==> node_weights(
                x.output,
            )[(#[trigger] x.node_to_nodes@[n]@[p]).0 as int].0 == Node(n as usize),
        forall|n: int, q: int|
            0 <= n < g.node_seq().len() && 0 <= q < x.node_to_edges@[n]@.len() ==> {
                &&& node_weights(x.output)[edge_triples(x.output)[(#[trigger] x.node_to_edges@[n]@[q]).0 as int].0 as int].0
                    == Node(n as usize)
                &&& node_weights(x.output)[edge_triples(x.output)[x.node_to_edges@[n]@[q].0 as int].1 as int].0
                    == Node(n as usize)
            },
        forall|e: int, q: int|
            0 <= e < g.edge_seq().len() && 0 <= q < x.edge_to_edges@[e]@.len() ==> {
                &&& node_weights(x.output)[edge_triples(x.output)[(#[trigger] x.edge_to_edges@[e]@[q]).0 as int].0 as int].0
                    == g.edge_seq()[e].source_spec()
                &&& node_weights(x.output)[edge_triples(x.output)[x.edge_to_edges@[e]@[q].0 as int].1 as int].0
                    == g.edge_seq()[e].target_spec()
            },
{
    let sizes = node_sizes(g);
    let nn = g.node_seq().len() as int;
    let ne = g.edge_seq().len() as int;
    let nw = node_weights(x.output);
    let et = edge_triples(x.output);
    let internal = internal_upto(sizes, nn);
    assert forall|n: int, p: int|
        0 <= n < nn && 0 <= p < x.node_to_nodes@[n]@.len() implies nw[(#[trigger] x.node_to_nodes@[n]@[p]).0 as int].0
        == Node(n as usize) by {
        lemma_slices_upto_index(sizes, nn, n, p);
    }
    assert forall|n: int, q: int|
        0 <= n < nn && 0 <= q < x.node_to_edges@[n]@.len() implies {
            &&& nw[et[(#[trigger] x.node_to_edges@[n]@[q]).0 as int].0 as int].0 == Node(n as usize)
            &&& nw[et[x.node_to_edges@[n]@[q].0 as int].1 as int].0 == Node(n as usize)
        } by {
        lemma_internal_upto_index(sizes, nn, n, q);
        lemma_internal_steps_within(sizes[n]);
        let st = internal_steps(sizes[n])[q];
        let base = slices_upto(sizes, n).len() as int;
        let i = internal_upto(sizes, n).len() + q;
        assert(et[i] == internal[i]);
        lemma_slices_upto_index(sizes, nn, n, st.0 as int);
        lemma_slices_upto_index(sizes, nn, n, st.1 as int);
    }
    assert forall|e: int, q: int|
        0 <= e < ne && 0 <= q < x.edge_to_edges@[e]@.len() implies {
            &&& nw[et[(#[trigger] x.edge_to_edges@[e]@[q]).0 as int].0 as int].0 == g.edge_seq()[e].source_spec()
            &&& nw[et[x.edge_to_edges@[e]@[q].0 as int].1 as int].0 == g.edge_seq()[e].target_spec()
        } by {
        let ed = g.edge_seq()[e];
        let s = ed.source_spec().0 as int;
        let t = ed.target_spec().0 as int;
        assert(ed.weight() is RewriteN);
        let r = ed.weight()->RewriteN_0;
        assert(fits_between(r.cone_seq(), sizes[s], sizes[t]));
        lemma_external_steps_within(r.cone_seq(), sizes[s], sizes[t], (2 * sizes[t] + 3) as int);
        lemma_external_upto_index(g, ne, e, q);
        let st = edge_steps(g, e)[q];
        let i = internal.len() + external_upto(g, e).len() + q;
        assert(et[i] == external_upto(g, ne)[external_upto(g, e).len() + q]);
        lemma_slices_upto_index(sizes, nn, s, st.0 as int);
        lemma_slices_upto_index(sizes, nn, t, st.1 as int);
    }
}

} // verus!
