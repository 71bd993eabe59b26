use vstd::prelude::*;
use crate::idx::{Idx, IdxVec};

verus! {

/// The index of a node of a `Graph`.
#[derive(Copy, Clone, Debug, PartialEq, Eq, Structural, Hash, PartialOrd, Ord, Default)]
pub struct Node(pub usize);

/// The index of an edge of a `Graph`.
#[derive(Copy, Clone, Debug, PartialEq, Eq, Structural, Hash, PartialOrd, Ord, Default)]
pub struct Edge(pub usize);

impl Idx for Node {
    open spec fn pos(&self) -> nat {
        self.0 as nat
    }

    open spec fn representable(index: nat) -> bool {
        index <= usize::MAX
    }

    open spec fn has_index(&self) -> bool {
        true
    }

    fn index(&self) -> (r: usize) {
        self.0
    }

    fn new(index: usize) -> (r: Self) {
        Node(index)
    }
}

impl Idx for Edge {
    open spec fn pos(&self) -> nat {
        self.0 as nat
    }

    open spec fn representable(index: nat) -> bool {
        index <= usize::MAX
    }

    open spec fn has_index(&self) -> bool {
        true
    }

    fn index(&self) -> (r: usize) {
        self.0
    }

    fn new(index: usize) -> (r: Self) {
        Edge(index)
    }
}

/// A node of a graph: its weight and its incoming and outgoing edges.
#[derive(Clone, Debug)]
pub struct NodeData<T> {
    weight: T,
    incoming: Vec<Edge>,
    outgoing: Vec<Edge>,
}

/// An edge of a graph: its weight and its two endpoints.
#[derive(Clone, Debug)]
pub struct EdgeData<T> {
    weight: T,
    source: Node,
    target: Node,
}

fn copy_edges(v: &Vec<Edge>) -> (r: Vec<Edge>)
    ensures
        r@ == v@,
{
    let mut r: Vec<Edge> = Vec::new();
    let mut i: usize = 0;
    while i < v.len()
        invariant
            i <= v@.len(),
            r@ == v@.subrange(0, i as int),
        decreases v@.len() - i,
    {
        r.push(v[i]);
        i = i + 1;
    }
    r
}

impl<T> NodeData<T> {
    pub closed spec fn weight(&self) -> T {
        self.weight
    }

    pub closed spec fn incoming_seq(&self) -> Seq<Edge> {
        self.incoming@
    }

    pub closed spec fn outgoing_seq(&self) -> Seq<Edge> {
        self.outgoing@
    }

    pub fn inner(&self) -> (r: &T)
        ensures
            *r == self.weight(),
    {
        &self.weight
    }

    pub fn inner_mut(&mut self) -> (r: &mut T)
        ensures
            *r == old(self).weight(),
            final(self).weight() == *final(r),
            final(self).incoming_seq() == old(self).incoming_seq(),
            final(self).outgoing_seq() == old(self).outgoing_seq(),
    {
        &mut self.weight
    }

    pub fn into_inner(self) -> (r: T)
        ensures
            r == self.weight(),
    {
        self.weight
    }

    /// Applies `f` to the weight, keeping the edges.
    pub fn map<F, U>(self, f: F) -> (r: NodeData<U>) where F: FnOnce(T) -> U
        requires
            call_requires(f, (self.weight(),)),
        ensures
            call_ensures(f, (self.weight(),), r.weight()),
            r.incoming_seq() == self.incoming_seq(),
            r.outgoing_seq() == self.outgoing_seq(),
    {
        NodeData { weight: f(self.weight), incoming: self.incoming, outgoing: self.outgoing }
    }

    /// The edges into this node, oldest first.
    pub fn incoming_edges(&self) -> (r: Vec<Edge>)
        ensures
            r@ == self.incoming_seq(),
    {
        copy_edges(&self.incoming)
    }

    /// The edges out of this node, oldest first.
    pub fn outgoing_edges(&self) -> (r: Vec<Edge>)
        ensures
            r@ == self.outgoing_seq(),
    {
        copy_edges(&self.outgoing)
    }
}

impl<T> EdgeData<T> {
    pub closed spec fn weight(&self) -> T {
        self.weight
    }

    pub closed spec fn source_spec(&self) -> Node {
        self.source
    }

    pub closed spec fn target_spec(&self) -> Node {
        self.target
    }

    pub fn inner(&self) -> (r: &T)
        ensures
            *r == self.weight(),
    {
        &self.weight
    }

    pub fn inner_mut(&mut self) -> (r: &mut T)
        ensures
            *r == old(self).weight(),
            final(self).weight() == *final(r),
            final(self).source_spec() == old(self).source_spec(),
            final(self).target_spec() == old(self).target_spec(),
    {
        &mut self.weight
    }

    pub fn into_inner(self) -> (r: T)
        ensures
            r == self.weight(),
    {
        self.weight
    }

    /// Applies `f` to the weight, keeping the endpoints.
    pub fn map<F, U>(self, f: F) -> (r: EdgeData<U>) where F: FnOnce(T) -> U
        requires
            call_requires(f, (self.weight(),)),
        ensures
            call_ensures(f, (self.weight(),), r.weight()),
            r.source_spec() == self.source_spec(),
            r.target_spec() == self.target_spec(),
    {
        EdgeData { weight: f(self.weight), source: self.source, target: self.target }
    }

    pub fn source(&self) -> (r: Node)
        ensures
            r == self.source_spec(),
    {
        self.source
    }

    pub fn target(&self) -> (r: Node)
        ensures
            r == self.target_spec(),
    {
        self.target
    }
}

/// A directed multigraph with weighted nodes and edges. Nodes and edges are never
/// removed, so their indices stay valid.
#[derive(Clone, Debug)]
pub struct Graph<V, E> {
    nodes: IdxVec<Node, NodeData<V>>,
    edges: IdxVec<Edge, EdgeData<E>>,
}

/// The edges among the first `m` whose target is `v`, in order.
pub open spec fn edges_into<E>(edges: Seq<EdgeData<E>>, v: nat, m: nat) -> Seq<Edge>
    decreases m,
{
    if m == 0 {
        Seq::empty()
    } else {
        edges_into(edges, v, (m - 1) as nat) + if edges[m - 1].target_spec().0 == v {
            seq![Edge((m - 1) as usize)]
        } else {
            Seq::empty()
        }
    }
}

/// The edges among the first `m` whose source is `v`, in order.
pub open spec fn edges_from<E>(edges: Seq<EdgeData<E>>, v: nat, m: nat) -> Seq<Edge>
    decreases m,
{
    if m == 0 {
        Seq::empty()
    } else {
        edges_from(edges, v, (m - 1) as nat) + if edges[m - 1].source_spec().0 == v {
            seq![Edge((m - 1) as usize)]
        } else {
            Seq::empty()
        }
    }
}

/// The edges listed by `edges_into` are exactly those below `m` whose target is `v`,
/// each once and in increasing order.
pub proof fn lemma_edges_into<E>(edges: Seq<EdgeData<E>>, v: nat, m: nat)
    requires
        m <= edges.len(),
        m <= usize::MAX + 1,
    ensures
        forall|k: int|
            0 <= k < edges_into(edges, v, m).len() ==> {
                &&& (#[trigger] edges_into(edges, v, m)[k]).0 < m
                &&& edges[edges_into(edges, v, m)[k].0 as int].target_spec().0 == v
            },
        forall|i: int, j: int|
            0 <= i < j < edges_into(edges, v, m).len() ==> (#[trigger] edges_into(edges, v, m)[i]).0
                < (#[trigger] edges_into(edges, v, m)[j]).0,
        forall|e: int|
            0 <= e < m && edges[e].target_spec().0 == v ==> edges_into(edges, v, m).contains(
                Edge(e as usize),
            ),
    decreases m,
{
    if m > 0 {
        lemma_edges_into(edges, v, (m - 1) as nat);
        let prev = edges_into(edges, v, (m - 1) as nat);
        let cur = edges_into(edges, v, m);
        assert forall|e: int|
            0 <= e < m && edges[e].target_spec().0 == v implies cur.contains(Edge(e as usize)) by {
            if e < m - 1 {
                let k = choose|k: int| 0 <= k < prev.len() && prev[k] == Edge(e as usize);
                assert(cur[k] == prev[k]);
            } else {
                assert(cur[prev.len() as int] == Edge(e as usize));
            }
        }
    }
}

/// The edges listed by `edges_from` are exactly those below `m` whose source is `v`,
/// each once and in increasing order.
pub proof fn lemma_edges_from<E>(edges: Seq<EdgeData<E>>, v: nat, m: nat)
    requires
        m <= edges.len(),
        m <= usize::MAX + 1,
    ensures
        forall|k: int|
            0 <= k < edges_from(edges, v, m).len() ==> {
                &&& (#[trigger] edges_from(edges, v, m)[k]).0 < m
                &&& edges[edges_from(edges, v, m)[k].0 as int].source_spec().0 == v
            },
        forall|i: int, j: int|
            0 <= i < j < edges_from(edges, v, m).len() ==> (#[trigger] edges_from(edges, v, m)[i]).0
                < (#[trigger] edges_from(edges, v, m)[j]).0,
        forall|e: int|
            0 <= e < m && edges[e].source_spec().0 == v ==> edges_from(edges, v, m).contains(
                Edge(e as usize),
            ),
    decreases m,
{
    if m > 0 {
        lemma_edges_from(edges, v, (m - 1) as nat);
        let prev = edges_from(edges, v, (m - 1) as nat);
        let cur = edges_from(edges, v, m);
        assert forall|e: int|
            0 <= e < m && edges[e].source_spec().0 == v implies cur.contains(Edge(e as usize)) by {
            if e < m - 1 {
                let k = choose|k: int| 0 <= k < prev.len() && prev[k] == Edge(e as usize);
                assert(cur[k] == prev[k]);
            } else {
                assert(cur[prev.len() as int] == Edge(e as usize));
            }
        }
    }
}

proof fn lemma_edges_prefix<E>(a: Seq<EdgeData<E>>, b: Seq<EdgeData<E>>, v: nat, m: nat)
    requires
        m <= a.len(),
        m <= b.len(),
        forall|i: int| 0 <= i < m ==> a[i] == b[i],
    ensures
        edges_into(a, v, m) == edges_into(b, v, m),
        edges_from(a, v, m) == edges_from(b, v, m),
    decreases m,
{
    if m > 0 {
        lemma_edges_prefix(a, b, v, (m - 1) as nat);
    }
}

impl<V, E> Graph<V, E> {
    /// The nodes, by index.
    pub closed spec fn node_seq(&self) -> Seq<NodeData<V>> {
        self.nodes@
    }

    /// A graph never holds more than `usize::MAX` nodes or edges.
    pub proof fn lemma_size_bound(&self)
        ensures
            self.node_seq().len() <= usize::MAX,
            self.edge_seq().len() <= usize::MAX,
    {
        self.nodes.lemma_len_bound();
        self.edges.lemma_len_bound();
    }

    /// The edges, by index.
    pub closed spec fn edge_seq(&self) -> Seq<EdgeData<E>> {
        self.edges@
    }

    /// Every edge joins two nodes of the graph, and each node lists exactly the edges
    /// into it and out of it, oldest first.
    pub open spec fn wf(&self) -> bool {
        let n = self.node_seq().len();
        let m = self.edge_seq().len();
        &&& forall|e: int|
            0 <= e < m ==> (#[trigger] self.edge_seq()[e]).source_spec().0 < n
                && self.edge_seq()[e].target_spec().0 < n
        &&& forall|v: int|
            0 <= v < n ==> (#[trigger] self.node_seq()[v]).incoming_seq() == edges_into(
                self.edge_seq(),
                v as nat,
                m,
            ) && self.node_seq()[v].outgoing_seq() == edges_from(self.edge_seq(), v as nat, m)
    }

    pub fn new() -> (r: Self)
        ensures
            r.wf(),
            r.node_seq() == Seq::<NodeData<V>>::empty(),
            r.edge_seq() == Seq::<EdgeData<E>>::empty(),
    {
        Graph { nodes: IdxVec::new(), edges: IdxVec::new() }
    }

    /// Adds a node without edges.
    pub fn add_node(&mut self, v: V) -> (r: Node)
        requires
            old(self).wf(),
        ensures
            final(self).wf(),
            r.0 == old(self).node_seq().len(),
            final(self).edge_seq() == old(self).edge_seq(),
            final(self).node_seq().len() == old(self).node_seq().len() + 1,
            forall|i: int|
                0 <= i < old(self).node_seq().len() ==> #[trigger] final(self).node_seq()[i] == old(self).node_seq()[i],
            final(self).node_seq().last().weight() == v,
            final(self).node_seq().last().incoming_seq() == Seq::<Edge>::empty(),
            final(self).node_seq().last().outgoing_seq() == Seq::<Edge>::empty(),
    {
        proof {
            self.lemma_size_bound();
        }
        let nd = NodeData { weight: v, incoming: Vec::new(), outgoing: Vec::new() };
        let r = self.nodes.push(nd);
        proof {
            let n = old(self).node_seq().len();
            let m = self.edge_seq().len();
            assert(edges_into(self.edge_seq(), n, m) =~= Seq::empty()) by {
                lemma_edges_into(self.edge_seq(), n, m);
                if edges_into(self.edge_seq(), n, m).len() > 0 {
                    let e = edges_into(self.edge_seq(), n, m)[0];
                    assert(self.edge_seq()[e.0 as int].target_spec().0 < n);
                }
            }
            assert(edges_from(self.edge_seq(), n, m) =~= Seq::empty()) by {
                lemma_edges_from(self.edge_seq(), n, m);
                if edges_from(self.edge_seq(), n, m).len() > 0 {
                    let e = edges_from(self.edge_seq(), n, m)[0];
                    assert(self.edge_seq()[e.0 as int].source_spec().0 < n);
                }
            }
        }
        r
    }

    /// Adds an edge from `s` to `t`; it becomes the newest edge out of `s` and into `t`.
    pub fn add_edge(&mut self, s: Node, t: Node, e: E) -> (r: Edge)
        requires
            old(self).wf(),
            s.0 < old(self).node_seq().len(),
            t.0 < old(self).node_seq().len(),
        ensures
            final(self).wf(),
            r.0 == old(self).edge_seq().len(),
            final(self).node_seq().len() == old(self).node_seq().len(),
            final(self).edge_seq().len() == old(self).edge_seq().len() + 1,
            forall|i: int|
                0 <= i < old(self).edge_seq().len() ==> #[trigger] final(self).edge_seq()[i] == old(self).edge_seq()[i],
            final(self).edge_seq().last().weight() == e,
            final(self).edge_seq().last().source_spec() == s,
            final(self).edge_seq().last().target_spec() == t,
            forall|i: int|
                0 <= i < old(self).node_seq().len() ==> (#[trigger] final(self).node_seq()[i]).weight()
                    == old(self).node_seq()[i].weight(),
    {
        let ghost old_edges = self.edge_seq();
        let ghost m = old_edges.len();
        proof {
            self.lemma_size_bound();
        }
        let id = self.edges.push(EdgeData { weight: e, source: s, target: t });
        let mut sd = self.nodes.index_mut(s);
        sd.outgoing.push(id);
        let mut td = self.nodes.index_mut(t);
        td.incoming.push(id);
        proof {
            let new_edges = self.edge_seq();
            assert forall|v: int| 0 <= v < self.node_seq().len() implies (#[trigger] self.node_seq()[v]).incoming_seq()
                == edges_into(self.edge_seq(), v as nat, self.edge_seq().len())
                && self.node_seq()[v].outgoing_seq() == edges_from(
                self.edge_seq(),
                v as nat,
                self.edge_seq().len(),
            ) by {
                lemma_edges_prefix(old_edges, new_edges, v as nat, m);
                assert(old(self).node_seq()[v].incoming_seq() == edges_into(old_edges, v as nat, m));
            }
        }
        id
    }

    /// The first edge out of `s` whose target is `t`, if any.
    pub fn find_edge(&self, s: Node, t: Node) -> (r: Option<Edge>)
        requires
            self.wf(),
            s.0 < self.node_seq().len(),
        ensures
            r matches Some(e) ==> {
                &&& e.0 < self.edge_seq().len()
                &&& self.edge_seq()[e.0 as int].source_spec() == s
                &&& self.edge_seq()[e.0 as int].target_spec() == t
                &&& forall|f: int|
                    0 <= f < e.0 ==> !(self.edge_seq()[f].source_spec() == s
                        && self.edge_seq()[f].target_spec() == t)
            },
            r is None ==> forall|f: int|
                0 <= f < self.edge_seq().len() ==> !(self.edge_seq()[f].source_spec() == s
                    && (#[trigger] self.edge_seq()[f]).target_spec() == t),
    {
        let nd = self.nodes.index(s);
        let out = &nd.outgoing;
        let ghost m = self.edge_seq().len();
        proof {
            self.lemma_size_bound();
            lemma_edges_from(self.edge_seq(), s.0 as nat, m);
        }
        let mut k: usize = 0;
        while k < out.len()
            invariant
                self.wf(),
                s.0 < self.node_seq().len(),
                out@ == edges_from(self.edge_seq(), s.0 as nat, m),
                m == self.edge_seq().len(),
                k <= out@.len(),
                forall|j: int|
                    0 <= j < k ==> self.edge_seq()[(#[trigger] out@[j]).0 as int].target_spec() != t,
                forall|q: int|
                    0 <= q < out@.len() ==> {
                        &&& (#[trigger] out@[q]).0 < m
                        &&& self.edge_seq()[out@[q].0 as int].source_spec().0 == s.0
                    },
                forall|i: int, j: int|
                    0 <= i < j < out@.len() ==> (#[trigger] out@[i]).0 < (#[trigger] out@[j]).0,
                forall|f: int|
                    0 <= f < m && self.edge_seq()[f].source_spec().0 == s.0 ==> out@.contains(
                        Edge(f as usize),
                    ),
            decreases out@.len() - k,
        {
            let e = out[k];
            if self.edges.index(e).target == t {
                proof {
                    assert forall|f: int|
                        0 <= f < e.0 implies !(self.edge_seq()[f].source_spec() == s
                        && self.edge_seq()[f].target_spec() == t) by {
                        if self.edge_seq()[f].source_spec() == s {
                            let q = choose|q: int| 0 <= q < out@.len() && out@[q] == Edge(f as usize);
                            if q >= k {
                                if q > k {
                                    assert(out@[k as int].0 < out@[q].0);
                                }
                            }
                        }
                    }
                }
                return Some(e);
            }
            k = k + 1;
        }
        proof {
            assert forall|f: int|
                0 <= f < m implies !(self.edge_seq()[f].source_spec() == s
                && (#[trigger] self.edge_seq()[f]).target_spec() == t) by {
                if self.edge_seq()[f].source_spec() == s {
                    let q = choose|q: int| 0 <= q < out@.len() && out@[q] == Edge(f as usize);
                    assert(self.edge_seq()[out@[q].0 as int].target_spec() != t);
                }
            }
        }
        None
    }

    /// Sets the weight of the first edge from `s` to `t`, or adds such an edge if there
    /// is none.
    pub fn update_edge(&mut self, s: Node, t: Node, e: E) -> (r: Edge)
        requires
            old(self).wf(),
            s.0 < old(self).node_seq().len(),
            t.0 < old(self).node_seq().len(),
        ensures
            final(self).wf(),
            r.0 < final(self).edge_seq().len(),
            final(self).edge_seq()[r.0 as int].source_spec() == s,
            final(self).edge_seq()[r.0 as int].target_spec() == t,
            final(self).edge_seq()[r.0 as int].weight() == e,
            final(self).node_seq().len() == old(self).node_seq().len(),
            old(self).find_edge_spec(s, t) matches Some(f) ==> {
                &&& r == f
                &&& final(self).edge_seq().len() == old(self).edge_seq().len()
                &&& forall|i: int|
                    0 <= i < old(self).edge_seq().len() && i != f.0 ==> #[trigger] final(self).edge_seq()[i] == old(self).edge_seq()[i]
                &&& final(self).node_seq() == old(self).node_seq()
            },
            old(self).find_edge_spec(s, t) is None ==> {
                &&& r.0 == old(self).edge_seq().len()
                &&& final(self).edge_seq().len() == old(self).edge_seq().len() + 1
                &&& forall|i: int|
                    0 <= i < old(self).edge_seq().len() ==> #[trigger] final(self).edge_seq()[i]
                        == old(self).edge_seq()[i]
                &&& forall|i: int|
                    0 <= i < old(self).node_seq().len() ==> (#[trigger] final(self).node_seq()[i]).weight()
                        == old(self).node_seq()[i].weight()
            },
            final(self).find_edge_spec(s, t) == Some(r),
    {
        if let Some(id) = self.find_edge(s, t) {
            proof {
                self.lemma_find_edge_spec(s, t, Some(id));
            }
            let ghost before = *self;
            let ed = self.edges.index_mut(id);
            let w = ed.inner_mut();
            *w = e;
            proof {
                assert forall|v: int| 0 <= v < self.node_seq().len() implies (#[trigger] self.node_seq()[v]).incoming_seq()
                    == edges_into(self.edge_seq(), v as nat, self.edge_seq().len())
                    && self.node_seq()[v].outgoing_seq() == edges_from(
                    self.edge_seq(),
                    v as nat,
                    self.edge_seq().len(),
                ) by {
                    Self::lemma_same_endpoints(before.edge_seq(), self.edge_seq(), v as nat,
                        self.edge_seq().len());
                }
                assert forall|f: int| 0 <= f < id.0 implies !(self.edge_seq()[f].source_spec() == s
                    && self.edge_seq()[f].target_spec() == t) by {
                    assert(self.edge_seq()[f] == before.edge_seq()[f]);
                }
                self.lemma_find_edge_spec(s, t, Some(id));
            }
            return id;
        }
        proof {
            self.lemma_find_edge_spec(s, t, None);
        }
        let ghost before = *self;
        let r = self.add_edge(s, t, e);
        proof {
            assert forall|f: int| 0 <= f < r.0 implies !(self.edge_seq()[f].source_spec() == s
                && self.edge_seq()[f].target_spec() == t) by {
                assert(self.edge_seq()[f] == before.edge_seq()[f]);
            }
            self.lemma_find_edge_spec(s, t, Some(r));
        }
        r
    }

    proof fn lemma_same_endpoints(a: Seq<EdgeData<E>>, b: Seq<EdgeData<E>>, v: nat, m: nat)
        requires
            m <= a.len(),
            m <= b.len(),
            forall|i: int|
                0 <= i < m ==> a[i].source_spec() == b[i].source_spec() && a[i].target_spec()
                    == b[i].target_spec(),
        ensures
            edges_into(a, v, m) == edges_into(b, v, m),
            edges_from(a, v, m) == edges_from(b, v, m),
        decreases m,
    {
        if m > 0 {
            Self::lemma_same_endpoints(a, b, v, (m - 1) as nat);
        }
    }

    /// The first edge from `s` to `t`, if any.
    pub open spec fn find_edge_spec(&self, s: Node, t: Node) -> Option<Edge> {
        if exists|f: int|
            0 <= f < self.edge_seq().len() && (#[trigger] self.edge_seq()[f]).source_spec() == s
                && self.edge_seq()[f].target_spec() == t {
            let f = choose|f: int|
                0 <= f < self.edge_seq().len() && (#[trigger] self.edge_seq()[f]).source_spec()
                    == s && self.edge_seq()[f].target_spec() == t && forall|g: int|
                    0 <= g < f ==> !(self.edge_seq()[g].source_spec() == s
                        && self.edge_seq()[g].target_spec() == t);
            Some(Edge(f as usize))
        } else {
            None
        }
    }

    proof fn lemma_find_edge_spec(&self, s: Node, t: Node, r: Option<Edge>)
        requires
            r matches Some(e) ==> {
                &&& e.0 < self.edge_seq().len()
                &&& self.edge_seq()[e.0 as int].source_spec() == s
                &&& self.edge_seq()[e.0 as int].target_spec() == t
                &&& forall|f: int|
                    0 <= f < e.0 ==> !(self.edge_seq()[f].source_spec() == s
                        && self.edge_seq()[f].target_spec() == t)
            },
            r is None ==> forall|f: int|
                0 <= f < self.edge_seq().len() ==> !(self.edge_seq()[f].source_spec() == s
                    && (#[trigger] self.edge_seq()[f]).target_spec() == t),
        ensures
            self.find_edge_spec(s, t) == r,
    {
        if let Some(e) = r {
            let ei = e.0 as int;
            assert(0 <= ei < self.edge_seq().len() && (#[trigger] self.edge_seq()[ei]).source_spec()
                == s && self.edge_seq()[ei].target_spec() == t);
            let f = choose|f: int|
                0 <= f < self.edge_seq().len() && (#[trigger] self.edge_seq()[f]).source_spec()
                    == s && self.edge_seq()[f].target_spec() == t && forall|g: int|
                    0 <= g < f ==> !(self.edge_seq()[g].source_spec() == s
                        && self.edge_seq()[g].target_spec() == t);
            assert(f == ei) by {
                if f < ei {
                } else if f > ei {
                    assert(!(self.edge_seq()[ei].source_spec() == s
                        && self.edge_seq()[ei].target_spec() == t));
                }
            }
        }
    }

    /// Calls `f` on the data of a node.
    pub fn with_node<F, U>(&self, node: Node, f: F) -> (r: U) where F: FnOnce(&NodeData<V>) -> U
        requires
            node.0 < self.node_seq().len(),
            call_requires(f, (&self.node_seq()[node.0 as int],)),
        ensures
            call_ensures(f, (&self.node_seq()[node.0 as int],), r),
    {
        f(self.nodes.index(node))
    }

    /// Calls `f` on the data of an edge.
    pub fn with_edge<F, U>(&self, edge: Edge, f: F) -> (r: U) where F: FnOnce(&EdgeData<E>) -> U
        requires
            edge.0 < self.edge_seq().len(),
            call_requires(f, (&self.edge_seq()[edge.0 as int],)),
        ensures
            call_ensures(f, (&self.edge_seq()[edge.0 as int],), r),
    {
        f(self.edges.index(edge))
    }

    /// Maps the weights of nodes and edges, keeping the shape of the graph.
    pub fn map<F, G, V2, E2>(self, f: F, g: G) -> (r: Graph<V2, E2>) where
        F: Fn(V) -> V2,
        G: Fn(E) -> E2,
        requires
            forall|i: int|
                0 <= i < self.node_seq().len() ==> call_requires(f, ((#[trigger] self.node_seq()[i]).weight(),)),
            forall|i: int|
                0 <= i < self.edge_seq().len() ==> call_requires(g, ((#[trigger] self.edge_seq()[i]).weight(),)),
        ensures
            r.node_seq().len() == self.node_seq().len(),
            r.edge_seq().len() == self.edge_seq().len(),
            forall|i: int|
                0 <= i < self.node_seq().len() ==> {
                    &&& call_ensures(f, (self.node_seq()[i].weight(),), (#[trigger] r.node_seq()[i]).weight())
                    &&& r.node_seq()[i].incoming_seq() == self.node_seq()[i].incoming_seq()
                    &&& r.node_seq()[i].outgoing_seq() == self.node_seq()[i].outgoing_seq()
                },
            forall|i: int|
                0 <= i < self.edge_seq().len() ==> {
                    &&& call_ensures(g, (self.edge_seq()[i].weight(),), (#[trigger] r.edge_seq()[i]).weight())
                    &&& r.edge_seq()[i].source_spec() == self.edge_seq()[i].source_spec()
                    &&& r.edge_seq()[i].target_spec() == self.edge_seq()[i].target_spec()
                },
            self.wf() ==> r.wf(),
    {
        let ghost ns = self.node_seq();
        let ghost es = self.edge_seq();
        let nodes = map_nodes(self.nodes, &f);
        let edges = map_edges(self.edges, &g);
        let r = Graph { nodes, edges };
        proof {
            if self.wf() {
                assert forall|v: int| 0 <= v < r.node_seq().len() implies (#[trigger] r.node_seq()[v]).incoming_seq()
                    == edges_into(r.edge_seq(), v as nat, r.edge_seq().len())
                    && r.node_seq()[v].outgoing_seq() == edges_from(
                    r.edge_seq(),
                    v as nat,
                    r.edge_seq().len(),
                ) by {
                    lemma_map_endpoints(es, r.edge_seq(), v as nat, es.len());
                    assert(ns[v].incoming_seq() == edges_into(es, v as nat, es.len()));
                }
            }
        }
        r
    }

    pub fn node_count(&self) -> (r: usize)
        ensures
            r == self.node_seq().len(),
    {
        self.nodes.len()
    }

    pub fn edge_count(&self) -> (r: usize)
        ensures
            r == self.edge_seq().len(),
    {
        self.edges.len()
    }

    /// All nodes with their data, in order.
    pub fn nodes(&self) -> (r: Vec<(Node, &NodeData<V>)>)
        ensures
            r@.len() == self.node_seq().len(),
            forall|i: int|
                0 <= i < r@.len() ==> (#[trigger] r@[i]).0 == Node(i as usize) && *r@[i].1
                    == self.node_seq()[i],
    {
        proof {
            self.lemma_size_bound();
        }
        self.nodes.iter()
    }

    /// All node indices, in order.
    pub fn node_keys(&self) -> (r: Vec<Node>)
        ensures
            r@.len() == self.node_seq().len(),
            forall|i: int| 0 <= i < r@.len() ==> #[trigger] r@[i] == Node(i as usize),
    {
        proof {
            self.lemma_size_bound();
        }
        self.nodes.keys()
    }

    /// All node data, in order.
    pub fn node_values(&self) -> (r: Vec<&NodeData<V>>)
        ensures
            r@.len() == self.node_seq().len(),
            forall|i: int| 0 <= i < r@.len() ==> *(#[trigger] r@[i]) == self.node_seq()[i],
    {
        self.nodes.values()
    }

    /// All edges with their data, in order.
    pub fn edges(&self) -> (r: Vec<(Edge, &EdgeData<E>)>)
        ensures
            r@.len() == self.edge_seq().len(),
            forall|i: int|
                0 <= i < r@.len() ==> (#[trigger] r@[i]).0 == Edge(i as usize) && *r@[i].1
                    == self.edge_seq()[i],
    {
        proof {
            self.lemma_size_bound();
        }
        self.edges.iter()
    }

    /// All edge indices, in order.
    pub fn edge_keys(&self) -> (r: Vec<Edge>)
        ensures
            r@.len() == self.edge_seq().len(),
            forall|i: int| 0 <= i < r@.len() ==> #[trigger] r@[i] == Edge(i as usize),
    {
        proof {
            self.lemma_size_bound();
        }
        self.edges.keys()
    }

    /// All edge data, in order.
    pub fn edge_values(&self) -> (r: Vec<&EdgeData<E>>)
        ensures
            r@.len() == self.edge_seq().len(),
            forall|i: int| 0 <= i < r@.len() ==> *(#[trigger] r@[i]) == self.edge_seq()[i],
    {
        self.edges.values()
    }

    pub fn node_weight(&self, node: Node) -> (r: Option<&V>)
        ensures
            node.0 < self.node_seq().len() ==> r == Some(&self.node_seq()[node.0 as int].weight()),
            node.0 >= self.node_seq().len() ==> r is None,
    {
        match self.nodes.get(node) {
            Some(nd) => Some(nd.inner()),
            None => None,
        }
    }

    pub fn edge_weight(&self, edge: Edge) -> (r: Option<&E>)
        ensures
            edge.0 < self.edge_seq().len() ==> r == Some(&self.edge_seq()[edge.0 as int].weight()),
            edge.0 >= self.edge_seq().len() ==> r is None,
    {
        match self.edges.get(edge) {
            Some(ed) => Some(ed.inner()),
            None => None,
        }
    }

    pub fn node_weight_mut(&mut self, node: Node) -> (r: Option<&mut V>)
        ensures
            node.0 < old(self).node_seq().len() ==> (r matches Some(w) && *w == old(self).node_seq()[node.0 as int].weight() && final(self).node_seq().len() == old(self).node_seq().len() && final(self).node_seq()[node.0 as int].weight() == *final(w)
                && final(self).node_seq()[node.0 as int].incoming_seq() == old(self).node_seq()[node.0 as int].incoming_seq() && final(self).node_seq()[node.0 as int].outgoing_seq()
                == old(self).node_seq()[node.0 as int].outgoing_seq() && forall|i: int|
                0 <= i < old(self).node_seq().len() && i != node.0 ==> #[trigger] final(self).node_seq()[i] == old(self).node_seq()[i]),
            node.0 >= old(self).node_seq().len() ==> r is None && final(self).node_seq() == old(self).node_seq(),
            final(self).edge_seq() == old(self).edge_seq(),
    {
        match self.nodes.get_mut(node) {
            Some(nd) => Some(nd.inner_mut()),
            None => None,
        }
    }

    pub fn edge_weight_mut(&mut self, edge: Edge) -> (r: Option<&mut E>)
        ensures
            edge.0 < old(self).edge_seq().len() ==> (r matches Some(w) && *w == old(self).edge_seq()[edge.0 as int].weight() && final(self).edge_seq().len() == old(self).edge_seq().len() && final(self).edge_seq()[edge.0 as int].weight() == *final(w)
                && final(self).edge_seq()[edge.0 as int].source_spec() == old(self).edge_seq()[edge.0 as int].source_spec() && final(self).edge_seq()[edge.0 as int].target_spec()
                == old(self).edge_seq()[edge.0 as int].target_spec() && forall|i: int|
                0 <= i < old(self).edge_seq().len() && i != edge.0 ==> #[trigger] final(self).edge_seq()[i] == old(self).edge_seq()[i]),
            edge.0 >= old(self).edge_seq().len() ==> r is None && final(self).edge_seq() == old(self).edge_seq(),
            final(self).node_seq() == old(self).node_seq(),
    {
        match self.edges.get_mut(edge) {
            Some(ed) => Some(ed.inner_mut()),
            None => None,
        }
    }

    pub fn source(&self, edge: Edge) -> (r: Node)
        requires
            edge.0 < self.edge_seq().len(),
        ensures
            r == self.edge_seq()[edge.0 as int].source_spec(),
    {
        self.edges.index(edge).source()
    }

    pub fn target(&self, edge: Edge) -> (r: Node)
        requires
            edge.0 < self.edge_seq().len(),
        ensures
            r == self.edge_seq()[edge.0 as int].target_spec(),
    {
        self.edges.index(edge).target()
    }

    /// The edges into a node, oldest first.
    pub fn incoming_edges(&self, node: Node) -> (r: Vec<Edge>)
        requires
            node.0 < self.node_seq().len(),
        ensures
            r@ == self.node_seq()[node.0 as int].incoming_seq(),
    {
        self.nodes.index(node).incoming_edges()
    }

    /// The edges out of a node, oldest first.
    pub fn outgoing_edges(&self, node: Node) -> (r: Vec<Edge>)
        requires
            node.0 < self.node_seq().len(),
        ensures
            r@ == self.node_seq()[node.0 as int].outgoing_seq(),
    {
        self.nodes.index(node).outgoing_edges()
    }

    /// The nodes without incoming edges, in order.
    pub fn sources(&self) -> (r: Vec<Node>)
        ensures
            forall|k: int|
                0 <= k < r@.len() ==> (#[trigger] r@[k]).0 < self.node_seq().len()
                    && self.node_seq()[r@[k].0 as int].incoming_seq().len() == 0,
            forall|j: int, k: int| 0 <= j < k < r@.len() ==> (#[trigger] r@[j]).0 < (#[trigger] r@[k]).0,
            forall|v: int|
                0 <= v < self.node_seq().len() && (#[trigger] self.node_seq()[v]).incoming_seq().len() == 0
                    ==> r@.contains(Node(v as usize)),
    {
        let n = self.nodes.len();
        let mut r: Vec<Node> = Vec::new();
        let mut i: usize = 0;
        while i < n
            invariant
                n == self.node_seq().len(),
                i <= n,
                forall|k: int|
                    0 <= k < r@.len() ==> (#[trigger] r@[k]).0 < i
                        && self.node_seq()[r@[k].0 as int].incoming_seq().len() == 0,
                forall|j: int, k: int| 0 <= j < k < r@.len() ==> (#[trigger] r@[j]).0 < (#[trigger] r@[k]).0,
                forall|v: int|
                    0 <= v < i && (#[trigger] self.node_seq()[v]).incoming_seq().len() == 0 ==> r@.contains(
                        Node(v as usize),
                    ),
            decreases n - i,
        {
            if self.nodes.index(Node(i)).incoming.len() == 0 {
                let ghost old_r = r@;
                r.push(Node(i));
                proof {
                    assert forall|v: int|
                        0 <= v < i + 1 && (#[trigger] self.node_seq()[v]).incoming_seq().len() == 0 implies r@.contains(
                        Node(v as usize),
                    ) by {
                        if v < i {
                            let k = choose|k: int| 0 <= k < old_r.len() && old_r[k] == Node(v as usize);
                            assert(r@[k] == old_r[k]);
                        } else {
                            assert(r@[old_r.len() as int] == Node(i));
                        }
                    }
                }
            }
            i = i + 1;
        }
        r
    }

    /// The nodes without outgoing edges, in order.
    pub fn targets(&self) -> (r: Vec<Node>)
        ensures
            forall|k: int|
                0 <= k < r@.len() ==> (#[trigger] r@[k]).0 < self.node_seq().len()
                    && self.node_seq()[r@[k].0 as int].outgoing_seq().len() == 0,
            forall|j: int, k: int| 0 <= j < k < r@.len() ==> (#[trigger] r@[j]).0 < (#[trigger] r@[k]).0,
            forall|v: int|
                0 <= v < self.node_seq().len() && (#[trigger] self.node_seq()[v]).outgoing_seq().len() == 0
                    ==> r@.contains(Node(v as usize)),
    {
        let n = self.nodes.len();
        let mut r: Vec<Node> = Vec::new();
        let mut i: usize = 0;
        while i < n
            invariant
                n == self.node_seq().len(),
                i <= n,
                forall|k: int|
                    0 <= k < r@.len() ==> (#[trigger] r@[k]).0 < i
                        && self.node_seq()[r@[k].0 as int].outgoing_seq().len() == 0,
                forall|j: int, k: int| 0 <= j < k < r@.len() ==> (#[trigger] r@[j]).0 < (#[trigger] r@[k]).0,
                forall|v: int|
                    0 <= v < i && (#[trigger] self.node_seq()[v]).outgoing_seq().len() == 0 ==> r@.contains(
                        Node(v as usize),
                    ),
            decreases n - i,
        {
            if self.nodes.index(Node(i)).outgoing.len() == 0 {
                let ghost old_r = r@;
                r.push(Node(i));
                proof {
                    assert forall|v: int|
                        0 <= v < i + 1 && (#[trigger] self.node_seq()[v]).outgoing_seq().len() == 0 implies r@.contains(
                        Node(v as usize),
                    ) by {
                        if v < i {
                            let k = choose|k: int| 0 <= k < old_r.len() && old_r[k] == Node(v as usize);
                            assert(r@[k] == old_r[k]);
                        } else {
                            assert(r@[old_r.len() as int] == Node(i));
                        }
                    }
                }
            }
            i = i + 1;
        }
        r
    }
}

fn map_nodes<V, V2, F: Fn(V) -> V2>(nodes: IdxVec<Node, NodeData<V>>, f: &F) -> (r: IdxVec<
    Node,
    NodeData<V2>,
>)
    requires
        forall|i: int| 0 <= i < nodes@.len() ==> call_requires(*f, ((#[trigger] nodes@[i]).weight(),)),
    ensures
        r@.len() == nodes@.len(),
        forall|i: int|
            0 <= i < nodes@.len() ==> {
                &&& call_ensures(*f, (nodes@[i].weight(),), (#[trigger] r@[i]).weight())
                &&& r@[i].incoming_seq() == nodes@[i].incoming_seq()
                &&& r@[i].outgoing_seq() == nodes@[i].outgoing_seq()
            },
{
    let ghost s = nodes@;
    let mut raw = nodes.into_raw();
    let mut rev: Vec<NodeData<V2>> = Vec::new();
    while raw.len() > 0
        invariant
            raw@ == s.subrange(0, s.len() - rev@.len()),
            rev@.len() <= s.len(),
            forall|i: int| 0 <= i < s.len() ==> call_requires(*f, ((#[trigger] s[i]).weight(),)),
            forall|k: int|
                0 <= k < rev@.len() ==> {
                    &&& call_ensures(*f, (s[s.len() - 1 - k].weight(),), (#[trigger] rev@[k]).weight())
                    &&& rev@[k].incoming_seq() == s[s.len() - 1 - k].incoming_seq()
                    &&& rev@[k].outgoing_seq() == s[s.len() - 1 - k].outgoing_seq()
                },
        decreases raw@.len(),
    {
        let ghost k = rev@.len();
        let nd = raw.pop().unwrap();
        assert(nd == s[s.len() - 1 - k]);
        let w = f(nd.weight);
        rev.push(NodeData { weight: w, incoming: nd.incoming, outgoing: nd.outgoing });
    }
    let ghost n = rev@.len();
    let mut out: Vec<NodeData<V2>> = Vec::new();
    while rev.len() > 0
        invariant
            n == s.len(),
            rev@.len() + out@.len() == n,
            forall|k: int|
                0 <= k < rev@.len() ==> {
                    &&& call_ensures(*f, (s[s.len() - 1 - k].weight(),), (#[trigger] rev@[k]).weight())
                    &&& rev@[k].incoming_seq() == s[s.len() - 1 - k].incoming_seq()
                    &&& rev@[k].outgoing_seq() == s[s.len() - 1 - k].outgoing_seq()
                },
            forall|i: int|
                0 <= i < out@.len() ==> {
                    &&& call_ensures(*f, (s[i].weight(),), (#[trigger] out@[i]).weight())
                    &&& out@[i].incoming_seq() == s[i].incoming_seq()
                    &&& out@[i].outgoing_seq() == s[i].outgoing_seq()
                },
        decreases rev@.len(),
    {
        let ghost k = rev@.len() - 1;
        let y = rev.pop().unwrap();
        out.push(y);
    }
    IdxVec::from_vec(out)
}

fn map_edges<E, E2, G: Fn(E) -> E2>(edges: IdxVec<Edge, EdgeData<E>>, g: &G) -> (r: IdxVec<
    Edge,
    EdgeData<E2>,
>)
    requires
        forall|i: int| 0 <= i < edges@.len() ==> call_requires(*g, ((#[trigger] edges@[i]).weight(),)),
    ensures
        r@.len() == edges@.len(),
        forall|i: int|
            0 <= i < edges@.len() ==> {
                &&& call_ensures(*g, (edges@[i].weight(),), (#[trigger] r@[i]).weight())
                &&& r@[i].source_spec() == edges@[i].source_spec()
                &&& r@[i].target_spec() == edges@[i].target_spec()
            },
{
    let ghost s = edges@;
    let mut raw = edges.into_raw();
    let mut rev: Vec<EdgeData<E2>> = Vec::new();
    while raw.len() > 0
        invariant
            raw@ == s.subrange(0, s.len() - rev@.len()),
            rev@.len() <= s.len(),
            forall|i: int| 0 <= i < s.len() ==> call_requires(*g, ((#[trigger] s[i]).weight(),)),
            forall|k: int|
                0 <= k < rev@.len() ==> {
                    &&& call_ensures(*g, (s[s.len() - 1 - k].weight(),), (#[trigger] rev@[k]).weight())
                    &&& rev@[k].source_spec() == s[s.len() - 1 - k].source_spec()
                    &&& rev@[k].target_spec() == s[s.len() - 1 - k].target_spec()
                },
        decreases raw@.len(),
    {
        let ghost k = rev@.len();
        let ed = raw.pop().unwrap();
        assert(ed == s[s.len() - 1 - k]);
        let w = g(ed.weight);
        rev.push(EdgeData { weight: w, source: ed.source, target: ed.target });
    }
    let ghost n = rev@.len();
    let mut out: Vec<EdgeData<E2>> = Vec::new();
    while rev.len() > 0
        invariant
            n == s.len(),
            rev@.len() + out@.len() == n,
            forall|k: int|
                0 <= k < rev@.len() ==> {
                    &&& call_ensures(*g, (s[s.len() - 1 - k].weight(),), (#[trigger] rev@[k]).weight())
                    &&& rev@[k].source_spec() == s[s.len() - 1 - k].source_spec()
                    &&& rev@[k].target_spec() == s[s.len() - 1 - k].target_spec()
                },
            forall|i: int|
                0 <= i < out@.len() ==> {
                    &&& call_ensures(*g, (s[i].weight(),), (#[trigger] out@[i]).weight())
                    &&& out@[i].source_spec() == s[i].source_spec()
                    &&& out@[i].target_spec() == s[i].target_spec()
                },
        decreases rev@.len(),
    {
        let y = rev.pop().unwrap();
        out.push(y);
    }
    IdxVec::from_vec(out)
}

proof fn lemma_map_endpoints<E, E2>(a: Seq<EdgeData<E>>, b: Seq<EdgeData<E2>>, v: nat, m: nat)
    requires
        m <= a.len(),
        m <= b.len(),
        forall|i: int|
            0 <= i < m ==> a[i].source_spec() == b[i].source_spec() && a[i].target_spec()
                == b[i].target_spec(),
    ensures
        edges_into(a, v, m) == edges_into(b, v, m),
        edges_from(a, v, m) == edges_from(b, v, m),
    decreases m,
{
    if m > 0 {
        lemma_map_endpoints(a, b, v, (m - 1) as nat);
    }
}

impl<V, E> Default for Graph<V, E> {
    fn default() -> (r: Self)
        ensures
            r.wf(),
            r.node_seq() == Seq::<NodeData<V>>::empty(),
            r.edge_seq() == Seq::<EdgeData<E>>::empty(),
    {
        Graph::new()
    }
}

/// In a well-formed graph, an edge is listed among the edges out of a node exactly when
/// the node is its source, and among the edges into a node exactly when the node is its
/// target.
pub proof fn lemma_adjacency<V, E>(g: Graph<V, E>, v: int, e: int)
    requires
        g.wf(),
        0 <= v < g.node_seq().len(),
        0 <= e < g.edge_seq().len(),
        g.edge_seq().len() <= usize::MAX + 1,
    ensures
        g.node_seq()[v].outgoing_seq().contains(Edge(e as usize)) <==> g.edge_seq()[e].source_spec().0
            == v,
        g.node_seq()[v].incoming_seq().contains(Edge(e as usize)) <==> g.edge_seq()[e].target_spec().0
            == v,
{
    let m = g.edge_seq().len();
    lemma_edges_from(g.edge_seq(), v as nat, m);
    lemma_edges_into(g.edge_seq(), v as nat, m);
    if g.node_seq()[v].outgoing_seq().contains(Edge(e as usize)) {
        let k = choose|k: int|
            0 <= k < g.node_seq()[v].outgoing_seq().len() && g.node_seq()[v].outgoing_seq()[k]
                == Edge(e as usize);
        assert(edges_from(g.edge_seq(), v as nat, m)[k] == Edge(e as usize));
    }
    if g.node_seq()[v].incoming_seq().contains(Edge(e as usize)) {
        let k = choose|k: int|
            0 <= k < g.node_seq()[v].incoming_seq().len() && g.node_seq()[v].incoming_seq()[k]
                == Edge(e as usize);
        assert(edges_into(g.edge_seq(), v as nat, m)[k] == Edge(e as usize));
    }
}

} // verus!
