use vstd::prelude::*;
use crate::idx::{Idx, IdxVec};
use rustc_hash::FxHashMap;

verus! {

/// The index of a node of a `Tree`.
#[derive(Copy, Clone, Debug, PartialEq, Eq, Structural, Hash, PartialOrd, Ord, Default)]
pub struct Node(pub usize);

impl Idx for Node {
    open spec fn pos(&self) -> nat {
        self.0 as nat
    }

    open spec fn representable(index: nat) -> bool {
        index <= usize::MAX
    }

    open spec fn has_index(&self) -> bool {
        true
    }

    fn index(&self) -> (r: usize) {
        self.0
    }

    fn new(index: usize) -> (r: Self) {
        Node(index)
    }
}

/// A node of a tree: its data, its parent (none for the root and for detached nodes)
/// and its children in order.
#[derive(Debug)]
pub struct NodeData<T> {
    data: T,
    parent: Option<Node>,
    children: Vec<Node>,
}

fn copy_nodes(v: &Vec<Node>) -> (r: Vec<Node>)
    ensures
        r@ == v@,
{
    let mut r: Vec<Node> = Vec::new();
    let mut i: usize = 0;
    while i < v.len()
        invariant
            i <= v@.len(),
            r@ == v@.subrange(0, i as int),
        decreases v@.len() - i,
    {
        r.push(v[i]);
        i = i + 1;
    }
    r
}

impl<T> NodeData<T> {
    pub closed spec fn data(&self) -> T {
        self.data
    }

    pub closed spec fn parent_spec(&self) -> Option<Node> {
        self.parent
    }

    pub closed spec fn children_seq(&self) -> Seq<Node> {
        self.children@
    }

    pub fn inner(&self) -> (r: &T)
        ensures
            *r == self.data(),
    {
        &self.data
    }

    pub fn inner_mut(&mut self) -> (r: &mut T)
        ensures
            *r == old(self).data(),
            final(self).data() == *final(r),
            final(self).parent_spec() == old(self).parent_spec(),
            final(self).children_seq() == old(self).children_seq(),
    {
        &mut self.data
    }

    pub fn into_inner(self) -> (r: T)
        ensures
            r == self.data(),
    {
        self.data
    }

    /// Applies `f` to the data, keeping parent and children.
    pub fn map<F, U>(self, f: F) -> (r: NodeData<U>) where F: FnOnce(T) -> U
        requires
            call_requires(f, (self.data(),)),
        ensures
            call_ensures(f, (self.data(),), r.data()),
            r.parent_spec() == self.parent_spec(),
            r.children_seq() == self.children_seq(),
    {
        NodeData { data: f(self.data), parent: self.parent, children: self.children }
    }

    pub fn parent(&self) -> (r: Option<Node>)
        ensures
            r == self.parent_spec(),
    {
        self.parent
    }

    /// The children, in order.
    pub fn children(&self) -> (r: Vec<Node>)
        ensures
            r@ == self.children_seq(),
    {
        copy_nodes(&self.children)
    }

    /// The children, last first.
    pub fn children_rev(&self) -> (r: Vec<Node>)
        ensures
            r@ == self.children_seq().reverse(),
    {
        let mut r: Vec<Node> = Vec::new();
        let mut i: usize = self.children.len();
        while i > 0
            invariant
                i <= self.children@.len(),
                r@ == self.children@.subrange(i as int, self.children@.len() as int).reverse(),
            decreases i,
        {
            i = i - 1;
            r.push(self.children[i]);
            assert(r@ =~= self.children@.subrange(i as int, self.children@.len() as int).reverse());
        }
        r
    }

    /// The last child, if any.
    pub fn last(&self) -> (r: Option<Node>)
        ensures
            self.children_seq().len() == 0 ==> r is None,
            self.children_seq().len() > 0 ==> r == Some(self.children_seq().last()),
    {
        let n = self.children.len();
        if n == 0 {
            None
        } else {
            Some(self.children[n - 1])
        }
    }

    /// Whether the node has no children.
    pub fn is_empty(&self) -> (r: bool)
        ensures
            r == (self.children_seq().len() == 0),
    {
        self.children.len() == 0
    }
}

/// A rooted tree of nodes stored in an indexed vector. Removing a node only detaches
/// its subtree; `clean_up` drops what is no longer reachable from the root.
pub struct Tree<T> {
    nodes: IdxVec<Node, NodeData<T>>,
    root: Node,
    /// Ranks that strictly grow from parent to child, witnessing that parent links
    /// never form a cycle.
    rank: Ghost<Seq<nat>>,
}

impl<T> Tree<T> {
    /// The nodes, by index.
    pub closed spec fn node_seq(&self) -> Seq<NodeData<T>> {
        self.nodes@
    }

    pub closed spec fn root_spec(&self) -> Node {
        self.root
    }

    /// The ranks witnessing that the tree has no cycles.
    pub closed spec fn ranks(&self) -> Seq<nat> {
        self.rank@
    }

    /// The parent links of the tree are consistent with the lists of children, every
    /// list of children is free of repetitions, the root has no parent, and parent
    /// links never form a cycle.
    pub closed spec fn wf(&self) -> bool {
        let n = self.nodes@.len();
        &&& n <= usize::MAX
        &&& self.rank@.len() == n
        &&& self.root.0 < n
        &&& self.nodes@[self.root.0 as int].parent is None
        &&& forall|x: int|
            #![trigger self.nodes@[x]]
            0 <= x < n ==> {
                &&& (self.nodes@[x].parent matches Some(p) ==> {
                    &&& p.0 < n
                    &&& self.rank@[p.0 as int] < self.rank@[x]
                    &&& self.nodes@[p.0 as int].children@.contains(Node(x as usize))
                })
                &&& self.nodes@[x].children@.no_duplicates()
                &&& forall|k: int|
                    0 <= k < self.nodes@[x].children@.len() ==> {
                        &&& (#[trigger] self.nodes@[x].children@[k]).0 < n
                        &&& self.nodes@[self.nodes@[x].children@[k].0 as int].parent == Some(
                            Node(x as usize),
                        )
                    }
            }
    }

    /// `x` lies in the subtree of `a` (every node lies in its own subtree).
    pub closed spec fn is_desc(&self, x: int, a: int) -> bool
        decreases self.ranks()[x],
    {
        if x == a {
            true
        } else {
            match self.nodes@[x].parent {
                Some(p) => if 0 <= p.0 < self.rank@.len() && self.rank@[p.0 as int]
                    < self.rank@[x] {
                    self.is_desc(p.0 as int, a)
                } else {
                    false
                },
                None => false,
            }
        }
    }

    /// The node followed by its ancestors, nearest first.
    pub closed spec fn ancestor_chain(&self, x: int) -> Seq<Node>
        decreases self.ranks()[x],
    {
        seq![Node(x as usize)] + match self.nodes@[x].parent {
            Some(p) => if 0 <= p.0 < self.rank@.len() && self.rank@[p.0 as int] < self.rank@[x] {
                self.ancestor_chain(p.0 as int)
            } else {
                Seq::empty()
            },
            None => Seq::empty(),
        }
    }

    /// What well-formedness promises of the links: the root is a node without a parent,
    /// a node's parent is a node that lists it among its children, and every child listed
    /// is a node whose parent is the node listing it, listed once.
    pub proof fn lemma_wf_links(&self)
        requires
            self.wf(),
        ensures
            self.root_spec().0 < self.node_seq().len(),
            self.node_seq()[self.root_spec().0 as int].parent_spec() is None,
            forall|x: int|
                0 <= x < self.node_seq().len() ==> (#[trigger] self.node_seq()[x]).children_seq().no_duplicates(),
            forall|x: int|
                0 <= x < self.node_seq().len() ==> ((#[trigger] self.node_seq()[x]).parent_spec() matches Some(p)
                    ==> p.0 < self.node_seq().len() && self.node_seq()[p.0 as int].children_seq().contains(
                    Node(x as usize),
                )),
            forall|x: int, k: int|
                0 <= x < self.node_seq().len() && 0 <= k < self.node_seq()[x].children_seq().len() ==> {
                    &&& (#[trigger] self.node_seq()[x].children_seq()[k]).0 < self.node_seq().len()
                    &&& self.node_seq()[self.node_seq()[x].children_seq()[k].0 as int].parent_spec()
                        == Some(Node(x as usize))
                },
    {
        assert forall|x: int, k: int|
            0 <= x < self.node_seq().len() && 0 <= k < self.node_seq()[x].children_seq().len() implies {
                &&& (#[trigger] self.node_seq()[x].children_seq()[k]).0 < self.node_seq().len()
                &&& self.node_seq()[self.node_seq()[x].children_seq()[k].0 as int].parent_spec()
                    == Some(Node(x as usize))
            } by {}
    }

    /// The chain of a node is the node itself followed by the chain of its parent, or the
    /// node alone when it has no parent.
    pub proof fn lemma_ancestor_chain_unfold(&self, x: int)
        requires
            self.wf(),
            0 <= x < self.node_seq().len(),
        ensures
            self.node_seq()[x].parent_spec() is None ==> self.ancestor_chain(x) == seq![Node(x as usize)],
            self.node_seq()[x].parent_spec() matches Some(p) ==> p.0 < self.node_seq().len()
                && self.ancestor_chain(x) == seq![Node(x as usize)] + self.ancestor_chain(p.0 as int),
    {
        if self.nodes@[x].parent is None {
            assert(self.ancestor_chain(x) =~= seq![Node(x as usize)]);
        }
    }

    /// A node lies in the subtree of `a` exactly when it is `a` or its parent does.
    pub proof fn lemma_is_desc_unfold(&self, x: int, a: int)
        requires
            self.wf(),
            0 <= x < self.node_seq().len(),
        ensures
            self.is_desc(x, a) == (x == a || (self.node_seq()[x].parent_spec() matches Some(p)
                && self.is_desc(p.0 as int, a))),
    {
    }

    /// A node lies in the subtree of `a` exactly when `a` is on its chain of ancestors.
    pub proof fn lemma_is_desc_chain(&self, x: int, a: int)
        requires
            self.wf(),
            0 <= x < self.node_seq().len(),
            0 <= a < self.node_seq().len(),
        ensures
            self.is_desc(x, a) == self.ancestor_chain(x).contains(Node(a as usize)),
    {
        self.lemma_ancestor_chain(x, a);
    }

    proof fn lemma_ancestor_chain(&self, x: int, a: int)
        requires
            self.wf(),
            0 <= x < self.nodes@.len(),
        ensures
            self.ancestor_chain(x).contains(Node(a as usize)) && 0 <= a < self.nodes@.len()
                <==> self.is_desc(x, a) && 0 <= a < self.nodes@.len(),
            self.is_desc(x, a) ==> 0 <= a < self.nodes@.len() && self.rank@[a] <= self.rank@[x],
            forall|k: int|
                0 <= k < self.ancestor_chain(x).len() ==> (#[trigger] self.ancestor_chain(x)[k]).0
                    < self.nodes@.len(),
        decreases self.rank@[x],
    {
        let c = self.ancestor_chain(x);
        match self.nodes@[x].parent {
            Some(p) => {
                self.lemma_ancestor_chain(p.0 as int, a);
                let cp = self.ancestor_chain(p.0 as int);
                assert(c == seq![Node(x as usize)] + cp);
                if a == x {
                    assert(c[0] == Node(a as usize));
                }
                if c.contains(Node(a as usize)) && 0 <= a < self.nodes@.len() && a != x {
                    let k = choose|k: int| 0 <= k < c.len() && c[k] == Node(a as usize);
                    assert(k != 0);
                    assert(cp[k - 1] == Node(a as usize));
                }
                if self.is_desc(x, a) && a != x {
                    let k = choose|k: int| 0 <= k < cp.len() && cp[k] == Node(a as usize);
                    assert(c[k + 1] == Node(a as usize));
                }
                assert forall|k: int| 0 <= k < c.len() implies (#[trigger] c[k]).0
                    < self.nodes@.len() by {
                    if k > 0 {
                        assert(c[k] == cp[k - 1]);
                    }
                }
            },
            None => {
                assert(c =~= seq![Node(x as usize)]);
                if c.contains(Node(a as usize)) && 0 <= a < self.nodes@.len() {
                    let k = choose|k: int| 0 <= k < c.len() && c[k] == Node(a as usize);
                    assert(k == 0);
                    assert(a == x);
                }
                if a == x {
                    assert(c[0] == Node(a as usize));
                }
            },
        }
    }

    /// A tree with a single node holding `root`.
    pub fn new(root: T) -> (r: Self)
        ensures
            r.wf(),
            r.node_seq().len() == 1,
            r.root_spec() == Node(0),
            r.node_seq()[0].data() == root,
            r.node_seq()[0].parent_spec() is None,
            r.node_seq()[0].children_seq() == Seq::<Node>::empty(),
    {
        let mut nodes: IdxVec<Node, NodeData<T>> = IdxVec::new();
        let root = nodes.push(NodeData { data: root, parent: None, children: Vec::new() });
        Tree { nodes, root, rank: Ghost(Seq::new(1, |i: int| 0nat)) }
    }

    pub fn get(&self, node: Node) -> (r: Option<&NodeData<T>>)
        ensures
            node.0 < self.node_seq().len() ==> r == Some(&self.node_seq()[node.0 as int]),
            node.0 >= self.node_seq().len() ==> r is None,
    {
        self.nodes.get(node)
    }

    /// The data of a node, for writing. Nothing here keeps a caller from replacing the
    /// node's links, so the result says nothing of well-formedness.
    pub fn get_mut(&mut self, node: Node) -> (r: Option<&mut NodeData<T>>)
        ensures
            node.0 < old(self).node_seq().len() ==> (r matches Some(e) && *e == old(
                self,
            ).node_seq()[node.0 as int] && final(self).node_seq() == old(self).node_seq().update(
                node.0 as int,
                *final(e),
            )),
            node.0 >= old(self).node_seq().len() ==> r is None && final(self).node_seq() == old(
                self,
            ).node_seq(),
            final(self).root_spec() == old(self).root_spec(),
    {
        self.nodes.get_mut(node)
    }

    /// Calls `f` on the data of a node, if the node exists.
    pub fn with<F, U>(&self, node: Node, f: F) -> (r: Option<U>) where
        F: FnOnce(&NodeData<T>) -> U,
        requires
            node.0 < self.node_seq().len() ==> call_requires(f, (&self.node_seq()[node.0 as int],)),
        ensures
            node.0 < self.node_seq().len() ==> (r matches Some(u) && call_ensures(
                f,
                (&self.node_seq()[node.0 as int],),
                u,
            )),
            node.0 >= self.node_seq().len() ==> r is None,
    {
        if node.0 < self.nodes.len() {
            Some(f(self.nodes.index(node)))
        } else {
            None
        }
    }

    /// The root.
    pub fn root(&self) -> (r: Node)
        ensures
            r == self.root_spec(),
    {
        self.root
    }

    /// Adds a node holding `t` as the last child of `node`, if `node` exists.
    pub fn push_onto(&mut self, node: Node, t: T) -> (r: Option<Node>)
        requires
            old(self).wf(),
        ensures
            final(self).wf(),
            final(self).root_spec() == old(self).root_spec(),
            node.0 >= old(self).node_seq().len() ==> r is None && final(self).node_seq() == old(
                self,
            ).node_seq(),
            node.0 < old(self).node_seq().len() ==> {
                let n = old(self).node_seq().len();
                &&& r == Some(Node(n as usize))
                &&& final(self).node_seq().len() == n + 1
                &&& final(self).node_seq()[n as int].data() == t
                &&& final(self).node_seq()[n as int].parent_spec() == Some(node)
                &&& final(self).node_seq()[n as int].children_seq() == Seq::<Node>::empty()
                &&& final(self).node_seq()[node.0 as int].children_seq() == old(
                    self,
                ).node_seq()[node.0 as int].children_seq().push(Node(n as usize))
                &&& final(self).node_seq()[node.0 as int].data() == old(
                    self,
                ).node_seq()[node.0 as int].data()
                &&& final(self).node_seq()[node.0 as int].parent_spec() == old(
                    self,
                ).node_seq()[node.0 as int].parent_spec()
                &&& forall|i: int|
                    0 <= i < n && i != node.0 ==> #[trigger] final(self).node_seq()[i] == old(
                        self,
                    ).node_seq()[i]
            },
    {
        if node.0 >= self.nodes.len() {
            return None;
        }
        proof {
            self.nodes.lemma_len_bound();
        }
        let ghost n = self.nodes@.len();
        let ghost before = *self;
        let id = self.nodes.push(NodeData { data: t, parent: Some(node), children: Vec::new() });
        let nd = self.nodes.index_mut(node);
        nd.children.push(id);
        proof {
            self.rank = Ghost(before.rank@.push(before.rank@[node.0 as int] + 1));
            self.nodes.lemma_len_bound();
            self.lemma_push_wf(before, node.0 as int);
        }
        Some(id)
    }

    proof fn lemma_push_wf(&self, before: Self, ni: int)
        requires
            before.wf(),
            0 <= ni < before.nodes@.len(),
            before.nodes@.len() < usize::MAX,
            self.nodes@.len() == before.nodes@.len() + 1,
            self.rank@ == before.rank@.push(before.rank@[ni] + 1),
            self.root == before.root,
            self.nodes@[before.nodes@.len() as int].parent == Some(Node(ni as usize)),
            self.nodes@[before.nodes@.len() as int].children@ == Seq::<Node>::empty(),
            self.nodes@[ni].parent == before.nodes@[ni].parent,
            self.nodes@[ni].children@ == before.nodes@[ni].children@.push(
                Node(before.nodes@.len() as usize),
            ),
            forall|i: int|
                0 <= i < before.nodes@.len() && i != ni ==> #[trigger] self.nodes@[i]
                    == before.nodes@[i],
        ensures
            self.wf(),
    {
        let n = before.nodes@.len() as int;
        assert(self.nodes@[self.root.0 as int].parent is None) by {
            if self.root.0 as int != ni {
                assert(self.nodes@[self.root.0 as int] == before.nodes@[self.root.0 as int]);
            }
        }
        assert forall|x: int|
            #![trigger self.nodes@[x]]
            0 <= x < self.nodes@.len() implies {
            &&& (self.nodes@[x].parent matches Some(p) ==> {
                &&& p.0 < self.nodes@.len()
                &&& self.rank@[p.0 as int] < self.rank@[x]
                &&& self.nodes@[p.0 as int].children@.contains(Node(x as usize))
            })
            &&& self.nodes@[x].children@.no_duplicates()
            &&& forall|k: int|
                0 <= k < self.nodes@[x].children@.len() ==> {
                    &&& (#[trigger] self.nodes@[x].children@[k]).0 < self.nodes@.len()
                    &&& self.nodes@[self.nodes@[x].children@[k].0 as int].parent == Some(
                        Node(x as usize),
                    )
                }
        } by {
            if x == n {
                assert(self.nodes@[ni].children@[before.nodes@[ni].children@.len() as int] == Node(
                    x as usize,
                ));
            } else {
                if let Some(p) = self.nodes@[x].parent {
                    let pi = p.0 as int;
                    let k = choose|k: int|
                        0 <= k < before.nodes@[pi].children@.len() && before.nodes@[pi].children@[k]
                            == Node(x as usize);
                    assert(self.nodes@[pi].children@[k] == Node(x as usize));
                }
                let bc = before.nodes@[x].children@;
                assert forall|k: int| 0 <= k < self.nodes@[x].children@.len() implies {
                    &&& (#[trigger] self.nodes@[x].children@[k]).0 < self.nodes@.len()
                    &&& self.nodes@[self.nodes@[x].children@[k].0 as int].parent == Some(
                        Node(x as usize),
                    )
                } by {
                    if k < bc.len() {
                        let c = bc[k];
                        assert(self.nodes@[x].children@[k] == c);
                        if c.0 as int != ni {
                            assert(self.nodes@[c.0 as int] == before.nodes@[c.0 as int]);
                        }
                    }
                }
                assert forall|i: int, j: int|
                    0 <= i < j < self.nodes@[x].children@.len() implies self.nodes@[x].children@[i]
                    != self.nodes@[x].children@[j] by {
                    if j == bc.len() {
                        assert(bc[i].0 < n);
                    } else {
                        assert(self.nodes@[x].children@[i] == bc[i]);
                        assert(self.nodes@[x].children@[j] == bc[j]);
                    }
                }
            }
        }
    }

    /// Detaches the subtree rooted at `node` from its parent. Detaching the root (or a
    /// node that does not exist) changes nothing.
    pub fn remove(&mut self, node: Node)
        requires
            old(self).wf(),
        ensures
            final(self).wf(),
            final(self).root_spec() == old(self).root_spec(),
            final(self).ranks() == old(self).ranks(),
            final(self).node_seq().len() == old(self).node_seq().len(),
            node.0 < old(self).node_seq().len() ==> {
                &&& final(self).node_seq()[node.0 as int].parent_spec() is None
                &&& final(self).node_seq()[node.0 as int].data() == old(
                    self,
                ).node_seq()[node.0 as int].data()
                &&& final(self).node_seq()[node.0 as int].children_seq() == old(
                    self,
                ).node_seq()[node.0 as int].children_seq()
                &&& forall|i: int|
                    0 <= i < old(self).node_seq().len() && i != node.0 ==> {
                        &&& (#[trigger] final(self).node_seq()[i]).data() == old(
                            self,
                        ).node_seq()[i].data()
                        &&& final(self).node_seq()[i].parent_spec() == old(
                            self,
                        ).node_seq()[i].parent_spec()
                        &&& final(self).node_seq()[i].children_seq() == if old(
                            self,
                        ).node_seq()[node.0 as int].parent_spec() == Some(Node(i as usize)) {
                            old(self).node_seq()[i].children_seq().remove_value(node)
                        } else {
                            old(self).node_seq()[i].children_seq()
                        }
                    }
            },
            node.0 >= old(self).node_seq().len() ==> final(self).node_seq() == old(self).node_seq(),
    {
        if node.0 >= self.nodes.len() {
            return;
        }
        let ghost before = *self;
        let ghost ni = node.0 as int;
        if let Some(parent) = self.nodes.index(node).parent {
            let ghost pi = parent.0 as int;
            let pd = self.nodes.index_mut(parent);
            remove_child(&mut pd.children, node);
        }
        let nd = self.nodes.index_mut(node);
        nd.parent = None;
        proof {
            self.lemma_remove_wf(before, ni);
        }
    }

    proof fn lemma_remove_wf(&self, before: Self, ni: int)
        requires
            before.wf(),
            0 <= ni < before.nodes@.len(),
            self.nodes@.len() == before.nodes@.len(),
            self.rank == before.rank,
            self.root == before.root,
            self.nodes@[ni].parent is None,
            self.nodes@[ni].children@ == before.nodes@[ni].children@,
            forall|i: int|
                0 <= i < before.nodes@.len() && i != ni ==> {
                    &&& (#[trigger] self.nodes@[i]).parent == before.nodes@[i].parent
                    &&& self.nodes@[i].children@ == if before.nodes@[ni].parent == Some(
                        Node(i as usize),
                    ) {
                        before.nodes@[i].children@.remove_value(Node(ni as usize))
                    } else {
                        before.nodes@[i].children@
                    }
                },
        ensures
            self.wf(),
    {
        let n = self.nodes@.len();
        assert forall|x: int|
            #![trigger self.nodes@[x]]
            0 <= x < n implies {
            &&& (self.nodes@[x].parent matches Some(p) ==> {
                &&& p.0 < n
                &&& self.rank@[p.0 as int] < self.rank@[x]
                &&& self.nodes@[p.0 as int].children@.contains(Node(x as usize))
            })
            &&& self.nodes@[x].children@.no_duplicates()
            &&& forall|k: int|
                0 <= k < self.nodes@[x].children@.len() ==> {
                    &&& (#[trigger] self.nodes@[x].children@[k]).0 < n
                    &&& self.nodes@[self.nodes@[x].children@[k].0 as int].parent == Some(
                        Node(x as usize),
                    )
                }
        } by {
            let bc = before.nodes@[x].children@;
            let is_par = x != ni && before.nodes@[ni].parent == Some(Node(x as usize));
            if is_par {
                lemma_remove_value_props(bc, Node(ni as usize));
            }
            if let Some(p) = self.nodes@[x].parent {
                let pi = p.0 as int;
                assert(x != ni);
                if pi != ni && before.nodes@[ni].parent == Some(Node(pi as usize)) {
                    lemma_remove_value_props(before.nodes@[pi].children@, Node(ni as usize));
                    let k = choose|k: int|
                        0 <= k < before.nodes@[pi].children@.len()
                            && before.nodes@[pi].children@[k] == Node(x as usize);
                    assert(before.nodes@[pi].children@[k] != Node(ni as usize));
                }
            }
            assert forall|k: int| 0 <= k < self.nodes@[x].children@.len() implies {
                &&& (#[trigger] self.nodes@[x].children@[k]).0 < n
                &&& self.nodes@[self.nodes@[x].children@[k].0 as int].parent == Some(
                    Node(x as usize),
                )
            } by {
                let c = self.nodes@[x].children@[k];
                assert(bc.contains(c));
                let j = choose|j: int| 0 <= j < bc.len() && bc[j] == c;
                assert(bc[j] == c);
                if c.0 == ni {
                    assert(is_par ==> !self.nodes@[x].children@.contains(Node(ni as usize)));
                    assert(before.nodes@[ni].parent == Some(Node(x as usize)));
                }
            }
        }
    }

    /// Detaching a node only cuts parent links, so it never makes a node a descendant of
    /// another.
    proof fn lemma_detach_desc(&self, before: Self, ni: int, x: int, a: int)
        requires
            before.wf(),
            self.wf(),
            0 <= ni < before.nodes@.len(),
            self.nodes@.len() == before.nodes@.len(),
            self.rank == before.rank,
            self.nodes@[ni].parent is None,
            forall|i: int|
                0 <= i < before.nodes@.len() && i != ni ==> (#[trigger] self.nodes@[i]).parent
                    == before.nodes@[i].parent,
            0 <= x < self.nodes@.len(),
            self.is_desc(x, a),
        ensures
            before.is_desc(x, a),
        decreases self.rank@[x],
    {
        if x != a {
            let p = self.nodes@[x].parent->0;
            self.lemma_detach_desc(before, ni, p.0 as int, a);
        }
    }

    /// Hangs a detached node under `parent`, before `before` among its children when
    /// `before` is one of them, and last otherwise.
    fn attach(&mut self, node: Node, parent: Node, before: Option<Node>)
        requires
            old(self).wf(),
            node.0 < old(self).node_seq().len(),
            parent.0 < old(self).node_seq().len(),
            node != old(self).root_spec(),
            old(self).node_seq()[node.0 as int].parent_spec() is None,
            !old(self).is_desc(parent.0 as int, node.0 as int),
        ensures
            final(self).wf(),
            final(self).root_spec() == old(self).root_spec(),
            final(self).node_seq().len() == old(self).node_seq().len(),
            final(self).node_seq()[node.0 as int].parent_spec() == Some(parent),
            final(self).node_seq()[node.0 as int].data() == old(self).node_seq()[node.0 as int].data(),
            final(self).node_seq()[node.0 as int].children_seq() == old(self).node_seq()[node.0 as int].children_seq(),
            final(self).node_seq()[parent.0 as int].data() == old(self).node_seq()[parent.0 as int].data(),
            final(self).node_seq()[parent.0 as int].parent_spec() == old(self).node_seq()[parent.0 as int].parent_spec(),
            final(self).node_seq()[parent.0 as int].children_seq() == insert_before(
                old(self).node_seq()[parent.0 as int].children_seq(),
                node,
                before,
            ),
            forall|i: int|
                0 <= i < old(self).node_seq().len() && i != node.0 && i != parent.0
                    ==> #[trigger] final(self).node_seq()[i] == old(self).node_seq()[i],
    {
        let ghost b = *self;
        let ghost ni = node.0 as int;
        let ghost pi = parent.0 as int;
        let nd = self.nodes.index_mut(node);
        nd.parent = Some(parent);
        let pd = self.nodes.index_mut(parent);
        let pos = match before {
            Some(succ) => position_of(&pd.children, succ),
            None => None,
        };
        match pos {
            Some(k) => {
                proof {
                    b.nodes@[pi].children@.index_of_first_ensures(before->0);
                }
                pd.children.insert(k, node);
            },
            None => pd.children.push(node),
        }
        proof {
            self.rank = Ghost(
                Seq::new(
                    b.rank@.len(),
                    |x: int|
                        if b.is_desc(x, ni) {
                            b.rank@[x] + b.rank@[pi] + 1
                        } else {
                            b.rank@[x]
                        },
                ),
            );
            self.lemma_attach_wf(b, ni, pi, before);
        }
    }

    proof fn lemma_attach_wf(&self, b: Self, ni: int, pi: int, before: Option<Node>)
        requires
            b.wf(),
            0 <= ni < b.nodes@.len(),
            0 <= pi < b.nodes@.len(),
            ni != b.root.0,
            b.nodes@[ni].parent is None,
            !b.is_desc(pi, ni),
            self.root == b.root,
            self.nodes@.len() == b.nodes@.len(),
            self.rank@ == Seq::new(
                b.rank@.len(),
                |x: int|
                    if b.is_desc(x, ni) {
                        b.rank@[x] + b.rank@[pi] + 1
                    } else {
                        b.rank@[x]
                    },
            ),
            self.nodes@[ni].parent == Some(Node(pi as usize)),
            self.nodes@[ni].children@ == b.nodes@[ni].children@ || ni == pi,
            self.nodes@[pi].parent == b.nodes@[pi].parent || ni == pi,
            self.nodes@[pi].children@ == insert_before(b.nodes@[pi].children@, Node(ni as usize), before),
            forall|i: int|
                0 <= i < b.nodes@.len() && i != ni && i != pi ==> #[trigger] self.nodes@[i]
                    == b.nodes@[i],
        ensures
            self.wf(),
    {
        let n = b.nodes@.len();
        assert(ni != pi) by {
            assert(b.is_desc(ni, ni));
        }
        let nn = Node(ni as usize);
        let pc = self.nodes@[pi].children@;
        let bpc = b.nodes@[pi].children@;
        assert(!bpc.contains(nn)) by {
            if bpc.contains(nn) {
                let k = choose|k: int| 0 <= k < bpc.len() && bpc[k] == nn;
                assert(bpc[k] == nn);
            }
        }
        lemma_insert_before_props(bpc, nn, before);
        assert forall|x: int|
            #![trigger self.nodes@[x]]
            0 <= x < n implies {
            &&& (self.nodes@[x].parent matches Some(p) ==> {
                &&& p.0 < n
                &&& self.rank@[p.0 as int] < self.rank@[x]
                &&& self.nodes@[p.0 as int].children@.contains(Node(x as usize))
            })
            &&& self.nodes@[x].children@.no_duplicates()
            &&& forall|k: int|
                0 <= k < self.nodes@[x].children@.len() ==> {
                    &&& (#[trigger] self.nodes@[x].children@[k]).0 < n
                    &&& self.nodes@[self.nodes@[x].children@[k].0 as int].parent == Some(
                        Node(x as usize),
                    )
                }
        } by {
            if x != ni {
                if let Some(p) = self.nodes@[x].parent {
                    let q = p.0 as int;
                    assert(b.is_desc(x, ni) == b.is_desc(q, ni));
                    if q == pi {
                        assert(bpc.contains(Node(x as usize)));
                    }
                }
            }
            assert forall|k: int| 0 <= k < self.nodes@[x].children@.len() implies {
                &&& (#[trigger] self.nodes@[x].children@[k]).0 < n
                &&& self.nodes@[self.nodes@[x].children@[k].0 as int].parent == Some(
                    Node(x as usize),
                )
            } by {
                let c = self.nodes@[x].children@[k];
                if x == pi {
                    assert(pc[k] == c);
                    assert(pc.contains(c));
                    assert(insert_before(bpc, nn, before).contains(c));
                    if c != nn {
                        assert(bpc.contains(c));
                        let j = choose|j: int| 0 <= j < bpc.len() && bpc[j] == c;
                        assert(bpc[j] == c);
                    }
                } else {
                    assert(b.nodes@[x].children@[k] == c);
                    if c.0 as int == ni {
                        assert(false);
                    }
                }
            }
        }
    }

    fn reparent_at(&mut self, node: Node, parent: Node, before: Option<Node>)
        requires
            old(self).wf(),
            node != old(self).root_spec(),
            node != parent,
            parent.0 < old(self).node_seq().len() ==> !old(self).is_desc(parent.0 as int, node.0 as int),
        ensures
            final(self).wf(),
            final(self).root_spec() == old(self).root_spec(),
            final(self).node_seq().len() == old(self).node_seq().len(),
            reparented(old(self).node_seq(), final(self).node_seq(), node, parent, before),
    {
        if node.0 >= self.nodes.len() || parent.0 >= self.nodes.len() {
            return;
        }
        let ghost b = *self;
        self.remove(node);
        proof {
            if self.is_desc(parent.0 as int, node.0 as int) {
                self.lemma_detach_desc(b, node.0 as int, parent.0 as int, node.0 as int);
            }
        }
        let ghost mid = *self;
        self.attach(node, parent, before);
        proof {
            assert(reparented(b.node_seq(), self.node_seq(), node, parent, before));
        }
    }

    /// Moves `node` (with its subtree) to be the last child of `parent`.
    pub fn reparent_under(&mut self, node: Node, parent: Node)
        requires
            old(self).wf(),
            node != old(self).root_spec(),
            parent.0 < old(self).node_seq().len() ==> !old(self).ancestor_chain(
                parent.0 as int,
            ).contains(node),
        ensures
            final(self).wf(),
            final(self).root_spec() == old(self).root_spec(),
            final(self).node_seq().len() == old(self).node_seq().len(),
            reparented(old(self).node_seq(), final(self).node_seq(), node, parent, None),
    {
        proof {
            if parent.0 < self.nodes@.len() {
                self.lemma_ancestor_chain(parent.0 as int, node.0 as int);
                if node == parent {
                    assert(self.is_desc(parent.0 as int, node.0 as int));
                }
            }
        }
        if node == parent {
            return;
        }
        self.reparent_at(node, parent, None);
    }

    /// Moves `node` (with its subtree) to stand just before `successor` among the
    /// children of `successor`'s parent. Nothing happens when `successor` is `node`, does
    /// not exist, or has no parent.
    pub fn reparent_before(&mut self, node: Node, successor: Node)
        requires
            old(self).wf(),
            node != old(self).root_spec(),
            node != successor && successor.0 < old(self).node_seq().len() ==> (old(
                self,
            ).node_seq()[successor.0 as int].parent_spec() matches Some(p) ==> !old(
                self,
            ).ancestor_chain(p.0 as int).contains(node)),
        ensures
            final(self).wf(),
            final(self).root_spec() == old(self).root_spec(),
            final(self).node_seq().len() == old(self).node_seq().len(),
            node == successor || successor.0 >= old(self).node_seq().len() || old(
                self,
            ).node_seq()[successor.0 as int].parent_spec() is None ==> final(self).node_seq() == old(
                self,
            ).node_seq(),
            node != successor && successor.0 < old(self).node_seq().len() ==> (old(
                self,
            ).node_seq()[successor.0 as int].parent_spec() matches Some(p) ==> reparented(
                old(self).node_seq(),
                final(self).node_seq(),
                node,
                p,
                Some(successor),
            )),
    {
        if node == successor {
            return;
        }
        if successor.0 >= self.nodes.len() {
            return;
        }
        let ghost si = successor.0 as int;
        if let Some(parent) = self.nodes.index(successor).parent {
            proof {
                self.lemma_ancestor_chain(parent.0 as int, node.0 as int);
                if node == parent {
                    assert(self.is_desc(parent.0 as int, node.0 as int));
                }
            }
            self.reparent_at(node, parent, Some(successor));
        }
    }

    /// The node followed by its ancestors, nearest first; nothing for a node that does
    /// not exist.
    pub fn ancestors_of(&self, node: Node) -> (r: Vec<Node>)
        requires
            self.wf(),
        ensures
            node.0 < self.node_seq().len() ==> r@ == self.ancestor_chain(node.0 as int),
            node.0 >= self.node_seq().len() ==> r@.len() == 0,
    {
        let mut r: Vec<Node> = Vec::new();
        if node.0 >= self.nodes.len() {
            return r;
        }
        let mut cur = node;
        loop
            invariant
                self.wf(),
                cur.0 < self.nodes@.len(),
                node.0 < self.nodes@.len(),
                r@ + self.ancestor_chain(cur.0 as int) == self.ancestor_chain(node.0 as int),
            decreases self.rank@[cur.0 as int],
        {
            let ghost ci = cur.0 as int;
            r.push(cur);
            match self.nodes.index(cur).parent {
                Some(p) => {
                    assert(self.ancestor_chain(ci) == seq![cur] + self.ancestor_chain(p.0 as int));
                    assert(r@ + self.ancestor_chain(p.0 as int) =~= self.ancestor_chain(
                        node.0 as int,
                    ));
                    cur = p;
                },
                None => {
                    assert(self.ancestor_chain(ci) =~= seq![cur]);
                    assert(r@ =~= self.ancestor_chain(node.0 as int));
                    return r;
                },
            }
        }
    }

    /// The parent of `q[w]` occurs among the first `bound` entries of `q`.
    #[verifier::opaque]
    pub closed spec fn parent_listed(&self, q: Seq<Node>, w: int, bound: int) -> bool {
        self.nodes@[q[w].0 as int].parent matches Some(p) && q.subrange(0, bound).contains(p)
    }

    /// Where, in a breadth-first listing `q` of a subtree, the children of `q[k]` begin:
    /// after the top of the subtree and the children of the entries before `q[k]`.
    pub open spec fn bfs_start(&self, q: Seq<Node>, k: int) -> int
        decreases k,
    {
        if k <= 0 {
            1
        } else {
            self.bfs_start(q, k - 1) + self.node_seq()[q[k - 1].0 as int].children_seq().len()
        }
    }

    /// `q` lists a subtree breadth first: its top, then the children of the top, then the
    /// children of the first of those, and so on, each list of children in order.
    pub open spec fn lists_breadth_first(&self, q: Seq<Node>) -> bool {
        &&& q.len() > 0
        &&& q.len() == self.bfs_start(q, q.len() as int)
        &&& forall|k: int, c: int|
            #![trigger self.node_seq()[q[k].0 as int].children_seq()[c], self.bfs_start(q, k)]
            0 <= k < q.len() && 0 <= c < self.node_seq()[q[k].0 as int].children_seq().len() ==> q[self.bfs_start(q, k) + c]
                == self.node_seq()[q[k].0 as int].children_seq()[c]
    }

    proof fn lemma_bfs_start_prefix(&self, q1: Seq<Node>, q2: Seq<Node>, k: int)
        requires
            0 <= k <= q1.len(),
            k <= q2.len(),
            forall|i: int| 0 <= i < k ==> q1[i] == q2[i],
        ensures
            self.bfs_start(q1, k) == self.bfs_start(q2, k),
        decreases k,
    {
        if k > 0 {
            self.lemma_bfs_start_prefix(q1, q2, k - 1);
            assert(q1[k - 1] == q2[k - 1]);
        }
    }

    proof fn lemma_bfs_start_pos(&self, q: Seq<Node>, k: int)
        ensures
            1 <= self.bfs_start(q, k),
        decreases k,
    {
        if k > 0 {
            self.lemma_bfs_start_pos(q, k - 1);
        }
    }

    proof fn lemma_bfs_start_mono(&self, q: Seq<Node>, j: int, k: int)
        requires
            0 <= j <= k,
        ensures
            1 <= self.bfs_start(q, j),
            self.bfs_start(q, j) <= self.bfs_start(q, k),
            j < k ==> self.bfs_start(q, j) + self.node_seq()[q[j].0 as int].children_seq().len() <= self.bfs_start(q, k),
        decreases k - j,
    {
        self.lemma_bfs_start_pos(q, j);
        if j < k {
            self.lemma_bfs_start_mono(q, j, k - 1);
        }
    }

    /// The next child to be queued has not been queued yet: the top of the subtree is not
    /// a child of anything in it, every other queued node has its parent among the nodes
    /// already processed, and the children queued so far are other children.
    proof fn lemma_child_fresh(&self, q: Seq<Node>, head: int, st: int, k: int, start: int)
        requires
            self.wf(),
            0 <= head < q.len(),
            0 <= start < self.nodes@.len(),
            q[0].0 == start,
            q.no_duplicates(),
            forall|i: int|
                0 <= i < q.len() ==> (#[trigger] q[i]).0 < self.nodes@.len() && self.is_desc(
                    q[i].0 as int,
                    start,
                ),
            1 <= st <= q.len(),
            head < st,
            q.len() == st + k,
            forall|w: int|
                1 <= w < st ==> #[trigger] self.parent_listed(q, w, head),
            0 <= k < self.nodes@[q[head].0 as int].children@.len(),
            forall|c: int| 0 <= c < k ==> q[st + c] == self.nodes@[q[head].0 as int].children@[c],
        ensures
            !q.contains(self.nodes@[q[head].0 as int].children@[k]),
    {
        reveal(Tree::parent_listed);
        let cur = q[head];
        let ci = cur.0 as int;
        let c = self.nodes@[ci].children@[k];
        assert(self.nodes@[c.0 as int].parent == Some(cur));
        if q.contains(c) {
            let w = choose|w: int| 0 <= w < q.len() && q[w] == c;
            if w == 0 {
                self.lemma_ancestor_chain(ci, start);
                assert(self.rank@[ci] < self.rank@[start]);
            } else if w < st {
                assert(self.parent_listed(q, w, head));
                assert(q.subrange(0, head).contains(cur));
                let v = choose|v: int| 0 <= v < head && q.subrange(0, head)[v] == cur;
                assert(q[v] == q[head]);
            } else {
                assert(q[w] == self.nodes@[ci].children@[w - st]);
            }
        }
    }

    /// After the children of `q0[head]` have been queued, the listing is breadth first up
    /// to `head + 1`, and every queued node but the first has its parent among the nodes
    /// processed.
    proof fn lemma_bfs_advance(&self, q0: Seq<Node>, q: Seq<Node>, head: int)
        requires
            self.wf(),
            0 <= head < q0.len(),
            q0[head].0 < self.nodes@.len(),
            q0.len() == self.bfs_start(q0, head),
            q.len() == q0.len() + self.nodes@[q0[head].0 as int].children@.len(),
            q.subrange(0, q0.len() as int) == q0,
            forall|c: int|
                0 <= c < self.nodes@[q0[head].0 as int].children@.len() ==> q[q0.len() + c]
                    == self.nodes@[q0[head].0 as int].children@[c],
            forall|k: int, c: int|
                #![trigger self.node_seq()[q0[k].0 as int].children_seq()[c], self.bfs_start(q0, k)]
                0 <= k < head && 0 <= c < self.node_seq()[q0[k].0 as int].children_seq().len()
                    ==> q0[self.bfs_start(q0, k) + c] == self.node_seq()[q0[k].0 as int].children_seq()[c],
            forall|w: int|
                1 <= w < q0.len() ==> #[trigger] self.parent_listed(q0, w, head),
        ensures
            q.len() == self.bfs_start(q, head + 1),
            forall|k: int, c: int|
                #![trigger self.node_seq()[q[k].0 as int].children_seq()[c], self.bfs_start(q, k)]
                0 <= k < head + 1 && 0 <= c < self.node_seq()[q[k].0 as int].children_seq().len()
                    ==> q[self.bfs_start(q, k) + c] == self.node_seq()[q[k].0 as int].children_seq()[c],
            forall|w: int|
                1 <= w < q.len() ==> #[trigger] self.parent_listed(q, w, head + 1),
    {
        reveal(Tree::parent_listed);
        let st = q0.len() as int;
        let cur = q0[head];
        let ci = cur.0 as int;
        assert forall|i: int| 0 <= i < head + 1 implies q[i] == q0[i] by {
            assert(q.subrange(0, st)[i] == q0[i]);
        }
        self.lemma_bfs_start_prefix(q, q0, head + 1);
        self.lemma_bfs_start_prefix(q, q0, head);
        assert forall|kk: int, c: int|
            #![trigger self.node_seq()[q[kk].0 as int].children_seq()[c], self.bfs_start(q, kk)]
            0 <= kk < head + 1 && 0 <= c < self.node_seq()[q[kk].0 as int].children_seq().len()
                implies q[self.bfs_start(q, kk) + c] == self.node_seq()[q[kk].0 as int].children_seq()[c] by {
            self.lemma_bfs_start_prefix(q, q0, kk);
            assert(q[kk] == q0[kk]);
            if kk < head {
                self.lemma_bfs_start_mono(q0, kk, head);
                assert(self.node_seq()[q0[kk].0 as int].children_seq()[c] == self.node_seq()[q[kk].0 as int].children_seq()[c]);
                let pos = self.bfs_start(q0, kk) + c;
                assert(q0[pos] == self.node_seq()[q0[kk].0 as int].children_seq()[c]);
                assert(q0[pos] == q.subrange(0, st)[pos]);
            } else {
                assert(self.bfs_start(q, kk) == st);
            }
        }
        assert forall|w: int|
            1 <= w < q.len() implies #[trigger] self.parent_listed(q, w, head + 1) by {
            if w < st {
                assert(q[w] == q.subrange(0, st)[w]);
                assert(q[w] == q0[w]);
                assert(self.parent_listed(q0, w, head));
                let p = self.nodes@[q0[w].0 as int].parent->0;
                assert(q0.subrange(0, head).contains(p));
                let v = choose|v: int| 0 <= v < head && q0.subrange(0, head)[v] == p;
                assert(q.subrange(0, head + 1)[v] == p);
            } else {
                let cc = self.nodes@[ci].children@[w - st];
                assert(q[w] == cc);
                assert(self.nodes@[cc.0 as int].parent == Some(cur));
                assert(q.subrange(0, head + 1)[head] == cur);
            }
        }
    }

    /// A breadth-first listing holds the children of all its entries.
    proof fn lemma_bfs_closed(&self, q: Seq<Node>)
        requires
            self.lists_breadth_first(q),
            forall|k: int| 0 <= k < q.len() ==> (#[trigger] q[k]).0 < self.nodes@.len(),
        ensures
            forall|kk: int, c: int|
                0 <= kk < q.len() && 0 <= c < self.nodes@[q[kk].0 as int].children@.len()
                    ==> q.contains(#[trigger] self.nodes@[(#[trigger] q[kk]).0 as int].children@[c]),
    {
        assert forall|kk: int, c: int|
            0 <= kk < q.len() && 0 <= c < self.nodes@[q[kk].0 as int].children@.len()
                implies q.contains(#[trigger] self.nodes@[(#[trigger] q[kk]).0 as int].children@[c]) by {
            self.lemma_bfs_start_mono(q, kk, q.len() as int);
            let pos = self.bfs_start(q, kk) + c;
            assert(self.node_seq()[q[kk].0 as int].children_seq()[c] == self.nodes@[q[kk].0 as int].children@[c]);
            assert(q[pos] == self.nodes@[q[kk].0 as int].children@[c]);
        }
    }

    /// Appends the children of `queue[head]`, in order, to a breadth-first queue of the
    /// subtree of `start`; none of them is queued yet.
    fn queue_children(&self, queue: &mut Vec<Node>, head: usize, Ghost(start): Ghost<int>, Ghost(seen): Ghost<Seq<bool>>) -> (new_seen: Ghost<Seq<bool>>)
        requires
            self.wf(),
            0 <= start < self.nodes@.len(),
            seen.len() == self.nodes@.len(),
            old(queue)@.len() > 0,
            old(queue)@[0].0 == start,
            head < old(queue)@.len(),
            old(queue)@.no_duplicates(),
            count_false(seen) + old(queue)@.len() == self.nodes@.len(),
            forall|q: int|
                0 <= q < old(queue)@.len() ==> (#[trigger] old(queue)@[q]).0 < self.nodes@.len() && self.is_desc(
                    old(queue)@[q].0 as int,
                    start,
                ),
            forall|j: int| 0 <= j < self.nodes@.len() ==> (#[trigger] seen[j] <==> old(queue)@.contains(Node(j as usize))),
            forall|w: int|
                1 <= w < old(queue)@.len() ==> #[trigger] self.parent_listed(old(queue)@, w, head as int),
            forall|w: int|
                1 <= w < old(queue)@.len() ==> #[trigger] self.parent_listed(old(queue)@, w, w),
        ensures
            final(queue)@ == old(queue)@ + self.nodes@[old(queue)@[head as int].0 as int].children@,
            final(queue)@.no_duplicates(),
            new_seen@.len() == self.nodes@.len(),
            count_false(new_seen@) + final(queue)@.len() == self.nodes@.len(),
            forall|q: int|
                0 <= q < final(queue)@.len() ==> (#[trigger] final(queue)@[q]).0 < self.nodes@.len() && self.is_desc(
                    final(queue)@[q].0 as int,
                    start,
                ),
            forall|j: int| 0 <= j < self.nodes@.len() ==> (#[trigger] new_seen@[j] <==> final(queue)@.contains(Node(j as usize))),
            forall|w: int|
                1 <= w < final(queue)@.len() ==> #[trigger] self.parent_listed(final(queue)@, w, w),
    {
        let n = self.nodes.len();
        let ghost mut seen = seen;
        let ghost node = queue@[0];
            let cur = queue[head];
            let ghost ci = cur.0 as int;
            let children = &self.nodes.index(cur).children;
            let ghost q0 = queue@;
            let ghost s0 = seen;
            let st = queue.len();
            proof {
                self.lemma_bfs_start_mono(q0, head as int, q0.len() as int);
            }
            let mut k: usize = 0;
            while k < children.len()
                invariant
                    self.wf(),
                    n == self.nodes@.len(),
                    0 <= start < n,
                    start == node.0,
                    seen.len() == n,
                    head < q0.len(),
                    q0[head as int] == cur,
                    ci == cur.0,
                    0 <= ci < n,
                    self.is_desc(ci, start),
                    children@ == self.nodes@[ci].children@,
                    st == q0.len(),
                    k <= children@.len(),
                    queue@.len() == st + k,
                    queue@.subrange(0, st as int) == q0,
                    q0[0] == node,
                    queue@.no_duplicates(),
                    count_false(seen) + queue@.len() == n,
                    count_false(seen) + k == count_false(s0),
                    forall|q: int|
                        0 <= q < queue@.len() ==> (#[trigger] queue@[q]).0 < n && self.is_desc(
                            queue@[q].0 as int,
                            start,
                        ),
                    forall|j: int| 0 <= j < n ==> (#[trigger] seen[j] <==> queue@.contains(Node(j as usize))),
                    forall|c: int| 0 <= c < k ==> queue@[st + c] == children@[c],
                    forall|w: int|
                        1 <= w < st ==> #[trigger] self.parent_listed(q0, w, head as int),
                    forall|w: int|
                        1 <= w < queue@.len() ==> #[trigger] self.parent_listed(queue@, w, w),
                decreases children@.len() - k,
            {
                let c = children[k];
                let ghost cj = c.0 as int;
                let ghost qb = queue@;
                proof {
                    reveal(Tree::parent_listed);
                    assert forall|w: int| 1 <= w < st implies #[trigger] self.parent_listed(qb, w, head as int) by {
                        assert(self.parent_listed(q0, w, head as int));
                        assert(qb[w] == q0[w]);
                        assert(qb.subrange(0, head as int) =~= q0.subrange(0, head as int));
                    }
                    assert(qb[head as int] == cur);
                    assert(qb[0] == node);
                    self.lemma_child_fresh(qb, head as int, st as int, k as int, start);
                    assert(self.nodes@[ci].children@[k as int] == c);
                    assert(self.is_desc(cj, start));
                    assert(!seen[cj]);
                    lemma_count_false_update(seen, cj);
                    seen = seen.update(cj, true);
                }
                queue.push(c);
                proof {
                    reveal(Tree::parent_listed);
                    assert(queue@[qb.len() as int] == c);
                    assert forall|j: int| 0 <= j < n implies (#[trigger] seen[j] <==> queue@.contains(Node(j as usize))) by {
                        if qb.contains(Node(j as usize)) {
                            let w = choose|w: int| 0 <= w < qb.len() && qb[w] == Node(j as usize);
                            assert(queue@[w] == qb[w]);
                        }
                        if queue@.contains(Node(j as usize)) && j != cj {
                            let w = choose|w: int| 0 <= w < queue@.len() && queue@[w] == Node(j as usize);
                            assert(w < qb.len());
                            assert(qb[w] == queue@[w]);
                        }
                    }
                    assert(queue@.subrange(0, st as int) =~= q0) by {
                        assert(qb.subrange(0, st as int) == q0);
                    }
                    assert forall|i: int, j: int| 0 <= i < j < queue@.len() implies queue@[i] != queue@[j] by {
                        if j == qb.len() {
                            assert(qb.contains(qb[i]));
                        } else {
                            assert(qb[i] == queue@[i] && qb[j] == queue@[j]);
                        }
                    }
                    assert forall|w: int|
                        1 <= w < queue@.len() implies #[trigger] self.parent_listed(queue@, w, w) by {
                        if w < qb.len() {
                            assert(self.parent_listed(qb, w, w));
                            assert(queue@[w] == qb[w]);
                            let p = self.nodes@[qb[w].0 as int].parent->0;
                            let v = choose|v: int| 0 <= v < w && qb.subrange(0, w)[v] == p;
                            assert(queue@.subrange(0, w)[v] == p);
                        } else {
                            assert(queue@[w] == c);
                            assert(self.nodes@[cj].parent == Some(cur));
                            assert(qb[head as int] == cur);
                            assert(queue@.subrange(0, w)[head as int] == cur);
                        }
                    }
                }
                k = k + 1;
            }
        proof {
            assert(queue@ =~= q0 + children@);
        }
        Ghost(seen)
    }

    /// The node followed by its descendants, breadth first; a node that does not exist
    /// comes alone.
    pub fn descendents_of(&self, node: Node) -> (r: Vec<Node>)
        requires
            self.wf(),
        ensures
            node.0 >= self.node_seq().len() ==> r@ == seq![node],
            node.0 < self.node_seq().len() ==> {
                &&& r@.len() > 0
                &&& r@[0] == node
                &&& r@.no_duplicates()
                &&& self.lists_breadth_first(r@)
                &&& forall|k: int|
                    0 <= k < r@.len() ==> (#[trigger] r@[k]).0 < self.node_seq().len()
                        && self.is_desc(r@[k].0 as int, node.0 as int)
                &&& forall|x: int|
                    0 <= x < self.node_seq().len() && self.is_desc(x, node.0 as int)
                        ==> r@.contains(Node(x as usize))
                &&& forall|w: int|
                    1 <= w < r@.len() ==> (self.node_seq()[(#[trigger] r@[w]).0 as int].parent_spec() matches Some(p)
                        && r@.subrange(0, w).contains(p))
            },
    {
        let mut queue: Vec<Node> = Vec::new();
        queue.push(node);
        let n = self.nodes.len();
        if node.0 >= n {
            return queue;
        }
        let ghost start = node.0 as int;
        let ghost mut seen: Seq<bool> = Seq::new(n as nat, |j: int| false).update(start, true);
        proof {
            let all = Seq::new(n as nat, |j: int| false);
            lemma_count_false_update(all, start);
            lemma_count_false_all(n as nat);
            assert(queue@ == seq![node]);
            assert forall|j: int| 0 <= j < n implies (#[trigger] seen[j] <==> queue@.contains(Node(j as usize))) by {
                if queue@.contains(Node(j as usize)) {
                    let w = choose|w: int| 0 <= w < queue@.len() && queue@[w] == Node(j as usize);
                    assert(w == 0);
                }
                if j == start {
                    assert(queue@[0] == Node(j as usize));
                }
            }
            assert(self.is_desc(start, start));
            assert(self.bfs_start(queue@, 0) == 1);
        }
        let mut head: usize = 0;
        while head < queue.len()
            invariant
                self.wf(),
                n == self.nodes@.len(),
                start == node.0,
                0 <= start < n,
                seen.len() == n,
                queue@.len() > 0,
                queue@[0] == node,
                head <= queue@.len(),
                queue@.no_duplicates(),
                count_false(seen) + queue@.len() == n,
                forall|q: int|
                    0 <= q < queue@.len() ==> (#[trigger] queue@[q]).0 < n && self.is_desc(
                        queue@[q].0 as int,
                        start,
                    ),
                forall|j: int| 0 <= j < n ==> (#[trigger] seen[j] <==> queue@.contains(Node(j as usize))),
                queue@.len() == self.bfs_start(queue@, head as int),
                forall|k: int, c: int|
                    #![trigger self.node_seq()[queue@[k].0 as int].children_seq()[c], self.bfs_start(queue@, k)]
                    0 <= k < head && 0 <= c < self.node_seq()[queue@[k].0 as int].children_seq().len()
                        ==> queue@[self.bfs_start(queue@, k) + c] == self.node_seq()[queue@[k].0 as int].children_seq()[c],
                forall|w: int|
                    1 <= w < queue@.len() ==> #[trigger] self.parent_listed(queue@, w, head as int),
                forall|w: int|
                    1 <= w < queue@.len() ==> #[trigger] self.parent_listed(queue@, w, w),
            decreases count_false(seen), queue@.len() - head,
        {
            let ghost q0 = queue@;
            let new_seen = self.queue_children(&mut queue, head, Ghost(start), Ghost(seen));
            proof {
                seen = new_seen@;
                let cur = q0[head as int];
                assert(queue@.subrange(0, q0.len() as int) =~= q0);
                self.lemma_bfs_start_mono(q0, head as int, q0.len() as int);
                self.lemma_bfs_advance(q0, queue@, head as int);
            }
            head = head + 1;
        }
        proof {
            let q = queue@;
            assert(head == q.len());
            self.lemma_bfs_closed(q);
            assert forall|x: int|
                0 <= x < n && self.is_desc(x, start) implies queue@.contains(Node(x as usize)) by {
                assert(q[0] == node);
                self.lemma_closed_contains(queue@, start, x);
            }
            assert forall|w: int|
                1 <= w < q.len() implies (self.node_seq()[(#[trigger] q[w]).0 as int].parent_spec() matches Some(p)
                    && q.subrange(0, w).contains(p)) by {
                assert(self.parent_listed(q, w, w));
                reveal(Tree::parent_listed);
            }
        }
        queue
    }

    proof fn lemma_closed_contains(&self, q: Seq<Node>, start: int, x: int)
        requires
            self.wf(),
            0 <= start < self.nodes@.len(),
            0 <= x < self.nodes@.len(),
            self.is_desc(x, start),
            q.contains(Node(start as usize)),
            forall|k: int, c: int|
                0 <= k < q.len() && 0 <= c < self.nodes@[q[k].0 as int].children@.len()
                    ==> q.contains(#[trigger] self.nodes@[(#[trigger] q[k]).0 as int].children@[c]),
        ensures
            q.contains(Node(x as usize)),
        decreases self.rank@[x],
    {
        if x != start {
            let p = self.nodes@[x].parent->0;
            let pi = p.0 as int;
            self.lemma_closed_contains(q, start, pi);
            let k = choose|k: int| 0 <= k < q.len() && q[k] == p;
            let c = choose|c: int|
                0 <= c < self.nodes@[pi].children@.len() && self.nodes@[pi].children@[c] == Node(
                    x as usize,
                );
            assert(q.contains(self.nodes@[q[k].0 as int].children@[c]));
        }
    }

    /// `after` is the part of this tree that hangs from the root, renumbered so that node
    /// `i` of `after` is node `order[i]` of this tree: `order` starts at the root, lists
    /// every node of the root's subtree once, and the data, the parent links and the
    /// children (in order) follow the renumbering.
    pub open spec fn compacted(&self, after: Seq<NodeData<T>>, order: Seq<Node>) -> bool {
        let nodes = self.node_seq();
        let root = self.root_spec().0 as int;
        &&& order.len() == after.len()
        &&& order.len() > 0
        &&& order[0] == self.root_spec()
        &&& order.no_duplicates()
        &&& forall|k: int|
            0 <= k < order.len() ==> (#[trigger] order[k]).0 < nodes.len() && self.is_desc(
                order[k].0 as int,
                root,
            )
        &&& forall|x: int|
            0 <= x < nodes.len() && self.is_desc(x, root) ==> order.contains(Node(x as usize))
        &&& forall|i: int|
            0 <= i < after.len() ==> {
                &&& (#[trigger] after[i]).data() == nodes[order[i].0 as int].data()
                &&& (i == 0 ==> after[i].parent_spec() is None)
                &&& (i > 0 ==> (after[i].parent_spec() matches Some(q) && q.0 < order.len()
                    && Some(order[q.0 as int]) == nodes[order[i].0 as int].parent_spec()))
                &&& after[i].children_seq().len() == nodes[order[i].0 as int].children_seq().len()
                &&& forall|k: int|
                    0 <= k < after[i].children_seq().len() ==> (#[trigger] after[i].children_seq()[k]).0
                        < order.len() && order[after[i].children_seq()[k].0 as int]
                        == nodes[order[i].0 as int].children_seq()[k]
            }
    }

    /// A node of a subtree other than its top has a parent in the subtree.
    proof fn lemma_desc_parent(&self, x: int, a: int)
        requires
            self.wf(),
            0 <= x < self.nodes@.len(),
            self.is_desc(x, a),
            x != a,
        ensures
            self.nodes@[x].parent matches Some(p) && self.is_desc(p.0 as int, a),
    {
    }

    /// The children of a node of a subtree lie in the subtree.
    proof fn lemma_desc_child(&self, x: int, a: int, k: int)
        requires
            self.wf(),
            0 <= x < self.nodes@.len(),
            self.is_desc(x, a),
            0 <= k < self.nodes@[x].children@.len(),
        ensures
            self.is_desc(self.nodes@[x].children@[k].0 as int, a),
    {
        let c = self.nodes@[x].children@[k].0 as int;
    }

    proof fn lemma_compacted_wf(&self, r: Self, order: Seq<Node>)
        requires
            self.wf(),
            self.compacted(r.nodes@, order),
            r.root == Node(0),
            r.nodes@.len() <= usize::MAX,
            r.rank@ == Seq::new(order.len(), |i: int| self.rank@[order[i].0 as int]),
        ensures
            r.wf(),
    {
        let n = r.nodes@.len();
        let b = self.nodes@;
        assert forall|x: int|
            #![trigger r.nodes@[x]]
            0 <= x < n implies {
            &&& (r.nodes@[x].parent matches Some(p) ==> {
                &&& p.0 < n
                &&& r.rank@[p.0 as int] < r.rank@[x]
                &&& r.nodes@[p.0 as int].children@.contains(Node(x as usize))
            })
            &&& r.nodes@[x].children@.no_duplicates()
            &&& forall|k: int|
                0 <= k < r.nodes@[x].children@.len() ==> {
                    &&& (#[trigger] r.nodes@[x].children@[k]).0 < n
                    &&& r.nodes@[r.nodes@[x].children@[k].0 as int].parent == Some(
                        Node(x as usize),
                    )
                }
        } by {
            let ox = order[x].0 as int;
            if let Some(q) = r.nodes@[x].parent {
                let qi = q.0 as int;
                let oq = order[qi].0 as int;
                assert(b[oq].children@.contains(Node(ox as usize)));
                let k = choose|k: int| 0 <= k < b[oq].children@.len() && b[oq].children@[k] == Node(
                    ox as usize,
                );
                let c = r.nodes@[qi].children@[k];
                assert(order[c.0 as int] == order[x]);
                assert(c.0 == x);
                assert(r.nodes@[qi].children@[k] == Node(x as usize));
            }
            assert forall|k1: int, k2: int|
                0 <= k1 < k2 < r.nodes@[x].children@.len() implies r.nodes@[x].children@[k1]
                != r.nodes@[x].children@[k2] by {
                let c1 = r.nodes@[x].children@[k1];
                let c2 = r.nodes@[x].children@[k2];
                assert(order[c1.0 as int] == b[ox].children@[k1]);
                assert(order[c2.0 as int] == b[ox].children@[k2]);
            }
            assert forall|k: int| 0 <= k < r.nodes@[x].children@.len() implies {
                &&& (#[trigger] r.nodes@[x].children@[k]).0 < n
                &&& r.nodes@[r.nodes@[x].children@[k].0 as int].parent == Some(Node(x as usize))
            } by {
                let c = r.nodes@[x].children@[k];
                let ci = c.0 as int;
                assert(order[ci] == b[ox].children@[k]);
                let oc = order[ci].0 as int;
                assert(b[oc].parent == Some(Node(ox as usize)));
                if ci == 0 {
                    assert(oc == self.root.0);
                    assert(false);
                }
                let q = r.nodes@[ci].parent->0;
                assert(order[q.0 as int] == order[x]);
                assert(q.0 == x);
            }
        }
    }

    /// Drops every node that does not hang from the root and renumbers the rest, the root
    /// becoming node 0 and the others following in breadth-first order.
    pub fn clean_up(&mut self)
        requires
            old(self).wf(),
        ensures
            final(self).wf(),
            final(self).root_spec() == Node(0),
            exists|order: Seq<Node>|
                old(self).compacted(final(self).node_seq(), order) && old(self).lists_breadth_first(order),
    {
        let ghost b = *self;
        let n = self.nodes.len();
        let root = self.root;
        let order = self.descendents_of(root);
        // Where each node of the root's subtree goes.
        let mut newidx: Vec<Option<usize>> = Vec::new();
        let mut i: usize = 0;
        while i < n
            invariant
                i <= n,
                newidx@.len() == i,
                forall|j: int| 0 <= j < i ==> (#[trigger] newidx@[j]) is None,
            decreases n - i,
        {
            newidx.push(None);
            i = i + 1;
        }
        let mut k: usize = 0;
        while k < order.len()
            invariant
                newidx@.len() == n,
                k <= order@.len(),
                order@.no_duplicates(),
                forall|q: int| 0 <= q < order@.len() ==> (#[trigger] order@[q]).0 < n,
                forall|q: int| 0 <= q < k ==> newidx@[(#[trigger] order@[q]).0 as int] == Some(q as usize),
                forall|x: int|
                    0 <= x < n ==> ((#[trigger] newidx@[x]) matches Some(q) ==> q < k && order@[q as int].0
                        == x),
            decreases order@.len() - k,
        {
            proof {
                assert forall|q: int| 0 <= q < k implies order@[q] != order@[k as int] by {}
            }
            newidx.set(order[k].0, Some(k));
            k = k + 1;
        }
        // Take the nodes out, keeping their data apart from their links.
        let mut taken: IdxVec<Node, NodeData<T>> = IdxVec::new();
        std::mem::swap(&mut self.nodes, &mut taken);
        let mut raw = taken.into_raw();
        let mut datas: Vec<Option<T>> = Vec::new();
        let mut shapes: Vec<NodeData<()>> = Vec::new();
        while raw.len() > 0
            invariant
                n == b.nodes@.len(),
                raw@ == b.nodes@.subrange(0, n - datas@.len()),
                datas@.len() == shapes@.len(),
                datas@.len() <= n,
                forall|j: int|
                    0 <= j < datas@.len() ==> {
                        &&& (#[trigger] datas@[j]) == Some(b.nodes@[n - 1 - j].data)
                        &&& shapes@[j].parent == b.nodes@[n - 1 - j].parent
                        &&& shapes@[j].children@ == b.nodes@[n - 1 - j].children@
                    },
            decreases raw@.len(),
        {
            let ghost j = datas@.len() as int;
            let nd = raw.pop().unwrap();
            assert(nd == b.nodes@[n - 1 - j]);
            datas.push(Some(nd.data));
            shapes.push(NodeData { data: (), parent: nd.parent, children: nd.children });
        }
        let mut nodes: IdxVec<Node, NodeData<T>> = IdxVec::new();
        let mut i: usize = 0;
        while i < order.len()
            invariant
                b.wf(),
                n == b.nodes@.len(),
                root == b.root,
                datas@.len() == n,
                shapes@.len() == n,
                newidx@.len() == n,
                i <= order@.len(),
                nodes@.len() == i,
                order@.len() > 0,
                order@[0] == root,
                order@.no_duplicates(),
                forall|q: int|
                    0 <= q < order@.len() ==> (#[trigger] order@[q]).0 < n && b.is_desc(
                        order@[q].0 as int,
                        root.0 as int,
                    ),
                forall|x: int|
                    0 <= x < n && b.is_desc(x, root.0 as int) ==> order@.contains(Node(x as usize)),
                forall|q: int| 0 <= q < order@.len() ==> newidx@[(#[trigger] order@[q]).0 as int] == Some(q as usize),
                forall|x: int|
                    0 <= x < n ==> ((#[trigger] newidx@[x]) matches Some(q) ==> q < order@.len()
                        && order@[q as int].0 == x),
                forall|j: int|
                    0 <= j < n ==> {
                        &&& shapes@[j].parent == b.nodes@[n - 1 - j].parent
                        &&& shapes@[j].children@ == b.nodes@[n - 1 - j].children@
                        &&& (#[trigger] datas@[j]) matches Some(d) ==> d == b.nodes@[n - 1 - j].data
                    },
                forall|q: int|
                    i <= q < order@.len() ==> datas@[n - 1 - (#[trigger] order@[q]).0] is Some,
                forall|j: int|
                    0 <= j < i ==> {
                        &&& (#[trigger] nodes@[j]).data == b.nodes@[order@[j].0 as int].data
                        &&& (j == 0 ==> nodes@[j].parent is None)
                        &&& (j > 0 ==> (nodes@[j].parent matches Some(q) && q.0 < order@.len()
                            && Some(order@[q.0 as int]) == b.nodes@[order@[j].0 as int].parent))
                        &&& nodes@[j].children@.len() == b.nodes@[order@[j].0 as int].children@.len()
                        &&& forall|k: int|
                            0 <= k < nodes@[j].children@.len() ==> (#[trigger] nodes@[j].children@[k]).0
                                < order@.len() && order@[nodes@[j].children@[k].0 as int]
                                == b.nodes@[order@[j].0 as int].children@[k]
                    },
            decreases order@.len() - i,
        {
            let o = order[i];
            let ghost oi = o.0 as int;
            let ghost si = n - 1 - oi;
            proof {
                assert(order@[i as int] == o);
                assert forall|q: int| i < q < order@.len() implies order@[q] != o by {}
            }
            let slot = &mut datas[n - 1 - o.0];
            let d = slot.take();
            let data = d.unwrap();
            let sh = &shapes[n - 1 - o.0];
            let parent = if i == 0 {
                None
            } else {
                proof {
                    assert(oi != root.0) by {
                        assert(order@[0] == root);
                    }
                    b.lemma_desc_parent(oi, root.0 as int);
                    let p = b.nodes@[oi].parent->0;
                    assert(order@.contains(p));
                    let w = choose|w: int| 0 <= w < order@.len() && order@[w] == p;
                    assert(newidx@[p.0 as int] == Some(w as usize));
                }
                match sh.parent {
                    Some(p) => match newidx[p.0] {
                        Some(q) => Some(Node(q)),
                        None => None,
                    },
                    None => None,
                }
            };
            proof {
                assert forall|k: int| 0 <= k < sh.children@.len() implies (#[trigger] sh.children@[k]).0
                    < newidx@.len() && newidx@[sh.children@[k].0 as int] is Some by {
                    b.lemma_desc_child(oi, root.0 as int, k);
                    let c = sh.children@[k];
                    assert(order@.contains(c));
                    let w = choose|w: int| 0 <= w < order@.len() && order@[w] == c;
                    assert(newidx@[c.0 as int] == Some(w as usize));
                }
            }
            let children = renumber(&sh.children, &newidx);
            nodes.push(NodeData { data, parent, children });
            proof {
                let j = i as int;
                assert(nodes@[j].children@ == children@);
                assert forall|k: int| 0 <= k < nodes@[j].children@.len() implies (#[trigger] nodes@[
                    j
                ].children@[k]).0 < order@.len() && order@[nodes@[j].children@[k].0 as int]
                    == b.nodes@[order@[j].0 as int].children@[k] by {
                    let c = sh.children@[k];
                    assert(Some(children@[k].0) == newidx@[c.0 as int]);
                }
            }
            i = i + 1;
        }
        proof {
            assert(nodes@.len() <= usize::MAX) by {
                IdxVec::<Node, NodeData<T>>::lemma_len_bound(&nodes);
            }
        }
        self.nodes = nodes;
        self.root = Node(0);
        self.rank = Ghost(Seq::new(order@.len(), |i: int| b.rank@[order@[i].0 as int]));
        proof {
            assert(b.compacted(self.nodes@, order@)) by {
                assert forall|j: int| 0 <= j < self.nodes@.len() implies (#[trigger] self.nodes@[j]).data()
                    == b.nodes@[order@[j].0 as int].data() by {}
            }
            b.lemma_compacted_wf(*self, order@);
            assert(old(self).compacted(self.node_seq(), order@));
            assert(old(self).lists_breadth_first(order@));
        }
    }


    /// All nodes reachable from the root, the root first, each with its data.
    pub fn iter(&self) -> (r: Vec<(Node, &NodeData<T>)>)
        requires
            self.wf(),
        ensures
            r@.len() > 0,
            r@[0].0 == self.root_spec(),
            forall|k: int|
                0 <= k < r@.len() ==> (#[trigger] r@[k]).0.0 < self.node_seq().len() && *r@[k].1
                    == self.node_seq()[r@[k].0.0 as int] && self.is_desc(
                    r@[k].0.0 as int,
                    self.root_spec().0 as int,
                ),
            forall|j: int, k: int| 0 <= j < k < r@.len() ==> (#[trigger] r@[j]).0 != (#[trigger] r@[k]).0,
            forall|x: int|
                0 <= x < self.node_seq().len() && self.is_desc(x, self.root_spec().0 as int)
                    ==> exists|k: int| 0 <= k < r@.len() && (#[trigger] r@[k]).0 == Node(x as usize),
            exists|order: Seq<Node>|
                #![trigger self.lists_breadth_first(order)]
                self.lists_breadth_first(order) && order.len() == r@.len() && forall|k: int|
                    0 <= k < r@.len() ==> (#[trigger] r@[k]).0 == order[k],
    {
        let order = self.descendents_of(self.root);
        let mut r: Vec<(Node, &NodeData<T>)> = Vec::new();
        let mut i: usize = 0;
        while i < order.len()
            invariant
                self.wf(),
                i <= order@.len(),
                r@.len() == i,
                forall|k: int| 0 <= k < order@.len() ==> (#[trigger] order@[k]).0 < self.nodes@.len(),
                forall|k: int|
                    0 <= k < i ==> (#[trigger] r@[k]).0 == order@[k] && *r@[k].1
                        == self.nodes@[order@[k].0 as int],
            decreases order@.len() - i,
        {
            let nd = order[i];
            r.push((nd, self.nodes.index(nd)));
            i = i + 1;
        }
        proof {
            assert forall|x: int|
                0 <= x < self.node_seq().len() && self.is_desc(x, self.root_spec().0 as int)
                    implies exists|k: int| 0 <= k < r@.len() && (#[trigger] r@[k]).0 == Node(x as usize) by {
                let k = choose|k: int| 0 <= k < order@.len() && order@[k] == Node(x as usize);
                assert(r@[k].0 == Node(x as usize));
            }
            assert forall|j: int, k: int| 0 <= j < k < r@.len() implies (#[trigger] r@[j]).0 != (#[trigger] r@[k]).0 by {
                assert(order@[j] != order@[k]);
            }
            assert(self.lists_breadth_first(order@));
        }
        r
    }

    /// `r` is what `filter_map` with `f` builds from this tree: `order` is the breadth-first
    /// listing from the root, and the node `m` of `r` comes from the node at position
    /// `origin[m]` of `order`. The root comes first; after it, in breadth-first order, every
    /// node on which `f` gave some value, holding that value, under the node its parent
    /// became; `f` gave nothing on every node left out. Children are listed as they were
    /// added, by increasing index.
    pub open spec fn filters_into<U, F: Fn(&T) -> Option<U>>(
        &self,
        r: Tree<U>,
        f: F,
        order: Seq<Node>,
        origin: Seq<int>,
    ) -> bool {
        let nodes = self.node_seq();
        &&& self.lists_breadth_first(order)
        &&& order[0] == self.root_spec()
        &&& origin.len() == r.node_seq().len()
        &&& origin.len() > 0
        &&& origin[0] == 0
        &&& forall|m1: int, m2: int|
            #![trigger origin[m1], origin[m2]]
            0 <= m1 < m2 < origin.len() ==> origin[m1] < origin[m2]
        &&& forall|m: int| 0 <= m < origin.len() ==> #[trigger] origin[m] < order.len()
        &&& forall|m: int|
            1 <= m < origin.len() ==> call_ensures(
                f,
                (&nodes[order[origin[m]].0 as int].data(),),
                Some((#[trigger] r.node_seq()[m]).data()),
            )
        &&& forall|p: int|
            1 <= p < order.len() && !origin.contains(p) ==> call_ensures(
                f,
                (&nodes[(#[trigger] order[p]).0 as int].data(),),
                None,
            )
        &&& forall|m: int|
            1 <= m < origin.len() ==> ((#[trigger] r.node_seq()[m]).parent_spec() matches Some(q)
                && q.0 < origin.len() && nodes[order[origin[m]].0 as int].parent_spec() == Some(
                order[origin[q.0 as int]],
            ))
        &&& forall|j: int, a: int, b: int|
            #![trigger r.node_seq()[j].children_seq()[a], r.node_seq()[j].children_seq()[b]]
            0 <= j < r.node_seq().len() && 0 <= a < b < r.node_seq()[j].children_seq().len()
                ==> r.node_seq()[j].children_seq()[a].0 < r.node_seq()[j].children_seq()[b].0
    }

    /// A new tree of the nodes on which `f` gives a value, holding those values, each under
    /// the node that its parent became; the root always stays and holds the default value.
    /// The nodes are visited breadth first; a node on which `f` gives nothing must not
    /// have children (its children would have no parent to go under).
    pub fn filter_map<F, U>(self, f: F) -> (r: Tree<U>) where F: Fn(&T) -> Option<U>, U: Default
        requires
            self.wf(),
            forall|x: int|
                0 <= x < self.node_seq().len() ==> call_requires(
                    f,
                    (&(#[trigger] self.node_seq()[x]).data(),),
                ),
            forall|x: int, o: Option<U>|
                #![trigger call_ensures(f, (&self.node_seq()[x].data(),), o)]
                0 <= x < self.node_seq().len() && x != self.root_spec().0 && self.is_desc(
                    x,
                    self.root_spec().0 as int,
                ) && self.node_seq()[x].children_seq().len() > 0 && call_ensures(
                    f,
                    (&self.node_seq()[x].data(),),
                    o,
                ) ==> o is Some,
        ensures
            r.wf(),
            r.root_spec() == Node(0),
            call_ensures(U::default, (), r.node_seq()[0].data()),
            exists|order: Seq<Node>, origin: Seq<int>| self.filters_into(r, f, order, origin),
    {
        let order = self.descendents_of(self.root);
        let mut result: Tree<U> = Tree::default();
        let mut mappings = node_mappings_new();
        node_mappings_insert(&mut mappings, self.root.0, result.root().0);
        let ghost nodes = self.nodes@;
        let ghost root = self.root;
        let ghost mut origin: Seq<int> = seq![0];
        let ghost mut newof: Seq<int> = Seq::new(order@.len(), |p: int| if p == 0 { 0 } else { -1 });
        proof {
            reveal(Tree::parent_listed);
            assert forall|w: int| 1 <= w < order@.len() implies #[trigger] self.parent_listed(order@, w, w) by {}
        }
        let mut i: usize = 1;
        while i < order.len()
            invariant
                self.wf(),
                nodes == self.nodes@,
                root == self.root,
                root.0 < nodes.len(),
                forall|x: int| 0 <= x < nodes.len() ==> call_requires(f, (&(#[trigger] nodes[x]).data,)),
                forall|x: int, o: Option<U>|
                    #![trigger call_ensures(f, (&nodes[x].data,), o)]
                    0 <= x < nodes.len() && x != root.0 && self.is_desc(x, root.0 as int)
                        && nodes[x].children@.len() > 0 && call_ensures(f, (&nodes[x].data,), o)
                        ==> o is Some,
                order@.len() > 0,
                order@[0] == root,
                order@.no_duplicates(),
                self.lists_breadth_first(order@),
                forall|k: int|
                    0 <= k < order@.len() ==> (#[trigger] order@[k]).0 < nodes.len() && self.is_desc(
                        order@[k].0 as int,
                        root.0 as int,
                    ),
                forall|w: int|
                    1 <= w < order@.len() ==> #[trigger] self.parent_listed(order@, w, w),
                1 <= i <= order@.len(),
                result.wf(),
                result.root_spec() == Node(0),
                call_ensures(U::default, (), result.node_seq()[0].data()),
                origin.len() == result.node_seq().len(),
                origin[0] == 0,
                newof.len() == order@.len(),
                forall|m1: int, m2: int|
                    #![trigger origin[m1], origin[m2]]
                    0 <= m1 < m2 < origin.len() ==> origin[m1] < origin[m2],
                forall|m: int| 0 <= m < origin.len() ==> #[trigger] origin[m] < i,
                forall|m: int| 0 <= m < origin.len() ==> newof[#[trigger] origin[m]] == m,
                forall|p: int|
                    0 <= p < i ==> (#[trigger] newof[p] == -1 || (0 <= newof[p] < origin.len()
                        && origin[newof[p]] == p)),
                forall|p: int| i <= p < order@.len() ==> #[trigger] newof[p] == -1,
                forall|p: int|
                    1 <= p < i && #[trigger] newof[p] == -1 ==> call_ensures(
                        f,
                        (&nodes[order@[p].0 as int].data,),
                        None,
                    ),
                forall|m: int|
                    1 <= m < origin.len() ==> call_ensures(
                        f,
                        (&nodes[order@[origin[m]].0 as int].data,),
                        Some((#[trigger] result.node_seq()[m]).data()),
                    ),
                forall|m: int|
                    1 <= m < origin.len() ==> ((#[trigger] result.node_seq()[m]).parent_spec() matches Some(q)
                        && q.0 < origin.len() && nodes[order@[origin[m]].0 as int].parent == Some(
                        order@[origin[q.0 as int]],
                    )),
                forall|j: int, a: int, b: int|
                    #![trigger result.node_seq()[j].children_seq()[a], result.node_seq()[j].children_seq()[b]]
                    0 <= j < result.node_seq().len() && 0 <= a < b < result.node_seq()[j].children_seq().len()
                        ==> result.node_seq()[j].children_seq()[a].0 < result.node_seq()[j].children_seq()[b].0,
                forall|j: int, a: int|
                    0 <= j < result.node_seq().len() && 0 <= a < result.node_seq()[j].children_seq().len()
                        ==> (#[trigger] result.node_seq()[j].children_seq()[a]).0 < result.node_seq().len(),
                forall|p: int|
                    0 <= p < i && 0 <= #[trigger] newof[p] ==> node_mappings_contents(mappings).contains_key(
                        order@[p].0,
                    ) && node_mappings_contents(mappings)[order@[p].0] == newof[p],
                forall|k: usize|
                    #[trigger] node_mappings_contents(mappings).contains_key(k) ==> node_mappings_contents(mappings)[k]
                        < origin.len() && order@[origin[node_mappings_contents(mappings)[k] as int]].0 == k,
            decreases order@.len() - i,
        {
            let node = order[i];
            let data = self.nodes.index(node);
            proof {
                assert(self.parent_listed(order@, i as int, i as int));
                reveal(Tree::parent_listed);
            }
            let ghost pos_parent: int = choose|v: int| 0 <= v < i && order@.subrange(0, i as int)[v] == nodes[node.0 as int].parent->0;
            proof {
                assert(order@[i as int] == node);
                let p = nodes[node.0 as int].parent->0;
                assert(order@.subrange(0, i as int).contains(p));
                assert(order@[pos_parent] == p);
                assert(nodes[p.0 as int].children@.contains(node));
                if pos_parent > 0 {
                    assert(p.0 != root.0) by {
                        assert(order@[0] == root);
                    }
                    if newof[pos_parent] == -1 {
                        assert(call_ensures(f, (&nodes[p.0 as int].data,), None::<U>));
                        assert(false);
                    }
                } else {
                    assert(order@[0] == root);
                    assert(newof[0] == 0);
                }
                assert(0 <= newof[pos_parent]);
                assert(node_mappings_contents(mappings).contains_key(p.0));
            }
            let parent = match data.parent {
                Some(p) => match node_mappings_get(&mappings, p.0) {
                    Some(v) => Node(v),
                    None => result.root(),
                },
                None => result.root(),
            };
            proof {
                let p = nodes[node.0 as int].parent->0;
                let v = node_mappings_contents(mappings)[p.0];
                assert(parent == Node(v));
                assert(v < origin.len());
                assert(order@[origin[v as int]] == p) by {
                    assert(order@[origin[v as int]].0 == p.0);
                }
            }
            let ghost before = result;
            let ghost mc0 = node_mappings_contents(mappings);
            match f(&data.data) {
                Some(d) => {
                    let id = result.push_onto(parent, d);
                    let new_id = id.unwrap();
                    node_mappings_insert(&mut mappings, node.0, new_id.0);
                    proof {
                        let m = origin.len() as int;
                        let old_origin = origin;
                        origin = origin.push(i as int);
                        newof = newof.update(i as int, m);
                        assert forall|m1: int, m2: int|
                            #![trigger origin[m1], origin[m2]]
                            0 <= m1 < m2 < origin.len() implies origin[m1] < origin[m2] by {
                            if m2 < m {
                                assert(origin[m1] == old_origin[m1] && origin[m2] == old_origin[m2]);
                            } else {
                                assert(origin[m1] == old_origin[m1]);
                            }
                        }
                        assert forall|mm: int| 0 <= mm < origin.len() implies newof[#[trigger] origin[mm]] == mm by {
                            if mm < m {
                                assert(origin[mm] == old_origin[mm]);
                            }
                        }
                        assert forall|mm: int|
                            1 <= mm < origin.len() implies call_ensures(
                                f,
                                (&nodes[order@[origin[mm]].0 as int].data,),
                                Some((#[trigger] result.node_seq()[mm]).data()),
                            ) by {
                            if mm < m {
                                assert(origin[mm] == old_origin[mm]);
                                if mm != parent.0 {
                                    assert(result.node_seq()[mm] == before.node_seq()[mm]);
                                }
                            }
                        }
                        assert forall|mm: int|
                            1 <= mm < origin.len() implies ((#[trigger] result.node_seq()[mm]).parent_spec() matches Some(q)
                                && q.0 < origin.len() && nodes[order@[origin[mm]].0 as int].parent == Some(
                                order@[origin[q.0 as int]],
                            )) by {
                            if mm < m {
                                assert(origin[mm] == old_origin[mm]);
                                if mm != parent.0 {
                                    assert(result.node_seq()[mm] == before.node_seq()[mm]);
                                }
                                let q = before.node_seq()[mm].parent_spec()->0;
                                assert(origin[q.0 as int] == old_origin[q.0 as int]);
                            } else {
                                assert(origin[parent.0 as int] == old_origin[parent.0 as int]);
                            }
                        }
                        assert forall|j: int, a: int, b: int|
                            #![trigger result.node_seq()[j].children_seq()[a], result.node_seq()[j].children_seq()[b]]
                            0 <= j < result.node_seq().len() && 0 <= a < b < result.node_seq()[j].children_seq().len()
                                implies result.node_seq()[j].children_seq()[a].0 < result.node_seq()[j].children_seq()[b].0 by {
                            if j == parent.0 {
                                let cs = before.node_seq()[j].children_seq();
                            } else if j < m {
                                assert(result.node_seq()[j] == before.node_seq()[j]);
                                let cs = before.node_seq()[j].children_seq();
                            }
                        }
                        assert forall|j: int, a: int|
                            0 <= j < result.node_seq().len() && 0 <= a < result.node_seq()[j].children_seq().len()
                                implies (#[trigger] result.node_seq()[j].children_seq()[a]).0 < result.node_seq().len() by {
                            if j == parent.0 {
                                let cs = before.node_seq()[j].children_seq();
                            } else if j < m {
                                assert(result.node_seq()[j] == before.node_seq()[j]);
                                let cs = before.node_seq()[j].children_seq();
                            }
                        }
                        assert forall|p: int|
                            0 <= p < i + 1 && 0 <= #[trigger] newof[p] implies node_mappings_contents(mappings).contains_key(
                                order@[p].0,
                            ) && node_mappings_contents(mappings)[order@[p].0] == newof[p] by {
                            if p < i {
                                assert(order@[p] != order@[i as int]);
                            }
                        }
                        assert forall|k: usize|
                            #[trigger] node_mappings_contents(mappings).contains_key(k) implies node_mappings_contents(mappings)[k]
                                < origin.len() && order@[origin[node_mappings_contents(mappings)[k] as int]].0 == k by {
                            if k != node.0 {
                                assert(mc0.contains_key(k));
                                let v = mc0[k];
                                assert(origin[v as int] == old_origin[v as int]);
                            }
                        }
                    }
                },
                None => {},
            }
            i = i + 1;
        }
        proof {
            assert forall|p: int|
                1 <= p < order@.len() && !origin.contains(p) implies call_ensures(
                    f,
                    (&nodes[(#[trigger] order@[p]).0 as int].data,),
                    None,
                ) by {
                if newof[p] != -1 {
                    assert(origin[newof[p]] == p);
                }
            }
            assert(self.filters_into(result, f, order@, origin));
        }
        result
    }

    /// Applies `f` to the data of every node, keeping the shape.
    pub fn map<F, U>(self, f: F) -> (r: Tree<U>) where F: Fn(T) -> U
        requires
            forall|i: int|
                0 <= i < self.node_seq().len() ==> call_requires(f, ((#[trigger] self.node_seq()[i]).data(),)),
        ensures
            r.node_seq().len() == self.node_seq().len(),
            r.root_spec() == self.root_spec(),
            forall|i: int|
                0 <= i < self.node_seq().len() ==> {
                    &&& call_ensures(f, (self.node_seq()[i].data(),), (#[trigger] r.node_seq()[i]).data())
                    &&& r.node_seq()[i].parent_spec() == self.node_seq()[i].parent_spec()
                    &&& r.node_seq()[i].children_seq() == self.node_seq()[i].children_seq()
                },
            self.wf() ==> r.wf(),
    {
        let ghost s = self.nodes@;
        let root = self.root;
        let rank = self.rank;
        let mut raw = self.nodes.into_raw();
        let mut rev: Vec<NodeData<U>> = Vec::new();
        while raw.len() > 0
            invariant
                raw@ == s.subrange(0, s.len() - rev@.len()),
                rev@.len() <= s.len(),
                forall|i: int| 0 <= i < s.len() ==> call_requires(f, ((#[trigger] s[i]).data(),)),
                forall|k: int|
                    0 <= k < rev@.len() ==> {
                        &&& call_ensures(f, (s[s.len() - 1 - k].data(),), (#[trigger] rev@[k]).data())
                        &&& rev@[k].parent == s[s.len() - 1 - k].parent
                        &&& rev@[k].children@ == s[s.len() - 1 - k].children@
                    },
            decreases raw@.len(),
        {
            let ghost k = rev@.len();
            let nd = raw.pop().unwrap();
            assert(nd == s[s.len() - 1 - k]);
            let d = f(nd.data);
            rev.push(NodeData { data: d, parent: nd.parent, children: nd.children });
        }
        let ghost n = rev@.len();
        let mut out: Vec<NodeData<U>> = Vec::new();
        while rev.len() > 0
            invariant
                n == s.len(),
                rev@.len() + out@.len() == n,
                forall|k: int|
                    0 <= k < rev@.len() ==> {
                        &&& call_ensures(f, (s[s.len() - 1 - k].data(),), (#[trigger] rev@[k]).data())
                        &&& rev@[k].parent == s[s.len() - 1 - k].parent
                        &&& rev@[k].children@ == s[s.len() - 1 - k].children@
                    },
                forall|i: int|
                    0 <= i < out@.len() ==> {
                        &&& call_ensures(f, (s[i].data(),), (#[trigger] out@[i]).data())
                        &&& out@[i].parent == s[i].parent
                        &&& out@[i].children@ == s[i].children@
                    },
            decreases rev@.len(),
        {
            let y = rev.pop().unwrap();
            out.push(y);
        }
        let r = Tree { nodes: IdxVec::from_vec(out), root, rank };
        proof {
            if self.wf() {
                assert forall|x: int|
                    #![trigger r.nodes@[x]]
                    0 <= x < r.nodes@.len() implies {
                    &&& (r.nodes@[x].parent matches Some(p) ==> {
                        &&& p.0 < r.nodes@.len()
                        &&& r.rank@[p.0 as int] < r.rank@[x]
                        &&& r.nodes@[p.0 as int].children@.contains(Node(x as usize))
                    })
                    &&& r.nodes@[x].children@.no_duplicates()
                    &&& forall|k: int|
                        0 <= k < r.nodes@[x].children@.len() ==> {
                            &&& (#[trigger] r.nodes@[x].children@[k]).0 < r.nodes@.len()
                            &&& r.nodes@[r.nodes@[x].children@[k].0 as int].parent == Some(
                                Node(x as usize),
                            )
                        }
                } by {
                    assert forall|k: int| 0 <= k < r.nodes@[x].children@.len() implies {
                        &&& (#[trigger] r.nodes@[x].children@[k]).0 < r.nodes@.len()
                        &&& r.nodes@[r.nodes@[x].children@[k].0 as int].parent == Some(
                            Node(x as usize),
                        )
                    } by {
                        let c = s[x].children@[k];
                    }
                }
            }
        }
        r
    }
}

impl<T> Tree<Option<T>> {
    /// The same tree holding the contents of the options, or `None` when some node holds
    /// `None`.
    pub fn transpose(self) -> (r: Option<Tree<T>>)
        requires
            self.wf(),
        ensures
            r is Some <==> forall|i: int|
                0 <= i < self.node_seq().len() ==> (#[trigger] self.node_seq()[i]).data() is Some,
            r matches Some(t) ==> {
                &&& t.wf()
                &&& t.root_spec() == self.root_spec()
                &&& t.node_seq().len() == self.node_seq().len()
                &&& forall|i: int|
                    0 <= i < self.node_seq().len() ==> {
                        &&& Some((#[trigger] t.node_seq()[i]).data()) == self.node_seq()[i].data()
                        &&& t.node_seq()[i].parent_spec() == self.node_seq()[i].parent_spec()
                        &&& t.node_seq()[i].children_seq() == self.node_seq()[i].children_seq()
                    }
            },
    {
        let ghost s = self.nodes@;
        let ghost sn = self.node_seq();
        let root = self.root;
        let rank = self.rank;
        let mut raw = self.nodes.into_raw();
        let mut rev: Vec<NodeData<T>> = Vec::new();
        while raw.len() > 0
            invariant
                raw@ == s.subrange(0, s.len() - rev@.len()),
                rev@.len() <= s.len(),
                sn == s,
                sn == self.node_seq(),
                forall|k: int|
                    0 <= k < rev@.len() ==> {
                        &&& Some((#[trigger] rev@[k]).data) == s[s.len() - 1 - k].data
                        &&& rev@[k].parent == s[s.len() - 1 - k].parent
                        &&& rev@[k].children@ == s[s.len() - 1 - k].children@
                    },
            decreases raw@.len(),
        {
            let ghost k = rev@.len();
            let nd = raw.pop().unwrap();
            assert(nd == s[s.len() - 1 - k]);
            match nd.data {
                Some(d) => {
                    rev.push(NodeData { data: d, parent: nd.parent, children: nd.children });
                },
                None => {
                    assert(sn[s.len() - 1 - k].data() is None);
                    return None;
                },
            }
        }
        let ghost n = rev@.len();
        let mut out: Vec<NodeData<T>> = Vec::new();
        while rev.len() > 0
            invariant
                n == s.len(),
                rev@.len() + out@.len() == n,
                forall|k: int|
                    0 <= k < rev@.len() ==> {
                        &&& Some((#[trigger] rev@[k]).data) == s[s.len() - 1 - k].data
                        &&& rev@[k].parent == s[s.len() - 1 - k].parent
                        &&& rev@[k].children@ == s[s.len() - 1 - k].children@
                    },
                forall|i: int|
                    0 <= i < out@.len() ==> {
                        &&& Some((#[trigger] out@[i]).data) == s[i].data
                        &&& out@[i].parent == s[i].parent
                        &&& out@[i].children@ == s[i].children@
                    },
            decreases rev@.len(),
        {
            let y = rev.pop().unwrap();
            out.push(y);
        }
        let ghost o = out@;
        let r = Tree { nodes: IdxVec::from_vec(out), root, rank };
        proof {
            assert forall|x: int|
                #![trigger r.nodes@[x]]
                0 <= x < r.nodes@.len() implies {
                &&& (r.nodes@[x].parent matches Some(p) ==> {
                    &&& p.0 < r.nodes@.len()
                    &&& r.rank@[p.0 as int] < r.rank@[x]
                    &&& r.nodes@[p.0 as int].children@.contains(Node(x as usize))
                })
                &&& r.nodes@[x].children@.no_duplicates()
                &&& forall|k: int|
                    0 <= k < r.nodes@[x].children@.len() ==> {
                        &&& (#[trigger] r.nodes@[x].children@[k]).0 < r.nodes@.len()
                        &&& r.nodes@[r.nodes@[x].children@[k].0 as int].parent == Some(
                            Node(x as usize),
                        )
                    }
            } by {
                assert forall|k: int| 0 <= k < r.nodes@[x].children@.len() implies {
                    &&& (#[trigger] r.nodes@[x].children@[k]).0 < r.nodes@.len()
                    &&& r.nodes@[r.nodes@[x].children@[k].0 as int].parent == Some(
                        Node(x as usize),
                    )
                } by {
                    let c = s[x].children@[k];
                }
            }
            assert(o.len() == s.len());
            assert forall|i: int| 0 <= i < s.len() implies (#[trigger] s[i]).data is Some by {
                assert(Some(o[i].data) == s[i].data);
            }
        }
        Some(r)
    }
}

impl<T: Default> Default for Tree<T> {
    /// A tree with a single node holding the default value.
    fn default() -> (r: Self)
        ensures
            r.wf(),
            r.node_seq().len() == 1,
            r.root_spec() == Node(0),
            r.node_seq()[0].parent_spec() is None,
            r.node_seq()[0].children_seq() == Seq::<Node>::empty(),
            call_ensures(T::default, (), r.node_seq()[0].data()),
    {
        let data = T::default();
        Tree::new(data)
    }
}

/// A map from node indices to node indices, hashed with rustc-hash's `FxHasher`.
#[verifier::external_body]
pub struct NodeMappings {
    inner: FxHashMap<usize, usize>,
}

/// What a `NodeMappings` holds.
pub uninterp spec fn node_mappings_contents(m: NodeMappings) -> Map<usize, usize>;

/// `FxHashMap::default()`: an empty map.
#[verifier::external_body]
fn node_mappings_new() -> (r: NodeMappings)
    ensures
        forall|k: usize| !node_mappings_contents(r).contains_key(k),
{
    NodeMappings { inner: FxHashMap::default() }
}

/// `HashMap::insert`: maps `k` to `v`, replacing what `k` was mapped to.
#[verifier::external_body]
fn node_mappings_insert(m: &mut NodeMappings, k: usize, v: usize)
    ensures
        node_mappings_contents(*final(m)) == node_mappings_contents(*old(m)).insert(k, v),
{
    m.inner.insert(k, v);
}

/// `HashMap::get`, copied out: what `k` is mapped to, if anything.
#[verifier::external_body]
fn node_mappings_get(m: &NodeMappings, k: usize) -> (r: Option<usize>)
    ensures
        node_mappings_contents(*m).contains_key(k) ==> r == Some(node_mappings_contents(*m)[k]),
        !node_mappings_contents(*m).contains_key(k) ==> r is None,
{
    m.inner.get(&k).copied()
}

/// `node` inserted into a list of children: just before `before` when `before` is in the
/// list, and at the end otherwise.
pub open spec fn insert_before(children: Seq<Node>, node: Node, before: Option<Node>) -> Seq<Node> {
    match before {
        Some(b) => match children.index_of_first(b) {
            Some(k) => children.insert(k, node),
            None => children.push(node),
        },
        None => children.push(node),
    }
}

/// `after` is `nodes` with `node` moved under `parent` (before `before` among its
/// children, when given and present): the old parent forgets it, the new parent lists
/// it, its parent link changes, and nothing else changes. When `node` or `parent` does
/// not exist nothing changes.
pub open spec fn reparented<T>(
    nodes: Seq<NodeData<T>>,
    after: Seq<NodeData<T>>,
    node: Node,
    parent: Node,
    before: Option<Node>,
) -> bool {
    if node.0 >= nodes.len() || parent.0 >= nodes.len() {
        after == nodes
    } else {
        let old_parent = nodes[node.0 as int].parent_spec();
        let mid = |i: int|
            if old_parent == Some(Node(i as usize)) {
                nodes[i].children_seq().remove_value(node)
            } else {
                nodes[i].children_seq()
            };
        &&& after.len() == nodes.len()
        &&& after[node.0 as int].parent_spec() == Some(parent)
        &&& after[parent.0 as int].children_seq() == insert_before(
            mid(parent.0 as int),
            node,
            before,
        )
        &&& forall|i: int|
            0 <= i < nodes.len() ==> (#[trigger] after[i]).data() == nodes[i].data()
        &&& forall|i: int|
            0 <= i < nodes.len() && i != node.0 ==> (#[trigger] after[i]).parent_spec()
                == nodes[i].parent_spec()
        &&& forall|i: int|
            0 <= i < nodes.len() && i != parent.0 ==> (#[trigger] after[i]).children_seq()
                == mid(i)
    }
}

/// Inserting a new value into a list without repetitions keeps it without repetitions
/// and adds exactly that value.
proof fn lemma_insert_before_props(s: Seq<Node>, x: Node, before: Option<Node>)
    requires
        s.no_duplicates(),
        !s.contains(x),
    ensures
        insert_before(s, x, before).no_duplicates(),
        forall|c: Node| insert_before(s, x, before).contains(c) <==> s.contains(c) || c == x,
        insert_before(s, x, before).len() == s.len() + 1,
{
    let r = insert_before(s, x, before);
    let k: int = match before {
        Some(b) => match s.index_of_first(b) {
            Some(k) => k,
            None => s.len() as int,
        },
        None => s.len() as int,
    };
    if let Some(b) = before {
        s.index_of_first_ensures(b);
    }
    assert(0 <= k <= s.len());
    s.insert_ensures(k, x);
    assert(r =~= s.insert(k, x));
    assert forall|j: int| 0 <= j < r.len() implies (j < k ==> r[j] == s[j]) && (j == k ==> r[j]
        == x) && (j > k ==> r[j] == s[j - 1]) by {
        if j > k {
            assert(r[(j - 1) + 1] == s[j - 1]);
        }
    }
    assert forall|c: Node| r.contains(c) <==> s.contains(c) || c == x by {
        if r.contains(c) {
            let j = choose|j: int| 0 <= j < r.len() && r[j] == c;
            if j < k {
                assert(s[j] == c);
            } else if j > k {
                assert(s[j - 1] == c);
            }
        }
        if s.contains(c) {
            let j = choose|j: int| 0 <= j < s.len() && s[j] == c;
            if j < k {
                assert(r[j] == c);
            } else {
                assert(r[j + 1] == c);
            }
        }
        if c == x {
            assert(r[k] == c);
        }
    }
    assert forall|i: int, j: int| 0 <= i < j < r.len() implies r[i] != r[j] by {
        if i == k {
            assert(s.contains(r[j]));
        } else if j == k {
            assert(s.contains(r[i]));
        }
    }
}

/// Renumbers a list of children.
fn renumber(children: &Vec<Node>, newidx: &Vec<Option<usize>>) -> (r: Vec<Node>)
    requires
        forall|k: int|
            0 <= k < children@.len() ==> (#[trigger] children@[k]).0 < newidx@.len()
                && newidx@[children@[k].0 as int] is Some,
    ensures
        r@.len() == children@.len(),
        forall|k: int| 0 <= k < r@.len() ==> Some((#[trigger] r@[k]).0) == newidx@[children@[k].0 as int],
{
    let mut r: Vec<Node> = Vec::new();
    let mut k: usize = 0;
    while k < children.len()
        invariant
            k <= children@.len(),
            r@.len() == k,
            forall|k: int|
                0 <= k < children@.len() ==> (#[trigger] children@[k]).0 < newidx@.len()
                    && newidx@[children@[k].0 as int] is Some,
            forall|j: int| 0 <= j < k ==> Some((#[trigger] r@[j]).0) == newidx@[children@[j].0 as int],
        decreases children@.len() - k,
    {
        let c = children[k];
        assert(children@[k as int] == c);
        let q = newidx[c.0].unwrap();
        r.push(Node(q));
        k = k + 1;
    }
    r
}

/// The position of the first occurrence of `x`, if any.
fn position_of(children: &Vec<Node>, x: Node) -> (r: Option<usize>)
    ensures
        r matches Some(k) ==> children@.index_of_first(x) == Some(k as int),
        r is None ==> children@.index_of_first(x) is None,
{
    let mut i: usize = 0;
    while i < children.len()
        invariant
            i <= children@.len(),
            forall|j: int| 0 <= j < i ==> children@[j] != x,
        decreases children@.len() - i,
    {
        if children[i] == x {
            proof {
                children@.index_of_first_ensures(x);
                assert(children@.contains(x));
                let f = children@.index_of_first(x)->0;
                assert(f == i);
            }
            return Some(i);
        }
        i = i + 1;
    }
    proof {
        children@.index_of_first_ensures(x);
    }
    None
}

/// The number of unmarked entries.
pub open spec fn count_false(s: Seq<bool>) -> nat
    decreases s.len(),
{
    if s.len() == 0 {
        0
    } else {
        count_false(s.drop_last()) + if s.last() {
            0nat
        } else {
            1nat
        }
    }
}

proof fn lemma_count_false_update(s: Seq<bool>, i: int)
    requires
        0 <= i < s.len(),
        !s[i],
    ensures
        count_false(s.update(i, true)) + 1 == count_false(s),
    decreases s.len(),
{
    if i < s.len() - 1 {
        lemma_count_false_update(s.drop_last(), i);
        assert(s.update(i, true).drop_last() =~= s.drop_last().update(i, true));
    } else {
        assert(s.update(i, true).drop_last() =~= s.drop_last());
    }
}

proof fn lemma_count_false_all(n: nat)
    ensures
        count_false(Seq::new(n, |j: int| false)) == n,
    decreases n,
{
    if n > 0 {
        lemma_count_false_all((n - 1) as nat);
        assert(Seq::new(n, |j: int| false).drop_last() =~= Seq::new((n - 1) as nat, |j: int| false));
    }
}

/// Removes the occurrences of `x` from a list of children.
fn remove_child(children: &mut Vec<Node>, x: Node)
    requires
        old(children)@.no_duplicates(),
    ensures
        final(children)@ == old(children)@.remove_value(x),
{
    let mut i: usize = 0;
    while i < children.len()
        invariant
            children@ == old(children)@,
            i <= children@.len(),
            forall|j: int| 0 <= j < i ==> children@[j] != x,
        decreases children@.len() - i,
    {
        if children[i] == x {
            proof {
                let s = children@;
                assert(s.contains(x));
                s.index_of_first_ensures(x);
                let f = s.index_of_first(x)->0;
                assert(f == i);
            }
            children.remove(i);
            return;
        }
        i = i + 1;
    }
    proof {
        let s = children@;
        s.index_of_first_ensures(x);
        assert(!s.contains(x));
    }
}

/// Removing a value from a list without repetitions leaves exactly the other values,
/// still without repetitions.
pub proof fn lemma_remove_value_props(s: Seq<Node>, x: Node)
    requires
        s.no_duplicates(),
    ensures
        s.remove_value(x).no_duplicates(),
        forall|c: Node| s.remove_value(x).contains(c) <==> s.contains(c) && c != x,
        s.remove_value(x).len() <= s.len(),
{
    s.index_of_first_ensures(x);
    if s.contains(x) {
        let i = s.index_of_first(x)->0;
        let r = s.remove(i);
        s.remove_ensures(i);
        assert forall|c: Node| r.contains(c) <==> s.contains(c) && c != x by {
            if r.contains(c) {
                let j = choose|j: int| 0 <= j < r.len() && r[j] == c;
                if j < i {
                    assert(s[j] == c);
                } else {
                    assert(s[j + 1] == c);
                }
            }
            if s.contains(c) && c != x {
                let j = choose|j: int| 0 <= j < s.len() && s[j] == c;
                if j < i {
                    assert(r[j] == c);
                } else {
                    assert(j != i);
                    assert(r[j - 1] == c);
                }
            }
        }
    }
}

} // verus!
