use vstd::prelude::*;
use crate::idx::{Idx, IdxVec};

verus! {

#[derive(Copy, Clone)]
struct NodeData<I> {
    parent: I,
    size: usize,
}

impl<I: Idx> NodeData<I> {
    fn new(parent: I) -> (r: Self)
        ensures
            r.parent == parent,
            r.size == 0,
    {
        NodeData { parent, size: 0 }
    }
}

/// A disjoint-set forest over the indices of an `IdxVec`, with path halving.
pub struct UnionFind<I> {
    forest: IdxVec<I, NodeData<I>>,
    /// Ranks that strictly grow towards the roots, bounding every walk upwards.
    rank: Ghost<Seq<nat>>,
    /// The representative of each element's class.
    rep: Ghost<Seq<nat>>,
    /// A strict upper bound on all ranks.
    bound: Ghost<nat>,
}

/// What `union` makes of the representatives `s`: the classes of `a` and `b` merge
/// under the representative of `a`.
pub open spec fn spec_union(s: Seq<nat>, a: int, b: int) -> Seq<nat> {
    Seq::new(
        s.len(),
        |i: int|
            if s[i] == s[a] || s[i] == s[b] {
                s[a]
            } else {
                s[i]
            },
    )
}

impl<I: Idx> UnionFind<I> {
    spec fn parent_of(&self, x: int) -> nat {
        self.forest@[x].parent.pos()
    }

    /// The representative of the class of each element, by position.
    pub closed spec fn view(&self) -> Seq<nat> {
        self.rep@
    }

    #[verifier::opaque]
    pub closed spec fn wf(&self) -> bool {
        let n = self.forest@.len();
        &&& self.rank@.len() == n
        &&& self.rep@.len() == n
        &&& forall|x: int|
            #![trigger self.parent_of(x)]
            #![trigger self.rep@[x]]
            0 <= x < n ==> {
                &&& self.parent_of(x) < n
                &&& self.forest@[x].parent.has_index()
                &&& self.forest@[x].size == 0
                &&& self.rep@[x] < n
                &&& self.parent_of(self.rep@[x] as int) == self.rep@[x]
                &&& self.rep@[self.parent_of(x) as int] == self.rep@[x]
                &&& self.parent_of(x) != x ==> self.rank@[self.parent_of(x) as int]
                    > self.rank@[x]
                &&& self.parent_of(x) == x ==> self.rep@[x] == x
                &&& self.rank@[x] < self.bound@
            }
    }

    /// Every element of `data` in a class of its own.
    pub fn new<T>(data: &IdxVec<I, T>) -> (r: Self)
        requires
            forall|i: nat| i < data@.len() ==> I::representable(i),
        ensures
            r.wf(),
            r@ == Seq::new(data@.len(), |i: int| i as nat),
    {
        let n = data.len();
        let mut forest: IdxVec<I, NodeData<I>> = IdxVec::new();
        let mut i: usize = 0;
        while i < n
            invariant
                n == data@.len(),
                i <= n,
                forest@.len() == i,
                forall|i: nat| i < data@.len() ==> I::representable(i),
                forall|j: int|
                    0 <= j < i ==> (#[trigger] forest@[j]).parent.pos() == j
                        && forest@[j].parent.has_index() && forest@[j].size == 0,
            decreases n - i,
        {
            assert(I::representable(i as nat));
            forest.push(NodeData::new(I::new(i)));
            i = i + 1;
        }
        reveal(UnionFind::wf);
        let r = UnionFind {
            forest,
            rank: Ghost(Seq::new(n as nat, |i: int| 0nat)),
            rep: Ghost(Seq::new(n as nat, |i: int| i as nat)),
            bound: Ghost(1nat),
        };
        assert(r@ =~= Seq::new(data@.len(), |i: int| i as nat));
        r
    }

    /// The number of elements.
    pub fn len(&self) -> (r: usize)
        requires
            self.wf(),
        ensures
            r == self@.len(),
    {
        reveal(UnionFind::wf);
        self.forest.len()
    }

    /// The representative of the class of `x`; halves the path it walks.
    pub fn find(&mut self, x: I) -> (r: I)
        requires
            old(self).wf(),
            x.has_index(),
            x.pos() < old(self)@.len(),
        ensures
            final(self).wf(),
            final(self)@ == old(self)@,
            r.pos() == old(self)@[x.pos() as int],
            r.pos() < final(self)@.len(),
            final(self)@[r.pos() as int] == r.pos(),
            r.has_index(),
    {
        reveal(UnionFind::wf);
        let ghost x0 = x.pos() as int;
        let mut cur = x;
        loop
            invariant
                self.wf(),
                self@ == old(self)@,
                cur.has_index(),
                cur.pos() < self@.len(),
                self@[cur.pos() as int] == self@[x0],
                x0 == x.pos(),
            decreases self.bound@ - self.rank@[cur.pos() as int],
        {
            proof {
                reveal(UnionFind::wf);
            }
            let parent = self.forest.index(cur).parent;
            let ghost xp = cur.pos() as int;
            assert(self.parent_of(xp) == parent.pos());
            if parent.index() == cur.index() {
                assert(self.rep@[xp] == xp);
                assert(self@[x0] == xp);
                assert(old(self)@[x0] == xp);
                return cur;
            }
            let grandparent = self.forest.index(parent).parent;
            let ghost pp = parent.pos() as int;
            assert(self.parent_of(pp) == grandparent.pos());
            let mut nd = *self.forest.index(cur);
            nd.parent = grandparent;
            let ghost before = *self;
            self.forest.set(cur, nd);
            proof {
                assert forall|y: int| 0 <= y < self.forest@.len() implies {
                    &&& #[trigger] self.parent_of(y) < self.forest@.len()
                    &&& self.forest@[y].parent.has_index()
                    &&& self.forest@[y].size == 0
                    &&& self.rep@[y] < self.forest@.len()
                    &&& self.parent_of(self.rep@[y] as int) == self.rep@[y]
                    &&& self.rep@[self.parent_of(y) as int] == self.rep@[y]
                    &&& self.parent_of(y) != y ==> self.rank@[self.parent_of(y) as int]
                        > self.rank@[y]
                    &&& self.parent_of(y) == y ==> self.rep@[y] == y
                    &&& self.rank@[y] < self.bound@
                } by {
                    assert(before.parent_of(y) < before.forest@.len());
                    assert(before.parent_of(before.rep@[y] as int) == before.rep@[y]);
                    let ry = self.rep@[y] as int;
                    if ry != xp {
                        assert(self.parent_of(ry) == before.parent_of(ry));
                    } else {
                        assert(before.parent_of(xp) == xp);
                    }
                    if y != xp {
                        assert(self.parent_of(y) == before.parent_of(y));
                    } else {
                        assert(before.parent_of(pp) < before.forest@.len());
                    }
                }
            }
            cur = parent;
        }
    }

    /// Merges the classes of `l` and `r`.
    pub fn union(&mut self, l: I, r: I)
        requires
            old(self).wf(),
            l.has_index(),
            r.has_index(),
            l.pos() < old(self)@.len(),
            r.pos() < old(self)@.len(),
        ensures
            final(self).wf(),
            final(self)@ == spec_union(old(self)@, l.pos() as int, r.pos() as int),
    {
        let ghost s = self@;
        let ghost l0 = l.pos() as int;
        let ghost r0 = r.pos() as int;
        let l = self.find(l);
        let r = self.find(r);
        if l.index() == r.index() {
            assert(self@ =~= spec_union(s, l0, r0));
            return;
        }
        self.link(l, r);
        assert(self@ =~= spec_union(s, l0, r0));
    }

    /// Hangs the tree of one root under the other.
    fn link(&mut self, l: I, r: I)
        requires
            old(self).wf(),
            l.has_index(),
            r.has_index(),
            l.pos() < old(self)@.len(),
            r.pos() < old(self)@.len(),
            l.pos() != r.pos(),
            old(self)@[l.pos() as int] == l.pos(),
            old(self)@[r.pos() as int] == r.pos(),
        ensures
            final(self).wf(),
            final(self)@ == Seq::new(
                old(self)@.len(),
                |i: int|
                    if old(self)@[i] == r.pos() {
                        l.pos()
                    } else {
                        old(self)@[i]
                    },
            ),
    {
        reveal(UnionFind::wf);
        let mut l = l;
        let mut r = r;
        assert(self.forest@[l.pos() as int].size == 0 && self.forest@[r.pos() as int].size == 0) by {
            assert(self.parent_of(l.pos() as int) < self.forest@.len());
            assert(self.parent_of(r.pos() as int) < self.forest@.len());
        }
        if self.forest.index(l).size < self.forest.index(r).size {
            std::mem::swap(&mut l, &mut r);
        }
        let ghost lp = l.pos() as int;
        let ghost rp = r.pos() as int;
        let ghost before = *self;
        assert(before.parent_of(lp) == lp) by {
            assert(before.parent_of(before.rep@[lp] as int) == before.rep@[lp]);
        }
        assert(before.parent_of(rp) == rp) by {
            assert(before.parent_of(before.rep@[rp] as int) == before.rep@[rp]);
        }
        let mut rd = *self.forest.index(r);
        rd.parent = l;
        self.forest.set(r, rd);
        let mut ld = *self.forest.index(l);
        ld.size = ld.size + self.forest.index(r).size;
        self.forest.set(l, ld);
        let ghost new_rank_l = if before.rank@[lp] > before.rank@[rp] {
            before.rank@[lp]
        } else {
            before.rank@[rp] + 1
        };
        proof {
            self.rank = Ghost(before.rank@.update(lp, new_rank_l));
            self.bound = Ghost(before.bound@ + 1);
            self.rep = Ghost(
                Seq::new(
                    before.rep@.len(),
                    |i: int|
                        if before.rep@[i] == rp {
                            lp as nat
                        } else {
                            before.rep@[i]
                        },
                ),
            );
            assert forall|y: int| 0 <= y < self.forest@.len() && y != rp implies self.parent_of(y)
                == before.parent_of(y) && self.forest@[y].parent.has_index()
                == before.forest@[y].parent.has_index() by {}
            assert forall|y: int| 0 <= y < self.forest@.len() implies self.forest@[y].size == 0 by {
                assert(before.parent_of(y) < before.forest@.len());
            }
            Self::lemma_link(before, *self, lp, rp);
        }
    }

    proof fn lemma_link(before: Self, after: Self, lp: int, rp: int)
        requires
            before.wf(),
            0 <= lp < before.forest@.len(),
            0 <= rp < before.forest@.len(),
            lp != rp,
            before.parent_of(lp) == lp,
            before.parent_of(rp) == rp,
            after.forest@.len() == before.forest@.len(),
            forall|y: int|
                0 <= y < before.forest@.len() && y != rp ==> after.parent_of(y) == before.parent_of(
                    y,
                ) && after.forest@[y].parent.has_index() == before.forest@[y].parent.has_index(),
            after.parent_of(rp) == lp,
            after.forest@[rp].parent.has_index(),
            forall|y: int| 0 <= y < before.forest@.len() ==> after.forest@[y].size == 0,
            after.rank@ == before.rank@.update(
                lp,
                if before.rank@[lp] > before.rank@[rp] {
                    before.rank@[lp]
                } else {
                    before.rank@[rp] + 1
                },
            ),
            after.bound@ == before.bound@ + 1,
            after.rep@ == Seq::new(
                before.rep@.len(),
                |i: int|
                    if before.rep@[i] == rp {
                        lp as nat
                    } else {
                        before.rep@[i]
                    },
            ),
        ensures
            after.wf(),
    {
        reveal(UnionFind::wf);
        assert(before.rep@[lp] == lp);
        assert(before.rep@[rp] == rp);
        assert forall|y: int| #![trigger after.parent_of(y)] #![trigger after.rep@[y]]
            0 <= y < after.forest@.len() implies {
            &&& after.parent_of(y) < after.forest@.len()
            &&& after.forest@[y].parent.has_index()
            &&& after.forest@[y].size == 0
            &&& after.rep@[y] < after.forest@.len()
            &&& after.parent_of(after.rep@[y] as int) == after.rep@[y]
            &&& after.rep@[after.parent_of(y) as int] == after.rep@[y]
            &&& after.parent_of(y) != y ==> after.rank@[after.parent_of(y) as int]
                > after.rank@[y]
            &&& after.parent_of(y) == y ==> after.rep@[y] == y
            &&& after.rank@[y] < after.bound@
        } by {
            assert(before.parent_of(y) < before.forest@.len());
            let ry = before.rep@[y] as int;
            assert(before.parent_of(ry) == ry);
            let py = before.parent_of(y) as int;
            assert(before.rep@[py] == before.rep@[y]);
        }
    }
}

/// After a union the two elements are in one class, and two elements outside both
/// merged classes stay together exactly when they were together before.
pub proof fn lemma_union_joins(s: Seq<nat>, a: int, b: int, x: int, y: int)
    requires
        0 <= a < s.len(),
        0 <= b < s.len(),
        0 <= x < s.len(),
        0 <= y < s.len(),
    ensures
        spec_union(s, a, b)[a] == spec_union(s, a, b)[b],
        s[x] == s[y] ==> spec_union(s, a, b)[x] == spec_union(s, a, b)[y],
        s[x] != s[a] && s[x] != s[b] ==> (spec_union(s, a, b)[x] == spec_union(s, a, b)[y]
            <==> s[x] == s[y]),
{
}

/// Merging the same two classes again changes nothing, and merging a class with itself
/// changes nothing.
pub proof fn lemma_union_idempotent(s: Seq<nat>, a: int, b: int)
    requires
        0 <= a < s.len(),
        0 <= b < s.len(),
    ensures
        spec_union(spec_union(s, a, b), a, b) == spec_union(s, a, b),
        spec_union(s, a, a) == s,
{
    assert(spec_union(spec_union(s, a, b), a, b) =~= spec_union(s, a, b));
    assert(spec_union(s, a, a) =~= s);
}

} // verus!
