use vstd::prelude::*;
use std::collections::BTreeSet;
use im::HashSet;
use itertools::Itertools;
use vstd::std_specs::iter::IteratorSpec;
use vstd::std_specs::cmp::OrdSpec;
use crate::common::Height;

verus! {

/// The number of singular heights in a coordinate.
pub open spec fn singular_count(coord: Seq<Height>) -> nat
    decreases coord.len(),
{
    if coord.len() == 0 {
        0
    } else {
        singular_count(coord.drop_last()) + if coord.last() is Singular {
            1nat
        } else {
            0nat
        }
    }
}

/// A coordinate has at most as many singular heights as entries.
pub proof fn lemma_singular_count_bound(coord: Seq<Height>)
    ensures
        singular_count(coord) <= coord.len(),
    decreases coord.len(),
{
    if coord.len() > 0 {
        lemma_singular_count_bound(coord.drop_last());
    }
}

/// The stratum of a point: how many of its coordinates are singular.
pub fn stratum(coord: &[Height]) -> (r: usize)
    ensures
        r == singular_count(coord@),
{
    let mut count: usize = 0;
    let mut i: usize = 0;
    while i < coord.len()
        invariant
            i <= coord@.len(),
            count == singular_count(coord@.subrange(0, i as int)),
        decreases coord@.len() - i,
    {
        proof {
            let s = coord@.subrange(0, i as int + 1);
            assert(s.drop_last() =~= coord@.subrange(0, i as int));
            lemma_singular_count_bound(coord@.subrange(0, i as int));
        }
        match coord[i] {
            Height::Regular(_) => {},
            Height::Singular(_) => {
                count = count + 1;
            },
        }
        i = i + 1;
    }
    assert(coord@.subrange(0, coord@.len() as int) =~= coord@);
    count
}

/// A point is visible when its last coordinate is singular.
pub fn is_visible(coord: &[Height]) -> (r: bool)
    requires
        coord@.len() > 0,
    ensures
        r == coord@.last() is Singular,
{
    let n = coord.len();
    match coord[n - 1] {
        Height::Regular(_) => false,
        Height::Singular(_) => true,
    }
}

} // verus!

verus! {

broadcast use vstd::std_specs::btree::group_btree_axioms;

// ---------------------------------------------------------------------------------------
// Sets of simplices, held in `im::HashSet`.

#[verifier::external_type_specification]
#[verifier::external_body]
#[verifier::reject_recursive_types(A)]
#[verifier::reject_recursive_types(S)]
pub struct ExImHashSet<A, S>(im::HashSet<A, S>);

/// The simplices that a set of simplices holds, each as its set of vertices.
pub uninterp spec fn simplex_set_view(s: HashSet<BTreeSet<usize>>) -> Set<Set<usize>>;

/// The vertex sets of a sequence of simplices.
pub open spec fn simplex_views(s: Seq<BTreeSet<usize>>) -> Seq<Set<usize>> {
    s.map_values(|b: BTreeSet<usize>| b@)
}

/// `im::HashSet::new`: a set that holds nothing.
#[verifier::external_body]
fn simplex_set_new() -> (r: HashSet<BTreeSet<usize>>)
    ensures
        simplex_set_view(r) == Set::<Set<usize>>::empty(),
{
    HashSet::new()
}

/// `im::HashSet::insert`: afterwards the set holds what it held and the given simplex
/// (simplices are equal when their vertex sets are).
#[verifier::external_body]
fn simplex_set_insert(s: &mut HashSet<BTreeSet<usize>>, x: BTreeSet<usize>)
    ensures
        simplex_set_view(*final(s)) == simplex_set_view(*old(s)).insert(x@),
{
    s.insert(x);
}

/// `im::HashSet::remove`: afterwards the set holds what it held but the given simplex.
#[verifier::external_body]
fn simplex_set_remove(s: &mut HashSet<BTreeSet<usize>>, x: &BTreeSet<usize>)
    ensures
        simplex_set_view(*final(s)) == simplex_set_view(*old(s)).remove(x@),
{
    s.remove(x);
}

/// `im::HashSet::len`: the number of simplices the set holds.
#[verifier::external_body]
fn simplex_set_len(s: &HashSet<BTreeSet<usize>>) -> (r: usize)
    ensures
        r == simplex_set_view(*s).len(),
{
    s.len()
}

/// `im::HashSet::iter`, collected: each simplex of the set once, in the set's own order.
#[verifier::external_body]
fn simplex_set_to_vec(s: &HashSet<BTreeSet<usize>>) -> (r: Vec<BTreeSet<usize>>)
    ensures
        simplex_views(r@).no_duplicates(),
        simplex_views(r@).to_set() == simplex_set_view(*s),
{
    s.iter().cloned().collect()
}

/// `==` of `im::HashSet`: whether the two sets hold the same simplices.
#[verifier::external_body]
fn simplex_set_eq(a: &HashSet<BTreeSet<usize>>, b: &HashSet<BTreeSet<usize>>) -> (r: bool)
    ensures
        r == (simplex_set_view(*a) == simplex_set_view(*b)),
{
    a == b
}

/// `im::HashSet::extend`: afterwards the set holds what it held and what the other holds.
#[verifier::external_body]
fn simplex_set_extend(s: &mut HashSet<BTreeSet<usize>>, other: HashSet<BTreeSet<usize>>)
    ensures
        simplex_set_view(*final(s)) == simplex_set_view(*old(s)).union(simplex_set_view(other)),
{
    s.extend(other);
}

/// The vertices of a simplex, in increasing order, each once.
proof fn lemma_simplex_keys(s: &BTreeSet<usize>)
    ensures
        s@.finite(),
        vstd::std_specs::btree::spec_btree_keys_iter(s).remaining().unref().to_set() == s@,
        vstd::std_specs::btree::spec_btree_keys_iter(s).remaining().unref().no_duplicates(),
        vstd::std_specs::btree::spec_btree_keys_iter(s).remaining().unref().len() == s@.len(),
{
    vstd::std_specs::btree::axiom_spec_btree_keys_iter(s);
    let keys = vstd::std_specs::btree::spec_btree_keys_iter(s).remaining().unref();
    vstd::seq_lib::seq_to_set_is_finite(keys);
}

/// Whether every vertex of `a` is a vertex of `b`.
fn simplex_is_subset(a: &BTreeSet<usize>, b: &BTreeSet<usize>) -> (r: bool)
    ensures
        r == a@.subset_of(b@),
{
    let mut ok = true;
    let ghost keys = vstd::std_specs::btree::spec_btree_keys_iter(a).remaining().unref();
    proof {
        lemma_simplex_keys(a);
    }
    for x in it: a.iter()
        invariant
            it.seq().unref() == keys,
            keys.to_set() == a@,
            ok == (forall|k: int| 0 <= k < it.index() ==> b@.contains(keys[k])),
    {
        if !b.contains(x) {
            ok = false;
        }
    }
    proof {
        if ok {
            assert forall|y: usize| a@.contains(y) implies b@.contains(y) by {
                assert(keys.to_set().contains(y));
                let k = keys.index_of(y);
            }
        } else {
            let k = choose|k: int| 0 <= k < keys.len() && !b@.contains(keys[k]);
            assert(keys.to_set().contains(keys[k]));
        }
    }
    ok
}

/// Whether two simplices have the same vertices.
fn simplex_eq(a: &BTreeSet<usize>, b: &BTreeSet<usize>) -> (r: bool)
    ensures
        r == (a@ == b@),
{
    proof {
        lemma_simplex_keys(a);
        lemma_simplex_keys(b);
    }
    if a.len() != b.len() {
        return false;
    }
    let sub = simplex_is_subset(a, b);
    proof {
        if sub {
            vstd::set_lib::lemma_subset_equality(a@, b@);
        }
    }
    sub
}

/// `face` is a proper face of `coface`.
pub open spec fn is_proper_face(face: Set<usize>, coface: Set<usize>) -> bool {
    face.subset_of(coface) && face != coface
}

/// Whether `face1` is a proper face of `face2`.
pub fn has_coface(face1: &BTreeSet<usize>, face2: &BTreeSet<usize>) -> (r: bool)
    ensures
        r == is_proper_face(face1@, face2@),
{
    simplex_is_subset(face1, face2) && !simplex_eq(face1, face2)
}

/// The faces of a simplex that leave out one vertex.
pub open spec fn boundary(s: Set<usize>) -> Set<Set<usize>> {
    Set::new(|t: Set<usize>| exists|v: usize| s.contains(v) && t == s.remove(v))
}

/// The faces of a simplex that leave out one vertex.
pub fn simplex_boundary(simplex: &BTreeSet<usize>) -> (r: HashSet<BTreeSet<usize>>)
    ensures
        simplex_set_view(r) == boundary(simplex@),
{
    let mut result = simplex_set_new();
    let ghost keys = vstd::std_specs::btree::spec_btree_keys_iter(simplex).remaining().unref();
    proof {
        lemma_simplex_keys(simplex);
    }
    for v in it: simplex.iter()
        invariant
            it.seq().unref() == keys,
            keys.to_set() == simplex@,
            simplex_set_view(result) == Set::new(
                |t: Set<usize>| exists|k: int| 0 <= k < it.index() && t == simplex@.remove(keys[k]),
            ),
    {
        let mut copy = simplex.clone();
        copy.remove(v);
        proof {
            assert(keys[it.index()] == *v);
        }
        simplex_set_insert(&mut result, copy);
        proof {
            let i = it.index();
            assert(simplex_set_view(result) =~= Set::new(
                |t: Set<usize>| exists|k: int| 0 <= k < i + 1 && t == simplex@.remove(keys[k]),
            )) by {
                assert forall|t: Set<usize>| (exists|k: int| 0 <= k < i + 1 && t == simplex@.remove(keys[k]))
                    implies #[trigger] simplex_set_view(result).contains(t) by {
                    let k = choose|k: int| 0 <= k < i + 1 && t == simplex@.remove(keys[k]);
                    if k < i {
                        assert(exists|k2: int| 0 <= k2 < i && t == simplex@.remove(keys[k2]));
                    }
                }
            }
        }
    }
    proof {
        assert(simplex_set_view(result) =~= boundary(simplex@)) by {
            assert forall|t: Set<usize>| boundary(simplex@).contains(t) implies #[trigger] simplex_set_view(result).contains(t) by {
                let v = choose|v: usize| simplex@.contains(v) && t == simplex@.remove(v);
                assert(keys.to_set().contains(v));
                let k = keys.index_of(v);
                assert(t == simplex@.remove(keys[k]));
            }
            assert forall|t: Set<usize>| #[trigger] simplex_set_view(result).contains(t) implies boundary(simplex@).contains(t) by {
                let k = choose|k: int| 0 <= k < keys.len() && t == simplex@.remove(keys[k]);
                assert(keys.to_set().contains(keys[k]));
            }
        }
    }
    result
}


/// The faces of `s` that are no proper face of another face of `s`.
pub open spec fn maximal_faces(s: Set<Set<usize>>) -> Set<Set<usize>> {
    s.filter(|f: Set<usize>| !exists|g: Set<usize>| #[trigger] s.contains(g) && is_proper_face(f, g))
}

/// Every face of `s` lies within a face of `m`.
pub open spec fn covered_by(s: Set<Set<usize>>, m: Set<Set<usize>>) -> bool {
    forall|p: Set<usize>| #[trigger] s.contains(p) ==> exists|q: Set<usize>| #[trigger] m.contains(q) && p.subset_of(q)
}

/// A set of simplices that a complex can hold: finitely many, each with finitely many
/// vertices.
pub open spec fn complex_wf(k: Set<Set<usize>>) -> bool {
    &&& k.finite()
    &&& forall|f: Set<usize>| #[trigger] k.contains(f) ==> f.finite()
}

/// Two maximal faces of the same set, one within the other, are the same face.
pub proof fn lemma_maximal_antichain(s: Set<Set<usize>>, a: Set<usize>, b: Set<usize>)
    requires
        maximal_faces(s).contains(a),
        maximal_faces(s).contains(b),
        a.subset_of(b),
    ensures
        a == b,
{
    if a != b {
        assert(s.contains(b) && is_proper_face(a, b));
    }
}

/// Adding a face that lies within a maximal face changes no maximal face.
proof fn lemma_maximal_insert_dominated(s: Set<Set<usize>>, x: Set<usize>, g: Set<usize>)
    requires
        covered_by(s, maximal_faces(s)),
        maximal_faces(s).contains(g),
        x.subset_of(g),
    ensures
        maximal_faces(s.insert(x)) == maximal_faces(s),
        covered_by(s.insert(x), maximal_faces(s)),
{
    let m = maximal_faces(s);
    let m2 = maximal_faces(s.insert(x));
    assert forall|f: Set<usize>| #[trigger] m2.contains(f) implies m.contains(f) by {
        if f == x {
            if x != g {
                assert(s.insert(x).contains(g) && is_proper_face(x, g));
            }
        } else {
            assert forall|h: Set<usize>| s.contains(h) implies !is_proper_face(f, h) by {
                assert(s.insert(x).contains(h));
            }
        }
    }
    assert forall|f: Set<usize>| #[trigger] m.contains(f) implies m2.contains(f) by {
        assert forall|h: Set<usize>| #[trigger] s.insert(x).contains(h) implies !is_proper_face(f, h) by {
            if h == x && is_proper_face(f, x) {
                assert(f.subset_of(g));
                if f != g {
                    assert(s.contains(g) && is_proper_face(f, g));
                }
                assert(x.subset_of(f));
                assert(x =~= f);
            }
        }
    }
    assert(m2 =~= m);
    assert forall|p: Set<usize>| #[trigger] s.insert(x).contains(p) implies exists|q: Set<usize>| #[trigger] m.contains(q) && p.subset_of(q) by {
        if p == x {
            assert(m.contains(g) && x.subset_of(g));
        }
    }
}

/// Adding a face that lies within no maximal face makes it maximal, in place of the
/// maximal faces that lie within it.
proof fn lemma_maximal_insert_new(s: Set<Set<usize>>, x: Set<usize>)
    requires
        covered_by(s, maximal_faces(s)),
        forall|g: Set<usize>| #[trigger] maximal_faces(s).contains(g) ==> !x.subset_of(g),
    ensures
        maximal_faces(s.insert(x)) == maximal_faces(s).filter(|m: Set<usize>| !m.subset_of(x)).insert(x),
        covered_by(s.insert(x), maximal_faces(s.insert(x))),
{
    let m = maximal_faces(s);
    let m2 = maximal_faces(s.insert(x));
    let r = m.filter(|q: Set<usize>| !q.subset_of(x)).insert(x);
    assert forall|f: Set<usize>| #[trigger] m2.contains(f) implies r.contains(f) by {
        if f != x {
            assert(s.contains(f));
            assert forall|h: Set<usize>| s.contains(h) implies !is_proper_face(f, h) by {
                assert(s.insert(x).contains(h));
            }
            assert(m.contains(f));
            if f.subset_of(x) {
                assert(s.insert(x).contains(x) && is_proper_face(f, x));
            }
        }
    }
    assert forall|f: Set<usize>| #[trigger] r.contains(f) implies m2.contains(f) by {
        assert forall|h: Set<usize>| #[trigger] s.insert(x).contains(h) implies !is_proper_face(f, h) by {
            if f == x {
                if h != x && is_proper_face(x, h) {
                    assert(s.contains(h));
                    let q = choose|q: Set<usize>| #[trigger] m.contains(q) && h.subset_of(q);
                    assert(x.subset_of(q));
                }
            } else {
                if h == x && is_proper_face(f, x) {
                    assert(f.subset_of(x));
                }
            }
        }
    }
    assert(m2 =~= r);
    assert forall|p: Set<usize>| #[trigger] s.insert(x).contains(p) implies exists|q: Set<usize>| #[trigger] m2.contains(q) && p.subset_of(q) by {
        if p == x {
            assert(m2.contains(x) && x.subset_of(x));
        } else {
            let q = choose|q: Set<usize>| #[trigger] m.contains(q) && p.subset_of(q);
            if q.subset_of(x) {
                assert(m2.contains(x) && p.subset_of(x));
            } else {
                assert(r.contains(q));
            }
        }
    }
}


/// A simplicial complex, held by its facets: the simplices that are faces of no other.
pub struct Complex {
    facets: HashSet<BTreeSet<usize>>,
}

impl View for Complex {
    type V = Set<Set<usize>>;

    closed spec fn view(&self) -> Set<Set<usize>> {
        simplex_set_view(self.facets)
    }
}

/// The simplices of a list, each a finite set of vertices.
proof fn lemma_simplex_list_wf(v: Seq<BTreeSet<usize>>)
    ensures
        complex_wf(simplex_views(v).to_set()),
{
    vstd::seq_lib::seq_to_set_is_finite(simplex_views(v));
    assert forall|f: Set<usize>| #[trigger] simplex_views(v).to_set().contains(f) implies f.finite() by {
        let k = simplex_views(v).index_of(f);
        lemma_simplex_keys(&v[k]);
    }
}

impl Complex {
    /// The complex whose facets are the maximal faces among `faces`.
    pub fn from_faces(faces: HashSet<BTreeSet<usize>>) -> (r: Self)
        ensures
            r@ == maximal_faces(simplex_set_view(faces)),
            complex_wf(r@),
    {
        let mut facets = simplex_set_new();
        let list = simplex_set_to_vec(&faces);
        let ghost views = simplex_views(list@);
        let mut i: usize = 0;
        proof {
            assert(views.subrange(0, 0).to_set() =~= Set::<Set<usize>>::empty());
            assert(maximal_faces(Set::<Set<usize>>::empty()) =~= Set::<Set<usize>>::empty());
        }
        while i < list.len()
            invariant
                i <= list@.len(),
                views == simplex_views(list@),
                views.to_set() == simplex_set_view(faces),
                simplex_set_view(facets) == maximal_faces(views.subrange(0, i as int).to_set()),
                covered_by(views.subrange(0, i as int).to_set(), simplex_set_view(facets)),
            decreases list@.len() - i,
        {
            let face = &list[i];
            let ghost x = face@;
            let ghost processed = views.subrange(0, i as int).to_set();
            let ghost m0 = simplex_set_view(facets);
            let snapshot = simplex_set_to_vec(&facets);
            let ghost sv = simplex_views(snapshot@);
            let mut maximal = true;
            let mut j: usize = 0;
            while j < snapshot.len() && maximal
                invariant
                    j <= snapshot@.len(),
                    sv == simplex_views(snapshot@),
                    sv.to_set() == m0,
                    sv.no_duplicates(),
                    m0 == maximal_faces(processed),
                    x == face@,
                    simplex_set_view(facets) == m0.filter(
                        |m: Set<usize>| !(m.subset_of(x) && exists|k: int| 0 <= k < j && sv[k] == m),
                    ),
                    maximal ==> forall|k: int| 0 <= k < j ==> !x.subset_of(#[trigger] sv[k]),
                    !maximal ==> j < sv.len() && x.subset_of(sv[j as int]),
                decreases snapshot@.len() - j, if maximal { 1int } else { 0int },
            {
                let facet = &snapshot[j];
                if simplex_is_subset(face, facet) {
                    maximal = false;
                } else {
                    if simplex_is_subset(facet, face) {
                        simplex_set_remove(&mut facets, facet);
                    }
                    proof {
                        let jj = j as int;
                        assert(sv[jj] == facet@);
                        assert(simplex_set_view(facets) =~= m0.filter(
                            |m: Set<usize>| !(m.subset_of(x) && exists|k: int| 0 <= k < jj + 1 && sv[k] == m),
                        )) by {
                            assert forall|m: Set<usize>| (m.subset_of(x) && exists|k: int| 0 <= k < jj + 1 && sv[k] == m)
                                implies (m.subset_of(x) && exists|k: int| 0 <= k < jj && sv[k] == m) || m == sv[jj] by {}
                        }
                    }
                    j = j + 1;
                }
            }
            proof {
                lemma_simplex_list_wf(list@);
                assert(views.subrange(0, i as int + 1).to_set() =~= processed.insert(x)) by {
                    assert(views.subrange(0, i as int + 1) =~= views.subrange(0, i as int).push(x));
                    views.subrange(0, i as int).lemma_push_to_set_commute(x);
                }
            }
            if maximal {
                proof {
                    assert forall|g: Set<usize>| #[trigger] m0.contains(g) implies !x.subset_of(g) by {
                        let k = sv.index_of(g);
                    }
                    lemma_maximal_insert_new(processed, x);
                    assert(simplex_set_view(facets) =~= m0.filter(|m: Set<usize>| !m.subset_of(x))) by {
                        assert forall|m: Set<usize>| #[trigger] m0.contains(m) && m.subset_of(x)
                            implies exists|k: int| 0 <= k < j && sv[k] == m by {
                            let k = sv.index_of(m);
                        }
                    }
                }
                simplex_set_insert(&mut facets, face.clone());
            } else {
                proof {
                    let g = sv[j as int];
                    assert(sv.to_set().contains(g));
                    assert(simplex_set_view(facets) =~= m0) by {
                        assert forall|m: Set<usize>| #[trigger] m0.contains(m) && m.subset_of(x)
                            implies !exists|k: int| 0 <= k < j && sv[k] == m by {
                            if exists|k: int| 0 <= k < j && sv[k] == m {
                                let k = choose|k: int| 0 <= k < j && sv[k] == m;
                                assert(m.subset_of(g));
                                lemma_maximal_antichain(processed, m, g);
                            }
                        }
                    }
                    lemma_maximal_insert_dominated(processed, x, g);
                }
            }
            i = i + 1;
        }
        proof {
            assert(views.subrange(0, list@.len() as int) =~= views);
            lemma_simplex_list_wf(list@);
            let r = maximal_faces(simplex_set_view(faces));
            assert(r.subset_of(simplex_set_view(faces)));
            vstd::set_lib::lemma_set_subset_finite(simplex_set_view(faces), r);
        }
        Complex { facets }
    }
}


/// The proper faces of `f` with two vertices.
pub open spec fn simplex_edges(f: Set<usize>) -> Set<Set<usize>> {
    Set::new(
        |e: Set<usize>|
            exists|u: usize, v: usize|
                f.contains(u) && f.contains(v) && u != v && e == set![u, v],
    )
}

/// The edges of a complex: each pair of distinct vertices of one of its facets.
pub open spec fn edge_set(k: Set<Set<usize>>) -> Set<Set<usize>> {
    Set::new(|e: Set<usize>| exists|f: Set<usize>| #[trigger] k.contains(f) && simplex_edges(f).contains(e))
}

/// The faces of a complex that leave out one vertex of one of its facets.
pub open spec fn ridge_set(k: Set<Set<usize>>) -> Set<Set<usize>> {
    Set::new(|t: Set<usize>| exists|f: Set<usize>| #[trigger] k.contains(f) && boundary(f).contains(t))
}

/// The facets of `k` of which `face` is a proper face.
pub open spec fn cofaces(k: Set<Set<usize>>, face: Set<usize>) -> Set<Set<usize>> {
    k.filter(|g: Set<usize>| is_proper_face(face, g))
}

/// Adds to `result` each pair of distinct vertices of `facet`.
fn insert_edges_of(facet: &BTreeSet<usize>, result: &mut HashSet<BTreeSet<usize>>)
    ensures
        simplex_set_view(*final(result)) == simplex_set_view(*old(result)).union(simplex_edges(facet@)),
{
    let ghost keys = vstd::std_specs::btree::spec_btree_keys_iter(facet).remaining().unref();
    let ghost start = simplex_set_view(*result);
    proof {
        lemma_simplex_keys(facet);
    }
    for u in it: facet.iter()
        invariant
            it.seq().unref() == keys,
            keys.to_set() == facet@,
            simplex_set_view(*result) == start.union(Set::new(
                |e: Set<usize>| exists|a: int, v: usize|
                    0 <= a < it.index() && facet@.contains(v) && keys[a] != v && e == set![keys[a], v],
            )),
    {
        let ghost ia = it.index();
        let ghost before = simplex_set_view(*result);
        proof {
            assert(keys[ia] == *u);
        }
        for v in jt: facet.iter()
            invariant
                jt.seq().unref() == keys,
                keys.to_set() == facet@,
                keys[ia] == *u,
                simplex_set_view(*result) == before.union(Set::new(
                    |e: Set<usize>| exists|b: int| 0 <= b < jt.index() && keys[b] != *u && e == set![*u, keys[b]],
                )),
        {
            let ghost jb = jt.index();
            let ghost mid = simplex_set_view(*result);
            proof {
                assert(keys[jb] == *v);
            }
            if *u != *v {
                let mut edge = BTreeSet::new();
                edge.insert(*u);
                edge.insert(*v);
                proof {
                    assert(edge@ =~= set![*u, *v]);
                }
                simplex_set_insert(result, edge);
            }
            proof {
                assert(simplex_set_view(*result) =~= before.union(Set::new(
                    |e: Set<usize>| exists|b: int| 0 <= b < jb + 1 && keys[b] != *u && e == set![*u, keys[b]],
                ))) by {
                    assert forall|e: Set<usize>| (exists|b: int| 0 <= b < jb + 1 && keys[b] != *u && e == set![*u, keys[b]])
                        implies #[trigger] simplex_set_view(*result).contains(e) by {
                        let b = choose|b: int| 0 <= b < jb + 1 && keys[b] != *u && e == set![*u, keys[b]];
                        if b < jb {
                            assert(mid.contains(e));
                        }
                    }
                }
            }
        }
        proof {
            assert(simplex_set_view(*result) =~= start.union(Set::new(
                |e: Set<usize>| exists|a: int, v: usize|
                    0 <= a < ia + 1 && facet@.contains(v) && keys[a] != v && e == set![keys[a], v],
            ))) by {
                assert forall|e: Set<usize>| (exists|a: int, v: usize|
                    0 <= a < ia + 1 && facet@.contains(v) && keys[a] != v && e == set![keys[a], v])
                    implies #[trigger] simplex_set_view(*result).contains(e) by {
                    let (a, v) = choose|a: int, v: usize|
                        0 <= a < ia + 1 && facet@.contains(v) && keys[a] != v && e == set![keys[a], v];
                    if a == ia {
                        assert(keys.to_set().contains(v));
                        let b = keys.index_of(v);
                        assert(0 <= b < keys.len() && keys[b] != *u && e == set![*u, keys[b]]);
                    } else {
                        assert(before.contains(e));
                    }
                }
                assert forall|e: Set<usize>| #[trigger] simplex_set_view(*result).contains(e) && !before.contains(e)
                    implies (exists|a: int, v: usize|
                    0 <= a < ia + 1 && facet@.contains(v) && keys[a] != v && e == set![keys[a], v]) by {
                    let b = choose|b: int| 0 <= b < keys.len() && keys[b] != *u && e == set![*u, keys[b]];
                    assert(keys.to_set().contains(keys[b]));
                    assert(0 <= ia < ia + 1 && facet@.contains(keys[b]) && keys[ia] != keys[b] && e == set![keys[ia], keys[b]]);
                }
            }
        }
    }
    proof {
        assert(simplex_set_view(*result) =~= start.union(simplex_edges(facet@))) by {
            assert forall|e: Set<usize>| #[trigger] simplex_edges(facet@).contains(e)
                implies simplex_set_view(*result).contains(e) by {
                let (u, v) = choose|u: usize, v: usize|
                    facet@.contains(u) && facet@.contains(v) && u != v && e == set![u, v];
                assert(keys.to_set().contains(u));
                let a = keys.index_of(u);
                assert(0 <= a < keys.len() && facet@.contains(v) && keys[a] != v && e == set![keys[a], v]);
            }
            assert forall|e: Set<usize>| #[trigger] simplex_set_view(*result).contains(e) && !start.contains(e)
                implies simplex_edges(facet@).contains(e) by {
                let (a, v) = choose|a: int, v: usize|
                    0 <= a < keys.len() && facet@.contains(v) && keys[a] != v && e == set![keys[a], v];
                assert(keys.to_set().contains(keys[a]));
            }
        }
    }
}


/// The simplices among the first `k` of a list.
pub open spec fn prefix_set(v: Seq<BTreeSet<usize>>, k: int) -> Set<Set<usize>> {
    simplex_views(v).subrange(0, k).to_set()
}

proof fn lemma_prefix_set_step(v: Seq<BTreeSet<usize>>, k: int)
    requires
        0 <= k < v.len(),
    ensures
        prefix_set(v, k + 1) == prefix_set(v, k).insert(v[k]@),
        prefix_set(v, 0) == Set::<Set<usize>>::empty(),
{
    let w = simplex_views(v);
    assert(w.subrange(0, k + 1) =~= w.subrange(0, k).push(v[k]@));
    w.subrange(0, k).lemma_push_to_set_commute(v[k]@);
    assert(w.subrange(0, 0).to_set() =~= Set::<Set<usize>>::empty());
}

proof fn lemma_prefix_set_full(v: Seq<BTreeSet<usize>>)
    ensures
        prefix_set(v, v.len() as int) == simplex_views(v).to_set(),
{
    assert(simplex_views(v).subrange(0, v.len() as int) =~= simplex_views(v));
}

impl Complex {
    /// The vertices of the complex: those of its facets.
    pub fn vertices(&self) -> (r: BTreeSet<usize>)
        ensures
            r@ == self@.flatten(),
    {
        let mut result = BTreeSet::new();
        let list = simplex_set_to_vec(&self.facets);
        let mut k: usize = 0;
        proof {
            if list@.len() > 0 {
                lemma_prefix_set_step(list@, 0);
            } else {
                assert(simplex_views(list@).subrange(0, 0).to_set() =~= Set::<Set<usize>>::empty());
            }
            assert(Set::<Set<usize>>::empty().flatten() =~= Set::<usize>::empty());
        }
        while k < list.len()
            invariant
                k <= list@.len(),
                result@ == prefix_set(list@, k as int).flatten(),
            decreases list@.len() - k,
        {
            let facet = &list[k];
            let ghost keys = vstd::std_specs::btree::spec_btree_keys_iter(facet).remaining().unref();
            let ghost before = result@;
            proof {
                lemma_simplex_keys(facet);
            }
            for v in it: facet.iter()
                invariant
                    it.seq().unref() == keys,
                    keys.to_set() == facet@,
                    result@ == before.union(keys.subrange(0, it.index()).to_set()),
            {
                proof {
                    let j = it.index();
                    assert(keys[j] == *v);
                    assert(keys.subrange(0, j + 1) =~= keys.subrange(0, j).push(*v));
                    keys.subrange(0, j).lemma_push_to_set_commute(*v);
                }
                result.insert(*v);
            }
            proof {
                assert(keys.subrange(0, keys.len() as int) =~= keys);
                lemma_prefix_set_step(list@, k as int);
                prefix_set(list@, k as int).flatten_insert_union_commute(facet@);
            }
            k = k + 1;
        }
        proof {
            lemma_prefix_set_full(list@);
        }
        result
    }

    /// The number of facets of which `face` is a proper face.
    pub fn count_cofaces(&self, face: &BTreeSet<usize>) -> (r: usize)
        ensures
            r == cofaces(self@, face@).len(),
    {
        let mut count: usize = 0;
        let list = simplex_set_to_vec(&self.facets);
        let ghost w = simplex_views(list@);
        let mut k: usize = 0;
        proof {
            if list@.len() > 0 {
                lemma_prefix_set_step(list@, 0);
            } else {
                assert(w.subrange(0, 0).to_set() =~= Set::<Set<usize>>::empty());
            }
            assert(cofaces(Set::<Set<usize>>::empty(), face@) =~= Set::<Set<usize>>::empty());
        }
        while k < list.len()
            invariant
                k <= list@.len(),
                w == simplex_views(list@),
                w.no_duplicates(),
                w.to_set() == self@,
                count <= k,
                count == cofaces(prefix_set(list@, k as int), face@).len(),
                prefix_set(list@, k as int).finite(),
            decreases list@.len() - k,
        {
            let ghost p = prefix_set(list@, k as int);
            proof {
                lemma_prefix_set_step(list@, k as int);
                assert(!p.contains(w[k as int])) by {
                    if p.contains(w[k as int]) {
                        let a = w.subrange(0, k as int).index_of(w[k as int]);
                        assert(w[a] == w[k as int]);
                    }
                }
            }
            if has_coface(face, &list[k]) {
                proof {
                    assert(cofaces(p.insert(w[k as int]), face@) =~= cofaces(p, face@).insert(w[k as int]));
                }
                count = count + 1;
            } else {
                proof {
                    assert(cofaces(p.insert(w[k as int]), face@) =~= cofaces(p, face@));
                }
            }
            k = k + 1;
        }
        proof {
            lemma_prefix_set_full(list@);
        }
        count
    }

    /// The edges of the complex.
    pub fn edges(&self) -> (r: HashSet<BTreeSet<usize>>)
        ensures
            simplex_set_view(r) == edge_set(self@),
    {
        let mut result = simplex_set_new();
        let list = simplex_set_to_vec(&self.facets);
        let mut k: usize = 0;
        proof {
            if list@.len() > 0 {
                lemma_prefix_set_step(list@, 0);
            } else {
                assert(simplex_views(list@).subrange(0, 0).to_set() =~= Set::<Set<usize>>::empty());
            }
            assert(edge_set(Set::<Set<usize>>::empty()) =~= Set::<Set<usize>>::empty());
        }
        while k < list.len()
            invariant
                k <= list@.len(),
                simplex_set_view(result) == edge_set(prefix_set(list@, k as int)),
            decreases list@.len() - k,
        {
            insert_edges_of(&list[k], &mut result);
            proof {
                let p = prefix_set(list@, k as int);
                let f = list@[k as int]@;
                lemma_prefix_set_step(list@, k as int);
                assert(edge_set(p.insert(f)) =~= edge_set(p).union(simplex_edges(f))) by {
                    assert forall|e: Set<usize>| #[trigger] edge_set(p.insert(f)).contains(e)
                        implies edge_set(p).union(simplex_edges(f)).contains(e) by {
                        let g = choose|g: Set<usize>| #[trigger] p.insert(f).contains(g) && simplex_edges(g).contains(e);
                        if g != f {
                            assert(p.contains(g));
                        }
                    }
                    assert forall|e: Set<usize>| #[trigger] edge_set(p).contains(e)
                        implies edge_set(p.insert(f)).contains(e) by {
                        let g = choose|g: Set<usize>| #[trigger] p.contains(g) && simplex_edges(g).contains(e);
                        assert(p.insert(f).contains(g));
                    }
                    assert forall|e: Set<usize>| #[trigger] simplex_edges(f).contains(e)
                        implies edge_set(p.insert(f)).contains(e) by {
                        assert(p.insert(f).contains(f));
                    }
                }
            }
            k = k + 1;
        }
        proof {
            lemma_prefix_set_full(list@);
        }
        result
    }

    /// The faces of the complex that leave out one vertex of one of its facets.
    pub fn twofacets(&self) -> (r: HashSet<BTreeSet<usize>>)
        ensures
            simplex_set_view(r) == ridge_set(self@),
    {
        let mut result = simplex_set_new();
        let list = simplex_set_to_vec(&self.facets);
        let mut k: usize = 0;
        proof {
            if list@.len() > 0 {
                lemma_prefix_set_step(list@, 0);
            } else {
                assert(simplex_views(list@).subrange(0, 0).to_set() =~= Set::<Set<usize>>::empty());
            }
            assert(ridge_set(Set::<Set<usize>>::empty()) =~= Set::<Set<usize>>::empty());
        }
        while k < list.len()
            invariant
                k <= list@.len(),
                simplex_set_view(result) == ridge_set(prefix_set(list@, k as int)),
            decreases list@.len() - k,
        {
            simplex_set_extend(&mut result, simplex_boundary(&list[k]));
            proof {
                let p = prefix_set(list@, k as int);
                let f = list@[k as int]@;
                lemma_prefix_set_step(list@, k as int);
                assert(ridge_set(p.insert(f)) =~= ridge_set(p).union(boundary(f))) by {
                    assert forall|t: Set<usize>| #[trigger] ridge_set(p.insert(f)).contains(t)
                        implies ridge_set(p).union(boundary(f)).contains(t) by {
                        let g = choose|g: Set<usize>| #[trigger] p.insert(f).contains(g) && boundary(g).contains(t);
                        if g != f {
                            assert(p.contains(g));
                        }
                    }
                    assert forall|t: Set<usize>| #[trigger] ridge_set(p).contains(t)
                        implies ridge_set(p.insert(f)).contains(t) by {
                        let g = choose|g: Set<usize>| #[trigger] p.contains(g) && boundary(g).contains(t);
                        assert(p.insert(f).contains(g));
                    }
                    assert forall|t: Set<usize>| #[trigger] boundary(f).contains(t)
                        implies ridge_set(p.insert(f)).contains(t) by {
                        assert(p.insert(f).contains(f));
                    }
                }
            }
            k = k + 1;
        }
        proof {
            lemma_prefix_set_full(list@);
        }
        result
    }
}


/// References to vertices are ordered as the vertices are.
proof fn lemma_vertex_refs_ordered()
    ensures
        vstd::laws_cmp::obeys_cmp::<&usize>(),
{
    broadcast use vstd::laws_eq::group_laws_eq;
    broadcast use vstd::laws_cmp::group_laws_cmp;
    reveal(vstd::laws_eq::obeys_eq_spec_properties);
    reveal(vstd::laws_cmp::obeys_partial_cmp_spec_properties);
    reveal(vstd::laws_cmp::obeys_cmp_partial_ord);
    reveal(vstd::laws_cmp::obeys_cmp_ord);
    assert(vstd::laws_eq::obeys_eq::<&usize>());
}

/// The vertices of a simplex come out of it in increasing order.
proof fn lemma_simplex_keys_increasing(s: &BTreeSet<usize>)
    ensures
        forall|i: int, j: int|
            0 <= i < j < vstd::std_specs::btree::spec_btree_keys_iter(s).remaining().len()
                ==> vstd::std_specs::btree::spec_btree_keys_iter(s).remaining().unref()[i]
                < vstd::std_specs::btree::spec_btree_keys_iter(s).remaining().unref()[j],
{
    vstd::std_specs::btree::axiom_spec_btree_keys_iter(s);
    lemma_vertex_refs_ordered();
    let rem = vstd::std_specs::btree::spec_btree_keys_iter(s).remaining();
    vstd::std_specs::btree::axiom_increasing_seq_meaning(rem);
    assert forall|i: int, j: int| 0 <= i < j < rem.len() implies rem.unref()[i] < rem.unref()[j] by {
        assert(OrdSpec::cmp_spec(&rem[i], &rem[j]) is Less);
    }
}

/// The vertices of a simplex, in increasing order.
fn vertex_list(edge: &BTreeSet<usize>) -> (r: Vec<usize>)
    ensures
        r@.len() == edge@.len(),
        r@.to_set() == edge@,
        r@.len() == 2 ==> r@[0] < r@[1],
{
    let mut ends: Vec<usize> = Vec::new();
    let ghost keys = vstd::std_specs::btree::spec_btree_keys_iter(edge).remaining().unref();
    proof {
        lemma_simplex_keys(edge);
        lemma_simplex_keys_increasing(edge);
    }
    for x in it: edge.iter()
        invariant
            it.seq().unref() == keys,
            ends@ == keys.subrange(0, it.index()),
    {
        ends.push(*x);
    }
    proof {
        assert(keys.subrange(0, keys.len() as int) =~= keys);
    }
    ends
}


/// The complex is the boundary of a single simplex with `dim + 2` vertices.
pub open spec fn unit_sphere(k: Set<Set<usize>>, dim: int) -> bool {
    &&& k.len() == dim + 2
    &&& k.flatten().len() == dim + 2
    &&& boundary(k.flatten()) == k
}

/// Whether the complex is the boundary of a single simplex with `dim + 2` vertices.
pub fn is_unit_sphere(complex: &Complex, dim: usize) -> (r: bool)
    requires
        dim + 2 <= usize::MAX,
    ensures
        r == unit_sphere(complex@, dim as int),
{
    let vertices = complex.vertices();
    if simplex_set_len(&complex.facets) != dim + 2 || vertices.len() != dim + 2 {
        return false;
    }
    simplex_set_eq(&simplex_boundary(&vertices), &complex.facets)
}

/// The face `f` with the vertex `v` merged into `u`.
pub open spec fn merge_vertex(f: Set<usize>, u: usize, v: usize) -> Set<usize> {
    if f.contains(v) {
        f.remove(v).insert(u)
    } else {
        f
    }
}

/// The complex `k` with the edge `e` collapsed: its larger vertex merged into the smaller,
/// keeping the maximal faces. Anything but a pair of vertices collapses everything.
pub open spec fn collapse(e: Set<usize>, k: Set<Set<usize>>) -> Set<Set<usize>> {
    if exists|u: usize, v: usize| u < v && e == set![u, v] {
        let (u, v) = choose|u: usize, v: usize| u < v && e == set![u, v];
        maximal_faces(k.map(|f: Set<usize>| merge_vertex(f, u, v)))
    } else {
        Set::empty()
    }
}

/// A pair of distinct vertices has two of them.
proof fn lemma_pair_len(u: usize, v: usize)
    requires
        u != v,
    ensures
        set![u, v].len() == 2,
        set![u, v].finite(),
{
    assert(set![u, v] == Set::<usize>::empty().insert(u).insert(v));
}

/// Collapsing an edge of a complex leaves a complex with fewer vertices.
pub proof fn lemma_collapse_shrinks(e: Set<usize>, k: Set<Set<usize>>)
    requires
        complex_wf(k),
        edge_set(k).contains(e),
    ensures
        complex_wf(collapse(e, k)),
        collapse(e, k).flatten().len() < k.flatten().len(),
{
    let f = choose|f: Set<usize>| #[trigger] k.contains(f) && simplex_edges(f).contains(e);
    let (u0, v0) = choose|u: usize, v: usize| f.contains(u) && f.contains(v) && u != v && e == set![u, v];
    if u0 < v0 {
        assert(u0 < v0 && e == set![u0, v0]);
    } else {
        assert(set![u0, v0] =~= set![v0, u0]);
        assert(v0 < u0 && e == set![v0, u0]);
    }
    let (u, v) = choose|u: usize, v: usize| u < v && e == set![u, v];
    assert(e.contains(u) && e.contains(v));
    assert(f.contains(u) && f.contains(v));
    let g = |h: Set<usize>| merge_vertex(h, u, v);
    let image = k.map(g);
    let c = maximal_faces(image);
    assert(c == collapse(e, k));
    k.lemma_flatten_finite();
    assert(k.flatten().contains(u)) by {
        assert(k.contains(f) && f.contains(u));
    }
    assert(k.flatten().contains(v)) by {
        assert(k.contains(f) && f.contains(v));
    }
    assert(c.flatten().subset_of(k.flatten().remove(v))) by {
        assert forall|x: usize| #[trigger] c.flatten().contains(x) implies k.flatten().remove(v).contains(x) by {
            let h = choose|h: Set<usize>| #[trigger] c.contains(h) && h.contains(x);
            assert(image.contains(h));
            let h0 = choose|h0: Set<usize>| k.contains(h0) && g(h0) == h;
            if h0.contains(v) {
                if x != u {
                    assert(h0.contains(x));
                    assert(k.contains(h0) && h0.contains(x));
                }
            } else {
                assert(k.contains(h0) && h0.contains(x));
            }
        }
    }
    vstd::set_lib::lemma_len_subset(c.flatten(), k.flatten().remove(v));
    k.lemma_map_finite(g);
    assert(c.subset_of(image));
    vstd::set_lib::lemma_set_subset_finite(image, c);
    assert forall|h: Set<usize>| #[trigger] c.contains(h) implies h.finite() by {
        assert(image.contains(h));
        let h0 = choose|h0: Set<usize>| k.contains(h0) && g(h0) == h;
        assert(h0.finite());
    }
}

/// Collapses an edge of a complex.
pub fn collapse_edge(edge: &BTreeSet<usize>, complex: &Complex) -> (r: Complex)
    ensures
        r@ == collapse(edge@, complex@),
        complex_wf(r@),
{
    let mut result = simplex_set_new();
    let ends = vertex_list(edge);
    if ends.len() == 2 {
        let u = ends[0];
        let v = ends[1];
        let ghost g = |h: Set<usize>| merge_vertex(h, u, v);
        let list = simplex_set_to_vec(&complex.facets);
        let mut k: usize = 0;
        proof {
            if list@.len() > 0 {
                lemma_prefix_set_step(list@, 0);
            } else {
                assert(simplex_views(list@).subrange(0, 0).to_set() =~= Set::<Set<usize>>::empty());
            }
            assert(Set::<Set<usize>>::empty().map(g) =~= Set::<Set<usize>>::empty());
        }
        while k < list.len()
            invariant
                k <= list@.len(),
                g == (|h: Set<usize>| merge_vertex(h, u, v)),
                simplex_set_view(result) == prefix_set(list@, k as int).map(g),
            decreases list@.len() - k,
        {
            let mut newface = list[k].clone();
            if newface.remove(&v) {
                newface.insert(u);
            }
            proof {
                assert(newface@ =~= g(list@[k as int]@));
                lemma_prefix_set_step(list@, k as int);
                prefix_set(list@, k as int).lemma_set_map_insert_commute(list@[k as int]@, g);
            }
            simplex_set_insert(&mut result, newface);
            k = k + 1;
        }
        proof {
            lemma_prefix_set_full(list@);
            assert(ends@.to_set() =~= set![u, v]);
            assert(u < v && edge@ == set![u, v]);
            let (a, b) = choose|a: usize, b: usize| a < b && edge@ == set![a, b];
            assert(set![a, b].contains(a) && set![a, b].contains(b));
            assert(set![u, v].contains(u) && set![u, v].contains(v));
            assert(a == u && b == v);
        }
    } else {
        proof {
            if exists|a: usize, b: usize| a < b && edge@ == set![a, b] {
                let (a, b) = choose|a: usize, b: usize| a < b && edge@ == set![a, b];
                lemma_pair_len(a, b);
            }
            assert(maximal_faces(Set::<Set<usize>>::empty()) =~= Set::<Set<usize>>::empty());
        }
    }
    Complex::from_faces(result)
}


/// The complex is recognised as a combinatorial sphere of dimension `dim` within `n`
/// collapses: it is the boundary of a simplex, or all its facets have `dim + 1` vertices,
/// each face that leaves out one vertex of a facet lies in exactly two facets, and
/// collapsing one of its edges leaves a complex that is so recognised within `n - 1`.
pub open spec fn sphere_within(k: Set<Set<usize>>, dim: int, n: nat) -> bool
    decreases n,
{
    unit_sphere(k, dim) || {
        &&& n > 0
        &&& forall|f: Set<usize>| #[trigger] k.contains(f) ==> f.len() == dim + 1
        &&& forall|t: Set<usize>| #[trigger] ridge_set(k).contains(t) ==> cofaces(k, t).len() == 2
        &&& exists|e: Set<usize>|
            #[trigger] edge_set(k).contains(e) && sphere_within(collapse(e, k), dim, (n - 1) as nat)
    }
}

/// The complex is recognised as a combinatorial sphere of dimension `dim`; each collapse
/// takes away a vertex, so as many collapses as it has vertices are enough.
pub open spec fn sphere(k: Set<Set<usize>>, dim: int) -> bool {
    sphere_within(k, dim, k.flatten().len())
}

/// A complex without vertices has no edges.
proof fn lemma_edges_need_vertices(k: Set<Set<usize>>, e: Set<usize>)
    requires
        edge_set(k).contains(e),
    ensures
        k.flatten().len() > 0 || !k.flatten().finite(),
{
    let f = choose|f: Set<usize>| #[trigger] k.contains(f) && simplex_edges(f).contains(e);
    let (u, v) = choose|u: usize, v: usize| f.contains(u) && f.contains(v) && u != v && e == set![u, v];
    assert(k.contains(f) && f.contains(u));
    assert(k.flatten().contains(u));
    if k.flatten().finite() && k.flatten().len() == 0 {
        assert(k.flatten() =~= Set::<usize>::empty());
    }
}

/// More collapses than the complex has vertices change nothing.
pub proof fn lemma_sphere_within_stable(k: Set<Set<usize>>, dim: int, n: nat)
    requires
        complex_wf(k),
        n >= k.flatten().len(),
    ensures
        sphere_within(k, dim, n) == sphere(k, dim),
    decreases n,
{
    let m = k.flatten().len();
    k.lemma_flatten_finite();
    if n > m {
        assert forall|e: Set<usize>| #[trigger] edge_set(k).contains(e) implies
            sphere_within(collapse(e, k), dim, (n - 1) as nat) == sphere_within(collapse(e, k), dim, (m - 1) as nat) by {
            lemma_edges_need_vertices(k, e);
            lemma_collapse_shrinks(e, k);
            lemma_sphere_within_stable(collapse(e, k), dim, (n - 1) as nat);
            lemma_sphere_within_stable(collapse(e, k), dim, (m - 1) as nat);
        }
        if m == 0 {
            assert forall|e: Set<usize>| #[trigger] edge_set(k).contains(e) implies false by {
                lemma_edges_need_vertices(k, e);
            }
        }
    }
}

/// Whether the complex is recognised as a combinatorial sphere of dimension `dim`.
pub fn is_sphere(complex: &Complex, dim: usize) -> (r: bool)
    requires
        complex_wf(complex@),
        dim + 2 <= usize::MAX,
    ensures
        r == sphere(complex@, dim as int),
    decreases complex@.flatten().len(),
{
    if is_unit_sphere(complex, dim) {
        return true;
    }
    let list = simplex_set_to_vec(&complex.facets);
    let mut k: usize = 0;
    while k < list.len()
        invariant
            k <= list@.len(),
            complex_wf(complex@),
            dim + 2 <= usize::MAX,
            !unit_sphere(complex@, dim as int),
            simplex_views(list@).to_set() == complex@,
            forall|a: int| 0 <= a < k ==> (#[trigger] list@[a])@.len() == dim + 1,
        decreases list@.len() - k,
    {
        if list[k].len() != dim + 1 {
            proof {
                assert(simplex_views(list@)[k as int] == list@[k as int]@);
                assert(complex@.contains(list@[k as int]@));
            }
            return false;
        }
        k = k + 1;
    }
    proof {
        assert forall|f: Set<usize>| #[trigger] complex@.contains(f) implies f.len() == dim + 1 by {
            let a = simplex_views(list@).index_of(f);
            assert(list@[a]@ == f);
        }
    }
    let ridges = simplex_set_to_vec(&complex.twofacets());
    let mut k: usize = 0;
    while k < ridges.len()
        invariant
            k <= ridges@.len(),
            complex_wf(complex@),
            dim + 2 <= usize::MAX,
            !unit_sphere(complex@, dim as int),
            forall|f: Set<usize>| #[trigger] complex@.contains(f) ==> f.len() == dim + 1,
            simplex_views(ridges@).to_set() == ridge_set(complex@),
            forall|a: int| 0 <= a < k ==> cofaces(complex@, (#[trigger] ridges@[a])@).len() == 2,
        decreases ridges@.len() - k,
    {
        if complex.count_cofaces(&ridges[k]) != 2 {
            proof {
                assert(simplex_views(ridges@)[k as int] == ridges@[k as int]@);
                assert(ridge_set(complex@).contains(ridges@[k as int]@));
            }
            return false;
        }
        k = k + 1;
    }
    proof {
        assert forall|t: Set<usize>| #[trigger] ridge_set(complex@).contains(t) implies cofaces(complex@, t).len() == 2 by {
            let a = simplex_views(ridges@).index_of(t);
            assert(ridges@[a]@ == t);
        }
    }
    let edges = simplex_set_to_vec(&complex.edges());
    let mut k: usize = 0;
    proof {
        complex@.lemma_flatten_finite();
    }
    while k < edges.len()
        invariant
            k <= edges@.len(),
            complex_wf(complex@),
            dim + 2 <= usize::MAX,
            !unit_sphere(complex@, dim as int),
            forall|f: Set<usize>| #[trigger] complex@.contains(f) ==> f.len() == dim + 1,
            forall|t: Set<usize>| #[trigger] ridge_set(complex@).contains(t) ==> cofaces(complex@, t).len() == 2,
            simplex_views(edges@).to_set() == edge_set(complex@),
            forall|a: int| 0 <= a < k ==> !sphere(collapse((#[trigger] edges@[a])@, complex@), dim as int),
            complex@.flatten().finite(),
        decreases edges@.len() - k,
    {
        proof {
            assert(simplex_views(edges@)[k as int] == edges@[k as int]@);
            assert(edge_set(complex@).contains(edges@[k as int]@));
            lemma_collapse_shrinks(edges@[k as int]@, complex@);
        }
        let collapsed = collapse_edge(&edges[k], complex);
        proof {
            lemma_edges_need_vertices(complex@, edges@[k as int]@);
            complex@.lemma_flatten_finite();
            lemma_sphere_within_stable(collapsed@, dim as int, (complex@.flatten().len() - 1) as nat);
        }
        if is_sphere(&collapsed, dim) {
            proof {
                let e = edges@[k as int]@;
                assert(edge_set(complex@).contains(e));
            }
            return true;
        }
        k = k + 1;
    }
    proof {
        let m = complex@.flatten().len();
        assert forall|e: Set<usize>| #[trigger] edge_set(complex@).contains(e)
            implies !sphere_within(collapse(e, complex@), dim as int, (m - 1) as nat) by {
            let a = simplex_views(edges@).index_of(e);
            assert(edges@[a]@ == e);
            lemma_edges_need_vertices(complex@, e);
            lemma_collapse_shrinks(e, complex@);
            lemma_sphere_within_stable(collapse(e, complex@), dim as int, (m - 1) as nat);
        }
    }
    false
}


/// Whether `nodes` holds `v`.
fn holds_node(nodes: &[usize], v: usize) -> (r: bool)
    ensures
        r == nodes@.contains(v),
{
    let mut i: usize = 0;
    while i < nodes.len()
        invariant
            i <= nodes@.len(),
            forall|j: int| 0 <= j < i ==> nodes@[j] != v,
        decreases nodes@.len() - i,
    {
        if nodes[i] == v {
            return true;
        }
        i = i + 1;
    }
    false
}

/// Each simplex restricted to the vertices among `nodes`.
pub fn filter_nodes(simplices: &[BTreeSet<usize>], nodes: &[usize]) -> (r: Vec<BTreeSet<usize>>)
    ensures
        r@.len() == simplices@.len(),
        forall|i: int| 0 <= i < r@.len() ==> (#[trigger] r@[i])@ == simplices@[i]@.filter(|v: usize| nodes@.contains(v)),
{
    let mut result: Vec<BTreeSet<usize>> = Vec::new();
    let mut i: usize = 0;
    while i < simplices.len()
        invariant
            i <= simplices@.len(),
            result@.len() == i,
            forall|a: int| 0 <= a < i ==> (#[trigger] result@[a])@ == simplices@[a]@.filter(|v: usize| nodes@.contains(v)),
        decreases simplices@.len() - i,
    {
        let simplex = &simplices[i];
        let mut res = BTreeSet::new();
        let ghost keys = vstd::std_specs::btree::spec_btree_keys_iter(simplex).remaining().unref();
        proof {
            lemma_simplex_keys(simplex);
        }
        for v in it: simplex.iter()
            invariant
                it.seq().unref() == keys,
                keys.to_set() == simplex@,
                res@ == keys.subrange(0, it.index()).to_set().filter(|w: usize| nodes@.contains(w)),
        {
            proof {
                let j = it.index();
                assert(keys[j] == *v);
                assert(keys.subrange(0, j + 1) =~= keys.subrange(0, j).push(*v));
                keys.subrange(0, j).lemma_push_to_set_commute(*v);
            }
            if holds_node(nodes, *v) {
                res.insert(*v);
            }
            proof {
                let j = it.index();
                assert(res@ =~= keys.subrange(0, j + 1).to_set().filter(|w: usize| nodes@.contains(w)));
            }
        }
        proof {
            assert(keys.subrange(0, keys.len() as int) =~= keys);
        }
        result.push(res);
        i = i + 1;
    }
    result
}


/// The stratum of the `n`-th point of a scaffold.
pub open spec fn stratum_of(keys: Seq<Vec<Height>>, n: int) -> nat {
    singular_count(keys[n]@)
}

/// The points of a scaffold are explored by stratum, and within a stratum by index: `s`
/// comes before `n`.
pub open spec fn explored_before(keys: Seq<Vec<Height>>, s: int, n: int) -> bool {
    ||| stratum_of(keys, s) < stratum_of(keys, n)
    ||| stratum_of(keys, s) == stratum_of(keys, n) && s < n
}

/// `Itertools::sorted_by_cached_key` on the points `0..keys.len()` of a scaffold, keyed by
/// their strata: each point once, in ascending order of stratum, points of one stratum in
/// ascending order (the sort is stable).
#[verifier::external_body]
fn points_by_stratum(keys: &Vec<Vec<Height>>) -> (r: Vec<usize>)
    ensures
        r@.len() == keys@.len(),
        forall|i: int| 0 <= i < r@.len() ==> r@[i] < keys@.len(),
        forall|i: int, j: int|
            0 <= i < j < r@.len() ==> explored_before(keys@, #[trigger] r@[i] as int, #[trigger] r@[j] as int),
{
    (0..keys.len()).sorted_by_cached_key(|n| stratum(&keys[*n])).collect()
}

/// The simplices of the neighbourhood of the point `n`: `n` itself, and each simplex of the
/// neighbourhood of a point explored before `n` with an edge into `n`, extended by `n`.
pub open spec fn neighbourhood_of(keys: Seq<Vec<Height>>, incoming: Seq<Vec<usize>>, n: nat) -> Seq<Seq<usize>>
    decreases stratum_of(keys, n as int), n, incoming[n as int]@.len() + 1,
{
    seq![seq![n as usize]] + extensions_into(keys, incoming, n, incoming[n as int]@.len())
}

/// The simplices of the neighbourhoods of the first `j` sources of edges into `n` that are
/// explored before `n`, each extended by `n`.
pub open spec fn extensions_into(keys: Seq<Vec<Height>>, incoming: Seq<Vec<usize>>, n: nat, j: nat) -> Seq<Seq<usize>>
    decreases stratum_of(keys, n as int), n, j,
{
    if j == 0 {
        seq![]
    } else {
        let s = incoming[n as int]@[j - 1];
        extensions_into(keys, incoming, n, (j - 1) as nat) + if explored_before(keys, s as int, n as int) {
            neighbourhood_of(keys, incoming, s as nat).map_values(|p: Seq<usize>| p.push(n as usize))
        } else {
            seq![]
        }
    }
}

/// The vertex lists of a list of simplices.
pub open spec fn lists_view(v: Seq<Vec<usize>>) -> Seq<Seq<usize>> {
    v.map_values(|p: Vec<usize>| p@)
}

/// The edges of a scaffold point into points of the scaffold.
pub open spec fn scaffold_wf(keys: Seq<Vec<Height>>, incoming: Seq<Vec<usize>>) -> bool {
    &&& incoming.len() == keys.len()
    &&& forall|n: int, k: int| 0 <= n < incoming.len() && 0 <= k < incoming[n]@.len() ==> #[trigger] incoming[n]@[k] < keys.len()
}

/// The neighbourhood of each point of a scaffold, given by the coordinates of its points and,
/// for each point, the sources of the edges into it.
pub fn neighbourhoods(keys: &Vec<Vec<Height>>, incoming: &Vec<Vec<usize>>) -> (r: Vec<Vec<Vec<usize>>>)
    requires
        scaffold_wf(keys@, incoming@),
    ensures
        r@.len() == keys@.len(),
        forall|n: int| 0 <= n < r@.len() ==> lists_view((#[trigger] r@[n])@) == neighbourhood_of(keys@, incoming@, n as nat),
{
    let mut result: Vec<Vec<Vec<usize>>> = Vec::new();
    let mut m: usize = 0;
    while m < keys.len()
        invariant
            m <= keys@.len(),
            result@.len() == m,
            forall|a: int| 0 <= a < m ==> (#[trigger] result@[a])@.len() == 0,
        decreases keys@.len() - m,
    {
        result.push(Vec::new());
        m = m + 1;
    }
    let order = points_by_stratum(keys);
    let mut i: usize = 0;
    while i < order.len()
        invariant
            i <= order@.len(),
            scaffold_wf(keys@, incoming@),
            order@.len() == keys@.len(),
            forall|a: int| 0 <= a < order@.len() ==> order@[a] < keys@.len(),
            forall|a: int, b: int|
                0 <= a < b < order@.len() ==> explored_before(keys@, #[trigger] order@[a] as int, #[trigger] order@[b] as int),
            result@.len() == keys@.len(),
            forall|a: int| 0 <= a < result@.len() ==> lists_view((#[trigger] result@[a])@) == if order@.subrange(0, i as int).contains(a as usize) {
                neighbourhood_of(keys@, incoming@, a as nat)
            } else {
                seq![]
            },
        decreases order@.len() - i,
    {
        let n = order[i];
        let ghost done = order@.subrange(0, i as int);
        proof {
            assert forall|s: int| 0 <= s < keys@.len() implies (done.contains(s as usize) <==> explored_before(keys@, s, n as int)) by {
                if done.contains(s as usize) {
                    let k = done.index_of(s as usize);
                    assert(order@[k] == s);
                } else if explored_before(keys@, s, n as int) {
                    lemma_order_covers(keys@, order@, s);
                    let k = choose|k: int| 0 <= k < order@.len() && order@[k] == s as usize;
                    if k > i {
                        assert(explored_before(keys@, n as int, s));
                    } else if k == i {
                    } else {
                        assert(done[k] == s as usize);
                    }
                }
            }
        }
        let mut neighbourhood: Vec<Vec<usize>> = Vec::new();
        let mut single: Vec<usize> = Vec::new();
        single.push(n);
        neighbourhood.push(single);
        let sources = &incoming[n];
        let mut j: usize = 0;
        proof {
            assert(lists_view(neighbourhood@) =~= seq![seq![n]] + extensions_into(keys@, incoming@, n as nat, 0));
        }
        while j < sources.len()
            invariant
                j <= sources@.len(),
                n < keys@.len(),
                sources == incoming@[n as int],
                scaffold_wf(keys@, incoming@),
                result@.len() == keys@.len(),
                forall|s: int| 0 <= s < keys@.len() ==> lists_view((#[trigger] result@[s])@) == if explored_before(keys@, s, n as int) {
                    neighbourhood_of(keys@, incoming@, s as nat)
                } else {
                    seq![]
                },
                lists_view(neighbourhood@) == seq![seq![n]] + extensions_into(keys@, incoming@, n as nat, j as nat),
            decreases sources@.len() - j,
        {
            let s = sources[j];
            let ghost before = lists_view(neighbourhood@);
            proof {
                assert(s < keys@.len());
            }
            let from = &result[s];
            let mut k: usize = 0;
            while k < from.len()
                invariant
                    k <= from@.len(),
                    lists_view(neighbourhood@) == before + lists_view(from@).subrange(0, k as int).map_values(|p: Seq<usize>| p.push(n)),
                decreases from@.len() - k,
            {
                let mut path = from[k].clone();
                path.push(n);
                proof {
                    assert(path@ == from@[k as int]@.push(n));
                }
                let ghost prev = neighbourhood@;
                neighbourhood.push(path);
                proof {
                    assert(lists_view(from@).subrange(0, k as int + 1) =~= lists_view(from@).subrange(0, k as int).push(from@[k as int]@));
                    assert(lists_view(neighbourhood@) =~= lists_view(prev).push(path@));
                    assert(lists_view(neighbourhood@) =~= before + lists_view(from@).subrange(0, k as int + 1).map_values(|p: Seq<usize>| p.push(n)));
                }
                k = k + 1;
            }
            proof {
                assert(lists_view(from@).subrange(0, from@.len() as int) =~= lists_view(from@));
                let ext = if explored_before(keys@, s as int, n as int) {
                    neighbourhood_of(keys@, incoming@, s as nat).map_values(|p: Seq<usize>| p.push(n))
                } else {
                    seq![]
                };
                assert(lists_view(from@).map_values(|p: Seq<usize>| p.push(n)) =~= ext);
                assert(extensions_into(keys@, incoming@, n as nat, (j + 1) as nat)
                    == extensions_into(keys@, incoming@, n as nat, j as nat) + ext);
                assert(lists_view(neighbourhood@) =~= seq![seq![n]] + extensions_into(keys@, incoming@, n as nat, (j + 1) as nat));
            }
            j = j + 1;
        }
        proof {
            assert(lists_view(neighbourhood@) == neighbourhood_of(keys@, incoming@, n as nat));
        }
        result.set(n, neighbourhood);
        proof {
            assert(order@.subrange(0, i as int + 1) =~= done.push(n));
            assert forall|a: int| 0 <= a < result@.len() implies lists_view((#[trigger] result@[a])@) == if order@.subrange(0, i as int + 1).contains(a as usize) {
                neighbourhood_of(keys@, incoming@, a as nat)
            } else {
                seq![]
            } by {
                if a != n as int {
                    if done.contains(a as usize) {
                        let k = done.index_of(a as usize);
                        assert(order@.subrange(0, i as int + 1)[k] == a as usize);
                    }
                    if order@.subrange(0, i as int + 1).contains(a as usize) {
                        let k = order@.subrange(0, i as int + 1).index_of(a as usize);
                        assert(k < i);
                        assert(done[k] == a as usize);
                    }
                } else {
                    assert(order@.subrange(0, i as int + 1)[i as int] == n);
                }
            }
        }
        i = i + 1;
    }
    proof {
        assert forall|a: usize| a < result@.len() implies #[trigger] order@.subrange(0, i as int).contains(a) by {
            lemma_order_covers(keys@, order@, a as int);
            let k = choose|k: int| 0 <= k < order@.len() && order@[k] == a;
            assert(order@.subrange(0, i as int)[k] == a);
        }
    }
    result
}

/// An order in which each point comes after the points explored before it lists every
/// point.
proof fn lemma_order_covers(keys: Seq<Vec<Height>>, order: Seq<usize>, s: int)
    requires
        order.len() == keys.len(),
        forall|a: int| 0 <= a < order.len() ==> order[a] < keys.len(),
        forall|a: int, b: int|
            0 <= a < b < order.len() ==> explored_before(keys, #[trigger] order[a] as int, #[trigger] order[b] as int),
        0 <= s < keys.len(),
        keys.len() <= usize::MAX,
    ensures
        exists|k: int| 0 <= k < order.len() && order[k] == s as usize,
{
    // `order` has no repeated point, so it takes every one of the `keys.len()` values.
    let vals = order.to_set();
    assert(order.no_duplicates()) by {
        assert forall|a: int, b: int| 0 <= a < order.len() && 0 <= b < order.len() && a != b implies order[a] != order[b] by {
            if a < b {
                assert(explored_before(keys, order[a] as int, order[b] as int));
            } else {
                assert(explored_before(keys, order[b] as int, order[a] as int));
            }
        }
    }
    order.unique_seq_to_set();
    let range = Set::new(|x: usize| x < keys.len());
    assert(vals.subset_of(range));
    assert(range =~= Set::new(|x: usize| 0 <= x < keys.len())) by {}
    lemma_range_len(keys.len());
    if !vals.contains(s as usize) {
        vstd::set_lib::lemma_len_subset(vals, range.remove(s as usize));
    }
}

/// The values below `n` are `n` in number.
proof fn lemma_range_len(n: nat)
    requires
        n <= usize::MAX,
    ensures
        Set::new(|x: usize| x < n).finite(),
        Set::new(|x: usize| x < n).len() == n,
    decreases n,
{
    if n == 0 {
        assert(Set::new(|x: usize| x < n) =~= Set::<usize>::empty());
    } else {
        lemma_range_len((n - 1) as nat);
        assert(Set::new(|x: usize| x < n) =~= Set::new(|x: usize| x < (n - 1) as nat).insert((n - 1) as usize));
    }
}


/// `im::HashSet::from` on a list of simplices: a set that holds the simplices of the list.
#[verifier::external_body]
fn simplex_set_from_vec(v: &Vec<BTreeSet<usize>>) -> (r: HashSet<BTreeSet<usize>>)
    ensures
        simplex_set_view(r) == simplex_views(v@).to_set(),
{
    HashSet::from(v)
}

/// The highest stratum among the first `k` points of a scaffold.
pub open spec fn max_stratum_upto(keys: Seq<Vec<Height>>, k: nat) -> nat
    decreases k,
{
    if k == 0 {
        0
    } else {
        let m = max_stratum_upto(keys, (k - 1) as nat);
        let s = stratum_of(keys, k - 1);
        if s > m {
            s
        } else {
            m
        }
    }
}

/// The points of a scaffold other than `n` whose last coordinate is singular.
pub open spec fn visible_points_besides(keys: Seq<Vec<Height>>, n: nat) -> Set<usize> {
    Set::new(|x: usize| x < keys.len() && x != n && keys[x as int]@.last() is Singular)
}

/// The faces of the link of the point `n`: the simplices of its neighbourhood restricted
/// to the visible points other than `n`.
pub open spec fn link_faces(keys: Seq<Vec<Height>>, incoming: Seq<Vec<usize>>, n: nat) -> Set<Set<usize>> {
    neighbourhood_of(keys, incoming, n).map_values(
        |p: Seq<usize>| p.to_set().filter(|v: usize| visible_points_besides(keys, n).contains(v)),
    ).to_set()
}

/// Around each point of the highest stratum, the visible part of the neighbourhood is
/// recognised as a sphere of dimension `dimension - 2`.
pub open spec fn manifold_scaffold(keys: Seq<Vec<Height>>, incoming: Seq<Vec<usize>>, dimension: int) -> bool {
    forall|n: nat|
        n < keys.len() && #[trigger] stratum_of(keys, n as int) == max_stratum_upto(keys, keys.len())
            ==> sphere(maximal_faces(link_faces(keys, incoming, n)), dimension - 2)
}

/// The set of the vertices of a list.
fn simplex_of(path: &Vec<usize>) -> (r: BTreeSet<usize>)
    ensures
        r@ == path@.to_set(),
{
    let mut r = BTreeSet::new();
    let mut i: usize = 0;
    while i < path.len()
        invariant
            i <= path@.len(),
            r@ == path@.subrange(0, i as int).to_set(),
        decreases path@.len() - i,
    {
        proof {
            assert(path@.subrange(0, i as int + 1) =~= path@.subrange(0, i as int).push(path@[i as int]));
            path@.subrange(0, i as int).lemma_push_to_set_commute(path@[i as int]);
        }
        r.insert(path[i]);
        i = i + 1;
    }
    proof {
        assert(path@.subrange(0, path@.len() as int) =~= path@);
    }
    r
}

/// Whether a diagram, given by the scaffold of its full explosion (the coordinates of its
/// points and, for each point, the sources of the edges into it), is a manifold: around each
/// point of the highest stratum, the visible part of the neighbourhood is a sphere of
/// dimension `dimension - 2`.
pub fn is_manifold(keys: &Vec<Vec<Height>>, incoming: &Vec<Vec<usize>>, dimension: usize) -> (r: bool)
    requires
        dimension >= 2,
        keys@.len() > 0,
        scaffold_wf(keys@, incoming@),
        forall|n: int| 0 <= n < keys@.len() ==> (#[trigger] keys@[n])@.len() > 0,
    ensures
        r == manifold_scaffold(keys@, incoming@, dimension as int),
{
    let mut max_stratum: usize = 0;
    let mut n: usize = 0;
    while n < keys.len()
        invariant
            n <= keys@.len(),
            max_stratum == max_stratum_upto(keys@, n as nat),
        decreases keys@.len() - n,
    {
        let s = stratum(&keys[n]);
        if s > max_stratum {
            max_stratum = s;
        }
        n = n + 1;
    }
    let mut visible_nodes: Vec<usize> = Vec::new();
    let mut n: usize = 0;
    while n < keys.len()
        invariant
            n <= keys@.len(),
            forall|a: int| 0 <= a < keys@.len() ==> (#[trigger] keys@[a])@.len() > 0,
            forall|x: usize| visible_nodes@.contains(x) <==> (x < n && (#[trigger] keys@[x as int])@.last() is Singular),
        decreases keys@.len() - n,
    {
        if is_visible(&keys[n]) {
            proof {
                assert forall|x: usize| visible_nodes@.push(n).contains(x) <==> (x < n + 1 && (#[trigger] keys@[x as int])@.last() is Singular) by {
                    if x == n {
                        assert(visible_nodes@.push(n)[visible_nodes@.len() as int] == n);
                    } else if visible_nodes@.push(n).contains(x) {
                        let k = visible_nodes@.push(n).index_of(x);
                        assert(visible_nodes@[k] == x);
                    } else if visible_nodes@.contains(x) {
                        let k = visible_nodes@.index_of(x);
                        assert(visible_nodes@.push(n)[k] == x);
                    }
                }
            }
            visible_nodes.push(n);
        }
        n = n + 1;
    }
    let neighbourhoods = neighbourhoods(keys, incoming);
    let mut n: usize = 0;
    while n < keys.len()
        invariant
            n <= keys@.len(),
            dimension >= 2,
            max_stratum == max_stratum_upto(keys@, keys@.len()),
            forall|x: usize| visible_nodes@.contains(x) <==> (x < keys@.len() && (#[trigger] keys@[x as int])@.last() is Singular),
            neighbourhoods@.len() == keys@.len(),
            forall|a: int| 0 <= a < neighbourhoods@.len() ==> lists_view((#[trigger] neighbourhoods@[a])@) == neighbourhood_of(keys@, incoming@, a as nat),
            forall|a: nat| a < n && #[trigger] stratum_of(keys@, a as int) == max_stratum_upto(keys@, keys@.len())
                ==> sphere(maximal_faces(link_faces(keys@, incoming@, a)), dimension - 2),
        decreases keys@.len() - n,
    {
        if stratum(&keys[n]) == max_stratum {
            let paths = &neighbourhoods[n];
            let mut neighbourhood: Vec<BTreeSet<usize>> = Vec::new();
            let mut k: usize = 0;
            while k < paths.len()
                invariant
                    k <= paths@.len(),
                    neighbourhood@.len() == k,
                    forall|a: int| 0 <= a < k ==> (#[trigger] neighbourhood@[a])@ == paths@[a]@.to_set(),
                decreases paths@.len() - k,
            {
                neighbourhood.push(simplex_of(&paths[k]));
                k = k + 1;
            }
            let mut visible: Vec<usize> = Vec::new();
            let mut k: usize = 0;
            while k < visible_nodes.len()
                invariant
                    k <= visible_nodes@.len(),
                    forall|x: usize| visible@.contains(x) <==> (visible_nodes@.subrange(0, k as int).contains(x) && x != n),
                decreases visible_nodes@.len() - k,
            {
                let x = visible_nodes[k];
                let ghost old_visible = visible@;
                proof {
                    let sub = visible_nodes@.subrange(0, k as int + 1);
                    assert(sub =~= visible_nodes@.subrange(0, k as int).push(x));
                    assert forall|y: usize| #[trigger] sub.contains(y) <==> (visible_nodes@.subrange(0, k as int).contains(y) || y == x) by {
                        if sub.contains(y) && y != x {
                            let j = sub.index_of(y);
                            assert(visible_nodes@.subrange(0, k as int)[j] == y);
                        }
                        if visible_nodes@.subrange(0, k as int).contains(y) {
                            let j = visible_nodes@.subrange(0, k as int).index_of(y);
                            assert(sub[j] == y);
                        }
                        if y == x {
                            assert(sub[k as int] == x);
                        }
                    }
                }
                if x != n {
                    proof {
                        assert forall|y: usize| visible@.push(x).contains(y) <==> (visible@.contains(y) || y == x) by {
                            if visible@.push(x).contains(y) && y != x {
                                let j = visible@.push(x).index_of(y);
                                assert(visible@[j] == y);
                            }
                            if visible@.contains(y) {
                                let j = visible@.index_of(y);
                                assert(visible@.push(x)[j] == y);
                            }
                            if y == x {
                                assert(visible@.push(x)[visible@.len() as int] == x);
                            }
                        }
                    }
                    visible.push(x);
                }
                proof {
                    let sub = visible_nodes@.subrange(0, k as int + 1);
                    assert forall|y: usize| visible@.contains(y) <==> (sub.contains(y) && y != n) by {
                        assert(sub.contains(y) <==> (visible_nodes@.subrange(0, k as int).contains(y) || y == x));
                        assert(old_visible.contains(y) <==> (visible_nodes@.subrange(0, k as int).contains(y) && y != n));
                        if x != n {
                            assert(visible@ == old_visible.push(x));
                            assert(visible@.contains(y) <==> (old_visible.contains(y) || y == x));
                        } else {
                            assert(visible@ == old_visible);
                        }
                    }
                }
                k = k + 1;
            }
            let filtered = filter_nodes(&neighbourhood, &visible);
            let boundary_complex = Complex::from_faces(simplex_set_from_vec(&filtered));
            proof {
                assert(visible_nodes@.subrange(0, visible_nodes@.len() as int) =~= visible_nodes@);
                let vis = visible_points_besides(keys@, n as nat);
                assert(simplex_views(filtered@) =~= neighbourhood_of(keys@, incoming@, n as nat).map_values(
                    |p: Seq<usize>| p.to_set().filter(|v: usize| vis.contains(v)),
                )) by {
                    assert forall|a: int| 0 <= a < filtered@.len() implies #[trigger] simplex_views(filtered@)[a]
                        == neighbourhood_of(keys@, incoming@, n as nat)[a].to_set().filter(|v: usize| vis.contains(v)) by {
                        assert(lists_view(paths@)[a] == paths@[a]@);
                        assert(filtered@[a]@ =~= paths@[a]@.to_set().filter(|v: usize| visible@.contains(v)));
                        assert(paths@[a]@.to_set().filter(|v: usize| visible@.contains(v))
                            =~= paths@[a]@.to_set().filter(|v: usize| vis.contains(v)));
                    }
                }
                assert(boundary_complex@ == maximal_faces(link_faces(keys@, incoming@, n as nat)));
            }
            if !is_sphere(&boundary_complex, dimension - 2) {
                return false;
            }
        }
        n = n + 1;
    }
    true
}


/// The simplex `p` is a chain of edges of the scaffold that ends at `n`.
pub open spec fn chain_into(incoming: Seq<Vec<usize>>, p: Seq<usize>, n: nat) -> bool {
    &&& p.len() > 0
    &&& p.last() == n
    &&& forall|i: int| 0 <= i < p.len() - 1 ==> #[trigger] incoming[p[i + 1] as int]@.contains(p[i])
}

/// Each simplex of the neighbourhood of a point is a chain of edges of the scaffold that
/// ends at that point.
pub proof fn lemma_neighbourhood_chains(keys: Seq<Vec<Height>>, incoming: Seq<Vec<usize>>, n: nat, k: int)
    requires
        scaffold_wf(keys, incoming),
        keys.len() <= usize::MAX,
        n < keys.len(),
        0 <= k < neighbourhood_of(keys, incoming, n).len(),
    ensures
        chain_into(incoming, neighbourhood_of(keys, incoming, n)[k], n),
    decreases stratum_of(keys, n as int), n, incoming[n as int]@.len() + 1,
{
    if k > 0 {
        lemma_extension_chains(keys, incoming, n, incoming[n as int]@.len(), k - 1);
    } else {
        assert(neighbourhood_of(keys, incoming, n)[0] == seq![n as usize]);
    }
}

/// Each simplex of the extensions into a point is a chain of edges that ends at the point.
proof fn lemma_extension_chains(keys: Seq<Vec<Height>>, incoming: Seq<Vec<usize>>, n: nat, j: nat, k: int)
    requires
        scaffold_wf(keys, incoming),
        keys.len() <= usize::MAX,
        n < keys.len(),
        j <= incoming[n as int]@.len(),
        0 <= k < extensions_into(keys, incoming, n, j).len(),
    ensures
        chain_into(incoming, extensions_into(keys, incoming, n, j)[k], n),
    decreases stratum_of(keys, n as int), n, j,
{
    let prev = extensions_into(keys, incoming, n, (j - 1) as nat);
    if k < prev.len() {
        lemma_extension_chains(keys, incoming, n, (j - 1) as nat, k);
    } else {
        let src = incoming[n as int]@[j - 1];
        assert(src < keys.len());
        assert(explored_before(keys, src as int, n as int));
        let nb = neighbourhood_of(keys, incoming, src as nat);
        let q = nb[k - prev.len()];
        lemma_neighbourhood_chains(keys, incoming, src as nat, k - prev.len());
        let p = q.push(n as usize);
        assert(extensions_into(keys, incoming, n, j)[k] == p);
        assert forall|i: int| 0 <= i < p.len() - 1 implies #[trigger] incoming[p[i + 1] as int]@.contains(p[i]) by {
            if i < q.len() - 1 {
                assert(p[i + 1] == q[i + 1] && p[i] == q[i]);
                assert(incoming[q[i + 1] as int]@.contains(q[i]));
            } else {
                assert(p[i] == src && p[i + 1] == n);
                assert(incoming[n as int]@[j - 1] == src);
            }
        }
    }
}

} // verus!
