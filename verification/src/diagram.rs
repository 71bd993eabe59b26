use vstd::prelude::*;
use crate::common::{DimensionError, Generator, Orientation};
use crate::rewrite::{Rewrite, Rewrite0, Rewrite0View, rewrite_dimension};

verus! {

/// A zero-dimensional diagram: a generator with an orientation.
#[derive(Copy, Clone, Debug, PartialEq, Eq, Structural, Hash)]
pub struct Diagram0 {
    pub generator: Generator,
    pub orientation: Orientation,
}

/// Why a diagram could not be made from a source and cospans.
#[derive(Copy, Clone, Debug, PartialEq, Eq, Structural)]
pub enum NewDiagramError {
    Dimension,
    NonGlobular,
}

/// Why a diagram could not be attached to another.
#[derive(Copy, Clone, Debug, PartialEq, Eq, Structural)]
pub enum AttachmentError {
    Dimension(DimensionError),
    IncompatibleAttachment,
}

/// Why a diagram could not be rewritten.
#[derive(Copy, Clone, Debug, PartialEq, Eq, Structural)]
pub enum RewritingError {
    Dimension(usize, usize),
    Incompatible,
}

/// Rewriting the point `p` forward along the 0-rewrite `r`: an identity keeps it, any other
/// rewrite must start at `p` and gives its target.
pub open spec fn forward0_spec(p: Diagram0, r: Rewrite0View) -> Option<Diagram0> {
    match r {
        None => Some(p),
        Some((s, t, _)) => if s == p {
            Some(t)
        } else {
            None
        },
    }
}

/// Rewriting the point `p` backward along the 0-rewrite `r`: an identity keeps it, any other
/// rewrite must end at `p` and gives its source.
pub open spec fn backward0_spec(p: Diagram0, r: Rewrite0View) -> Option<Diagram0> {
    match r {
        None => Some(p),
        Some((s, t, _)) => if t == p {
            Some(s)
        } else {
            None
        },
    }
}

/// Rewriting a point forward and then backward along the same 0-rewrite gives the point
/// back, and so does backward then forward.
pub proof fn lemma_rewrite0_roundtrip(p: Diagram0, r: Rewrite0View)
    ensures
        forward0_spec(p, r) matches Some(q) ==> backward0_spec(q, r) == Some(p),
        backward0_spec(p, r) matches Some(q) ==> forward0_spec(q, r) == Some(p),
{
}

impl Diagram0 {
    /// This point rewritten forward along `r`.
    pub fn rewrite_forward(self, r: &Rewrite0) -> (res: Result<Self, RewritingError>)
        ensures
            forward0_spec(self, r@) matches Some(q) ==> res == Ok::<Self, RewritingError>(q),
            forward0_spec(self, r@) is None ==> res == Err::<Self, RewritingError>(RewritingError::Incompatible),
    {
        match (r.source(), r.target()) {
            (Some(s), Some(t)) => if s == self {
                Ok(t)
            } else {
                Err(RewritingError::Incompatible)
            },
            _ => Ok(self),
        }
    }

    /// This point rewritten backward along `r`.
    pub fn rewrite_backward(self, r: &Rewrite0) -> (res: Result<Self, RewritingError>)
        ensures
            backward0_spec(self, r@) matches Some(q) ==> res == Ok::<Self, RewritingError>(q),
            backward0_spec(self, r@) is None ==> res == Err::<Self, RewritingError>(RewritingError::Incompatible),
    {
        match (r.source(), r.target()) {
            (Some(s), Some(t)) => if t == self {
                Ok(s)
            } else {
                Err(RewritingError::Incompatible)
            },
            _ => Ok(self),
        }
    }

    pub fn new(generator: Generator, orientation: Orientation) -> (r: Self)
        ensures
            r.generator == generator,
            r.orientation == orientation,
    {
        Diagram0 { generator, orientation }
    }

    /// The same generator with its orientation multiplied by `k`.
    pub fn orientation_transform(self, k: Orientation) -> (r: Self)
        ensures
            r.generator == self.generator,
            r.orientation == self.orientation.spec_mul(k),
    {
        Self::new(self.generator, self.orientation.mul(k))
    }
}

impl From<Generator> for Diagram0 {
    /// The generator, positively oriented.
    fn from(generator: Generator) -> (r: Self) {
        Self::new(generator, Orientation::Positive)
    }
}

impl vstd::std_specs::convert::FromSpecImpl<Generator> for Diagram0 {
    open spec fn obeys_from_spec() -> bool {
        true
    }

    open spec fn from_spec(generator: Generator) -> Diagram0 {
        Diagram0 { generator, orientation: Orientation::Positive }
    }
}

/// Transforming by `k1` and then by `k2` is transforming by their product, and the
/// positive orientation transforms nothing.
pub proof fn lemma_orientation_transform_compose(d: Diagram0, k1: Orientation, k2: Orientation)
    ensures
        d.orientation.spec_mul(k1).spec_mul(k2) == d.orientation.spec_mul(k1.spec_mul(k2)),
        d.orientation.spec_mul(Orientation::Positive) == d.orientation,
{
}

/// A cospan of rewrites into a singular height: `forward` from the regular height below,
/// `backward` from the regular height above.
#[derive(Clone, Debug)]
pub struct Cospan {
    pub forward: Rewrite,
    pub backward: Rewrite,
}

/// A diagram: a point, or a diagram of positive dimension.
#[derive(Debug)]
pub enum Diagram {
    Diagram0(Diagram0),
    DiagramN(DiagramN),
}

/// A diagram of positive dimension: its source boundary and the cospans that lead, one
/// singular height each, from it to its target.
#[derive(Debug)]
pub struct DiagramN {
    source: Box<Diagram>,
    cospans: Vec<Cospan>,
}

/// The dimension of a diagram: one more than that of its source, starting from points.
pub open spec fn diagram_dimension(d: Diagram) -> nat
    decreases d,
{
    match d {
        Diagram::Diagram0(_) => 0,
        Diagram::DiagramN(n) => diagram_dimension(*n.source_spec()) + 1,
    }
}

/// The number of singular heights of a diagram of positive dimension; none for a point.
pub open spec fn diagram_size(d: Diagram) -> Option<nat> {
    match d {
        Diagram::Diagram0(_) => None,
        Diagram::DiagramN(n) => Some(n.cospan_seq().len()),
    }
}

impl DiagramN {
    pub closed spec fn source_spec(&self) -> Box<Diagram> {
        self.source
    }

    pub closed spec fn cospan_seq(&self) -> Seq<Cospan> {
        self.cospans@
    }

    /// The diagram with the given source and cospans.
    pub fn new(source: Diagram, cospans: Vec<Cospan>) -> (r: Self)
        ensures
            *r.source_spec() == source,
            r.cospan_seq() == cospans@,
    {
        DiagramN { source: Box::new(source), cospans }
    }

    /// The source boundary.
    pub fn source(&self) -> (r: &Diagram)
        ensures
            *r == *self.source_spec(),
    {
        &self.source
    }

    /// The cospans, from the source upwards.
    pub fn cospans(&self) -> (r: &Vec<Cospan>)
        ensures
            r@ == self.cospan_seq(),
    {
        &self.cospans
    }

    /// The number of singular heights.
    pub fn size(&self) -> (r: usize)
        ensures
            r == self.cospan_seq().len(),
    {
        self.cospans.len()
    }

    /// The dimension: one more than that of the source.
    pub fn dimension(&self) -> (r: usize)
        requires
            diagram_dimension(*self.source_spec()) < usize::MAX,
        ensures
            r == diagram_dimension(*self.source_spec()) + 1,
    {
        self.source.dimension() + 1
    }
}

impl Diagram {
    /// The number of singular heights, for a diagram of positive dimension.
    pub fn size(&self) -> (r: Option<usize>)
        ensures
            r matches Some(k) ==> diagram_size(*self) == Some(k as nat),
            r is None <==> diagram_size(*self) is None,
    {
        match self {
            Diagram::Diagram0(_) => None,
            Diagram::DiagramN(d) => Some(d.size()),
        }
    }

    /// The identity on this diagram: a diagram one dimension up with no singular heights.
    pub fn identity(self) -> (r: DiagramN)
        ensures
            *r.source_spec() == self,
            r.cospan_seq().len() == 0,
    {
        DiagramN::new(self, Vec::new())
    }

    /// The weak identity on this diagram: a diagram one dimension up with one singular
    /// height, reached by identity rewrites from both sides.
    pub fn weak_identity(self) -> (r: DiagramN)
        requires
            diagram_dimension(self) <= usize::MAX,
        ensures
            *r.source_spec() == self,
            r.cospan_seq().len() == 1,
            rewrite_dimension(r.cospan_seq()[0].forward) == diagram_dimension(self),
            rewrite_dimension(r.cospan_seq()[0].backward) == diagram_dimension(self),
            r.cospan_seq()[0].forward matches Rewrite::Rewrite0(z) ==> z@ is None,
            r.cospan_seq()[0].forward matches Rewrite::RewriteN(n) ==> n.cone_seq().len() == 0,
            r.cospan_seq()[0].backward matches Rewrite::Rewrite0(z) ==> z@ is None,
            r.cospan_seq()[0].backward matches Rewrite::RewriteN(n) ==> n.cone_seq().len() == 0,
    {
        let dimension = self.dimension();
        let cospan = Cospan { forward: Rewrite::identity(dimension), backward: Rewrite::identity(dimension) };
        let mut cospans: Vec<Cospan> = Vec::new();
        cospans.push(cospan);
        DiagramN::new(self, cospans)
    }

    /// The dimension.
    pub fn dimension(&self) -> (r: usize)
        requires
            diagram_dimension(*self) <= usize::MAX,
        ensures
            r == diagram_dimension(*self),
        decreases *self,
    {
        match self {
            Diagram::Diagram0(_) => 0,
            Diagram::DiagramN(d) => {
                let k = d.source.dimension();
                k + 1
            },
        }
    }
}

/// The slices of a one-dimensional diagram with source `p` and cospans `cs`, from `p`
/// upwards, each singular slice followed by the regular slice above it; none when some leg
/// is not a 0-rewrite or does not fit the slice it starts from.
pub open spec fn point_slices_from(p: Diagram0, cs: Seq<Cospan>) -> Option<Seq<Diagram0>>
    decreases cs.len(),
{
    if cs.len() == 0 {
        Some(seq![p])
    } else {
        match (cs[0].forward, cs[0].backward) {
            (Rewrite::Rewrite0(f), Rewrite::Rewrite0(b)) => match forward0_spec(p, f@) {
                Some(s) => match backward0_spec(s, b@) {
                    Some(q) => match point_slices_from(q, cs.drop_first()) {
                        Some(rest) => Some(seq![p, s] + rest),
                        None => None,
                    },
                    None => None,
                },
                None => None,
            },
            _ => None,
        }
    }
}

proof fn lemma_point_slices_len(p: Diagram0, cs: Seq<Cospan>)
    ensures
        point_slices_from(p, cs) matches Some(v) ==> v.len() == 2 * cs.len() + 1 && v[0] == p,
    decreases cs.len(),
{
    if cs.len() > 0 {
        match (cs[0].forward, cs[0].backward) {
            (Rewrite::Rewrite0(f), Rewrite::Rewrite0(b)) => {
                if let Some(s) = forward0_spec(p, f@) {
                    if let Some(q) = backward0_spec(s, b@) {
                        lemma_point_slices_len(q, cs.drop_first());
                    }
                }
            },
            _ => {},
        }
    }
}

impl DiagramN {
    /// The slices of a one-dimensional diagram: its source point rewritten up through its
    /// cospans, regular and singular slices in turn, `2 * size + 1` of them; the last is the
    /// target. Fails with `Dimension` when the source is not a point or a leg is not a
    /// 0-rewrite, and with `Incompatible` when a leg does not fit the slice it starts from.
    pub fn point_slices(&self) -> (r: Result<Vec<Diagram0>, RewritingError>)
        ensures
            match *self.source_spec() {
                Diagram::Diagram0(p) => match point_slices_from(p, self.cospan_seq()) {
                    Some(v) => r matches Ok(w) && w@ == v,
                    None => r is Err,
                },
                Diagram::DiagramN(_) => r is Err,
            },
    {
        let p = match &*self.source {
            Diagram::Diagram0(p) => *p,
            Diagram::DiagramN(_) => {
                return Err(RewritingError::Dimension(0, 1));
            },
        };
        let mut out: Vec<Diagram0> = Vec::new();
        out.push(p);
        let mut cur = p;
        let mut i: usize = 0;
        let ghost cs = self.cospans@;
        proof {
            assert(cs.subrange(0, cs.len() as int) =~= cs);
        }
        while i < self.cospans.len()
            invariant
                cs == self.cospans@,
                i <= cs.len(),
                *self.source_spec() == Diagram::Diagram0(p),
                out@.len() == 2 * i + 1,
                out@.last() == cur,
                point_slices_from(p, cs) == match point_slices_from(cur, cs.subrange(i as int, cs.len() as int)) {
                    Some(rest) => Some(out@.drop_last() + rest),
                    None => None::<Seq<Diagram0>>,
                },
            decreases cs.len() - i,
        {
            let ghost tail = cs.subrange(i as int, cs.len() as int);
            assert(tail[0] == cs[i as int]);
            assert(tail.drop_first() =~= cs.subrange(i + 1, cs.len() as int));
            let cospan = &self.cospans[i];
            let (f, b) = match (&cospan.forward, &cospan.backward) {
                (Rewrite::Rewrite0(f), Rewrite::Rewrite0(b)) => (f, b),
                (Rewrite::RewriteN(r), _) => {
                    return Err(RewritingError::Dimension(0, r.dimension()));
                },
                (_, Rewrite::RewriteN(r)) => {
                    return Err(RewritingError::Dimension(0, r.dimension()));
                },
            };
            let s = match cur.rewrite_forward(f) {
                Ok(s) => s,
                Err(e) => {
                    return Err(e);
                },
            };
            let q = match s.rewrite_backward(b) {
                Ok(q) => q,
                Err(e) => {
                    return Err(e);
                },
            };
            let ghost before = out@;
            out.push(s);
            out.push(q);
            proof {
                let rest = point_slices_from(q, cs.subrange(i + 1, cs.len() as int));
                if let Some(rv) = rest {
                    lemma_point_slices_len(q, cs.subrange(i + 1, cs.len() as int));
                    assert(before.drop_last() + (seq![cur, s] + rv) =~= out@.drop_last() + rv);
                }
            }
            cur = q;
            i = i + 1;
        }
        proof {
            assert(cs.subrange(i as int, cs.len() as int) =~= Seq::<Cospan>::empty());
            assert(out@.drop_last() + seq![cur] =~= out@);
        }
        Ok(out)
    }
}

} // verus!
