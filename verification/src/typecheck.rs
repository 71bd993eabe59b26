use vstd::prelude::*;
use crate::common::Generator;
use std::rc::Rc;

verus! {

/// Why a diagram fails to type check.
#[derive(Copy, Clone, Debug, PartialEq, Eq, Structural)]
pub enum TypeError {
    UnknownGenerator(Generator),
    IllTyped,
}

/// How a cell of a diagram sits inside it, slice by slice: in a regular or a singular
/// slice (with the embeddings into the slices below), down to a point.
#[derive(Debug)]
pub enum Embedding {
    Regular(usize, Rc<Embedding>),
    Singular(usize, Vec<Rc<Embedding>>),
    Zero,
}

impl Embedding {
    /// The embedding consists of exactly the singular point `point`.
    pub open spec fn is_point(&self, point: Seq<usize>) -> bool
        decreases point.len(),
    {
        if point.len() == 0 {
            *self is Zero
        } else {
            match *self {
                Embedding::Singular(h, v) => h == point[0] && v@.len() == 1 && (*v@[0]).is_point(
                    point.drop_first(),
                ),
                _ => false,
            }
        }
    }

    /// The embedding which contains precisely the singular point `point`.
    pub fn from_point(point: &[usize]) -> (r: Self)
        ensures
            r.is_point(point@),
    {
        let mut embedding = Embedding::Zero;
        let mut i: usize = point.len();
        proof {
            assert(point@.subrange(i as int, point@.len() as int).len() == 0);
        }
        while i > 0
            invariant
                i <= point@.len(),
                embedding.is_point(point@.subrange(i as int, point@.len() as int)),
            decreases i,
        {
            i = i - 1;
            let height = point[i];
            let ghost tail = point@.subrange(i as int + 1, point@.len() as int);
            let ghost whole = point@.subrange(i as int, point@.len() as int);
            assert(whole.drop_first() =~= tail);
            embedding = Embedding::Singular(height, vec![Rc::new(embedding)]);
        }
        assert(point@.subrange(0, point@.len() as int) =~= point@);
        embedding
    }
}

} // verus!
