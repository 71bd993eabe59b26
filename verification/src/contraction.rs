use vstd::prelude::*;
use crate::common::DimensionError;
use crate::typecheck::TypeError;

verus! {

/// Why a contraction failed.
#[derive(Copy, Clone, Debug, PartialEq, Eq, Structural)]
pub enum ContractionError {
    LabelInconsistency,
    NonConnectedMaxDimensionGenerator,
    NonUniqueMaxDimensionGenerator,
    Orientation,
    Invalid,
    Ambiguous,
    IllTyped(TypeError),
    Dimension(DimensionError),
}

/// Which way a contraction leans when two cells could be merged in either order.
#[derive(Debug, Clone, Copy, PartialEq, Eq, Structural, PartialOrd, Ord, Hash)]
pub enum Bias {
    Higher,
    Same,
    Lower,
}

impl Bias {
    pub open spec fn spec_flip(self) -> Bias {
        match self {
            Bias::Higher => Bias::Lower,
            Bias::Same => Bias::Same,
            Bias::Lower => Bias::Higher,
        }
    }

    /// The opposite bias; `Same` stays.
    pub fn flip(self) -> (r: Self)
        ensures
            r == self.spec_flip(),
    {
        match self {
            Bias::Higher => Bias::Lower,
            Bias::Same => Bias::Same,
            Bias::Lower => Bias::Higher,
        }
    }
}

/// Flipping a bias twice gives it back; only `Same` is its own flip.
pub proof fn lemma_bias_flip_involutive(b: Bias)
    ensures
        b.spec_flip().spec_flip() == b,
        b.spec_flip() == b <==> b == Bias::Same,
{
}

} // verus!
