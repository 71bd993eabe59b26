use vstd::prelude::*;
use crate::common::{Boundary, Direction};

verus! {

/// Where a rewrite in the output of an explosion comes from, inside a diagram.
#[derive(Copy, Clone, Debug, PartialEq, Eq, Structural)]
pub enum InternalRewrite {
    /// Padded identity along a boundary.
    Boundary(Boundary),
    /// One of the two legs of the cospan at a singular height.
    Interior(usize, Direction),
}

impl InternalRewrite {
    /// The direction of the rewrite: forward off the source, backward off the target.
    pub fn direction(self) -> (r: Direction)
        ensures
            r == match self {
                InternalRewrite::Boundary(Boundary::Source) => Direction::Forward,
                InternalRewrite::Boundary(Boundary::Target) => Direction::Backward,
                InternalRewrite::Interior(_, d) => d,
            },
    {
        match self {
            InternalRewrite::Boundary(Boundary::Source) => Direction::Forward,
            InternalRewrite::Boundary(Boundary::Target) => Direction::Backward,
            InternalRewrite::Interior(_, direction) => direction,
        }
    }
}

/// Where a rewrite in the output of an explosion comes from, between diagrams.
#[derive(Copy, Clone, Debug, PartialEq, Eq, Structural)]
pub enum ExternalRewrite {
    /// Padded identity along a boundary.
    Boundary(Boundary),
    /// Sparse identity between regular heights.
    Sparse(usize),
    /// Regular slice going from a regular height to a singular height.
    RegularSlice { source_height: usize, target_height: usize, flange: bool },
    /// Singular slice going from a singular height to a singular height.
    SingularSlice { source_height: usize, target_height: usize },
}

impl ExternalRewrite {
    /// Every rewrite but a regular slice is atomic.
    pub fn is_atomic(self) -> (r: bool)
        ensures
            r == !(self is RegularSlice),
    {
        match self {
            ExternalRewrite::RegularSlice { .. } => false,
            _ => true,
        }
    }

    /// Only a regular slice marked as a flange is a flange.
    pub fn is_flange(self) -> (r: bool)
        ensures
            r == (self matches ExternalRewrite::RegularSlice { flange, .. } && flange),
    {
        match self {
            ExternalRewrite::RegularSlice { flange, .. } => flange,
            _ => false,
        }
    }
}

/// A flange is never atomic.
pub proof fn lemma_flange_not_atomic(e: ExternalRewrite)
    ensures
        (e matches ExternalRewrite::RegularSlice { flange, .. } && flange) ==> e is RegularSlice,
{
}

} // verus!
