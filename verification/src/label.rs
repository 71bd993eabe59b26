use vstd::prelude::*;
use std::collections::BTreeSet;
use crate::common::{BoundaryPath, Generator, Height};

verus! {

/// What marks a rewrite as one that moves a labelled point: the generator, the boundary
/// it sits in, and the coordinates of the points it identifies.
pub type Label = Option<(Generator, BoundaryPath, BTreeSet<Vec<Height>>)>;

/// A label as plain values.
pub open spec fn label_view(l: Label) -> Option<(Generator, BoundaryPath, Set<Vec<Height>>)> {
    match l {
        None => None,
        Some((g, p, coords)) => Some((g, p, coords@)),
    }
}

/// A copy of a label.
pub fn clone_label(l: &Label) -> (r: Label)
    ensures
        label_view(r) == label_view(*l),
{
    match l {
        None => None,
        Some((g, p, coords)) => Some((*g, *p, coords.clone())),
    }
}

} // verus!
