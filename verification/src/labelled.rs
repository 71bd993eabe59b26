use vstd::prelude::*;
use crate::common::{Height, SliceIndex};

verus! {

/// Why labelling failed.
#[derive(Copy, Clone, Debug, PartialEq, Eq, Structural)]
pub enum LabelError {
    Inconsistent,
    Incomplete,
}

/// The heights of a coordinate that avoids every boundary; `None` when some entry is a
/// boundary.
pub fn strip_boundaries(coord: &[SliceIndex]) -> (r: Option<Vec<Height>>)
    ensures
        r is Some <==> forall|i: int| 0 <= i < coord@.len() ==> (#[trigger] coord@[i]) is Interior,
        r matches Some(v) ==> v@.len() == coord@.len() && forall|i: int|
            0 <= i < coord@.len() ==> coord@[i] == SliceIndex::Interior(#[trigger] v@[i]),
{
    let mut heights: Vec<Height> = Vec::new();
    let mut i: usize = 0;
    while i < coord.len()
        invariant
            i <= coord@.len(),
            heights@.len() == i,
            forall|j: int| 0 <= j < i ==> coord@[j] == SliceIndex::Interior(#[trigger] heights@[j]),
        decreases coord@.len() - i,
    {
        match coord[i] {
            SliceIndex::Interior(h) => {
                heights.push(h);
            },
            SliceIndex::Boundary(_) => {
                assert(!(coord@[i as int] is Interior));
                return None;
            },
        }
        i = i + 1;
    }
    proof {
        assert forall|j: int| 0 <= j < coord@.len() implies (#[trigger] coord@[j]) is Interior by {
            assert(coord@[j] == SliceIndex::Interior(heights@[j]));
        }
    }
    Some(heights)
}

} // verus!
