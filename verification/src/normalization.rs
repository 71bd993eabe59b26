use vstd::prelude::*;
use std::rc::Rc;
use crate::common::Height;

verus! {

/// A degeneracy map, recorded by its singular slices only: the identity, or the sorted
/// singular heights of the target that it skips together with the maps into each
/// singular slice.
#[derive(Debug)]
pub enum Degeneracy {
    Identity,
    Degeneracy(Vec<usize>, Vec<Rc<Degeneracy>>),
}

/// The position of the first entry that is at least `i`, or the length when there is none.
pub open spec fn first_at_least(trivial: Seq<usize>, i: int) -> int
    decreases trivial.len(),
{
    if trivial.len() == 0 {
        0
    } else if trivial[0] >= i {
        0
    } else {
        1 + first_at_least(trivial.drop_first(), i)
    }
}

proof fn lemma_first_at_least(trivial: Seq<usize>, i: int)
    ensures
        0 <= first_at_least(trivial, i) <= trivial.len(),
        forall|k: int| 0 <= k < first_at_least(trivial, i) ==> trivial[k] < i,
        first_at_least(trivial, i) < trivial.len() ==> trivial[first_at_least(trivial, i)] >= i,
    decreases trivial.len(),
{
    if trivial.len() > 0 && trivial[0] < i {
        lemma_first_at_least(trivial.drop_first(), i);
        let r = first_at_least(trivial, i);
        assert forall|k: int| 0 <= k < r implies trivial[k] < i by {
            if k > 0 {
                assert(trivial[k] == trivial.drop_first()[k - 1]);
            }
        }
    }
}

impl Degeneracy {
    /// The identity when nothing is skipped and every slice is an identity.
    pub open spec fn is_trivial(trivial: Seq<usize>, slices: Seq<Rc<Degeneracy>>) -> bool {
        trivial.len() == 0 && forall|k: int| 0 <= k < slices.len() ==> (*#[trigger] slices[k]) is Identity
    }

    /// A degeneracy map, the identity whenever it skips nothing and its slices are identities.
    pub fn new(trivial: Vec<usize>, slices: Vec<Rc<Degeneracy>>) -> (r: Self)
        ensures
            Self::is_trivial(trivial@, slices@) ==> r is Identity,
            !Self::is_trivial(trivial@, slices@) ==> r == Degeneracy::Degeneracy(trivial, slices),
    {
        if trivial.len() == 0 && all_identities(&slices) {
            Degeneracy::Identity
        } else {
            Degeneracy::Degeneracy(trivial, slices)
        }
    }

    /// The height of the source that the singular height `i` of the target comes from.
    pub open spec fn spec_singular_preimage(&self, i: int) -> Height {
        match self {
            Degeneracy::Identity => Height::Singular(i as usize),
            Degeneracy::Degeneracy(trivial, _) => {
                let k = first_at_least(trivial@, i);
                if k < trivial@.len() && trivial@[k] == i {
                    Height::Regular((i - k) as usize)
                } else {
                    Height::Singular((i - k) as usize)
                }
            },
        }
    }

    /// The source height that the target's singular height `i` comes from: a skipped
    /// height comes from a regular height, any other from a singular one, shifted down by
    /// the skipped heights below it.
    #[verifier::loop_isolation(false)]
    pub fn singular_preimage(&self, i: usize) -> (r: Height)
        requires
            self matches Degeneracy::Degeneracy(trivial, _) ==> first_at_least(trivial@, i as int) <= i,
        ensures
            r == self.spec_singular_preimage(i as int),
    {
        match self {
            Degeneracy::Identity => Height::Singular(i),
            Degeneracy::Degeneracy(trivial, _) => {
                proof {
                    lemma_first_at_least(trivial@, i as int);
                }
                let mut count: usize = 0;
                while count < trivial.len()
                    invariant
                        count <= trivial@.len(),
                        count <= first_at_least(trivial@, i as int),
                        first_at_least(trivial@, i as int) <= i,
                        0 <= first_at_least(trivial@, i as int) <= trivial@.len(),
                        forall|k: int| 0 <= k < first_at_least(trivial@, i as int) ==> trivial@[k] < i,
                        first_at_least(trivial@, i as int) < trivial@.len() ==> trivial@[first_at_least(trivial@, i as int)] >= i,
                    decreases trivial@.len() - count,
                {
                    let t = trivial[count];
                    if t == i {
                        return Height::Regular(i - count);
                    } else if t > i {
                        return Height::Singular(i - count);
                    }
                    count = count + 1;
                }
                Height::Singular(i - trivial.len())
            },
        }
    }

    pub fn is_identity(&self) -> (r: bool)
        ensures
            r == self is Identity,
    {
        match self {
            Degeneracy::Identity => true,
            Degeneracy::Degeneracy(_, _) => false,
        }
    }

    /// The map into the singular slice at `target_height`; the identity restricts to
    /// the identity.
    pub fn slice_into(&self, target_height: usize) -> (r: &Self)
        requires
            self matches Degeneracy::Degeneracy(_, slices) ==> target_height < slices@.len(),
        ensures
            self is Identity ==> r is Identity,
            self matches Degeneracy::Degeneracy(_, slices) ==> *r == *slices@[target_height as int],
    {
        match self {
            Degeneracy::Identity => self,
            Degeneracy::Degeneracy(_, slices) => &slices[target_height],
        }
    }
}

/// Every slice is the identity.
fn all_identities(slices: &Vec<Rc<Degeneracy>>) -> (r: bool)
    ensures
        r == forall|k: int| 0 <= k < slices@.len() ==> (*#[trigger] slices@[k]) is Identity,
{
    let mut k: usize = 0;
    while k < slices.len()
        invariant
            k <= slices@.len(),
            forall|j: int| 0 <= j < k ==> (*#[trigger] slices@[j]) is Identity,
        decreases slices@.len() - k,
    {
        if !slices[k].is_identity() {
            return false;
        }
        k = k + 1;
    }
    true
}

} // verus!
