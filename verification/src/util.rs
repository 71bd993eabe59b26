use vstd::prelude::*;
use crate::common::Generator;

verus! {

/// The first generator of greatest dimension; `None` when there is none.
pub fn first_max_generator(generators: &[Generator]) -> (r: Option<Generator>)
    ensures
        generators@.len() == 0 <==> r is None,
        r matches Some(g) ==> exists|k: int|
            0 <= k < generators@.len() && generators@[k] == g
                && (forall|j: int| 0 <= j < generators@.len() ==> (#[trigger] generators@[j]).dimension <= g.dimension)
                && (forall|j: int| 0 <= j < k ==> (#[trigger] generators@[j]).dimension < g.dimension),
{
    let mut max: Option<Generator> = None;
    let ghost mut at: int = 0;
    let mut i: usize = 0;
    while i < generators.len()
        invariant
            i <= generators@.len(),
            i == 0 <==> max is None,
            max matches Some(g) ==> 0 <= at < i && generators@[at] == g
                && (forall|j: int| 0 <= j < i ==> (#[trigger] generators@[j]).dimension <= g.dimension)
                && (forall|j: int| 0 <= j < at ==> (#[trigger] generators@[j]).dimension < g.dimension),
        decreases generators@.len() - i,
    {
        let generator = generators[i];
        max = match max {
            Some(prev) if prev.dimension >= generator.dimension => Some(prev),
            _ => {
                proof {
                    at = i as int;
                }
                Some(generator)
            },
        };
        i = i + 1;
    }
    max
}

/// Runs two computations, one after the other, and returns both results.
pub fn join<A, B, RA, RB>(f: A, g: B) -> (r: (RA, RB)) where A: FnOnce() -> RA, B: FnOnce() -> RB
    requires
        call_requires(f, ()),
        call_requires(g, ()),
    ensures
        call_ensures(f, (), r.0),
        call_ensures(g, (), r.1),
{
    let a = f();
    let b = g();
    (a, b)
}

} // verus!
