# homotopy

Verified building blocks of a proof assistant for finitely presented globular
n-categories, written in Verus.

- `src/` is the library. Its functions carry contracts that Verus proves, except for a
  few small trusted wrappers (`#[verifier::external_body]`) around calls into `im`,
  `itertools` and `rustc-hash`, whose contracts are stated from those crates' sources
  and believed rather than proved.
  - `graph`, `idx`, `tree`, `union_find`, `parity`, `iter`, `timeout`: general data
    structures (index-keyed vectors and graphs, an arena tree, union–find, sorting
    networks that report their parity).
  - `common`, `monotone`, `rewrite`, `label`, `diagram`: heights, slice indices,
    boundaries, monotone maps, and rewrites recorded by the positions of their cones,
    with 0-rewrites and their composition; diagrams as a source and a list of cospans.
  - `antipushout`: antipushouts of monotone maps (lattice paths glued over fibres) and
    of points.
  - `cubicalisation`, `projection`, `graphic2d`, `labelled`, `scaffold`, `util`: smaller
    pieces of combinatorics on heights, slice indices and orientations.
  - `contraction`, `normalization`, `typecheck`: only the small types of those parts
    (the contraction bias, degeneracy maps, embeddings). Contraction, colimits,
    normalization and type checking themselves are not in this crate: they need rewrites
    whose cones carry their cospans and slices, which the rewrites here do not record.
  - `explosion`: the explosion of a graph of diagrams and rewrites into the graph of
    their slices, with the maps that record where each
    slice and rewrite came from.
  - `expansion`: expanding a cospan at a singular height, on the positions of its cones.
  - `manifold`: simplicial complexes held in `im` hash sets, sphere recognition by edge
    collapses, and the manifold check on the scaffold of an exploded diagram.
- `tests/` exercises the library on concrete values.
- `app/` holds what Verus does not see: the global timeout flag, serde and `thiserror`
  copies of library types.
