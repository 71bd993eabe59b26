use vstd::prelude::*;

verus! {

/// A generator of a signature: an identifier together with the dimension of the
/// cell it stands for.
#[derive(Copy, Clone, Debug, PartialEq, Eq, Structural, Hash)]
pub struct Generator {
    pub id: usize,
    pub dimension: usize,
}

impl Generator {
    /// Creates a new generator with the given id and dimension.
    pub fn new(id: usize, dimension: usize) -> (r: Self)
        ensures
            r.id == id,
            r.dimension == dimension,
    {
        Generator { id, dimension }
    }

    /// Increments the dimension by one.
    pub fn suspended(self) -> (r: Self)
        requires
            self.dimension < usize::MAX,
        ensures
            r.id == self.id,
            r.dimension == self.dimension + 1,
    {
        Generator { id: self.id, dimension: self.dimension + 1 }
    }
}

/// The two boundaries of a diagram.
#[derive(Copy, Clone, Debug, PartialEq, Eq, Structural, Hash)]
pub enum Boundary {
    Source,
    Target,
}

impl Boundary {
    pub open spec fn spec_flip(self) -> Boundary {
        match self {
            Boundary::Source => Boundary::Target,
            Boundary::Target => Boundary::Source,
        }
    }

    /// The opposite boundary.
    pub fn flip(self) -> (r: Self)
        ensures
            r == self.spec_flip(),
    {
        match self {
            Boundary::Source => Boundary::Target,
            Boundary::Target => Boundary::Source,
        }
    }
}

/// Flipping a boundary twice gives it back, and flipping never fixes a boundary.
pub proof fn lemma_flip_involutive(b: Boundary)
    ensures
        b.spec_flip().spec_flip() == b,
        b.spec_flip() != b,
{
}

/// A height in a diagram: regular heights and singular heights alternate,
/// starting and ending with a regular one.
#[derive(Copy, Clone, Debug, PartialEq, Eq, Structural, Hash)]
pub enum Height {
    Regular(usize),
    Singular(usize),
}

/// The height at position `h` of the alternating sequence of heights.
pub open spec fn height_at(h: int) -> Height {
    if h % 2 == 0 {
        Height::Regular((h / 2) as usize)
    } else {
        Height::Singular(((h - 1) / 2) as usize)
    }
}

impl Height {
    /// The position of this height in the alternating sequence
    /// `Regular(0), Singular(0), Regular(1), ...`.
    pub open spec fn pos(self) -> int {
        match self {
            Height::Regular(i) => 2 * i,
            Height::Singular(i) => 2 * i + 1,
        }
    }

    /// The position of this height among all heights: regular heights at even positions,
    /// singular ones at odd positions.
    pub fn to_index(self) -> (r: usize)
        requires
            self.pos() <= usize::MAX,
        ensures
            r == self.pos(),
    {
        match self {
            Height::Regular(i) => i * 2,
            Height::Singular(i) => i * 2 + 1,
        }
    }

    /// The height at a given position.
    pub fn from_index(h: usize) -> (r: Self)
        ensures
            r == height_at(h as int),
    {
        if h % 2 == 0 {
            Height::Regular(h / 2)
        } else {
            Height::Singular((h - 1) / 2)
        }
    }

    /// All heights in a diagram of a specified size, in order.
    pub fn for_size(size: usize) -> (r: Vec<Height>)
        requires
            2 * size + 1 <= usize::MAX,
        ensures
            r@.len() == 2 * size + 1,
            forall|i: int| 0 <= i < r@.len() ==> #[trigger] r@[i] == height_at(i),
    {
        let mut r: Vec<Height> = Vec::new();
        let n: usize = 2 * size + 1;
        let mut i: usize = 0;
        while i < n
            invariant
                n == 2 * size + 1,
                i <= n,
                r@.len() == i,
                forall|j: int| 0 <= j < i ==> #[trigger] r@[j] == height_at(j),
            decreases n - i,
        {
            r.push(Height::from_index(i));
            i = i + 1;
        }
        r
    }

    /// `self` comes strictly before `other`.
    pub fn lt(&self, other: &Height) -> (r: bool)
        ensures
            r == (self.pos() < other.pos()),
    {
        match (*self, *other) {
            (Height::Regular(a), Height::Regular(b)) => a < b,
            (Height::Singular(a), Height::Singular(b)) => a < b,
            (Height::Regular(a), Height::Singular(b)) => a <= b,
            (Height::Singular(a), Height::Regular(b)) => a < b,
        }
    }
}

impl From<usize> for Height {
    fn from(h: usize) -> (r: Self) {
        Height::from_index(h)
    }
}

impl vstd::std_specs::convert::FromSpecImpl<usize> for Height {
    open spec fn obeys_from_spec() -> bool {
        true
    }

    open spec fn from_spec(h: usize) -> Height {
        height_at(h as int)
    }
}

/// Converting a position into a height and back gives the position back, and every
/// height is the height at its own position.
pub proof fn lemma_height_roundtrip(h: int, k: Height)
    requires
        0 <= h <= usize::MAX,
    ensures
        height_at(h).pos() == h,
        height_at(k.pos()) == k,
{
}

/// Heights are ordered by position, so distinct heights have distinct positions.
pub proof fn lemma_height_pos_injective(a: Height, b: Height)
    ensures
        a.pos() == b.pos() <==> a == b,
{
    lemma_height_roundtrip(0, a);
    lemma_height_roundtrip(0, b);
}

/// A direction of travel through the slices of a diagram.
#[derive(Copy, Clone, Debug, PartialEq, Eq, Structural, Hash)]
pub enum Direction {
    Forward,
    Backward,
}

/// The items in the given direction of travel: as they are going forward, in reverse going
/// backward.
pub fn with_direction<T: Copy>(items: Vec<T>, direction: Direction) -> (r: Vec<T>)
    ensures
        r@ == match direction {
            Direction::Forward => items@,
            Direction::Backward => items@.reverse(),
        },
{
    match direction {
        Direction::Forward => items,
        Direction::Backward => {
            let mut r: Vec<T> = Vec::new();
            let mut i: usize = items.len();
            while i > 0
                invariant
                    i <= items@.len(),
                    r@ == items@.subrange(i as int, items@.len() as int).reverse(),
                decreases i,
            {
                i = i - 1;
                r.push(items[i]);
                proof {
                    assert(r@ =~= items@.subrange(i as int, items@.len() as int).reverse());
                }
            }
            proof {
                assert(items@.subrange(0, items@.len() as int) =~= items@);
            }
            r
        },
    }
}

/// An index of a slice of a diagram: either one of its two boundaries or an
/// interior height.
#[derive(Copy, Clone, Debug, PartialEq, Eq, Structural, Hash)]
pub enum SliceIndex {
    Boundary(Boundary),
    Interior(Height),
}

/// The position of a slice index in the sequence of all slices of a diagram of size `size`:
/// the source comes first, then the `2 * size + 1` heights, then the target.
pub open spec fn slice_pos(s: SliceIndex, size: int) -> int {
    match s {
        SliceIndex::Boundary(Boundary::Source) => 0,
        SliceIndex::Interior(h) => h.pos() + 1,
        SliceIndex::Boundary(Boundary::Target) => 2 * size + 2,
    }
}

/// The slice index at position `p` in a diagram of size `size`.
pub open spec fn slice_at(p: int, size: int) -> SliceIndex {
    if p == 0 {
        SliceIndex::Boundary(Boundary::Source)
    } else if p == 2 * size + 2 {
        SliceIndex::Boundary(Boundary::Target)
    } else {
        SliceIndex::Interior(height_at(p - 1))
    }
}

impl SliceIndex {
    /// The slice index lies within a diagram of size `size`.
    pub open spec fn valid(self, size: int) -> bool {
        match self {
            SliceIndex::Boundary(_) => true,
            SliceIndex::Interior(h) => h.pos() <= 2 * size,
        }
    }

    /// The key by which slice indices are ordered: boundaries sit outside all heights.
    pub open spec fn key(self) -> (int, int) {
        match self {
            SliceIndex::Boundary(Boundary::Source) => (0, 0),
            SliceIndex::Interior(h) => (1, h.pos()),
            SliceIndex::Boundary(Boundary::Target) => (2, 0),
        }
    }

    pub open spec fn spec_lt(self, other: SliceIndex) -> bool {
        self.key().0 < other.key().0 || (self.key().0 == other.key().0 && self.key().1
            < other.key().1)
    }

    /// `self` comes strictly before `other`.
    pub fn lt(&self, other: &SliceIndex) -> (r: bool)
        ensures
            r == self.spec_lt(*other),
    {
        match (*self, *other) {
            (SliceIndex::Boundary(Boundary::Source), SliceIndex::Boundary(Boundary::Target)) => true,
            (SliceIndex::Boundary(Boundary::Source), SliceIndex::Interior(_)) => true,
            (SliceIndex::Interior(_), SliceIndex::Boundary(Boundary::Target)) => true,
            (SliceIndex::Interior(a), SliceIndex::Interior(b)) => a.lt(&b),
            _ => false,
        }
    }

    pub open spec fn spec_next(self, size: usize) -> Option<SliceIndex> {
        match self {
            SliceIndex::Boundary(Boundary::Source) => Some(
                SliceIndex::Interior(Height::Regular(0)),
            ),
            SliceIndex::Interior(Height::Regular(i)) => if i == size {
                Some(SliceIndex::Boundary(Boundary::Target))
            } else {
                Some(SliceIndex::Interior(Height::Singular(i)))
            },
            SliceIndex::Interior(Height::Singular(i)) => Some(
                SliceIndex::Interior(Height::Regular((i + 1) as usize)),
            ),
            SliceIndex::Boundary(Boundary::Target) => None,
        }
    }

    pub open spec fn spec_prev(self, size: usize) -> Option<SliceIndex> {
        match self {
            SliceIndex::Boundary(Boundary::Source) => None,
            SliceIndex::Interior(Height::Regular(i)) => if i == 0 {
                Some(SliceIndex::Boundary(Boundary::Source))
            } else {
                Some(SliceIndex::Interior(Height::Singular((i - 1) as usize)))
            },
            SliceIndex::Interior(Height::Singular(i)) => Some(
                SliceIndex::Interior(Height::Regular(i)),
            ),
            SliceIndex::Boundary(Boundary::Target) => Some(
                SliceIndex::Interior(Height::Regular(size)),
            ),
        }
    }

    /// All slice indices of a diagram of a specified size, in order.
    pub fn for_size(size: usize) -> (r: Vec<SliceIndex>)
        requires
            2 * size + 3 <= usize::MAX,
        ensures
            r@.len() == 2 * size + 3,
            forall|i: int| 0 <= i < r@.len() ==> #[trigger] r@[i] == slice_at(i, size as int),
    {
        let heights = Height::for_size(size);
        let mut r: Vec<SliceIndex> = Vec::new();
        r.push(SliceIndex::Boundary(Boundary::Source));
        let mut i: usize = 0;
        while i < heights.len()
            invariant
                heights@.len() == 2 * size + 1,
                forall|j: int| 0 <= j < heights@.len() ==> #[trigger] heights@[j] == height_at(j),
                i <= heights@.len(),
                r@.len() == i + 1,
                forall|j: int| 0 <= j < r@.len() ==> #[trigger] r@[j] == slice_at(j, size as int),
            decreases heights@.len() - i,
        {
            r.push(SliceIndex::Interior(heights[i]));
            i = i + 1;
        }
        r.push(SliceIndex::Boundary(Boundary::Target));
        r
    }

    /// The next slice in a diagram of a given size.
    pub fn next(self, size: usize) -> (r: Option<Self>)
        requires
            self matches SliceIndex::Interior(Height::Singular(i)) ==> i < usize::MAX,
        ensures
            r == self.spec_next(size),
    {
        match self {
            SliceIndex::Boundary(Boundary::Source) => Some(
                SliceIndex::Interior(Height::Regular(0)),
            ),
            SliceIndex::Interior(Height::Regular(i)) => if i == size {
                Some(SliceIndex::Boundary(Boundary::Target))
            } else {
                Some(SliceIndex::Interior(Height::Singular(i)))
            },
            SliceIndex::Interior(Height::Singular(i)) => Some(
                SliceIndex::Interior(Height::Regular(i + 1)),
            ),
            SliceIndex::Boundary(Boundary::Target) => None,
        }
    }

    /// The previous slice in a diagram of a given size.
    pub fn prev(self, size: usize) -> (r: Option<Self>)
        ensures
            r == self.spec_prev(size),
    {
        match self {
            SliceIndex::Boundary(Boundary::Source) => None,
            SliceIndex::Interior(Height::Regular(i)) => if i == 0 {
                Some(SliceIndex::Boundary(Boundary::Source))
            } else {
                Some(SliceIndex::Interior(Height::Singular(i - 1)))
            },
            SliceIndex::Interior(Height::Singular(i)) => Some(
                SliceIndex::Interior(Height::Regular(i)),
            ),
            SliceIndex::Boundary(Boundary::Target) => Some(
                SliceIndex::Interior(Height::Regular(size)),
            ),
        }
    }

    /// One step in the given direction.
    pub fn step(self, size: usize, direction: Direction) -> (r: Option<Self>)
        requires
            self matches SliceIndex::Interior(Height::Singular(i)) ==> i < usize::MAX,
        ensures
            r == (match direction {
                Direction::Forward => self.spec_next(size),
                Direction::Backward => self.spec_prev(size),
            }),
    {
        match direction {
            Direction::Forward => self.next(size),
            Direction::Backward => self.prev(size),
        }
    }
}

impl From<Height> for SliceIndex {
    fn from(height: Height) -> (r: Self) {
        SliceIndex::Interior(height)
    }
}

impl vstd::std_specs::convert::FromSpecImpl<Height> for SliceIndex {
    open spec fn obeys_from_spec() -> bool {
        true
    }

    open spec fn from_spec(height: Height) -> SliceIndex {
        SliceIndex::Interior(height)
    }
}

impl From<Boundary> for SliceIndex {
    fn from(boundary: Boundary) -> (r: Self) {
        SliceIndex::Boundary(boundary)
    }
}

impl vstd::std_specs::convert::FromSpecImpl<Boundary> for SliceIndex {
    open spec fn obeys_from_spec() -> bool {
        true
    }

    open spec fn from_spec(boundary: Boundary) -> SliceIndex {
        SliceIndex::Boundary(boundary)
    }
}

/// Within a diagram of size `size`, stepping forward then backward (or backward then
/// forward) returns to the slice one started from, and each step moves by one position.
pub proof fn lemma_next_prev_inverse(s: SliceIndex, size: usize)
    requires
        s.valid(size as int),
    ensures
        s.spec_next(size) matches Some(t) ==> {
            &&& t.valid(size as int)
            &&& t.spec_prev(size) == Some(s)
            &&& slice_pos(t, size as int) == slice_pos(s, size as int) + 1
        },
        s.spec_prev(size) matches Some(t) ==> {
            &&& t.valid(size as int)
            &&& t.spec_next(size) == Some(s)
            &&& slice_pos(t, size as int) + 1 == slice_pos(s, size as int)
        },
        s.spec_next(size) is None <==> s == SliceIndex::Boundary(Boundary::Target),
        s.spec_prev(size) is None <==> s == SliceIndex::Boundary(Boundary::Source),
{
}

/// Every slice index of a diagram of size `size` is the one at its position, and the
/// positions run from `0` to `2 * size + 2`.
pub proof fn lemma_slice_pos_roundtrip(s: SliceIndex, size: usize)
    requires
        s.valid(size as int),
    ensures
        0 <= slice_pos(s, size as int) <= 2 * size + 2,
        slice_at(slice_pos(s, size as int), size as int) == s,
{
}

/// The order of slice indices agrees with their positions in any diagram that holds them.
pub proof fn lemma_slice_order_by_pos(a: SliceIndex, b: SliceIndex, size: usize)
    requires
        a.valid(size as int),
        b.valid(size as int),
    ensures
        a.spec_lt(b) <==> slice_pos(a, size as int) < slice_pos(b, size as int),
{
}

/// A path in a diagram that runs into a boundary: which boundary, and at what depth.
#[derive(Copy, Clone, Debug, PartialEq, Eq, Structural, Hash)]
pub struct BoundaryPath(pub Boundary, pub usize);

/// The position of the last boundary in a path, if any.
pub open spec fn last_boundary(path: Seq<SliceIndex>) -> Option<int>
    decreases path.len(),
{
    if path.len() == 0 {
        None
    } else if path.last() is Boundary {
        Some(path.len() - 1)
    } else {
        last_boundary(path.drop_last())
    }
}

/// The heights of a path of interior slices.
pub open spec fn interior_heights(path: Seq<SliceIndex>) -> Seq<Height> {
    path.map_values(|s: SliceIndex| s->Interior_0)
}

/// What splitting a path gives: the boundary path up to its last boundary, and the
/// heights that follow.
pub open spec fn spec_split(path: Seq<SliceIndex>) -> (Option<BoundaryPath>, Seq<Height>) {
    match last_boundary(path) {
        Some(k) => (
            Some(BoundaryPath(path[k]->Boundary_0, k as usize)),
            interior_heights(path.subrange(k + 1, path.len() as int)),
        ),
        None => (None, interior_heights(path)),
    }
}

proof fn lemma_last_boundary(path: Seq<SliceIndex>)
    ensures
        last_boundary(path) matches Some(k) ==> {
            &&& 0 <= k < path.len()
            &&& path[k] is Boundary
            &&& forall|j: int| k < j < path.len() ==> path[j] is Interior
        },
        last_boundary(path) is None ==> forall|j: int| 0 <= j < path.len() ==> path[j] is Interior,
    decreases path.len(),
{
    if path.len() > 0 {
        lemma_last_boundary(path.drop_last());
        assert(forall|j: int| 0 <= j < path.len() - 1 ==> path.drop_last()[j] == path[j]);
    }
}

impl BoundaryPath {
    /// Given a path in a diagram, split it into a boundary path and an interior path.
    pub fn split(path: &[SliceIndex]) -> (r: (Option<Self>, Vec<Height>))
        ensures
            (r.0, r.1@) == spec_split(path@),
    {
        let mut boundary_path: Option<BoundaryPath> = None;
        let mut interior_path: Vec<Height> = Vec::new();
        let n = path.len();
        let mut i: usize = n;
        proof {
            lemma_last_boundary(path@);
        }
        while i > 0
            invariant
                i <= n == path@.len(),
                boundary_path is None ==> {
                    &&& forall|j: int| i <= j < n ==> path@[j] is Interior
                    &&& interior_path@ == interior_heights(path@.subrange(i as int, n as int))
                },
                boundary_path matches Some(bp) ==> {
                    &&& last_boundary(path@) is Some
                    &&& last_boundary(path@)->0 >= i
                    &&& bp == BoundaryPath(
                        path@[last_boundary(path@)->0]->Boundary_0,
                        (last_boundary(path@)->0 - i) as usize,
                    )
                    &&& interior_path@ == interior_heights(
                        path@.subrange(last_boundary(path@)->0 + 1, n as int),
                    )
                },
                last_boundary(path@) matches Some(k) ==> {
                    &&& 0 <= k < path@.len()
                    &&& path@[k] is Boundary
                    &&& forall|j: int| k < j < path@.len() ==> path@[j] is Interior
                },
                last_boundary(path@) is None ==> forall|j: int|
                    0 <= j < path@.len() ==> path@[j] is Interior,
            decreases i,
        {
            i = i - 1;
            let s = path[i];
            match boundary_path {
                Some(bp) => {
                    boundary_path = Some(BoundaryPath(bp.0, bp.1 + 1));
                },
                None => match s {
                    SliceIndex::Boundary(b) => {
                        boundary_path = Some(BoundaryPath(b, 0));
                    },
                    SliceIndex::Interior(h) => {
                        let ghost old_ip = interior_path@;
                        interior_path.insert(0, h);
                        assert(interior_heights(path@.subrange(i as int, n as int)) =~= seq![h]
                            + old_ip);
                    },
                },
            }
        }
        proof {
            if boundary_path is None {
                assert(path@.subrange(0, n as int) =~= path@);
                if let Some(k) = last_boundary(path@) {
                    assert(path@[k] is Interior);
                }
            }
        }
        (boundary_path, interior_path)
    }

    pub fn boundary(self) -> (r: Boundary)
        ensures
            r == self.0,
    {
        self.0
    }

    pub fn depth(self) -> (r: usize)
        ensures
            r == self.1,
    {
        self.1
    }
}

impl From<Boundary> for BoundaryPath {
    fn from(boundary: Boundary) -> (r: Self) {
        BoundaryPath(boundary, 0)
    }
}

impl vstd::std_specs::convert::FromSpecImpl<Boundary> for BoundaryPath {
    open spec fn obeys_from_spec() -> bool {
        true
    }

    open spec fn from_spec(boundary: Boundary) -> BoundaryPath {
        BoundaryPath(boundary, 0)
    }
}

/// The error of an operation that met a value of the wrong dimension.
#[derive(Copy, Clone, Debug, PartialEq, Eq, Structural)]
pub struct DimensionError;

/// How far a check descends.
#[derive(Copy, Clone, Debug, PartialEq, Eq, Structural, Hash)]
pub enum Mode {
    Deep,
    Shallow,
}

/// The orientation of a generator's appearance.
#[derive(Copy, Clone, Debug, PartialEq, Eq, Structural, Hash)]
pub enum Orientation {
    Negative,
    Zero,
    Positive,
}

/// Orientations multiply like the signs `-1`, `0` and `+1`.
pub open spec fn orientation_sign(o: Orientation) -> int {
    match o {
        Orientation::Negative => -1,
        Orientation::Zero => 0,
        Orientation::Positive => 1,
    }
}

impl Orientation {
    pub open spec fn spec_mul(self, rhs: Orientation) -> Orientation {
        match (self, rhs) {
            (Orientation::Zero, _) => Orientation::Zero,
            (_, Orientation::Zero) => Orientation::Zero,
            (Orientation::Positive, _) => rhs,
            (_, Orientation::Positive) => self,
            (Orientation::Negative, Orientation::Negative) => Orientation::Positive,
        }
    }

    /// The product of two orientations.
    pub fn mul(self, rhs: Orientation) -> (r: Orientation)
        ensures
            r == self.spec_mul(rhs),
            orientation_sign(r) == orientation_sign(self) * orientation_sign(rhs),
    {
        match (self, rhs) {
            (Orientation::Zero, _) => Orientation::Zero,
            (_, Orientation::Zero) => Orientation::Zero,
            (Orientation::Positive, _) => rhs,
            (_, Orientation::Positive) => self,
            (Orientation::Negative, Orientation::Negative) => Orientation::Positive,
        }
    }

    /// The product of a sequence of orientations (the empty product is positive).
    pub fn product(items: &[Orientation]) -> (r: Orientation)
        ensures
            r == spec_product(items@),
    {
        let mut acc = Orientation::Positive;
        let mut i: usize = 0;
        while i < items.len()
            invariant
                i <= items@.len(),
                acc == spec_product(items@.subrange(0, i as int)),
            decreases items@.len() - i,
        {
            assert(items@.subrange(0, i + 1).drop_last() =~= items@.subrange(0, i as int));
            acc = acc.mul(items[i]);
            i = i + 1;
        }
        assert(items@.subrange(0, items@.len() as int) =~= items@);
        acc
    }

    /// The orientation of a direction: forward is positive, backward negative.
    pub fn from_direction(direction: Direction) -> (r: Orientation)
        ensures
            r == (match direction {
                Direction::Forward => Orientation::Positive,
                Direction::Backward => Orientation::Negative,
            }),
    {
        match direction {
            Direction::Forward => Orientation::Positive,
            Direction::Backward => Orientation::Negative,
        }
    }
}

/// The product of a sequence of orientations, folded from the left.
pub open spec fn spec_product(s: Seq<Orientation>) -> Orientation
    decreases s.len(),
{
    if s.len() == 0 {
        Orientation::Positive
    } else {
        spec_product(s.drop_last()).spec_mul(s.last())
    }
}

impl From<Direction> for Orientation {
    fn from(direction: Direction) -> (r: Self) {
        Orientation::from_direction(direction)
    }
}

impl vstd::std_specs::convert::FromSpecImpl<Direction> for Orientation {
    open spec fn obeys_from_spec() -> bool {
        true
    }

    open spec fn from_spec(direction: Direction) -> Orientation {
        match direction {
            Direction::Forward => Orientation::Positive,
            Direction::Backward => Orientation::Negative,
        }
    }
}

/// Orientations form a commutative monoid under multiplication, with `Positive` as
/// unit and `Zero` absorbing; `Negative` squares to `Positive`.
pub proof fn lemma_orientation_monoid(a: Orientation, b: Orientation, c: Orientation)
    ensures
        a.spec_mul(b) == b.spec_mul(a),
        a.spec_mul(b).spec_mul(c) == a.spec_mul(b.spec_mul(c)),
        a.spec_mul(Orientation::Positive) == a,
        Orientation::Positive.spec_mul(a) == a,
        a.spec_mul(Orientation::Zero) == Orientation::Zero,
        Orientation::Negative.spec_mul(Orientation::Negative) == Orientation::Positive,
{
}

} // verus!
