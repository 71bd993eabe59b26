use vstd::prelude::*;
use std::marker::PhantomData;
use vstd::std_specs::cmp::PartialEqSpec;

verus! {

/// A type of typed indices into an `IdxVec`.
pub trait Idx: Copy + Sized {
    /// The position this index stands for.
    spec fn pos(&self) -> nat;

    /// Whether `new` gives back an index standing for `index`.
    spec fn representable(index: nat) -> bool;

    /// Whether the position of this index can be computed as a `usize`.
    spec fn has_index(&self) -> bool;

    fn index(&self) -> (r: usize)
        requires
            self.has_index(),
        ensures
            r == self.pos(),
    ;

    fn new(index: usize) -> (r: Self)
        ensures
            Self::representable(index as nat) ==> r.pos() == index && r.has_index(),
    ;
}

impl Idx for u16 {
    open spec fn pos(&self) -> nat {
        *self as nat
    }

    open spec fn representable(index: nat) -> bool {
        index <= u16::MAX
    }

    open spec fn has_index(&self) -> bool {
        true
    }

    fn index(&self) -> (r: usize) {
        *self as usize
    }

    fn new(index: usize) -> (r: Self) {
        index as u16
    }
}

impl Idx for u32 {
    open spec fn pos(&self) -> nat {
        *self as nat
    }

    open spec fn representable(index: nat) -> bool {
        index <= u32::MAX
    }

    open spec fn has_index(&self) -> bool {
        *self as nat <= usize::MAX
    }

    fn index(&self) -> (r: usize) {
        *self as usize
    }

    fn new(index: usize) -> (r: Self) {
        index as u32
    }
}

impl Idx for u64 {
    open spec fn pos(&self) -> nat {
        *self as nat
    }

    open spec fn representable(index: nat) -> bool {
        index <= u64::MAX
    }

    open spec fn has_index(&self) -> bool {
        *self as nat <= usize::MAX
    }

    fn index(&self) -> (r: usize) {
        *self as usize
    }

    fn new(index: usize) -> (r: Self) {
        index as u64
    }
}

impl Idx for crate::common::Height {
    open spec fn pos(&self) -> nat {
        crate::common::Height::pos(*self) as nat
    }

    open spec fn representable(index: nat) -> bool {
        index <= usize::MAX
    }

    open spec fn has_index(&self) -> bool {
        crate::common::Height::pos(*self) <= usize::MAX
    }

    fn index(&self) -> (r: usize) {
        self.to_index()
    }

    fn new(index: usize) -> (r: Self) {
        proof {
            crate::common::lemma_height_roundtrip(index as int, crate::common::Height::Regular(0));
        }
        crate::common::Height::from_index(index)
    }
}

/// A vector indexed by a typed index.
#[derive(Debug)]
pub struct IdxVec<I, T> {
    raw: Vec<T>,
    _phantom: PhantomData<I>,
}

impl<I, T: Clone> Clone for IdxVec<I, T> {
    fn clone(&self) -> (r: Self)
        ensures
            r@.len() == self@.len(),
            forall|i: int| 0 <= i < self@.len() ==> cloned(self@[i], #[trigger] r@[i]),
    {
        IdxVec { raw: self.raw.clone(), _phantom: PhantomData }
    }
}

impl<I, T> View for IdxVec<I, T> {
    type V = Seq<T>;

    closed spec fn view(&self) -> Seq<T> {
        self.raw@
    }
}

impl<I: Idx, T> IdxVec<I, T> {
    /// An indexed vector never holds more than `usize::MAX` elements.
    pub proof fn lemma_len_bound(&self)
        ensures
            self@.len() <= usize::MAX,
    {
        assert(self.raw.len() == self.raw@.len());
    }

    pub fn new() -> (r: Self)
        ensures
            r@ == Seq::<T>::empty(),
    {
        IdxVec { raw: Vec::new(), _phantom: PhantomData }
    }

    /// A vector of `len` clones of `t`.
    pub fn splat(t: T, len: usize) -> (r: Self) where T: Clone
        ensures
            r@.len() == len,
            forall|i: int| 0 <= i < len ==> cloned(t, #[trigger] r@[i]),
    {
        IdxVec { raw: vec![t; len], _phantom: PhantomData }
    }

    pub fn with_capacity(capacity: usize) -> (r: Self)
        ensures
            r@ == Seq::<T>::empty(),
    {
        IdxVec { raw: Vec::with_capacity(capacity), _phantom: PhantomData }
    }

    /// Builds an indexed vector from the values in order.
    pub fn from_vec(raw: Vec<T>) -> (r: Self)
        ensures
            r@ == raw@,
    {
        IdxVec { raw, _phantom: PhantomData }
    }

    /// Appends an element and returns its index.
    pub fn push(&mut self, elem: T) -> (r: I)
        ensures
            final(self)@ == old(self)@.push(elem),
            I::representable(old(self)@.len()) ==> r.pos() == old(self)@.len() && r.has_index(),
    {
        let index = self.raw.len();
        self.raw.push(elem);
        I::new(index)
    }

    pub fn pop(&mut self) -> (r: Option<T>)
        ensures
            old(self)@.len() > 0 ==> r == Some(old(self)@.last()) && final(self)@ == old(self)@.drop_last(),
            old(self)@.len() == 0 ==> r is None && final(self)@ == old(self)@,
    {
        self.raw.pop()
    }

    pub fn is_empty(&self) -> (r: bool)
        ensures
            r == (self@.len() == 0),
    {
        self.raw.len() == 0
    }

    pub fn len(&self) -> (r: usize)
        ensures
            r == self@.len(),
    {
        self.raw.len()
    }

    /// Applies `f` to each element, keeping the indices.
    pub fn map<F, U>(self, f: F) -> (r: IdxVec<I, U>) where F: Fn(T) -> U
        requires
            forall|i: int| 0 <= i < self@.len() ==> call_requires(f, (#[trigger] self@[i],)),
        ensures
            r@.len() == self@.len(),
            forall|i: int| 0 <= i < self@.len() ==> call_ensures(f, (self@[i],), #[trigger] r@[i]),
    {
        let ghost s = self@;
        let mut raw = self.raw;
        let mut rev: Vec<U> = Vec::new();
        // Walk from the back, collecting the images in reverse.
        while raw.len() > 0
            invariant
                raw@ == s.subrange(0, s.len() - rev@.len()),
                rev@.len() <= s.len(),
                forall|i: int| 0 <= i < s.len() ==> call_requires(f, (#[trigger] s[i],)),
                forall|k: int|
                    0 <= k < rev@.len() ==> call_ensures(
                        f,
                        (s[s.len() - 1 - k],),
                        #[trigger] rev@[k],
                    ),
            decreases raw@.len(),
        {
            let ghost k = rev@.len();
            let x = raw.pop().unwrap();
            assert(x == s[s.len() - 1 - k]);
            let y = f(x);
            rev.push(y);
        }
        let ghost n = rev@.len();
        let mut out: Vec<U> = Vec::new();
        while rev.len() > 0
            invariant
                n == s.len(),
                rev@.len() + out@.len() == n,
                forall|k: int|
                    0 <= k < rev@.len() ==> call_ensures(
                        f,
                        (s[s.len() - 1 - k],),
                        #[trigger] rev@[k],
                    ),
                forall|i: int|
                    0 <= i < out@.len() ==> call_ensures(f, (s[i],), #[trigger] out@[i]),
            decreases rev@.len(),
        {
            let ghost k = rev@.len() - 1;
            let y = rev.pop().unwrap();
            assert(call_ensures(f, (s[s.len() - 1 - k],), y));
            out.push(y);
        }
        IdxVec { raw: out, _phantom: PhantomData }
    }

    /// The same values under another type of index.
    pub fn reindex<J: Idx>(self) -> (r: IdxVec<J, T>)
        ensures
            r@ == self@,
    {
        IdxVec { raw: self.raw, _phantom: PhantomData }
    }

    /// Compares the length with the position of `index`: true when the length is below the
    /// position.
    pub fn contains_key(&self, index: I) -> (r: bool)
        requires
            index.has_index(),
        ensures
            r == (self@.len() < index.pos()),
    {
        self.raw.len() < index.index()
    }

    pub fn get(&self, index: I) -> (r: Option<&T>)
        requires
            index.has_index(),
        ensures
            index.pos() < self@.len() ==> r == Some(&self@[index.pos() as int]),
            index.pos() >= self@.len() ==> r is None,
    {
        let i = index.index();
        if i < self.raw.len() {
            Some(&self.raw[i])
        } else {
            None
        }
    }

    pub fn get_mut(&mut self, index: I) -> (r: Option<&mut T>)
        requires
            index.has_index(),
        ensures
            index.pos() < old(self)@.len() ==> (r matches Some(e) && *e == old(self)@[index.pos() as int]
                && final(self)@ == old(self)@.update(index.pos() as int, *final(e))),
            index.pos() >= old(self)@.len() ==> r is None && final(self)@ == old(self)@,
    {
        let i = index.index();
        if i < self.raw.len() {
            Some(&mut self.raw[i])
        } else {
            None
        }
    }

    /// The element at an index.
    pub fn index(&self, index: I) -> (r: &T)
        requires
            index.has_index(),
            index.pos() < self@.len(),
        ensures
            *r == self@[index.pos() as int],
    {
        &self.raw[index.index()]
    }

    /// The element at an index, for writing.
    pub fn index_mut(&mut self, index: I) -> (r: &mut T)
        requires
            index.has_index(),
            index.pos() < old(self)@.len(),
        ensures
            *r == old(self)@[index.pos() as int],
            final(self)@ == old(self)@.update(index.pos() as int, *final(r)),
    {
        &mut self.raw[index.index()]
    }

    /// Overwrites the element at an index.
    pub fn set(&mut self, index: I, value: T)
        requires
            index.has_index(),
            index.pos() < old(self)@.len(),
        ensures
            final(self)@ == old(self)@.update(index.pos() as int, value),
    {
        let i = index.index();
        self.raw.set(i, value);
    }

    /// All indices, in order.
    pub fn keys(&self) -> (r: Vec<I>)
        requires
            forall|i: nat| i < self@.len() ==> I::representable(i),
        ensures
            r@.len() == self@.len(),
            forall|i: int|
                0 <= i < r@.len() ==> (#[trigger] r@[i]).pos() == i && r@[i].has_index(),
    {
        let mut r: Vec<I> = Vec::new();
        let n = self.raw.len();
        let mut i: usize = 0;
        while i < n
            invariant
                n == self@.len(),
                i <= n,
                r@.len() == i,
                forall|i: nat| i < self@.len() ==> I::representable(i),
                forall|j: int| 0 <= j < i ==> (#[trigger] r@[j]).pos() == j && r@[j].has_index(),
            decreases n - i,
        {
            assert(I::representable(i as nat));
            r.push(I::new(i));
            i = i + 1;
        }
        r
    }

    /// All values, in order.
    pub fn values(&self) -> (r: Vec<&T>)
        ensures
            r@.len() == self@.len(),
            forall|i: int| 0 <= i < r@.len() ==> *(#[trigger] r@[i]) == self@[i],
    {
        let mut r: Vec<&T> = Vec::new();
        let n = self.raw.len();
        let mut i: usize = 0;
        while i < n
            invariant
                n == self@.len(),
                i <= n,
                r@.len() == i,
                forall|j: int| 0 <= j < i ==> *(#[trigger] r@[j]) == self@[j],
            decreases n - i,
        {
            r.push(&self.raw[i]);
            i = i + 1;
        }
        r
    }

    /// All pairs of index and value, in order.
    pub fn iter(&self) -> (r: Vec<(I, &T)>)
        requires
            forall|i: nat| i < self@.len() ==> I::representable(i),
        ensures
            r@.len() == self@.len(),
            forall|i: int|
                0 <= i < r@.len() ==> (#[trigger] r@[i]).0.pos() == i && r@[i].0.has_index()
                    && *r@[i].1 == self@[i],
    {
        let mut r: Vec<(I, &T)> = Vec::new();
        let n = self.raw.len();
        let mut i: usize = 0;
        while i < n
            invariant
                n == self@.len(),
                i <= n,
                r@.len() == i,
                forall|i: nat| i < self@.len() ==> I::representable(i),
                forall|j: int|
                    0 <= j < i ==> (#[trigger] r@[j]).0.pos() == j && r@[j].0.has_index()
                        && *r@[j].1 == self@[j],
            decreases n - i,
        {
            assert(I::representable(i as nat));
            r.push((I::new(i), &self.raw[i]));
            i = i + 1;
        }
        r
    }

    /// All values, in order, for writing.
    pub fn values_mut(&mut self) -> (r: &mut [T])
        ensures
            r@ == old(self)@,
            final(r)@ == final(self)@,
    {
        self.raw.as_mut_slice()
    }

    /// The values, in order, giving up the indices.
    pub fn into_values(self) -> (r: Vec<T>)
        ensures
            r@ == self@,
    {
        self.raw
    }

    pub fn into_raw(self) -> (r: Vec<T>)
        ensures
            r@ == self@,
    {
        self.raw
    }

    pub fn clear(&mut self)
        ensures
            final(self)@ == Seq::<T>::empty(),
    {
        self.raw.clear();
    }

    /// Whether some element equals `t`.
    pub fn contains(&self, t: &T) -> (r: bool) where T: PartialEq
        ensures
            T::obeys_eq_spec() ==> (r <==> exists|i: int|
                0 <= i < self@.len() && (#[trigger] self@[i]).eq_spec(t)),
    {
        let n = self.raw.len();
        let mut i: usize = 0;
        while i < n
            invariant
                n == self@.len(),
                i <= n,
                T::obeys_eq_spec() ==> forall|j: int| 0 <= j < i ==> !(#[trigger] self@[j]).eq_spec(t),
            decreases n - i,
        {
            if self.raw[i] == *t {
                return true;
            }
            i = i + 1;
        }
        false
    }

    /// Walks the elements together with their indices, consuming the vector.
    pub fn into_iter(self) -> (r: IdxVecIterator<I, T>)
        ensures
            r.next_index() == 0,
            r.remaining() == self@,
    {
        let mut raw = self.raw;
        let ghost s = raw@;
        let mut rev: Vec<T> = Vec::new();
        while raw.len() > 0
            invariant
                raw@ == s.subrange(0, s.len() - rev@.len()),
                rev@.len() <= s.len(),
                forall|k: int| 0 <= k < rev@.len() ==> #[trigger] rev@[k] == s[s.len() - 1 - k],
            decreases raw@.len(),
        {
            let x = raw.pop().unwrap();
            rev.push(x);
        }
        let r = IdxVecIterator { next_idx: 0, rest: rev, _phantom: PhantomData };
        assert(r.remaining() =~= s);
        r
    }
}

/// An iterator over the pairs of index and value of an `IdxVec`.
pub struct IdxVecIterator<I, T> {
    next_idx: usize,
    /// The values still to come, last first.
    rest: Vec<T>,
    _phantom: PhantomData<I>,
}

impl<I: Idx, T> IdxVecIterator<I, T> {
    /// The position of the next value.
    pub closed spec fn next_index(&self) -> nat {
        self.next_idx as nat
    }

    /// The values still to come, in order.
    pub closed spec fn remaining(&self) -> Seq<T> {
        self.rest@.reverse()
    }

    /// The next pair of index and value, if any.
    pub fn next(&mut self) -> (r: Option<(I, T)>)
        requires
            old(self).next_index() + old(self).remaining().len() <= usize::MAX,
        ensures
            old(self).remaining().len() == 0 ==> r is None && final(self).remaining() == old(self).remaining() && final(self).next_index() == old(self).next_index(),
            old(self).remaining().len() > 0 ==> {
                &&& r matches Some(p)
                &&& p.1 == old(self).remaining()[0]
                &&& (I::representable(old(self).next_index()) ==> p.0.pos() == old(self).next_index())
                &&& final(self).remaining() == old(self).remaining().drop_first()
                &&& final(self).next_index() == old(self).next_index() + 1
            },
    {
        match self.rest.pop() {
            None => None,
            Some(x) => {
                let i = I::new(self.next_idx);
                self.next_idx = self.next_idx + 1;
                proof {
                    assert(self.rest@.reverse() =~= old(self).rest@.reverse().drop_first());
                }
                Some((i, x))
            },
        }
    }

    /// The number of values still to come.
    pub fn len(&self) -> (r: usize)
        ensures
            r == self.remaining().len(),
    {
        self.rest.len()
    }
}

} // verus!
