use vstd::prelude::*;

verus! {

/// A source of either no items, one item, or the items of a list.
pub enum ZeroOneMany<T> {
    Empty,
    One(T),
    Many(Vec<T>),
}

impl<T> ZeroOneMany<T> {
    /// The items still to come, in order.
    pub open spec fn items(&self) -> Seq<T> {
        match self {
            ZeroOneMany::Empty => Seq::empty(),
            ZeroOneMany::One(x) => seq![*x],
            ZeroOneMany::Many(v) => v@,
        }
    }

    /// Hands out the next item, if any.
    pub fn next(&mut self) -> (r: Option<T>)
        ensures
            old(self).items().len() == 0 ==> r is None && final(self).items().len() == 0,
            old(self).items().len() > 0 ==> r == Some(old(self).items()[0])
                && final(self).items() == old(self).items().drop_first(),
    {
        match self {
            ZeroOneMany::Many(v) => {
                if v.len() == 0 {
                    None
                } else {
                    Some(v.remove(0))
                }
            },
            _ => {
                let mut taken = ZeroOneMany::Empty;
                std::mem::swap(self, &mut taken);
                match taken {
                    ZeroOneMany::One(x) => {
                        assert(seq![x].drop_first() =~= Seq::<T>::empty());
                        Some(x)
                    },
                    _ => None,
                }
            },
        }
    }
}

impl<T> Default for ZeroOneMany<T> {
    /// No items.
    fn default() -> (r: Self)
        ensures
            r is Empty,
    {
        ZeroOneMany::Empty
    }
}

} // verus!
