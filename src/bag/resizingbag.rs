use crate::vec::{room_for_one_more, SVec};
use vstd::prelude::*;

verus! {

/// A bag on an `SVec`. Its contents `self@` are listed in the order in which `iter` hands them
/// out: the order of insertion.
pub struct ResizingBag<T> {
    data: SVec<T>,
}

impl<T> View for ResizingBag<T> {
    type V = Seq<T>;

    closed spec fn view(&self) -> Seq<T> {
        self.data@
    }
}

impl<T> ResizingBag<T> {
    pub closed spec fn wf(&self) -> bool {
        self.data.wf()
    }

    /// Creates an empty bag.
    pub fn new() -> (r: Self)
        ensures
            r.wf(),
            r@ == Seq::<T>::empty(),
    {
        ResizingBag { data: SVec::new() }
    }

    pub fn is_empty(&self) -> (r: bool)
        requires
            self.wf(),
        ensures
            r == (self@.len() == 0),
    {
        self.data.is_empty()
    }

    pub fn len(&self) -> (r: usize)
        requires
            self.wf(),
        ensures
            r == self@.len(),
    {
        self.data.len()
    }

    /// Adds `item` to the bag.
    pub fn add(&mut self, item: T)
        requires
            old(self).wf(),
            room_for_one_more(old(self)@.len()),
        ensures
            final(self).wf(),
            final(self)@ == old(self)@.push(item),
    {
        self.data.push(item);
    }

    /// An iterator over the items.
    pub fn iter(&self) -> (r: ResizingBagIter<'_, T>)
        requires
            self.wf(),
        ensures
            r.wf(),
            r@ == self@,
    {
        let r = ResizingBagIter { data: &self.data, current: 0 };
        assert(r@ =~= self@);
        r
    }
}

impl<T: Clone> Clone for ResizingBag<T> {
    /// A bag with a buffer of its own, holding a clone of each item in the same order.
    fn clone(&self) -> (r: Self)
        ensures
            self.wf() ==> r.wf() && r@.len() == self@.len() && forall|i: int|
                0 <= i < self@.len() ==> cloned::<T>(self@[i], #[trigger] r@[i]),
    {
        ResizingBag { data: self.data.clone() }
    }
}

impl<T> Default for ResizingBag<T> {
    fn default() -> (r: Self)
        ensures
            r.wf(),
            r@ == Seq::<T>::empty(),
    {
        ResizingBag::new()
    }
}

/// An iterator over the items of a `ResizingBag`, in the order of insertion.
pub struct ResizingBagIter<'a, T> {
    data: &'a SVec<T>,
    current: usize,
}

impl<'a, T> View for ResizingBagIter<'a, T> {
    type V = Seq<T>;

    /// The items not handed out yet.
    closed spec fn view(&self) -> Seq<T> {
        self.data@.subrange(self.current as int, self.data@.len() as int)
    }
}

impl<'a, T> ResizingBagIter<'a, T> {
    pub closed spec fn wf(&self) -> bool {
        self.data.wf() && self.current <= self.data@.len()
    }

    pub fn next(&mut self) -> (r: Option<&'a T>)
        requires
            old(self).wf(),
        ensures
            final(self).wf(),
            old(self)@.len() == 0 ==> r is None && final(self)@ == old(self)@,
            old(self)@.len() > 0 ==> r == Some(&old(self)@[0]) && final(self)@ == old(
                self,
            )@.drop_first(),
    {
        if self.current < self.data.len() {
            let i = self.current;
            self.current = i + 1;
            assert(self@ =~= old(self)@.drop_first());
            Some(self.data.index(i))
        } else {
            None
        }
    }
}

} // verus!
