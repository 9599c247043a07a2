use vstd::prelude::*;

verus! {

/// A bag on a `Vec`. Its contents `self@` are listed in the order in which `iter` hands them
/// out: the order of insertion.
pub struct VecBag<T> {
    data: Vec<T>,
}

impl<T> View for VecBag<T> {
    type V = Seq<T>;

    closed spec fn view(&self) -> Seq<T> {
        self.data@
    }
}

impl<T> VecBag<T> {
    /// Creates an empty bag.
    pub fn new() -> (r: Self)
        ensures
            r@ == Seq::<T>::empty(),
    {
        VecBag { data: Vec::new() }
    }

    pub fn is_empty(&self) -> (r: bool)
        ensures
            r == (self@.len() == 0),
    {
        self.data.len() == 0
    }

    pub fn len(&self) -> (r: usize)
        ensures
            r == self@.len(),
    {
        self.data.len()
    }

    /// Adds `item` to the bag.
    pub fn add(&mut self, item: T)
        ensures
            final(self)@ == old(self)@.push(item),
    {
        self.data.push(item);
    }

    /// An iterator over the items.
    pub fn iter(&self) -> (r: VecBagIter<'_, T>)
        ensures
            r.wf(),
            r@ == self@,
    {
        let r = VecBagIter { data: self.data.as_slice(), current: 0 };
        assert(r@ =~= self@);
        r
    }
}

impl<T> Default for VecBag<T> {
    fn default() -> (r: Self)
        ensures
            r@ == Seq::<T>::empty(),
    {
        VecBag::new()
    }
}

/// An iterator over the items of a `VecBag`, in the order of insertion.
pub struct VecBagIter<'a, T> {
    data: &'a [T],
    current: usize,
}

impl<'a, T> View for VecBagIter<'a, T> {
    type V = Seq<T>;

    /// The items not handed out yet.
    closed spec fn view(&self) -> Seq<T> {
        self.data@.subrange(self.current as int, self.data@.len() as int)
    }
}

impl<'a, T> VecBagIter<'a, T> {
    pub closed spec fn wf(&self) -> bool {
        self.current <= self.data@.len()
    }

    pub fn next(&mut self) -> (r: Option<&'a T>)
        requires
            old(self).wf(),
        ensures
            final(self).wf(),
            old(self)@.len() == 0 ==> r is None && final(self)@ == old(self)@,
            old(self)@.len() > 0 ==> r == Some(&old(self)@[0]) && final(self)@ == old(
                self,
            )@.drop_first(),
    {
        if self.current < self.data.len() {
            let i = self.current;
            self.current = i + 1;
            assert(self@ =~= old(self)@.drop_first());
            Some(&self.data[i])
        } else {
            None
        }
    }
}

} // verus!
