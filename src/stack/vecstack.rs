use vstd::prelude::*;

verus! {

/// A last-in-first-out stack on a `Vec`. Its contents `self@` are listed from the bottom up.
pub struct VecStack<T> {
    data: Vec<T>,
}

impl<T> View for VecStack<T> {
    type V = Seq<T>;

    closed spec fn view(&self) -> Seq<T> {
        self.data@
    }
}

impl<T> VecStack<T> {
    /// Creates an empty stack.
    pub fn new() -> (r: Self)
        ensures
            r@ == Seq::<T>::empty(),
    {
        VecStack { data: Vec::new() }
    }

    pub fn is_empty(&self) -> (r: bool)
        ensures
            r == (self@.len() == 0),
    {
        self.data.len() == 0
    }

    pub fn len(&self) -> (r: usize)
        ensures
            r == self@.len(),
    {
        self.data.len()
    }

    /// Puts `item` on top.
    pub fn push(&mut self, item: T)
        ensures
            final(self)@ == old(self)@.push(item),
    {
        self.data.push(item);
    }

    /// Removes the top item and returns it, or `None` when the stack is empty.
    pub fn pop(&mut self) -> (r: Option<T>)
        ensures
            old(self)@.len() == 0 ==> r is None && final(self)@ == old(self)@,
            old(self)@.len() > 0 ==> r == Some(old(self)@.last()) && final(self)@ == old(
                self,
            )@.drop_last(),
    {
        self.data.pop()
    }

    /// The top item, or `None` when the stack is empty.
    pub fn peek(&self) -> (r: Option<&T>)
        ensures
            self@.len() == 0 ==> r is None,
            self@.len() > 0 ==> r == Some(&self@.last()),
    {
        let n = self.data.len();
        if n == 0 {
            None
        } else {
            Some(&self.data[n - 1])
        }
    }

    /// An iterator over the items from the top down.
    pub fn iter(&self) -> (r: VecStackIter<'_, T>)
        ensures
            r@ == self@.reverse(),
    {
        let r = VecStackIter { data: self.data.as_slice(), cursor: self.data.len() };
        assert(r@ =~= self@.reverse());
        r
    }
}

impl<T> Default for VecStack<T> {
    fn default() -> (r: Self)
        ensures
            r@ == Seq::<T>::empty(),
    {
        VecStack::new()
    }
}

/// An iterator over the items of a `VecStack`, from the top down.
pub struct VecStackIter<'a, T> {
    data: &'a [T],
    cursor: usize,
}

impl<'a, T> View for VecStackIter<'a, T> {
    type V = Seq<T>;

    /// The items not handed out yet.
    closed spec fn view(&self) -> Seq<T> {
        self.data@.subrange(0, self.cursor as int).reverse()
    }
}

impl<'a, T> VecStackIter<'a, T> {
    pub closed spec fn wf(&self) -> bool {
        self.cursor <= self.data@.len()
    }

    pub fn next(&mut self) -> (r: Option<&'a T>)
        requires
            old(self).wf(),
        ensures
            final(self).wf(),
            old(self)@.len() == 0 ==> r is None && final(self)@ == old(self)@,
            old(self)@.len() > 0 ==> r == Some(&old(self)@[0]) && final(self)@ == old(
                self,
            )@.drop_first(),
    {
        if self.cursor > 0 {
            let i = self.cursor - 1;
            self.cursor = i;
            assert(self@ =~= old(self)@.drop_first());
            Some(&self.data[i])
        } else {
            None
        }
    }
}

} // verus!
