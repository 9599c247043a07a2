use std::collections::VecDeque;
use vstd::prelude::*;

verus! {

/// A first-in-first-out queue on a `VecDeque`. Its contents `self@` are listed least recently
/// added first.
pub struct ResizingQueue<T> {
    data: VecDeque<T>,
}

impl<T> View for ResizingQueue<T> {
    type V = Seq<T>;

    closed spec fn view(&self) -> Seq<T> {
        self.data@
    }
}

impl<T> ResizingQueue<T> {
    /// Creates an empty queue.
    pub fn new() -> (r: Self)
        ensures
            r@ == Seq::<T>::empty(),
    {
        ResizingQueue { data: VecDeque::new() }
    }

    pub fn is_empty(&self) -> (r: bool)
        ensures
            r == (self@.len() == 0),
    {
        self.data.len() == 0
    }

    pub fn len(&self) -> (r: usize)
        ensures
            r == self@.len(),
    {
        self.data.len()
    }

    /// Adds `item` at the back.
    pub fn enqueue(&mut self, item: T)
        ensures
            final(self)@ == old(self)@.push(item),
    {
        self.data.push_back(item);
    }

    /// Removes the item least recently added and returns it, or `None` when the queue is
    /// empty.
    pub fn dequeue(&mut self) -> (r: Option<T>)
        ensures
            old(self)@.len() == 0 ==> r is None && final(self)@ == old(self)@,
            old(self)@.len() > 0 ==> r == Some(old(self)@[0]) && final(self)@ == old(
                self,
            )@.drop_first(),
    {
        let r = self.data.pop_front();
        assert(old(self)@.len() > 0 ==> old(self)@.drop_first() =~= old(self)@.subrange(
            1,
            old(self)@.len() as int,
        ));
        r
    }

    /// The item least recently added, or `None` when the queue is empty.
    pub fn peek(&self) -> (r: Option<&T>)
        ensures
            self@.len() == 0 ==> r is None,
            self@.len() > 0 ==> r == Some(&self@[0]),
    {
        if self.data.len() == 0 {
            None
        } else {
            Some(&self.data[0])
        }
    }

    /// An iterator over the items, least recently added first.
    pub fn iter(&self) -> (r: ResizingQueueIter<'_, T>)
        ensures
            r.wf(),
            r@ == self@,
    {
        let r = ResizingQueueIter { data: &self.data, cursor: 0 };
        assert(r@ =~= self@);
        r
    }
}

impl<T: Clone> Clone for ResizingQueue<T> {
    /// A queue holding a clone of each item in the same order.
    fn clone(&self) -> (r: Self)
        ensures
            r@.len() == self@.len(),
            forall|i: int| 0 <= i < self@.len() ==> cloned::<T>(self@[i], #[trigger] r@[i]),
    {
        let mut q = ResizingQueue::new();
        let mut i: usize = 0;
        while i < self.data.len()
            invariant
                i <= self@.len(),
                q@.len() == i,
                forall|k: int| 0 <= k < i ==> cloned::<T>(self@[k], #[trigger] q@[k]),
            decreases self@.len() - i,
        {
            let c = self.data[i].clone();
            q.enqueue(c);
            i = i + 1;
        }
        q
    }
}

impl<T> Default for ResizingQueue<T> {
    fn default() -> (r: Self)
        ensures
            r@ == Seq::<T>::empty(),
    {
        ResizingQueue::new()
    }
}

/// An iterator over the items of a `ResizingQueue`, least recently added first.
pub struct ResizingQueueIter<'a, T> {
    data: &'a VecDeque<T>,
    cursor: usize,
}

impl<'a, T> View for ResizingQueueIter<'a, T> {
    type V = Seq<T>;

    /// The items not handed out yet.
    closed spec fn view(&self) -> Seq<T> {
        self.data@.subrange(self.cursor as int, self.data@.len() as int)
    }
}

impl<'a, T> ResizingQueueIter<'a, T> {
    pub closed spec fn wf(&self) -> bool {
        self.cursor <= self.data@.len()
    }

    pub fn next(&mut self) -> (r: Option<&'a T>)
        requires
            old(self).wf(),
        ensures
            final(self).wf(),
            old(self)@.len() == 0 ==> r is None && final(self)@ == old(self)@,
            old(self)@.len() > 0 ==> r == Some(&old(self)@[0]) && final(self)@ == old(
                self,
            )@.drop_first(),
    {
        if self.cursor < self.data.len() {
            let i = self.cursor;
            self.cursor = i + 1;
            assert(self@ =~= old(self)@.drop_first());
            Some(&self.data[i])
        } else {
            None
        }
    }
}

} // verus!
