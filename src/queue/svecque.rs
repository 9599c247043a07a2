use crate::vec::raw_vec::RawVec;
use crate::vec::{grown_capacity, room_for_one_more};
use vstd::prelude::*;

verus! {

/// A first-in-first-out queue on a buffer of its own.
///
/// The items sit in slots `[front, back)`, least recently added first. When the back reaches
/// the end of the buffer the items move down to slot 0, and the buffer doubles only when it is
/// full. After a dequeue that leaves the queue a quarter full, the items move down and the
/// buffer halves.
pub struct SVecQue<T> {
    buf: RawVec<T>,
    front: usize,
    back: usize,
}

impl<T> View for SVecQue<T> {
    type V = Seq<T>;

    /// The items, least recently added first.
    closed spec fn view(&self) -> Seq<T> {
        self.buf.elems(self.front as int, self.back as int)
    }
}

impl<T> SVecQue<T> {
    pub closed spec fn wf(&self) -> bool {
        &&& self.front <= self.back <= self.buf.capacity()
        &&& self.buf.free_in(0, self.front as int)
        &&& self.buf.live_in(self.front as int, self.back as int)
        &&& self.buf.free_in(self.back as int, self.buf.capacity() as int)
        &&& self.back - self.front <= usize::MAX / 2
    }

    /// Number of slots in the buffer.
    pub closed spec fn capacity(&self) -> nat {
        self.buf.capacity()
    }

    /// Creates an empty queue; nothing is allocated.
    pub fn new() -> (r: Self)
        ensures
            r.wf(),
            r@ == Seq::<T>::empty(),
    {
        let r = SVecQue { buf: RawVec::new(), front: 0, back: 0 };
        assert(r@ =~= Seq::<T>::empty());
        r
    }

    pub fn is_empty(&self) -> (r: bool)
        requires
            self.wf(),
        ensures
            r == (self@.len() == 0),
    {
        self.back == self.front
    }

    pub fn len(&self) -> (r: usize)
        requires
            self.wf(),
        ensures
            r == self@.len(),
    {
        self.back - self.front
    }

    pub fn cap(&self) -> (r: usize)
        ensures
            r == self.capacity(),
    {
        self.buf.cap()
    }

    /// Moves the items down to slot 0.
    fn move_to_front(&mut self)
        requires
            old(self).wf(),
        ensures
            final(self).wf(),
            final(self).front == 0,
            final(self)@ == old(self)@,
            final(self).capacity() == old(self).capacity(),
    {
        let d = self.front;
        let ghost pre = self.buf;
        self.buf.move_down(d, self.back, d);
        self.front = 0;
        self.back = self.back - d;
        assert forall|k: int| 0 <= k < self.back implies (#[trigger] self.buf.slots@[k]) is Some by {
            assert(self.buf.slots@[k] == pre.slots@[k + d]);
        }
        assert forall|k: int| self.back <= k < self.buf.capacity() implies (
        #[trigger] self.buf.slots@[k]) is None by {
            if k >= self.back + d {
                assert(self.buf.slots@[k] == pre.slots@[k]);
            }
        }
        assert forall|k: int| 0 <= k < self.back implies #[trigger] self@[k] == old(self)@[k] by {
            assert(self.buf.slots@[k] == pre.slots@[k + d]);
        }
        assert(self@ =~= old(self)@);
    }

    /// Adds `elem` at the back.
    pub fn enqueue(&mut self, elem: T)
        requires
            old(self).wf(),
            room_for_one_more(old(self)@.len()),
        ensures
            final(self).wf(),
            final(self)@ == old(self)@.push(elem),
            final(self).capacity() == if old(self)@.len() == old(self).capacity() {
                grown_capacity(old(self).capacity())
            } else {
                old(self).capacity()
            },
    {
        if self.back == self.buf.cap() && self.front > 0 {
            self.move_to_front();
        }
        if self.back - self.front == self.buf.cap() {
            let ghost pre = self.buf;
            self.buf.grow();
            assert forall|i: int| 0 <= i < pre.capacity() implies (#[trigger] self.buf.slots@[i])
                == pre.slots@[i] by {
                assert(self.buf.slots@.subrange(0, pre.capacity() as int)[i]
                    == self.buf.slots@[i]);
            }
            assert(self@ =~= old(self)@);
        }
        let ghost pre = self@;
        self.buf.put(self.back, elem);
        self.back = self.back + 1;
        assert(self@ =~= pre.push(elem));
    }

    /// Removes the item least recently added and returns it, or `None` when the queue is
    /// empty.
    pub fn dequeue(&mut self) -> (r: Option<T>)
        requires
            old(self).wf(),
        ensures
            final(self).wf(),
            old(self)@.len() == 0 ==> r is None && final(self)@ == old(self)@,
            old(self)@.len() > 0 ==> r == Some(old(self)@[0]) && final(self)@ == old(
                self,
            )@.drop_first(),
            final(self).capacity() == if old(self)@.len() > 0 && old(self)@.len() - 1
                == old(self).capacity() / 4 {
                old(self).capacity() / 2
            } else {
                old(self).capacity()
            },
    {
        if self.back == self.front {
            None
        } else {
            let r = self.buf.take(self.front);
            self.front = self.front + 1;
            assert(self@ =~= old(self)@.drop_first());
            if self.back - self.front == self.buf.cap() / 4 {
                self.move_to_front();
                let ghost pre = self.buf;
                self.buf.shrink();
                assert forall|k: int| 0 <= k < self.buf.capacity() implies #[trigger] self.buf.slots@[k]
                    == pre.slots@[k] by {
                    assert(self.buf.slots@ == pre.slots@.subrange(0, self.buf.capacity() as int));
                }
                assert(self@ =~= old(self)@.drop_first());
            }
            r
        }
    }

    /// The item least recently added, or `None` when the queue is empty.
    pub fn peek(&self) -> (r: Option<&T>)
        requires
            self.wf(),
        ensures
            self@.len() == 0 ==> r is None,
            self@.len() > 0 ==> r == Some(&self@[0]),
    {
        if self.back == self.front {
            None
        } else {
            self.buf.slots[self.front].as_ref()
        }
    }

    /// An iterator over the items, least recently added first.
    pub fn iter(&self) -> (r: SVecQueIter<'_, T>)
        requires
            self.wf(),
        ensures
            r.wf(),
            r@ == self@,
    {
        SVecQueIter { buf: &self.buf, front: self.front, back: self.back }
    }
}

impl<T: Clone> Clone for SVecQue<T> {
    /// A queue with a buffer of its own, holding a clone of each item in the same order.
    fn clone(&self) -> (r: Self)
        ensures
            self.wf() ==> r.wf() && r@.len() == self@.len() && forall|i: int|
                0 <= i < self@.len() ==> cloned::<T>(self@[i], #[trigger] r@[i]),
    {
        let mut q = SVecQue::new();
        if self.front <= self.back && self.back <= self.buf.cap() && self.back - self.front
            <= usize::MAX / 2 {
            let mut i = self.front;
            while i < self.back
                invariant
                    q.wf(),
                    self.front <= i <= self.back <= self.buf.capacity(),
                    self.back - self.front <= usize::MAX / 2,
                    q@.len() == i - self.front,
                    self.wf() ==> forall|k: int|
                        0 <= k < i - self.front ==> cloned::<T>(self@[k], #[trigger] q@[k]),
                decreases self.back - i,
            {
                match self.buf.slots[i].as_ref() {
                    Some(e) => {
                        let c = e.clone();
                        let ghost before = q@;
                        q.enqueue(c);
                        assert(q@ == before.push(c));
                        assert(self.wf() ==> self@[i - self.front] == *e);
                    },
                    None => {
                        return q;
                    },
                }
                i = i + 1;
            }
        }
        q
    }
}

impl<T> Default for SVecQue<T> {
    fn default() -> (r: Self)
        ensures
            r.wf(),
            r@ == Seq::<T>::empty(),
    {
        SVecQue::new()
    }
}

/// An iterator over the items of an `SVecQue`, least recently added first.
pub struct SVecQueIter<'a, T> {
    buf: &'a RawVec<T>,
    front: usize,
    back: usize,
}

impl<'a, T> View for SVecQueIter<'a, T> {
    type V = Seq<T>;

    /// The items not handed out yet.
    closed spec fn view(&self) -> Seq<T> {
        self.buf.elems(self.front as int, self.back as int)
    }
}

impl<'a, T> SVecQueIter<'a, T> {
    pub closed spec fn wf(&self) -> bool {
        self.front <= self.back <= self.buf.capacity() && self.buf.live_in(
            self.front as int,
            self.back as int,
        )
    }

    pub fn next(&mut self) -> (r: Option<&'a T>)
        requires
            old(self).wf(),
        ensures
            final(self).wf(),
            old(self)@.len() == 0 ==> r is None && final(self)@ == old(self)@,
            old(self)@.len() > 0 ==> r == Some(&old(self)@[0]) && final(self)@ == old(
                self,
            )@.drop_first(),
    {
        if self.front < self.back {
            let i = self.front;
            self.front = i + 1;
            assert(self@ =~= old(self)@.drop_first());
            self.buf.slots[i].as_ref()
        } else {
            None
        }
    }
}

} // verus!
