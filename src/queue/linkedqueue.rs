use crate::list::{clone_list, head_ref, list_seq, ref_seq, step, Node};
use vstd::prelude::*;

verus! {

/// A first-in-first-out queue on two singly linked lists.
///
/// The front list holds the oldest items, oldest first; the back list holds the newer ones,
/// newest first. Items are added to the back list, taken from the front list, and the back
/// list is turned over onto the front one when the front one runs out. The front list is
/// empty only when the whole queue is.
pub struct LinkedQueue<T> {
    front: Option<Box<Node<T>>>,
    back: Option<Box<Node<T>>>,
    n: usize,
}

impl<T> View for LinkedQueue<T> {
    type V = Seq<T>;

    /// The items, least recently added first.
    closed spec fn view(&self) -> Seq<T> {
        list_seq(self.front) + list_seq(self.back).reverse()
    }
}

impl<T> LinkedQueue<T> {
    pub closed spec fn wf(&self) -> bool {
        &&& self.n == list_seq(self.front).len() + list_seq(self.back).len()
        &&& self.front is None ==> self.back is None
    }

    /// Creates an empty queue.
    pub fn new() -> (r: Self)
        ensures
            r.wf(),
            r@ == Seq::<T>::empty(),
    {
        let r = LinkedQueue { front: None, back: None, n: 0 };
        assert(r@ =~= Seq::<T>::empty());
        r
    }

    pub fn is_empty(&self) -> (r: bool)
        requires
            self.wf(),
        ensures
            r == (self@.len() == 0),
    {
        self.front.is_none()
    }

    pub fn len(&self) -> (r: usize)
        requires
            self.wf(),
        ensures
            r == self@.len(),
    {
        self.n
    }

    /// Adds `item` at the back.
    pub fn enqueue(&mut self, item: T)
        requires
            old(self).wf(),
            old(self)@.len() < usize::MAX,
        ensures
            final(self).wf(),
            final(self)@ == old(self)@.push(item),
    {
        let mut node = Node::new(item);
        if self.front.is_none() {
            self.front = Some(Box::new(node));
            assert(self@ =~= old(self)@.push(item));
        } else {
            node.next = self.back.take();
            self.back = Some(Box::new(node));
            assert(list_seq(self.back).reverse() =~= list_seq(old(self).back).reverse().push(item));
            assert(self@ =~= old(self)@.push(item));
        }
        self.n = self.n + 1;
    }

    /// Turns the back list over onto the (empty) front list.
    fn refill(&mut self)
        requires
            old(self).front is None,
        ensures
            list_seq(final(self).front) == list_seq(old(self).back).reverse(),
            final(self).back is None,
            final(self).n == old(self).n,
    {
        let ghost src = list_seq(self.back);
        while self.back.is_some()
            invariant
                list_seq(self.front).reverse() + list_seq(self.back) == src,
                self.n == old(self).n,
            decreases list_seq(self.back).len(),
        {
            let b = self.back.take().unwrap();
            let mut node = *b;
            self.back = node.next;
            let ghost x = node.item;
            let ghost rest = list_seq(self.back);
            let ghost f = list_seq(self.front);
            node.next = self.front.take();
            self.front = Some(Box::new(node));
            assert(list_seq(self.front) == seq![x] + f);
            assert((seq![x] + f).reverse() =~= f.reverse().push(x));
            assert(f.reverse().push(x) + rest =~= f.reverse() + (seq![x] + rest));
        }
        assert(list_seq(self.front).reverse().reverse() =~= list_seq(self.front));
        assert(list_seq(self.front).reverse() =~= src);
    }

    /// Removes the item least recently added and returns it, or `None` when the queue is
    /// empty.
    pub fn dequeue(&mut self) -> (r: Option<T>)
        requires
            old(self).wf(),
        ensures
            final(self).wf(),
            old(self)@.len() == 0 ==> r is None && final(self)@ == old(self)@,
            old(self)@.len() > 0 ==> r == Some(old(self)@[0]) && final(self)@ == old(
                self,
            )@.drop_first(),
    {
        match self.front.take() {
            None => {
                assert(list_seq(self.back).reverse() =~= Seq::<T>::empty());
                None
            },
            Some(b) => {
                let node = *b;
                self.front = node.next;
                self.n = self.n - 1;
                if self.front.is_none() {
                    self.refill();
                }
                assert(self@ =~= old(self)@.drop_first());
                Some(node.item)
            },
        }
    }

    /// The item least recently added, or `None` when the queue is empty.
    pub fn peek(&self) -> (r: Option<&T>)
        requires
            self.wf(),
        ensures
            self@.len() == 0 ==> r is None,
            self@.len() > 0 ==> r == Some(&self@[0]),
    {
        match &self.front {
            Some(b) => Some(&b.item),
            None => {
                assert(list_seq(self.back).reverse() =~= Seq::<T>::empty());
                None
            },
        }
    }

    /// An iterator over the items, least recently added first.
    pub fn iter(&self) -> (r: LinedQueueIter<'_, T>)
        requires
            self.wf(),
        ensures
            r@ == self@,
    {
        let mut cur = head_ref(&self.back);
        let mut newer: Vec<&T> = Vec::new();
        let ghost b = list_seq(self.back);
        while cur.is_some()
            invariant
                newer@.len() + ref_seq(cur).len() == b.len(),
                ref_seq(cur) == b.subrange(newer@.len() as int, b.len() as int),
                forall|i: int| 0 <= i < newer@.len() ==> *#[trigger] newer@[i] == b[i],
            decreases ref_seq(cur).len(),
        {
            let ghost before = ref_seq(cur);
            let x = step(&mut cur);
            match x {
                Some(e) => {
                    newer.push(e);
                    assert(ref_seq(cur) =~= b.subrange(newer@.len() as int, b.len() as int));
                },
                None => {},
            }
        }
        let r = LinedQueueIter { front: head_ref(&self.front), newer };
        assert(r@ =~= self@);
        r
    }
}

impl<T: Clone> Clone for LinkedQueue<T> {
    /// A queue with lists of its own, holding a clone of each item in the same order.
    fn clone(&self) -> (r: Self)
        ensures
            self.wf() ==> r.wf(),
            r@.len() == self@.len(),
            forall|i: int| 0 <= i < self@.len() ==> cloned::<T>(self@[i], #[trigger] r@[i]),
    {
        let r = LinkedQueue { front: clone_list(&self.front), back: clone_list(&self.back), n: self.n };
        let ghost f = list_seq(self.front);
        let ghost b = list_seq(self.back);
        assert forall|i: int| 0 <= i < self@.len() implies cloned::<T>(self@[i], #[trigger] r@[i]) by {
            if i >= f.len() {
                let j = b.len() - 1 - (i - f.len());
                assert(cloned::<T>(b[j], list_seq(r.back)[j]));
            }
        }
        r
    }
}

impl<T> Drop for LinkedQueue<T> {
    /// Frees the nodes one at a time, so that a long list does not drop recursively.
    fn drop(&mut self)
        opens_invariants none
        no_unwind
    {
        let mut cur: Option<Box<Node<T>>> = None;
        core::mem::swap(&mut cur, &mut self.front);
        loop
            decreases list_seq(cur).len(),
        {
            match cur {
                Some(b) => {
                    let node = *b;
                    cur = node.next;
                },
                None => {
                    break;
                },
            }
        }
        let mut cur: Option<Box<Node<T>>> = None;
        core::mem::swap(&mut cur, &mut self.back);
        loop
            decreases list_seq(cur).len(),
        {
            match cur {
                Some(b) => {
                    let node = *b;
                    cur = node.next;
                },
                None => {
                    break;
                },
            }
        }
    }
}

impl<T> Default for LinkedQueue<T> {
    fn default() -> (r: Self)
        ensures
            r.wf(),
            r@ == Seq::<T>::empty(),
    {
        LinkedQueue::new()
    }
}

/// An iterator over the items of a `LinkedQueue`, least recently added first: the nodes of the
/// front list, then references to the items of the back list, collected oldest last.
pub struct LinedQueueIter<'a, T> {
    front: Option<&'a Node<T>>,
    newer: Vec<&'a T>,
}

impl<'a, T> View for LinedQueueIter<'a, T> {
    type V = Seq<T>;

    /// The items not handed out yet.
    closed spec fn view(&self) -> Seq<T> {
        ref_seq(self.front) + self.newer@.map_values(|x: &T| *x).reverse()
    }
}

impl<'a, T> LinedQueueIter<'a, T> {
    pub fn next(&mut self) -> (r: Option<&'a T>)
        ensures
            old(self)@.len() == 0 ==> r is None && final(self)@ == old(self)@,
            old(self)@.len() > 0 ==> r == Some(&old(self)@[0]) && final(self)@ == old(
                self,
            )@.drop_first(),
    {
        if self.front.is_some() {
            let r = step(&mut self.front);
            assert(self@ =~= old(self)@.drop_first());
            r
        } else {
            let r = self.newer.pop();
            proof {
                if old(self)@.len() > 0 {
                    assert(self@ =~= old(self)@.drop_first());
                } else {
                    assert(self@ =~= old(self)@);
                }
            }
            r
        }
    }
}

} // verus!
