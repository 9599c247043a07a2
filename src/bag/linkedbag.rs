use crate::list::{clone_list, head_ref, list_seq, ref_seq, step, Node};
use vstd::prelude::*;

verus! {

/// A bag on a singly linked list. Its contents `self@` are listed in the order in which
/// `iter` hands them out: the item added last comes first.
pub struct LinkedBag<T> {
    first: Option<Box<Node<T>>>,
    n: usize,
}

impl<T> View for LinkedBag<T> {
    type V = Seq<T>;

    closed spec fn view(&self) -> Seq<T> {
        list_seq(self.first)
    }
}

impl<T> LinkedBag<T> {
    /// The count kept beside the list is its length.
    pub closed spec fn wf(&self) -> bool {
        self.n == list_seq(self.first).len()
    }

    /// Creates an empty bag.
    pub fn new() -> (r: Self)
        ensures
            r.wf(),
            r@ == Seq::<T>::empty(),
    {
        LinkedBag { first: None, n: 0 }
    }

    pub fn is_empty(&self) -> (r: bool)
        requires
            self.wf(),
        ensures
            r == (self@.len() == 0),
    {
        self.first.is_none()
    }

    pub fn len(&self) -> (r: usize)
        requires
            self.wf(),
        ensures
            r == self@.len(),
    {
        self.n
    }

    /// Adds `item` to the bag.
    pub fn add(&mut self, item: T)
        requires
            old(self).wf(),
            old(self)@.len() < usize::MAX,
        ensures
            final(self).wf(),
            final(self)@ == seq![item] + old(self)@,
    {
        let mut node = Node::new(item);
        node.next = self.first.take();
        self.first = Some(Box::new(node));
        self.n = self.n + 1;
    }

    /// An iterator over the items.
    pub fn iter(&self) -> (r: LinkedBagIter<'_, T>)
        ensures
            r@ == self@,
    {
        LinkedBagIter { current: head_ref(&self.first) }
    }
}

impl<T: Clone> Clone for LinkedBag<T> {
    /// A bag with a list of its own, holding a clone of each item in the same order.
    fn clone(&self) -> (r: Self)
        ensures
            self.wf() ==> r.wf(),
            r@.len() == self@.len(),
            forall|i: int| 0 <= i < self@.len() ==> cloned::<T>(self@[i], #[trigger] r@[i]),
    {
        LinkedBag { first: clone_list(&self.first), n: self.n }
    }
}

impl<T> Drop for LinkedBag<T> {
    /// Frees the nodes one at a time, so that a long list does not drop recursively.
    fn drop(&mut self)
        opens_invariants none
        no_unwind
    {
        let mut cur: Option<Box<Node<T>>> = None;
        core::mem::swap(&mut cur, &mut self.first);
        loop
            decreases list_seq(cur).len(),
        {
            match cur {
                Some(b) => {
                    let node = *b;
                    cur = node.next;
                },
                None => {
                    break;
                },
            }
        }
    }
}

impl<T> Default for LinkedBag<T> {
    fn default() -> (r: Self)
        ensures
            r.wf(),
            r@ == Seq::<T>::empty(),
    {
        LinkedBag::new()
    }
}

/// An iterator over the items of a `LinkedBag`.
pub struct LinkedBagIter<'a, T> {
    current: Option<&'a Node<T>>,
}

impl<'a, T> View for LinkedBagIter<'a, T> {
    type V = Seq<T>;

    /// The items not handed out yet.
    closed spec fn view(&self) -> Seq<T> {
        ref_seq(self.current)
    }
}

impl<'a, T> LinkedBagIter<'a, T> {
    pub fn next(&mut self) -> (r: Option<&'a T>)
        ensures
            old(self)@.len() == 0 ==> r is None && final(self)@ == old(self)@,
            old(self)@.len() > 0 ==> r == Some(&old(self)@[0]) && final(self)@ == old(
                self,
            )@.drop_first(),
    {
        step(&mut self.current)
    }
}

} // verus!
