use crate::list::{clone_list, head_ref, list_seq, ref_seq, step, Node};
use vstd::prelude::*;

verus! {

/// A last-in-first-out stack on a singly linked list. Its contents `self@` are listed from the
/// top down.
pub struct LinkedStack<T> {
    first: Option<Box<Node<T>>>,
    n: usize,
}

impl<T> View for LinkedStack<T> {
    type V = Seq<T>;

    closed spec fn view(&self) -> Seq<T> {
        list_seq(self.first)
    }
}

impl<T> LinkedStack<T> {
    /// The count kept beside the list is its length.
    pub closed spec fn wf(&self) -> bool {
        self.n == list_seq(self.first).len()
    }

    /// Creates an empty stack.
    pub fn new() -> (r: Self)
        ensures
            r.wf(),
            r@ == Seq::<T>::empty(),
    {
        LinkedStack { first: None, n: 0 }
    }

    pub fn is_empty(&self) -> (r: bool)
        requires
            self.wf(),
        ensures
            r == (self@.len() == 0),
    {
        self.first.is_none()
    }

    pub fn len(&self) -> (r: usize)
        requires
            self.wf(),
        ensures
            r == self@.len(),
    {
        self.n
    }

    /// Puts `item` on top.
    pub fn push(&mut self, item: T)
        requires
            old(self).wf(),
            old(self)@.len() < usize::MAX,
        ensures
            final(self).wf(),
            final(self)@ == seq![item] + old(self)@,
    {
        let mut node = Node::new(item);
        node.next = self.first.take();
        self.first = Some(Box::new(node));
        self.n = self.n + 1;
    }

    /// Removes the top item and returns it, or `None` when the stack is empty.
    pub fn pop(&mut self) -> (r: Option<T>)
        requires
            old(self).wf(),
        ensures
            final(self).wf(),
            old(self)@.len() == 0 ==> r is None && final(self)@ == old(self)@,
            old(self)@.len() > 0 ==> r == Some(old(self)@[0]) && final(self)@ == old(
                self,
            )@.drop_first(),
    {
        match self.first.take() {
            None => None,
            Some(b) => {
                let node = *b;
                self.first = node.next;
                self.n = self.n - 1;
                assert(list_seq(self.first) =~= old(self)@.drop_first());
                Some(node.item)
            },
        }
    }

    /// The top item, or `None` when the stack is empty.
    pub fn peek(&self) -> (r: Option<&T>)
        requires
            self.wf(),
        ensures
            self@.len() == 0 ==> r is None,
            self@.len() > 0 ==> r == Some(&self@[0]),
    {
        match &self.first {
            Some(b) => Some(&b.item),
            None => None,
        }
    }

    /// An iterator over the items from the top down.
    pub fn iter(&self) -> (r: LinedStackIter<'_, T>)
        ensures
            r@ == self@,
    {
        LinedStackIter { current: head_ref(&self.first) }
    }
}

impl<T: Clone> Clone for LinkedStack<T> {
    /// A stack with a list of its own, holding a clone of each item in the same order.
    fn clone(&self) -> (r: Self)
        ensures
            self.wf() ==> r.wf(),
            r@.len() == self@.len(),
            forall|i: int| 0 <= i < self@.len() ==> cloned::<T>(self@[i], #[trigger] r@[i]),
    {
        LinkedStack { first: clone_list(&self.first), n: self.n }
    }
}

impl<T> Drop for LinkedStack<T> {
    /// Frees the nodes one at a time, so that a long list does not drop recursively.
    fn drop(&mut self)
        opens_invariants none
        no_unwind
    {
        let mut cur: Option<Box<Node<T>>> = None;
        core::mem::swap(&mut cur, &mut self.first);
        loop
            decreases list_seq(cur).len(),
        {
            match cur {
                Some(b) => {
                    let node = *b;
                    cur = node.next;
                },
                None => {
                    break;
                },
            }
        }
    }
}

impl<T> Default for LinkedStack<T> {
    fn default() -> (r: Self)
        ensures
            r.wf(),
            r@ == Seq::<T>::empty(),
    {
        LinkedStack::new()
    }
}

/// An iterator over the items of a `LinkedStack`, from the top down.
pub struct LinedStackIter<'a, T> {
    current: Option<&'a Node<T>>,
}

impl<'a, T> View for LinedStackIter<'a, T> {
    type V = Seq<T>;

    /// The items not handed out yet.
    closed spec fn view(&self) -> Seq<T> {
        ref_seq(self.current)
    }
}

impl<'a, T> LinedStackIter<'a, T> {
    pub fn next(&mut self) -> (r: Option<&'a T>)
        ensures
            old(self)@.len() == 0 ==> r is None && final(self)@ == old(self)@,
            old(self)@.len() > 0 ==> r == Some(&old(self)@[0]) && final(self)@ == old(
                self,
            )@.drop_first(),
    {
        step(&mut self.current)
    }
}

} // verus!
