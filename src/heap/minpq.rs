use super::binheap::{keys, BinHeap};
use super::order::{lawful_order, le};
use vstd::multiset::Multiset;
use vstd::prelude::*;

verus! {

/// A priority queue that hands out its smallest item first, on a binary heap. Its contents
/// `self@` are a multiset.
pub struct MinPQ<T> {
    heap: BinHeap<T>,
}

impl<T: Ord> View for MinPQ<T> {
    type V = Multiset<T>;

    closed spec fn view(&self) -> Multiset<T> {
        self.heap.items()
    }
}

impl<T: Ord + Default> MinPQ<T> {
    pub closed spec fn wf(&self) -> bool {
        self.heap.wf() && self.heap.max_first == false
    }

    /// Creates an empty queue.
    pub fn new() -> (r: Self)
        ensures
            r.wf(),
            r@ == Multiset::<T>::empty(),
    {
        MinPQ { heap: BinHeap::with_capacity(0, T::default(), false) }
    }

    /// Creates an empty queue whose buffer has `capacity` slots to begin with.
    pub fn with_capacity(capacity: usize) -> (r: Self)
        ensures
            r.wf(),
            r@ == Multiset::<T>::empty(),
    {
        MinPQ { heap: BinHeap::with_capacity(capacity, T::default(), false) }
    }

    pub fn is_empty(&self) -> (r: bool)
        requires
            self.wf(),
        ensures
            r == (self@.len() == 0),
    {
        proof {
            vstd::seq_lib::to_multiset_len(keys(self.heap.pq@, self.heap.n as int));
        }
        self.heap.n == 0
    }

    pub fn len(&self) -> (r: usize)
        requires
            self.wf(),
        ensures
            r == self@.len(),
    {
        proof {
            vstd::seq_lib::to_multiset_len(keys(self.heap.pq@, self.heap.n as int));
        }
        self.heap.n
    }

    /// The smallest item, or `None` when the queue is empty.
    pub fn min(&self) -> (r: Option<&T>)
        requires
            self.wf(),
            lawful_order::<T>(),
        ensures
            self@.len() == 0 ==> r is None,
            self@.len() > 0 ==> {
                &&& r is Some
                &&& self@.contains(*r->Some_0)
                &&& forall|x: T| self@.contains(x) ==> le(*r->Some_0, x)
            },
    {
        proof {
            vstd::seq_lib::to_multiset_len(keys(self.heap.pq@, self.heap.n as int));
        }
        self.heap.top()
    }

    /// Adds `x`.
    pub fn insert(&mut self, x: T)
        requires
            old(self).wf(),
            lawful_order::<T>(),
            old(self)@.len() + 1 < usize::MAX / 2,
        ensures
            final(self).wf(),
            final(self)@ == old(self)@.insert(x),
    {
        proof {
            vstd::seq_lib::to_multiset_len(keys(self.heap.pq@, self.heap.n as int));
        }
        self.heap.insert(x);
    }

    /// Removes the smallest item and returns it, or `None` when the queue is empty.
    pub fn del_min(&mut self) -> (r: Option<T>)
        requires
            old(self).wf(),
            lawful_order::<T>(),
        ensures
            final(self).wf(),
            old(self)@.len() == 0 ==> r is None && final(self)@ == old(self)@,
            old(self)@.len() > 0 ==> {
                &&& r is Some
                &&& old(self)@.contains(r->Some_0)
                &&& final(self)@ == old(self)@.remove(r->Some_0)
                &&& forall|x: T| old(self)@.contains(x) ==> le(r->Some_0, x)
            },
    {
        proof {
            vstd::seq_lib::to_multiset_len(keys(self.heap.pq@, self.heap.n as int));
        }
        self.heap.del_top()
    }

    /// Turns the queue into an iterator that hands out its items, smallest first.
    pub fn into_iter(self) -> (r: MinPQIntoIter<T>)
        requires
            self.wf(),
        ensures
            r.wf(),
            r@ == self@,
    {
        MinPQIntoIter { moved_pq: self }
    }
}

impl<T: Ord + Default + Clone> MinPQ<T> {
    /// A queue holding clones of the items of `keys`.
    pub fn from_slice(keys: &[T]) -> (r: Self)
        requires
            lawful_order::<T>(),
            keys@.len() + 1 < usize::MAX / 2,
        ensures
            r.wf(),
            exists|c: Seq<T>|
                #![trigger c.to_multiset()]
                c.len() == keys@.len() && r@ == c.to_multiset() && forall|i: int|
                    0 <= i < keys@.len() ==> cloned::<T>(keys@[i], #[trigger] c[i]),
    {
        let ghost mut c: Seq<T> = Seq::empty();
        let mut pq = MinPQ::with_capacity(keys.len() + 1);
        proof {
            c.to_multiset_ensures();
            vstd::multiset::lemma_multiset_empty_len(c.to_multiset());
            assert(c.to_multiset() =~= Multiset::<T>::empty());
        }
        let mut i: usize = 0;
        while i < keys.len()
            invariant
                pq.wf(),
                lawful_order::<T>(),
                i <= keys@.len(),
                keys@.len() + 1 < usize::MAX / 2,
                c.len() == i,
                pq@ == c.to_multiset(),
                forall|k: int| 0 <= k < i ==> cloned::<T>(keys@[k], #[trigger] c[k]),
            decreases keys@.len() - i,
        {
            let x = keys[i].clone();
            proof {
                c.to_multiset_ensures();
                vstd::seq_lib::to_multiset_build(c, x);
                c = c.push(x);
            }
            pq.insert(x);
            i = i + 1;
        }
        pq
    }
}

impl<T: Ord + Default + Clone> Clone for MinPQ<T> {
    /// A queue with a buffer of its own, holding a clone of each item in the same slot.
    fn clone(&self) -> (r: Self) {
        MinPQ {
            heap: BinHeap {
                pq: self.heap.pq.clone(),
                n: self.heap.n,
                max_first: self.heap.max_first,
            },
        }
    }
}

/// The iterator that a `MinPQ` turns into: each step removes the smallest item.
pub struct MinPQIntoIter<T> {
    moved_pq: MinPQ<T>,
}

impl<T: Ord> View for MinPQIntoIter<T> {
    type V = Multiset<T>;

    /// The items not handed out yet.
    closed spec fn view(&self) -> Multiset<T> {
        self.moved_pq@
    }
}

impl<T: Ord + Default> MinPQIntoIter<T> {
    pub closed spec fn wf(&self) -> bool {
        self.moved_pq.wf()
    }

    pub fn next(&mut self) -> (r: Option<T>)
        requires
            old(self).wf(),
            lawful_order::<T>(),
        ensures
            final(self).wf(),
            old(self)@.len() == 0 ==> r is None && final(self)@ == old(self)@,
            old(self)@.len() > 0 ==> {
                &&& r is Some
                &&& old(self)@.contains(r->Some_0)
                &&& final(self)@ == old(self)@.remove(r->Some_0)
                &&& forall|x: T| old(self)@.contains(x) ==> le(r->Some_0, x)
            },
    {
        self.moved_pq.del_min()
    }
}

} // verus!
