//! A growable array that manages its own buffer of slots.
use core::marker::PhantomData;
use vstd::prelude::*;

pub(crate) mod raw_vec;

use raw_vec::{RawValIter, RawVec};

verus! {

/// A growable array.
///
/// The buffer grows by doubling (0, 1, 2, 4, ...) when a push or an insert finds it full. It
/// never shrinks on `pop`. Its contents are modelled by `self@`, a `Seq<T>`.
pub struct SVec<T> {
    buf: RawVec<T>,
    len: usize,
}

impl<T> View for SVec<T> {
    type V = Seq<T>;

    closed spec fn view(&self) -> Seq<T> {
        self.buf.elems(0, self.len as int)
    }
}

/// Bound on the length under which a push or an insert may still grow the buffer: a buffer
/// twice that size would exceed the address space.
pub open spec fn room_for_one_more(len: nat) -> bool {
    len < usize::MAX / 2
}

/// Capacity after growing a full buffer of capacity `c`: 1 for an empty one, else twice `c`.
pub open spec fn grown_capacity(c: nat) -> nat {
    if c == 0 {
        1
    } else {
        2 * c
    }
}

impl<T> SVec<T> {
    /// Slots `[0, len)` hold the elements, the other slots are free.
    pub closed spec fn wf(&self) -> bool {
        &&& self.len <= self.buf.capacity()
        &&& self.buf.live_in(0, self.len as int)
        &&& self.buf.free_in(self.len as int, self.buf.capacity() as int)
    }

    /// Number of slots in the buffer.
    pub closed spec fn capacity(&self) -> nat {
        self.buf.capacity()
    }

    /// The elements fit in the buffer.
    pub proof fn lemma_len_le_capacity(&self)
        requires
            self.wf(),
        ensures
            self@.len() <= self.capacity(),
    {
    }

    /// Creates an empty vector; nothing is allocated.
    pub fn new() -> (r: Self)
        ensures
            r.wf(),
            r@ == Seq::<T>::empty(),
            r.capacity() == 0,
    {
        let r = SVec { buf: RawVec::new(), len: 0 };
        assert(r@ =~= Seq::<T>::empty());
        r
    }

    /// Creates an empty vector with room for `capacity` elements.
    pub fn with_capacity(capacity: usize) -> (r: Self)
        ensures
            r.wf(),
            r@ == Seq::<T>::empty(),
            r.capacity() == capacity,
    {
        let r = SVec { buf: RawVec::with_capacity(capacity), len: 0 };
        assert(r@ =~= Seq::<T>::empty());
        r
    }

    pub fn len(&self) -> (r: usize)
        requires
            self.wf(),
        ensures
            r == self@.len(),
    {
        self.len
    }

    pub fn is_empty(&self) -> (r: bool)
        requires
            self.wf(),
        ensures
            r == (self@.len() == 0),
    {
        self.len == 0
    }

    /// Number of slots in the buffer.
    pub fn cap(&self) -> (r: usize)
        ensures
            r == self.capacity(),
    {
        self.buf.cap()
    }

    /// Appends `elem` at the back, growing the buffer first when it is full.
    pub fn push(&mut self, elem: T)
        requires
            old(self).wf(),
            room_for_one_more(old(self)@.len()),
        ensures
            final(self).wf(),
            final(self)@ == old(self)@.push(elem),
            final(self)@.len() <= final(self).capacity(),
            final(self).capacity() == if old(self)@.len() == old(self).capacity() {
                grown_capacity(old(self).capacity())
            } else {
                old(self).capacity()
            },
    {
        if self.len == self.buf.cap() {
            self.buf.grow();
            assert(self.buf.slots@.subrange(0, old(self).buf.capacity() as int)
                == old(self).buf.slots@);
            assert forall|i: int| 0 <= i < self.len implies (#[trigger] self.buf.slots@[i])
                == old(self).buf.slots@[i] by {
                assert(self.buf.slots@.subrange(0, old(self).buf.capacity() as int)[i]
                    == self.buf.slots@[i]);
            }
        }
        self.buf.put(self.len, elem);
        self.len = self.len + 1;
        assert(self@ =~= old(self)@.push(elem));
    }

    /// Removes the last element and returns it, or `None` when the vector is empty.
    pub fn pop(&mut self) -> (r: Option<T>)
        requires
            old(self).wf(),
        ensures
            final(self).wf(),
            old(self)@.len() == 0 ==> r is None && final(self)@ == old(self)@,
            old(self)@.len() > 0 ==> r == Some(old(self)@.last()) && final(self)@
                == old(self)@.drop_last(),
            final(self).capacity() == old(self).capacity(),
            final(self)@.len() <= final(self).capacity(),
    {
        if self.len == 0 {
            None
        } else {
            self.len = self.len - 1;
            let r = self.buf.take(self.len);
            assert(self@ =~= old(self)@.drop_last());
            r
        }
    }

    /// Inserts `elem` at position `index`, moving the elements from `index` on one place
    /// towards the back.
    pub fn insert(&mut self, index: usize, elem: T)
        requires
            old(self).wf(),
            index <= old(self)@.len(),
            room_for_one_more(old(self)@.len()),
        ensures
            final(self).wf(),
            final(self)@ == old(self)@.insert(index as int, elem),
            final(self)@.len() <= final(self).capacity(),
            final(self).capacity() == if old(self)@.len() == old(self).capacity() {
                grown_capacity(old(self).capacity())
            } else {
                old(self).capacity()
            },
    {
        if self.len == self.buf.cap() {
            self.buf.grow();
            assert forall|i: int| 0 <= i < self.len implies (#[trigger] self.buf.slots@[i])
                == old(self).buf.slots@[i] by {
                assert(self.buf.slots@.subrange(0, old(self).buf.capacity() as int)[i]
                    == self.buf.slots@[i]);
            }
        }
        let ghost mid = self.buf;
        self.buf.shift_up(index, self.len);
        self.buf.put(index, elem);
        self.len = self.len + 1;
        assert forall|k: int| 0 <= k < self.len implies (#[trigger] self.buf.slots@[k]) is Some by {
            if k != index {
                assert(self.buf.slots@[k] == if index < k <= self.len - 1 {
                    mid.slots@[k - 1]
                } else {
                    mid.slots@[k]
                });
            }
        }
        assert forall|k: int| self.len <= k < self.buf.capacity() implies (
        #[trigger] self.buf.slots@[k]) is None by {
            assert(self.buf.slots@[k] == mid.slots@[k]);
        }
        assert(self@ =~= old(self)@.insert(index as int, elem));
    }

    /// Removes the element at position `index` and returns it, moving the elements after it
    /// one place towards the front.
    pub fn remove(&mut self, index: usize) -> (r: T)
        requires
            old(self).wf(),
            index < old(self)@.len(),
        ensures
            final(self).wf(),
            r == old(self)@[index as int],
            final(self)@ == old(self)@.remove(index as int),
            final(self).capacity() == old(self).capacity(),
            final(self)@.len() <= final(self).capacity(),
    {
        let x = self.buf.take(index);
        let ghost mid = self.buf;
        self.buf.shift_down(index + 1, self.len);
        self.len = self.len - 1;
        assert forall|k: int| 0 <= k < self.len implies (#[trigger] self.buf.slots@[k]) is Some by {
            assert(self.buf.slots@[k] == if index <= k < self.len {
                mid.slots@[k + 1]
            } else {
                mid.slots@[k]
            });
        }
        assert forall|k: int| self.len <= k < self.buf.capacity() implies (
        #[trigger] self.buf.slots@[k]) is None by {
            assert(self.buf.slots@[k] == if k == self.len {
                None
            } else {
                mid.slots@[k]
            });
        }
        assert(self@ =~= old(self)@.remove(index as int));
        x.unwrap()
    }

    /// The element at position `index`.
    pub fn index(&self, index: usize) -> (r: &T)
        requires
            self.wf(),
            index < self@.len(),
        ensures
            *r == self@[index as int],
    {
        self.buf.slots[index].as_ref().unwrap()
    }

    /// The element at position `index`, or `None` past the end.
    pub fn get(&self, index: usize) -> (r: Option<&T>)
        requires
            self.wf(),
        ensures
            index < self@.len() ==> r == Some(&self@[index as int]),
            index >= self@.len() ==> r is None,
    {
        if index < self.len {
            Some(self.index(index))
        } else {
            None
        }
    }

    /// Replaces the element at position `index` by `elem`.
    pub fn set(&mut self, index: usize, elem: T)
        requires
            old(self).wf(),
            index < old(self)@.len(),
        ensures
            final(self).wf(),
            final(self)@ == old(self)@.update(index as int, elem),
    {
        self.buf.put(index, elem);
        assert(self@ =~= old(self)@.update(index as int, elem));
    }

    /// Exchanges the elements at positions `i` and `j`.
    pub fn swap(&mut self, i: usize, j: usize)
        requires
            old(self).wf(),
            i < old(self)@.len(),
            j < old(self)@.len(),
        ensures
            final(self).wf(),
            final(self)@ == old(self)@.update(i as int, old(self)@[j as int]).update(
                j as int,
                old(self)@[i as int],
            ),
    {
        if i != j {
            let a = self.buf.take(i);
            let b = self.buf.take(j);
            self.buf.put(i, b.unwrap());
            self.buf.put(j, a.unwrap());
        }
        assert(self@ =~= old(self)@.update(i as int, old(self)@[j as int]).update(
            j as int,
            old(self)@[i as int],
        ));
    }

    /// References to the elements, front first.
    pub fn refs(&self) -> (r: Vec<&T>)
        requires
            self.wf(),
        ensures
            r@.len() == self@.len(),
            forall|i: int| 0 <= i < self@.len() ==> *#[trigger] r@[i] == self@[i],
    {
        let mut r: Vec<&T> = Vec::new();
        let mut i: usize = 0;
        while i < self.len
            invariant
                self.wf(),
                i <= self@.len(),
                r@.len() == i,
                forall|k: int| 0 <= k < i ==> *#[trigger] r@[k] == self@[k],
            decreases self@.len() - i,
        {
            r.push(self.index(i));
            i = i + 1;
        }
        r
    }

    /// Empties the vector at once and returns an iterator that hands out what it held.
    ///
    /// The vector is empty as soon as this returns, before any element is taken, and it keeps
    /// its buffer and capacity. The elements move into the iterator: dropping the iterator
    /// drops those not taken, and leaking it leaks them, never anything twice.
    pub fn drain(&mut self) -> (r: Drain<'_, T>)
        requires
            old(self).wf(),
        ensures
            final(self).wf(),
            final(self)@ == Seq::<T>::empty(),
            final(self).capacity() == old(self).capacity(),
            r.wf(),
            r@ == old(self)@,
    {
        let n = self.len;
        let mut moved: RawVec<T> = RawVec::with_capacity(n);
        let mut i: usize = 0;
        while i < n
            invariant
                n == old(self).len,
                old(self).wf(),
                i <= n,
                self.len == n,
                self.buf.capacity() == old(self).buf.capacity(),
                moved.capacity() == n,
                forall|k: int| 0 <= k < i ==> (#[trigger] self.buf.slots@[k]) is None,
                forall|k: int| 0 <= k < i ==> #[trigger] moved.slots@[k] == old(self).buf.slots@[k],
                forall|k: int|
                    i <= k < self.buf.capacity() ==> #[trigger] self.buf.slots@[k]
                        == old(self).buf.slots@[k],
                forall|k: int| i <= k < n ==> (#[trigger] moved.slots@[k]) is None,
            decreases n - i,
        {
            let x = self.buf.take(i);
            moved.slots[i] = x;
            i = i + 1;
        }
        self.len = 0;
        proof {
            assert(self@ =~= Seq::<T>::empty());
            assert forall|k: int| 0 <= k < self.buf.capacity() implies (#[trigger] self.buf.slots@[k]) is None by {
                if k >= n {
                    assert(self.buf.slots@[k] == old(self).buf.slots@[k]);
                }
            }
            assert(moved.elems(0, n as int) =~= old(self)@);
        }
        Drain { vec: PhantomData, iter: RawValIter::new(moved, n) }
    }

    /// Turns the vector into an iterator that owns its buffer and hands out its elements.
    pub fn into_iter(self) -> (r: SVecIntoIter<T>)
        requires
            self.wf(),
        ensures
            r.wf(),
            r@ == self@,
    {
        SVecIntoIter { iter: RawValIter::new(self.buf, self.len) }
    }
}

impl<T: Clone> SVec<T> {
    /// A vector of `n` clones of `elem`.
    pub fn from_elem(elem: T, n: usize) -> (r: Self)
        requires
            n < usize::MAX / 2,
        ensures
            r.wf(),
            r@.len() == n,
            forall|i: int| 0 <= i < n ==> cloned::<T>(elem, #[trigger] r@[i]),
    {
        let mut v = SVec::new();
        let mut i: usize = 0;
        while i < n
            invariant
                v.wf(),
                i <= n < usize::MAX / 2,
                v@.len() == i,
                forall|k: int| 0 <= k < i ==> cloned::<T>(elem, #[trigger] v@[k]),
            decreases n - i,
        {
            v.push(elem.clone());
            i = i + 1;
        }
        v
    }
}

impl<T> SVec<T> {
    /// A vector holding the items of `items`, in the same order.
    pub fn from_vec(items: Vec<T>) -> (r: Self)
        requires
            room_for_one_more(items@.len()),
        ensures
            r.wf(),
            r@ == items@,
    {
        let mut items = items;
        let ghost orig = items@;
        let mut rev: Vec<T> = Vec::new();
        while items.len() > 0
            invariant
                items@.len() + rev@.len() == orig.len(),
                items@ == orig.subrange(0, items@.len() as int),
                forall|k: int| 0 <= k < rev@.len() ==> #[trigger] rev@[k] == orig[orig.len() - 1 - k],
            decreases items@.len(),
        {
            let x = items.pop().unwrap();
            rev.push(x);
            assert(items@ =~= orig.subrange(0, items@.len() as int));
        }
        let mut v = SVec::new();
        while rev.len() > 0
            invariant
                v.wf(),
                v@.len() + rev@.len() == orig.len(),
                room_for_one_more(orig.len()),
                v@ == orig.subrange(0, v@.len() as int),
                forall|k: int| 0 <= k < rev@.len() ==> #[trigger] rev@[k] == orig[orig.len() - 1 - k],
            decreases rev@.len(),
        {
            let x = rev.pop().unwrap();
            v.push(x);
            assert(v@ =~= orig.subrange(0, v@.len() as int));
        }
        assert(v@ =~= orig);
        v
    }
}

impl<T: Clone> Clone for SVec<T> {
    /// A vector with a buffer of its own, holding a clone of each element.
    fn clone(&self) -> (r: Self)
        ensures
            self.wf() ==> r.wf() && r@.len() == self@.len() && forall|i: int|
                0 <= i < self@.len() ==> cloned::<T>(self@[i], #[trigger] r@[i]),
    {
        let mut v = SVec { buf: RawVec::with_capacity(self.buf.cap()), len: 0 };
        assert(v@ =~= Seq::<T>::empty());
        if self.len <= self.buf.cap() {
            let mut i: usize = 0;
            while i < self.len
                invariant
                    v.wf(),
                    i <= self.len <= self.buf.capacity(),
                    v.buf.capacity() == self.buf.capacity(),
                    v.len == i,
                    self.wf() ==> forall|k: int| 0 <= k < i ==> cloned::<T>(self@[k], #[trigger] v@[k]),
                decreases self.len - i,
            {
                let x = self.buf.slots[i].as_ref();
                match x {
                    Some(e) => {
                        let c = e.clone();
                        let ghost before = v@;
                        v.buf.put(i, c);
                        v.len = i + 1;
                        assert(v@ =~= before.push(c));
                        assert(cloned::<T>(*e, c));
                    },
                    None => {
                        return v;
                    },
                }
                i = i + 1;
            }
        }
        v
    }
}

impl<T> Default for SVec<T> {
    fn default() -> (r: Self)
        ensures
            r.wf(),
            r@ == Seq::<T>::empty(),
    {
        SVec::new()
    }
}

/// Contents after pushing the items of `xs` one by one onto contents `s`, as `push` states it.
pub open spec fn after_pushes<T>(s: Seq<T>, xs: Seq<T>) -> Seq<T>
    decreases xs.len(),
{
    if xs.len() == 0 {
        s
    } else {
        after_pushes(s, xs.drop_last()).push(xs.last())
    }
}

/// Contents left and the items returned, in order, after popping `n` times from contents `s`,
/// as `pop` states it.
pub open spec fn after_pops<T>(s: Seq<T>, n: nat) -> (Seq<T>, Seq<T>)
    decreases n,
{
    if n == 0 || s.len() == 0 {
        (s, Seq::empty())
    } else {
        let (rest, popped) = after_pops(s.drop_last(), (n - 1) as nat);
        (rest, seq![s.last()] + popped)
    }
}

/// Pushing the items of `xs` and then popping as many times gives them back in reverse order
/// and leaves the contents as they were.
pub proof fn lemma_push_pop_inverse<T>(s: Seq<T>, xs: Seq<T>)
    ensures
        after_pops(after_pushes(s, xs), xs.len()) == (s, xs.reverse()),
    decreases xs.len(),
{
    if xs.len() > 0 {
        let pushed = after_pushes(s, xs);
        assert(pushed.drop_last() =~= after_pushes(s, xs.drop_last()));
        lemma_push_pop_inverse(s, xs.drop_last());
        assert(seq![xs.last()] + xs.drop_last().reverse() =~= xs.reverse());
    } else {
        assert(xs.reverse() =~= Seq::<T>::empty());
    }
}

/// Inserting `x` at position `i` gives one more element, `x` at `i` and the others in their
/// order; removing position `i` again gives back the contents before, element for element.
pub proof fn lemma_insert_remove_inverse<T>(s: Seq<T>, i: int, x: T)
    requires
        0 <= i <= s.len(),
    ensures
        s.insert(i, x).len() == s.len() + 1,
        s.insert(i, x)[i] == x,
        forall|k: int| 0 <= k < i ==> #[trigger] s.insert(i, x)[k] == s[k],
        forall|k: int| i < k <= s.len() ==> #[trigger] s.insert(i, x)[k] == s[k - 1],
        s.insert(i, x).remove(i) == s,
{
    assert(s.insert(i, x).remove(i) =~= s);
}

/// The iterator that a vector turns into: it owns the buffer and hands out the elements from
/// either end. Those not handed out are dropped with it, and the buffer is freed once.
pub struct SVecIntoIter<T> {
    iter: RawValIter<T>,
}

impl<T> View for SVecIntoIter<T> {
    type V = Seq<T>;

    /// The elements not handed out yet, front first.
    closed spec fn view(&self) -> Seq<T> {
        self.iter.rest()
    }
}

impl<T> SVecIntoIter<T> {
    pub closed spec fn wf(&self) -> bool {
        self.iter.wf()
    }

    /// Takes the front element, or `None` when all were taken.
    pub fn next(&mut self) -> (r: Option<T>)
        requires
            old(self).wf(),
        ensures
            final(self).wf(),
            old(self)@.len() == 0 ==> r is None && final(self)@ == old(self)@,
            old(self)@.len() > 0 ==> r == Some(old(self)@[0]) && final(self)@ == old(
                self,
            )@.drop_first(),
    {
        self.iter.next()
    }

    /// Takes the back element, or `None` when all were taken.
    pub fn next_back(&mut self) -> (r: Option<T>)
        requires
            old(self).wf(),
        ensures
            final(self).wf(),
            old(self)@.len() == 0 ==> r is None && final(self)@ == old(self)@,
            old(self)@.len() > 0 ==> r == Some(old(self)@.last()) && final(self)@ == old(
                self,
            )@.drop_last(),
    {
        self.iter.next_back()
    }

    /// Exact number of elements left, as a lower and an upper bound.
    pub fn size_hint(&self) -> (r: (usize, Option<usize>))
        requires
            self.wf(),
        ensures
            r.0 == self@.len(),
            r.1 == Some(r.0),
    {
        let n = self.iter.remaining();
        (n, Some(n))
    }
}

/// The iterator that `SVec::drain` returns. It holds the vector's former elements, in storage of
/// its own, and keeps the vector mutably borrowed while it lives.
pub struct Drain<'a, T> {
    vec: PhantomData<&'a mut SVec<T>>,
    iter: RawValIter<T>,
}

impl<'a, T> View for Drain<'a, T> {
    type V = Seq<T>;

    /// The elements not handed out yet, front first.
    closed spec fn view(&self) -> Seq<T> {
        self.iter.rest()
    }
}

impl<'a, T> Drain<'a, T> {
    pub closed spec fn wf(&self) -> bool {
        self.iter.wf()
    }

    /// Takes the front element, or `None` when all were taken.
    pub fn next(&mut self) -> (r: Option<T>)
        requires
            old(self).wf(),
        ensures
            final(self).wf(),
            old(self)@.len() == 0 ==> r is None && final(self)@ == old(self)@,
            old(self)@.len() > 0 ==> r == Some(old(self)@[0]) && final(self)@ == old(
                self,
            )@.drop_first(),
    {
        self.iter.next()
    }

    /// Takes the back element, or `None` when all were taken.
    pub fn next_back(&mut self) -> (r: Option<T>)
        requires
            old(self).wf(),
        ensures
            final(self).wf(),
            old(self)@.len() == 0 ==> r is None && final(self)@ == old(self)@,
            old(self)@.len() > 0 ==> r == Some(old(self)@.last()) && final(self)@ == old(
                self,
            )@.drop_last(),
    {
        self.iter.next_back()
    }

    /// Exact number of elements left, as a lower and an upper bound.
    pub fn size_hint(&self) -> (r: (usize, Option<usize>))
        requires
            self.wf(),
        ensures
            r.0 == self@.len(),
            r.1 == Some(r.0),
    {
        let n = self.iter.remaining();
        (n, Some(n))
    }
}

} // verus!
