use vstd::prelude::*;

verus! {

/// The storage under a growable array: one slot for each unit of capacity.
///
/// A slot holds `Some(x)` while an element `x` lives there and `None` while it is free, so no
/// slot is ever read before it was written, and every element has exactly one owner. Since a
/// slot is an ordinary value, zero-sized element types need no special case.
pub(crate) struct RawVec<T> {
    pub(crate) slots: Vec<Option<T>>,
}

impl<T> RawVec<T> {
    /// Number of slots.
    pub(crate) open spec fn capacity(&self) -> nat {
        self.slots@.len()
    }

    /// Capacity that `grow` moves to from capacity `c`: 0 becomes 1, everything else doubles.
    pub(crate) open spec fn grown(c: nat) -> nat {
        if c == 0 {
            1
        } else {
            2 * c
        }
    }

    /// All slots in `[lo, hi)` are free.
    pub(crate) open spec fn free_in(&self, lo: int, hi: int) -> bool {
        forall|i: int| lo <= i < hi ==> (#[trigger] self.slots@[i]) is None
    }

    /// All slots in `[lo, hi)` hold an element.
    pub(crate) open spec fn live_in(&self, lo: int, hi: int) -> bool {
        forall|i: int| lo <= i < hi ==> (#[trigger] self.slots@[i]) is Some
    }

    /// The elements held in slots `[lo, hi)`, in slot order.
    pub(crate) open spec fn elems(&self, lo: int, hi: int) -> Seq<T> {
        Seq::new((hi - lo) as nat, |k: int| self.slots@[lo + k]->Some_0)
    }

    /// A buffer with no slots; nothing is allocated.
    pub(crate) fn new() -> (r: Self)
        ensures
            r.capacity() == 0,
    {
        RawVec { slots: Vec::new() }
    }

    /// A buffer with `n` free slots.
    pub(crate) fn with_capacity(n: usize) -> (r: Self)
        ensures
            r.capacity() == n,
            r.free_in(0, n as int),
    {
        let mut slots: Vec<Option<T>> = Vec::new();
        while slots.len() < n
            invariant
                slots@.len() <= n,
                forall|i: int| 0 <= i < slots@.len() ==> (#[trigger] slots@[i]) is None,
            decreases n - slots@.len(),
        {
            slots.push(None);
        }
        RawVec { slots }
    }

    pub(crate) fn cap(&self) -> (r: usize)
        ensures
            r == self.capacity(),
    {
        self.slots.len()
    }

    /// Doubles the capacity (from 0 to 1 for an empty buffer). The new slots are free and
    /// the old ones keep what they held.
    pub(crate) fn grow(&mut self)
        requires
            old(self).capacity() <= usize::MAX / 2,
        ensures
            final(self).capacity() == Self::grown(old(self).capacity()),
            final(self).slots@.subrange(0, old(self).capacity() as int) == old(self).slots@,
            final(self).free_in(old(self).capacity() as int, final(self).capacity() as int),
    {
        let old_cap = self.slots.len();
        let new_cap: usize = if old_cap == 0 {
            1
        } else {
            2 * old_cap
        };
        while self.slots.len() < new_cap
            invariant
                old_cap <= self.slots@.len() <= new_cap,
                self.slots@.subrange(0, old_cap as int) == old(self).slots@,
                self.free_in(old_cap as int, self.slots@.len() as int),
            decreases new_cap - self.slots@.len(),
        {
            self.slots.push(None);
            assert(self.slots@.subrange(0, old_cap as int) =~= old(self).slots@);
        }
    }

    /// Halves the capacity. The slots given up must be free.
    pub(crate) fn shrink(&mut self)
        requires
            old(self).free_in((old(self).capacity() / 2) as int, old(self).capacity() as int),
        ensures
            final(self).capacity() == old(self).capacity() / 2,
            final(self).slots@ == old(self).slots@.subrange(0, final(self).capacity() as int),
    {
        let new_cap = self.slots.len() / 2;
        self.slots.truncate(new_cap);
    }

    /// Moves the element out of slot `i`, leaving the slot free.
    pub(crate) fn take(&mut self, i: usize) -> (r: Option<T>)
        requires
            i < old(self).capacity(),
        ensures
            r == old(self).slots@[i as int],
            final(self).slots@ == old(self).slots@.update(i as int, None),
    {
        self.slots[i].take()
    }

    /// Moves `x` into slot `i`.
    pub(crate) fn put(&mut self, i: usize, x: T)
        requires
            i < old(self).capacity(),
        ensures
            final(self).slots@ == old(self).slots@.update(i as int, Some(x)),
    {
        self.slots[i] = Some(x);
    }
}

/// A range `[start, end)` of live slots in a buffer, handed out one element at a time from
/// either end. The iterators of the vector are thin wrappers around it.
pub(crate) struct RawValIter<T> {
    pub(crate) buf: RawVec<T>,
    pub(crate) start: usize,
    pub(crate) end: usize,
}

impl<T> RawValIter<T> {
    pub(crate) open spec fn wf(&self) -> bool {
        &&& self.start <= self.end <= self.buf.capacity()
        &&& self.buf.live_in(self.start as int, self.end as int)
    }

    /// The elements not yet handed out, front first.
    pub(crate) open spec fn rest(&self) -> Seq<T> {
        self.buf.elems(self.start as int, self.end as int)
    }

    /// Takes over `buf` and hands out its slots `[0, len)`.
    pub(crate) fn new(buf: RawVec<T>, len: usize) -> (r: Self)
        requires
            len <= buf.capacity(),
            buf.live_in(0, len as int),
        ensures
            r.wf(),
            r.rest() == buf.elems(0, len as int),
    {
        RawValIter { buf, start: 0, end: len }
    }

    pub(crate) fn next(&mut self) -> (r: Option<T>)
        requires
            old(self).wf(),
        ensures
            final(self).wf(),
            old(self).rest().len() == 0 ==> r is None && final(self).rest() == old(self).rest(),
            old(self).rest().len() > 0 ==> r == Some(old(self).rest()[0])
                && final(self).rest() == old(self).rest().drop_first(),
    {
        if self.start < self.end {
            let i = self.start;
            let r = self.buf.take(i);
            self.start = i + 1;
            assert(self.rest() =~= old(self).rest().drop_first());
            r
        } else {
            None
        }
    }

    pub(crate) fn next_back(&mut self) -> (r: Option<T>)
        requires
            old(self).wf(),
        ensures
            final(self).wf(),
            old(self).rest().len() == 0 ==> r is None && final(self).rest() == old(self).rest(),
            old(self).rest().len() > 0 ==> r == Some(old(self).rest().last())
                && final(self).rest() == old(self).rest().drop_last(),
    {
        if self.start < self.end {
            let i = self.end - 1;
            let r = self.buf.take(i);
            self.end = i;
            assert(self.rest() =~= old(self).rest().drop_last());
            r
        } else {
            None
        }
    }

    pub(crate) fn remaining(&self) -> (r: usize)
        requires
            self.wf(),
        ensures
            r == self.rest().len(),
    {
        self.end - self.start
    }
}

impl<T> RawVec<T> {
    /// Moves the elements of slots `[lo, hi)` one slot up, into `[lo + 1, hi + 1)`. Slot `hi`
    /// must be free before; slot `lo` is free after.
    pub(crate) fn shift_up(&mut self, lo: usize, hi: usize)
        requires
            lo <= hi < old(self).capacity(),
            old(self).slots@[hi as int] is None,
        ensures
            final(self).capacity() == old(self).capacity(),
            forall|k: int|
                0 <= k < old(self).capacity() ==> #[trigger] final(self).slots@[k] == if k == lo {
                    None
                } else if lo < k <= hi {
                    old(self).slots@[k - 1]
                } else {
                    old(self).slots@[k]
                },
    {
        let mut j = hi;
        while j > lo
            invariant
                lo <= j <= hi < old(self).capacity(),
                self.capacity() == old(self).capacity(),
                old(self).slots@[hi as int] is None,
                forall|k: int|
                    0 <= k < old(self).capacity() ==> #[trigger] self.slots@[k] == if k == j {
                        None
                    } else if j < k <= hi {
                        old(self).slots@[k - 1]
                    } else {
                        old(self).slots@[k]
                    },
            decreases j,
        {
            let x = self.slots[j - 1].take();
            self.slots[j] = x;
            j = j - 1;
        }
    }

    /// Moves the elements of slots `[lo, hi)` one slot down, into `[lo - 1, hi - 1)`. Slot
    /// `lo - 1` must be free before; slot `hi - 1` is free after.
    pub(crate) fn shift_down(&mut self, lo: usize, hi: usize)
        requires
            0 < lo <= hi <= old(self).capacity(),
            old(self).slots@[lo - 1] is None,
        ensures
            final(self).capacity() == old(self).capacity(),
            forall|k: int|
                0 <= k < old(self).capacity() ==> #[trigger] final(self).slots@[k] == if k
                    == hi - 1 {
                    None
                } else if lo - 1 <= k < hi - 1 {
                    old(self).slots@[k + 1]
                } else {
                    old(self).slots@[k]
                },
    {
        let mut j = lo;
        while j < hi
            invariant
                0 < lo <= j <= hi <= old(self).capacity(),
                self.capacity() == old(self).capacity(),
                old(self).slots@[lo - 1] is None,
                forall|k: int|
                    0 <= k < old(self).capacity() ==> #[trigger] self.slots@[k] == if k == j - 1 {
                        None
                    } else if lo - 1 <= k < j - 1 {
                        old(self).slots@[k + 1]
                    } else {
                        old(self).slots@[k]
                    },
            decreases hi - j,
        {
            let x = self.slots[j].take();
            self.slots[j - 1] = x;
            j = j + 1;
        }
    }
}

impl<T> RawVec<T> {
    /// Moves the elements of slots `[lo, hi)` down by `d` slots, into `[lo - d, hi - d)`. The
    /// `d` slots below `lo` must be free before; the `d` slots below `hi` are free after.
    pub(crate) fn move_down(&mut self, lo: usize, hi: usize, d: usize)
        requires
            d <= lo <= hi <= old(self).capacity(),
            old(self).free_in(lo - d, lo as int),
        ensures
            final(self).capacity() == old(self).capacity(),
            forall|k: int|
                0 <= k < old(self).capacity() ==> #[trigger] final(self).slots@[k] == if lo - d
                    <= k < hi - d {
                    old(self).slots@[k + d]
                } else if hi - d <= k < hi {
                    None
                } else {
                    old(self).slots@[k]
                },
    {
        let mut j = lo;
        while j < hi
            invariant
                d <= lo <= j <= hi <= old(self).capacity(),
                self.capacity() == old(self).capacity(),
                old(self).free_in(lo - d, lo as int),
                forall|k: int|
                    0 <= k < old(self).capacity() ==> #[trigger] self.slots@[k] == if lo - d <= k
                        < j - d {
                        old(self).slots@[k + d]
                    } else if j - d <= k < j {
                        None
                    } else {
                        old(self).slots@[k]
                    },
            decreases hi - j,
        {
            let x = self.slots[j].take();
            self.slots[j - d] = x;
            j = j + 1;
        }
    }
}

} // verus!
