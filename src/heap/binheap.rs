//! A binary heap in an `SVec`, shared by the max- and the min-priority queue.
use super::order::{
    below, lawful_order, lemma_below_refl, lemma_below_total, lemma_below_trans,
    lemma_swap_to_multiset, outranks, swapped,
};
use crate::vec::SVec;
use core::cmp::Ordering;
use vstd::multiset::Multiset;
use vstd::prelude::*;
use vstd::std_specs::cmp::OrdSpec;

verus! {

/// A binary heap. Slot 0 of `pq` holds a placeholder; the items sit in slots `1..=n`, and the
/// parent of slot `i` is slot `i / 2`. With `max_first` the largest item is on top, otherwise
/// the smallest.
pub(crate) struct BinHeap<T> {
    pub(crate) pq: SVec<T>,
    pub(crate) n: usize,
    pub(crate) max_first: bool,
}

/// The item in slot `i` may sit below its parent.
pub(crate) open spec fn edge_ok<T: Ord>(d: bool, s: Seq<T>, i: int) -> bool {
    below(d, s[i], s[i / 2])
}

/// Every item in slots `2..=n` may sit below its parent.
pub(crate) open spec fn heap_ordered<T: Ord>(d: bool, s: Seq<T>, n: int) -> bool {
    forall|i: int| 2 <= i <= n ==> #[trigger] edge_ok(d, s, i)
}

/// The items of a heap laid out in `s` with `n` items.
pub(crate) open spec fn keys<T>(s: Seq<T>, n: int) -> Seq<T> {
    s.subrange(1, n + 1)
}

/// Heap order holds except for the edge from slot `k` up, and the children of `k` may sit
/// below the parent of `k`: what holds while an item rises.
pub(crate) open spec fn swim_inv<T: Ord>(d: bool, s: Seq<T>, n: int, k: int) -> bool {
    &&& forall|i: int| 2 <= i <= n && i != k ==> #[trigger] edge_ok(d, s, i)
    &&& k > 1 ==> forall|i: int| 2 <= i <= n && i / 2 == k ==> #[trigger] below(d, s[i], s[k / 2])
}

/// Heap order holds except for the edges from the children of slot `k` up, and those children
/// may sit below the parent of `k`: what holds while an item sinks.
pub(crate) open spec fn sink_inv<T: Ord>(d: bool, s: Seq<T>, n: int, k: int) -> bool {
    &&& forall|i: int| 2 <= i <= n && i / 2 != k ==> #[trigger] edge_ok(d, s, i)
    &&& k > 1 ==> forall|i: int| 2 <= i <= n && i / 2 == k ==> #[trigger] below(d, s[i], s[k / 2])
}

/// In a heap, every item may sit below the top one.
pub(crate) proof fn lemma_top<T: Ord>(d: bool, s: Seq<T>, n: int, i: int)
    requires
        lawful_order::<T>(),
        heap_ordered(d, s, n),
        1 <= i <= n,
    ensures
        below(d, s[i], s[1]),
    decreases i,
{
    if i == 1 {
        lemma_below_refl(d, s[1]);
    } else {
        assert(edge_ok(d, s, i));
        lemma_top(d, s, n, i / 2);
        lemma_below_trans(d, s[i], s[i / 2], s[1]);
    }
}

pub(crate) proof fn lemma_top_of_all<T: Ord>(d: bool, s: Seq<T>, n: int)
    requires
        lawful_order::<T>(),
        heap_ordered(d, s, n),
        1 <= n < s.len(),
    ensures
        forall|x: T| keys(s, n).to_multiset().contains(x) ==> below(d, x, s[1]),
{
    assert forall|x: T| keys(s, n).to_multiset().contains(x) implies below(d, x, s[1]) by {
        vstd::seq_lib::to_multiset_contains(keys(s, n), x);
        let k = choose|k: int| 0 <= k < keys(s, n).len() && keys(s, n)[k] == x;
        lemma_top(d, s, n, k + 1);
    }
}

/// Putting the last item in the place of the first and dropping the last position removes
/// the first item.
pub(crate) proof fn lemma_move_last_to_first<T>(k: Seq<T>)
    requires
        k.len() > 0,
    ensures
        k.update(0, k.last()).drop_last().to_multiset() == k.to_multiset().remove(k[0]),
{
    broadcast use vstd::multiset::group_multiset_axioms;

    let u = k.update(0, k.last());
    vstd::seq_lib::to_multiset_update(k, 0, k.last());
    vstd::seq_lib::to_multiset_remove(u, u.len() - 1);
    assert(u.remove(u.len() - 1) =~= u.drop_last());
    vstd::seq_lib::to_multiset_contains(k, k[0]);
    vstd::seq_lib::to_multiset_contains(k, k.last());
    assert(u.drop_last().to_multiset() =~= k.to_multiset().remove(k[0]));
}

impl<T: Ord> BinHeap<T> {
    pub(crate) open spec fn wf(&self) -> bool {
        &&& self.pq.wf()
        &&& self.pq@.len() == self.n + 1
        &&& self.n < usize::MAX / 2
        &&& heap_ordered(self.max_first, self.pq@, self.n as int)
    }

    /// The items, as a multiset.
    pub(crate) open spec fn items(&self) -> Multiset<T> {
        keys(self.pq@, self.n as int).to_multiset()
    }

    /// An empty heap whose buffer has room for `capacity` slots, placeholder included.
    pub(crate) fn with_capacity(capacity: usize, placeholder: T, max_first: bool) -> (r: Self)
        ensures
            r.wf(),
            r.n == 0,
            r.max_first == max_first,
            r.items() == Multiset::<T>::empty(),
    {
        let mut pq = SVec::with_capacity(capacity);
        pq.push(placeholder);
        let r = BinHeap { pq, n: 0, max_first };
        proof {
            assert(keys(r.pq@, 0) =~= Seq::<T>::empty());
            keys(r.pq@, 0).to_multiset_ensures();
            vstd::multiset::lemma_multiset_empty_len(r.items());
        }
        r
    }

    /// The item on top, or `None` when the heap is empty.
    pub(crate) fn top(&self) -> (r: Option<&T>)
        requires
            self.wf(),
            lawful_order::<T>(),
        ensures
            self.n == 0 ==> r is None,
            self.n > 0 ==> {
                &&& r is Some
                &&& self.items().contains(*r->Some_0)
                &&& forall|x: T| self.items().contains(x) ==> below(self.max_first, x, *r->Some_0)
            },
    {
        if self.n == 0 {
            None
        } else {
            proof {
                lemma_top_of_all(self.max_first, self.pq@, self.n as int);
                vstd::seq_lib::to_multiset_contains(keys(self.pq@, self.n as int), self.pq@[1]);
                assert(keys(self.pq@, self.n as int)[0] == self.pq@[1]);
            }
            Some(self.pq.index(1))
        }
    }

    /// Whether the item in slot `j` outranks the one in slot `i`.
    fn less(&self, i: usize, j: usize) -> (r: bool)
        requires
            self.pq.wf(),
            i < self.pq@.len(),
            j < self.pq@.len(),
            T::obeys_cmp_spec(),
        ensures
            r == outranks(self.max_first, self.pq@[j as int], self.pq@[i as int]),
    {
        let c = self.pq.index(i).cmp(self.pq.index(j));
        if self.max_first {
            match c {
                Ordering::Less => true,
                _ => false,
            }
        } else {
            match c {
                Ordering::Greater => true,
                _ => false,
            }
        }
    }

    fn exch(&mut self, i: usize, j: usize)
        requires
            old(self).pq.wf(),
            1 <= i <= old(self).n,
            1 <= j <= old(self).n,
            old(self).pq@.len() == old(self).n + 1,
        ensures
            final(self).pq.wf(),
            final(self).n == old(self).n,
            final(self).max_first == old(self).max_first,
            final(self).pq@ == swapped(old(self).pq@, i as int, j as int),
            final(self).items() == old(self).items(),
    {
        self.pq.swap(i, j);
        proof {
            let s = old(self).pq@;
            let n = self.n as int;
            assert(keys(self.pq@, n) =~= swapped(keys(s, n), i - 1, j - 1));
            lemma_swap_to_multiset(keys(s, n), i - 1, j - 1);
        }
    }

    /// Moves the item in slot `k` up until its parent outranks it or it reaches the top.
    fn swim(&mut self, k: usize)
        requires
            old(self).pq.wf(),
            old(self).pq@.len() == old(self).n + 1,
            old(self).n < usize::MAX / 2,
            1 <= k <= old(self).n,
            lawful_order::<T>(),
            swim_inv(old(self).max_first, old(self).pq@, old(self).n as int, k as int),
        ensures
            final(self).wf(),
            final(self).n == old(self).n,
            final(self).max_first == old(self).max_first,
            final(self).items() == old(self).items(),
    {
        let d = self.max_first;
        let n = self.n;
        let mut k = k;
        while k > 1 && self.less(k / 2, k)
            invariant
                self.pq.wf(),
                self.pq@.len() == n + 1,
                self.n == n,
                self.max_first == d,
                n < usize::MAX / 2,
                1 <= k <= n,
                lawful_order::<T>(),
                swim_inv(d, self.pq@, n as int, k as int),
                self.items() == old(self).items(),
            decreases k,
        {
            let p = k / 2;
            let ghost s = self.pq@;
            self.exch(p, k);
            proof {
                let t = self.pq@;
                let ki = k as int;
                let pi = p as int;
                lemma_below_total(d, s[pi], s[ki]);
                assert forall|i: int| 2 <= i <= n && i != pi implies #[trigger] edge_ok(d, t, i) by {
                    if i == ki {
                    } else if i / 2 == ki {
                        assert(below(d, s[i], s[ki / 2]));
                    } else if i / 2 == pi {
                        assert(edge_ok(d, s, i));
                        lemma_below_trans(d, s[i], s[pi], s[ki]);
                    } else {
                        assert(edge_ok(d, s, i));
                    }
                }
                if pi > 1 {
                    assert forall|i: int| 2 <= i <= n && i / 2 == pi implies #[trigger] below(
                        d,
                        t[i],
                        t[pi / 2],
                    ) by {
                        assert(edge_ok(d, s, pi));
                        if i != ki {
                            assert(edge_ok(d, s, i));
                            lemma_below_trans(d, s[i], s[pi], s[pi / 2]);
                        }
                    }
                }
            }
            k = p;
        }
        proof {
            let s = self.pq@;
            if k > 1 {
                lemma_below_total(d, s[k as int / 2], s[k as int]);
                assert(edge_ok(d, s, k as int));
            }
            assert forall|i: int| 2 <= i <= n implies #[trigger] edge_ok(d, s, i) by {
                if i != k {
                }
            }
        }
    }

    /// Moves the item in slot `k` down, each time in place of its higher-ranking child, until
    /// no child outranks it.
    fn sink(&mut self, k: usize)
        requires
            old(self).pq.wf(),
            old(self).pq@.len() == old(self).n + 1,
            old(self).n < usize::MAX / 2,
            1 <= k,
            k <= old(self).n || k == 1,
            lawful_order::<T>(),
            sink_inv(old(self).max_first, old(self).pq@, old(self).n as int, k as int),
        ensures
            final(self).wf(),
            final(self).n == old(self).n,
            final(self).max_first == old(self).max_first,
            final(self).items() == old(self).items(),
    {
        let d = self.max_first;
        let n = self.n;
        let mut k = k;
        let mut done = false;
        while !done && 2 * k <= n
            invariant
                self.pq.wf(),
                self.pq@.len() == n + 1,
                self.n == n,
                self.max_first == d,
                n < usize::MAX / 2,
                1 <= k,
                k <= n || k == 1,
                lawful_order::<T>(),
                sink_inv(d, self.pq@, n as int, k as int),
                done ==> heap_ordered(d, self.pq@, n as int),
                self.items() == old(self).items(),
            decreases (if done {
                0
            } else {
                n + 1 - k
            }),
        {
            let ghost s = self.pq@;
            let mut j = 2 * k;
            if j < n && self.less(j, j + 1) {
                j = j + 1;
            }
            proof {
                let c = 2 * k as int;
                if c < n {
                    lemma_below_total(d, s[c], s[c + 1]);
                }
                assert forall|i: int| 2 <= i <= n && i / 2 == k && i != j implies below(
                    d,
                    s[i],
                    s[j as int],
                ) by {
                    assert(i == c || i == c + 1);
                }
            }
            if !self.less(k, j) {
                proof {
                    lemma_below_total(d, s[k as int], s[j as int]);
                    assert forall|i: int| 2 <= i <= n implies #[trigger] edge_ok(d, s, i) by {
                        if i / 2 == k && i != j {
                            lemma_below_trans(d, s[i], s[j as int], s[k as int]);
                        }
                    }
                }
                done = true;
            } else {
                self.exch(k, j);
                proof {
                    let t = self.pq@;
                    let ki = k as int;
                    let ji = j as int;
                    lemma_below_total(d, s[ki], s[ji]);
                    assert forall|i: int| 2 <= i <= n && i / 2 != ji implies #[trigger] edge_ok(
                        d,
                        t,
                        i,
                    ) by {
                        if i == ji {
                        } else if i / 2 == ki {
                        } else if i == ki {
                            assert(below(d, s[ji], s[ki / 2]));
                        } else {
                            assert(edge_ok(d, s, i));
                        }
                    }
                    assert forall|i: int| 2 <= i <= n && i / 2 == ji implies #[trigger] below(
                        d,
                        t[i],
                        t[ji / 2],
                    ) by {
                        assert(edge_ok(d, s, i));
                    }
                }
                k = j;
            }
        }
        proof {
            if !done {
                let s = self.pq@;
                assert forall|i: int| 2 <= i <= n implies #[trigger] edge_ok(d, s, i) by {
                    assert(i / 2 != k);
                }
            }
        }
    }

    /// Adds `x`.
    pub(crate) fn insert(&mut self, x: T)
        requires
            old(self).wf(),
            lawful_order::<T>(),
            old(self).n + 1 < usize::MAX / 2,
        ensures
            final(self).wf(),
            final(self).n == old(self).n + 1,
            final(self).max_first == old(self).max_first,
            final(self).items() == old(self).items().insert(x),
    {
        let ghost s = self.pq@;
        self.pq.push(x);
        self.n = self.n + 1;
        proof {
            let n = self.n as int;
            assert(keys(self.pq@, n) =~= keys(s, n - 1).push(x));
            vstd::seq_lib::to_multiset_build(keys(s, n - 1), x);
            assert forall|i: int| 2 <= i <= n && i != n implies #[trigger] edge_ok(
                self.max_first,
                self.pq@,
                i,
            ) by {
                assert(edge_ok(self.max_first, s, i));
            }
        }
        let n = self.n;
        self.swim(n);
    }

    /// Removes the item on top and returns it, or `None` when the heap is empty.
    pub(crate) fn del_top(&mut self) -> (r: Option<T>)
        requires
            old(self).wf(),
            lawful_order::<T>(),
        ensures
            final(self).wf(),
            final(self).max_first == old(self).max_first,
            old(self).n == 0 ==> r is None && final(self).items() == old(self).items()
                && final(self).n == 0,
            old(self).n > 0 ==> {
                &&& r is Some
                &&& old(self).items().contains(r->Some_0)
                &&& final(self).items() == old(self).items().remove(r->Some_0)
                &&& final(self).n == old(self).n - 1
                &&& forall|x: T|
                    old(self).items().contains(x) ==> below(old(self).max_first, x, r->Some_0)
            },
    {
        if self.n == 0 {
            return None;
        }
        let ghost s = self.pq@;
        let ghost d = self.max_first;
        proof {
            lemma_top_of_all(d, s, self.n as int);
            vstd::seq_lib::to_multiset_contains(keys(s, self.n as int), s[1]);
            assert(keys(s, self.n as int)[0] == s[1]);
        }
        let n = self.n;
        self.exch(1, n);
        let top = self.pq.pop();
        self.n = n - 1;
        proof {
            let kk = keys(s, n as int);
            lemma_move_last_to_first(kk);
            assert(keys(self.pq@, self.n as int) =~= kk.update(0, kk.last()).drop_last());
            let t = self.pq@;
            assert forall|i: int| 2 <= i <= self.n && i / 2 != 1 implies #[trigger] edge_ok(
                d,
                t,
                i,
            ) by {
                assert(edge_ok(d, s, i));
            }
        }
        self.sink(1);
        top
    }
}

} // verus!
