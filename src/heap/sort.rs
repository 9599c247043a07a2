//! Heap sort in place.
use super::order::{lawful_order, le, lemma_below_refl, lemma_below_total, lemma_below_trans, outranks};
use crate::binary_search::sorted_by_le;
use core::cmp::Ordering;
use vstd::prelude::*;
use vstd::std_specs::cmp::OrdSpec;

verus! {

/// Relies on `<[T]>::swap`: exchanges the items at positions `a` and `b`.
#[verifier::external_body]
fn swap_items<T>(s: &mut [T], a: usize, b: usize)
    requires
        a < old(s)@.len(),
        b < old(s)@.len(),
    ensures
        final(s)@ == old(s)@.update(a as int, old(s)@[b as int]).update(b as int, old(s)@[a as int]),
{
    s.swap(a, b)
}

/// With positions counted from 1, the item at position `i` may sit below its parent at `i / 2`.
pub open spec fn hedge<T: Ord>(a: Seq<T>, i: int) -> bool {
    le(a[i - 1], a[i / 2 - 1])
}

/// Positions `1..=n` of `a` are heap-ordered on every edge whose parent is at `lo` or above.
pub open spec fn heap_from<T: Ord>(a: Seq<T>, n: int, lo: int) -> bool {
    forall|i: int| 2 <= i <= n && i / 2 >= lo ==> #[trigger] hedge(a, i)
}

/// What holds while the item that started at `lo` sinks and is now at `k`.
pub open spec fn sinking<T: Ord>(a: Seq<T>, n: int, k: int, lo: int) -> bool {
    &&& forall|i: int| 2 <= i <= n && i / 2 >= lo && i / 2 != k ==> #[trigger] hedge(a, i)
    &&& k / 2 >= lo && k >= 2 ==> forall|i: int|
        2 <= i <= n && i / 2 == k ==> #[trigger] le(a[i - 1], a[k / 2 - 1])
}

proof fn lemma_heap_top<T: Ord>(a: Seq<T>, n: int, i: int)
    requires
        lawful_order::<T>(),
        heap_from(a, n, 1),
        1 <= i <= n <= a.len(),
    ensures
        le(a[i - 1], a[0]),
    decreases i,
{
    if i == 1 {
        lemma_below_refl(true, a[0]);
    } else {
        assert(hedge(a, i));
        lemma_heap_top(a, n, i / 2);
        lemma_below_trans(true, a[i - 1], a[i / 2 - 1], a[0]);
    }
}

proof fn lemma_swap_prefix_multiset<T>(a: Seq<T>, i: int, j: int, n: int)
    requires
        0 <= i < n,
        0 <= j < n,
        n <= a.len(),
    ensures
        a.update(i, a[j]).update(j, a[i]).subrange(0, n).to_multiset() == a.subrange(0, n).to_multiset(),
{
    assert(a.update(i, a[j]).update(j, a[i]).subrange(0, n) =~= super::order::swapped(a.subrange(0, n), i, j));
    super::order::lemma_swap_to_multiset(a.subrange(0, n), i, j);
}

fn less<T: Ord>(pq: &[T], i: usize, j: usize) -> (r: bool)
    requires
        1 <= i <= pq@.len(),
        1 <= j <= pq@.len(),
        T::obeys_cmp_spec(),
    ensures
        r == outranks(true, pq@[j - 1], pq@[i - 1]),
{
    match pq[i - 1].cmp(&pq[j - 1]) {
        Ordering::Less => true,
        _ => false,
    }
}

fn exch<T>(pq: &mut [T], i: usize, j: usize)
    requires
        1 <= i <= old(pq)@.len(),
        1 <= j <= old(pq)@.len(),
    ensures
        final(pq)@ == old(pq)@.update(i - 1, old(pq)@[j - 1]).update(j - 1, old(pq)@[i - 1]),
{
    swap_items(pq, i - 1, j - 1);
}

/// Sinks the item at position `k` within positions `1..=n`, where the edges below it already
/// are heap-ordered.
fn sink<T: Ord>(pq: &mut [T], k: usize, n: usize)
    requires
        lawful_order::<T>(),
        1 <= k <= n <= old(pq)@.len(),
        n < usize::MAX / 2,
        heap_from(old(pq)@, n as int, k + 1),
    ensures
        final(pq)@.len() == old(pq)@.len(),
        heap_from(final(pq)@, n as int, k as int),
        forall|x: int| n <= x < old(pq)@.len() ==> #[trigger] final(pq)@[x] == old(pq)@[x],
        final(pq)@.subrange(0, n as int).to_multiset() == old(pq)@.subrange(0, n as int).to_multiset(),
{
    let lo = k;
    let mut k = k;
    let mut done = false;
    while !done && 2 * k <= n
        invariant
            lawful_order::<T>(),
            1 <= lo <= k <= n <= pq@.len(),
            pq@.len() == old(pq)@.len(),
            n < usize::MAX / 2,
            sinking(pq@, n as int, k as int, lo as int),
            done ==> heap_from(pq@, n as int, lo as int),
            forall|x: int| n <= x < old(pq)@.len() ==> #[trigger] pq@[x] == old(pq)@[x],
            pq@.subrange(0, n as int).to_multiset() == old(pq)@.subrange(0, n as int).to_multiset(),
        decreases (if done {
            0
        } else {
            n + 1 - k
        }),
    {
        let ghost s = pq@;
        let mut j = 2 * k;
        if j < n && less(pq, j, j + 1) {
            j = j + 1;
        }
        proof {
            let c = 2 * k as int;
            if c < n {
                lemma_below_total(true, s[c - 1], s[c]);
            }
            assert forall|i: int| 2 <= i <= n && i / 2 == k && i != j implies #[trigger] le(
                s[i - 1],
                s[j - 1],
            ) by {
                assert(i == c || i == c + 1);
            }
        }
        if !less(pq, k, j) {
            proof {
                lemma_below_total(true, s[k - 1], s[j - 1]);
                assert forall|i: int| 2 <= i <= n && i / 2 >= lo implies #[trigger] hedge(s, i) by {
                    if i / 2 == k && i != j {
                        lemma_below_trans(true, s[i - 1], s[j - 1], s[k - 1]);
                    }
                }
            }
            done = true;
        } else {
            exch(pq, k, j);
            proof {
                let t = pq@;
                let ki = k as int;
                let ji = j as int;
                lemma_below_total(true, s[ki - 1], s[ji - 1]);
                lemma_swap_prefix_multiset(s, ki - 1, ji - 1, n as int);
                assert forall|i: int| 2 <= i <= n && i / 2 >= lo && i / 2 != ji implies #[trigger] hedge(
                    t,
                    i,
                ) by {
                    if i == ji {
                    } else if i / 2 == ki {
                    } else if i == ki {
                        assert(le(s[ji - 1], s[ki / 2 - 1]));
                    } else {
                        assert(hedge(s, i));
                    }
                }
                assert forall|i: int| 2 <= i <= n && i / 2 == ji implies #[trigger] le(
                    t[i - 1],
                    t[ji / 2 - 1],
                ) by {
                    assert(hedge(s, i));
                }
            }
            k = j;
        }
    }
    proof {
        if !done {
            let s = pq@;
            assert forall|i: int| 2 <= i <= n && i / 2 >= lo implies #[trigger] hedge(s, i) by {
                assert(i / 2 != k);
            }
        }
    }
}

/// Sorts `pq` into non-decreasing order, in place, with a heap.
pub fn heap_sort<T: Ord>(pq: &mut [T])
    requires
        lawful_order::<T>(),
        old(pq)@.len() < usize::MAX / 2,
    ensures
        sorted_by_le(final(pq)@),
        final(pq)@.to_multiset() == old(pq)@.to_multiset(),
{
    let n = pq.len();
    proof {
        assert(pq@.subrange(0, n as int) =~= pq@);
    }
    let mut k = n / 2;
    while k >= 1
        invariant
            lawful_order::<T>(),
            n == pq@.len(),
            n < usize::MAX / 2,
            k <= n / 2,
            heap_from(pq@, n as int, k + 1),
            pq@.to_multiset() == old(pq)@.to_multiset(),
        decreases k,
    {
        let ghost before = pq@;
        sink(pq, k, n);
        proof {
            assert(pq@.subrange(0, n as int) =~= pq@);
            assert(before.subrange(0, n as int) =~= before);
        }
        k = k - 1;
    }
    let mut m = n;
    while m > 1
        invariant
            lawful_order::<T>(),
            n == pq@.len(),
            n < usize::MAX / 2,
            m <= n,
            heap_from(pq@, m as int, 1),
            forall|i: int, j: int| m <= i < j < n ==> le(#[trigger] pq@[i], #[trigger] pq@[j]),
            forall|i: int, j: int| 0 <= i < m <= j < n ==> le(#[trigger] pq@[i], #[trigger] pq@[j]),
            pq@.to_multiset() == old(pq)@.to_multiset(),
        decreases m,
    {
        let ghost a = pq@;
        proof {
            assert forall|i: int| 0 <= i < m implies le(#[trigger] a[i], a[0]) by {
                lemma_heap_top(a, m as int, i + 1);
            }
        }
        exch(pq, 1, m);
        let ghost b = pq@;
        proof {
            lemma_swap_prefix_multiset(a, 0, m - 1, n as int);
            assert(a.subrange(0, n as int) =~= a);
            assert(b.subrange(0, n as int) =~= b);
            assert forall|i: int| 2 <= i <= m - 1 && i / 2 >= 2 implies #[trigger] hedge(b, i) by {
                assert(hedge(a, i));
            }
        }
        m = m - 1;
        sink(pq, 1, m);
        proof {
            let c = pq@;
            let pre = b.subrange(0, m as int);
            assert forall|i: int| 0 <= i < m implies #[trigger] pre.to_multiset().contains(c[i]) by {
                vstd::seq_lib::to_multiset_contains(c.subrange(0, m as int), c[i]);
                assert(c.subrange(0, m as int)[i] == c[i]);
                vstd::seq_lib::to_multiset_contains(pre, c[i]);
            }
            assert forall|i: int, j: int| 0 <= i < m <= j < n implies le(#[trigger] c[i], #[trigger] c[j]) by {
                assert(pre.to_multiset().contains(c[i]));
                vstd::seq_lib::to_multiset_contains(pre, c[i]);
                let t = choose|t: int| 0 <= t < pre.len() && pre[t] == c[i];
                if t == 0 {
                    assert(b[0] == a[m as int]);
                    if j == m {
                        assert(c[j] == b[m as int]);
                        assert(b[m as int] == a[0]);
                        assert(le(a[m as int], a[0]));
                    } else {
                        assert(le(a[m as int], a[j]));
                    }
                } else {
                    assert(b[t] == a[t]);
                    if j == m {
                        assert(le(a[t], a[0]));
                    } else {
                        assert(le(a[t], a[j]));
                    }
                }
            }
            assert forall|i: int, j: int| m <= i < j < n implies le(#[trigger] c[i], #[trigger] c[j]) by {
                if i == m {
                    assert(c[i] == a[0]);
                    assert(le(a[0], a[j]));
                }
            }
            assert(c.subrange(0, n as int) =~= c);
            assert(c.subrange(0, m as int) + c.subrange(m as int, n as int) =~= c);
            assert(b.subrange(0, m as int) + b.subrange(m as int, n as int) =~= b);
            assert(c.subrange(m as int, n as int) =~= b.subrange(m as int, n as int));
            vstd::seq_lib::lemma_multiset_commutative(c.subrange(0, m as int), c.subrange(m as int, n as int));
            vstd::seq_lib::lemma_multiset_commutative(b.subrange(0, m as int), b.subrange(m as int, n as int));
        }
    }
    proof {
        let c = pq@;
        assert forall|i: int, j: int| 0 <= i < j < c.len() implies le(#[trigger] c[i], #[trigger] c[j]) by {
            assert(j >= m);
        }
    }
}

} // verus!
