//! Counting the triples of integers that sum to exactly 0, by sorting and binary search.
use crate::binary_search::{index_of_i32_seq, sorted_by_le, sorted_i32};
use crate::error::InvalidArgument;
use crate::heap::order::lemma_i32_lawful;
use crate::heap::sort::heap_sort;
use crate::threesum::{
    cell3, cell3_list, lemma_row3_mono, lemma_three_sum_count_permutation,
    lemma_triples_below_mono, row3, row3_list, three_sum_count, triples_below, triples_list_below,
    zero3, zero_triples,
};
use crate::twosum_fast::{
    contains_duplicates, has_duplicates, lemma_duplicates_permutation, lemma_sorted_distinct,
    strictly_increasing,
};
use vstd::prelude::*;

verus! {

/// In a strictly increasing sequence, at most one position completes `p`, `q`.
proof fn lemma_cell3_distinct(s: Seq<i32>, p: int, q: int, k: int)
    requires
        strictly_increasing(s),
        0 <= p < q < s.len(),
        k <= s.len(),
    ensures
        cell3(s, p, q, k) == if exists|r: int| q < r < k && s[p] + s[q] + s[r] == 0 {
            1nat
        } else {
            0nat
        },
    decreases k - q,
{
    if k > q + 1 {
        lemma_cell3_distinct(s, p, q, k - 1);
        if zero3(s, p, q, k - 1) == 1 {
            assert forall|r: int| q < r < k - 1 implies !(s[p] + s[q] + s[r] == 0) by {
                assert(s[r] < s[k - 1]);
            }
        }
    }
}

/// Sorts `a`, then counts the triples of its items that sum to exactly 0; an error when two
/// items are equal.
pub fn count(a: &mut [i32]) -> (r: Result<i32, InvalidArgument>)
    requires
        old(a)@.len() < usize::MAX / 2,
        three_sum_count(old(a)@) <= i32::MAX,
    ensures
        sorted_i32(final(a)@),
        final(a)@.to_multiset() == old(a)@.to_multiset(),
        r is Err <==> has_duplicates(old(a)@),
        r is Err ==> r->Err_0.0@ == "slice contains duplicate integers"@,
        r is Ok ==> r->Ok_0 == three_sum_count(old(a)@),
{
    proof {
        lemma_i32_lawful();
    }
    heap_sort(a);
    proof {
        lemma_duplicates_permutation(a@, old(a)@);
        lemma_three_sum_count_permutation(a@, old(a)@);
        a@.to_multiset_ensures();
        old(a)@.to_multiset_ensures();
        assert(sorted_by_le(a@));
        assert forall|i: int, j: int| 0 <= i < j < a@.len() implies #[trigger] a@[i] <= #[trigger] a@[j] by {
            assert(crate::heap::order::le(a@[i], a@[j]));
        }
    }
    if contains_duplicates(a) {
        proof {
            let k = choose|k: int| 1 <= k < a@.len() && #[trigger] a@[k] == a@[k - 1];
            assert(a@[k - 1] == a@[k]);
        }
        return Err(InvalidArgument(String::from_str("slice contains duplicate integers")));
    }
    proof {
        lemma_sorted_distinct(a@);
    }
    let n = a.len();
    let mut count: i32 = 0;
    let mut i: usize = 0;
    while i < n
        invariant
            n == a@.len(),
            n < usize::MAX / 2,
            i <= n,
            sorted_i32(a@),
            strictly_increasing(a@),
            three_sum_count(a@) <= i32::MAX,
            count == triples_below(a@, i as int),
        decreases n - i,
    {
        let mut j: usize = i + 1;
        while j < n
            invariant
                n == a@.len(),
                n < usize::MAX / 2,
                i < j <= n,
                sorted_i32(a@),
                strictly_increasing(a@),
                three_sum_count(a@) <= i32::MAX,
                count == triples_below(a@, i as int) + row3(a@, i as int, j as int),
            decreases n - j,
        {
            proof {
                lemma_cell3_distinct(a@, i as int, j as int, n as int);
            }
            let sum = a[i] as i64 + a[j] as i64;
            if -sum >= i32::MIN as i64 && -sum <= i32::MAX as i64 {
                let key = (-sum) as i32;
                let k = index_of_i32_seq(a, &key);
                if k > j as i64 {
                    proof {
                        assert(a@[i as int] + a@[j as int] + a@[k as int] == 0);
                        lemma_row3_mono(a@, i as int, j + 1, n as int);
                        lemma_triples_below_mono(a@, i + 1, n as int);
                    }
                    count = count + 1;
                } else {
                    proof {
                        assert forall|r: int| j < r < n implies !(a@[i as int] + a@[j as int] + a@[r] == 0) by {
                            if a@[i as int] + a@[j as int] + a@[r] == 0 {
                                assert(a@.contains(key)) by {
                                    assert(a@[r] == key);
                                }
                                assert(a@[k as int] == key);
                                assert(a@[k as int] < a@[r]);
                            }
                        }
                    }
                }
            }
            j = j + 1;
        }
        i = i + 1;
    }
    Ok(count)
}

/// In a strictly increasing sequence, the zero-sum triples starting at `p`, `q` are the one
/// with its third item, if there is one.
proof fn lemma_cell3_list_distinct(s: Seq<i32>, p: int, q: int, k: int)
    requires
        strictly_increasing(s),
        0 <= p < q < s.len(),
        k <= s.len(),
    ensures
        forall|r: int| q < r < k && s[p] + s[q] + s[r] == 0 ==> cell3_list(s, p, q, k) == seq![(s[p], s[q], s[r])],
        (forall|r: int| q < r < k ==> s[p] + s[q] + s[r] != 0) ==> cell3_list(s, p, q, k) == Seq::<(i32, i32, i32)>::empty(),
    decreases k - q,
{
    if k > q + 1 {
        lemma_cell3_list_distinct(s, p, q, k - 1);
        if s[p] + s[q] + s[k - 1] == 0 {
            assert forall|r: int| q < r < k - 1 implies s[p] + s[q] + s[r] != 0 by {
                assert(s[r] < s[k - 1]);
            }
            assert(cell3_list(s, p, q, k - 1) == Seq::<(i32, i32, i32)>::empty());
            assert(cell3_list(s, p, q, k) =~= seq![(s[p], s[q], s[k - 1])]);
        } else {
            assert(cell3_list(s, p, q, k) =~= cell3_list(s, p, q, k - 1));
        }
    }
}

/// Sorts `a`, then lists the triples of its items that sum to exactly 0, in the order of their
/// positions; an error when two items are equal.
pub fn triples(a: &mut [i32]) -> (r: Result<Vec<(i32, i32, i32)>, InvalidArgument>)
    requires
        old(a)@.len() < usize::MAX / 2,
    ensures
        sorted_i32(final(a)@),
        final(a)@.to_multiset() == old(a)@.to_multiset(),
        r is Err <==> has_duplicates(old(a)@),
        r is Err ==> r->Err_0.0@ == "slice contains duplicate integers"@,
        r is Ok ==> r->Ok_0@ == zero_triples(final(a)@),
{
    proof {
        lemma_i32_lawful();
    }
    heap_sort(a);
    proof {
        lemma_duplicates_permutation(a@, old(a)@);
        a@.to_multiset_ensures();
        old(a)@.to_multiset_ensures();
        assert forall|i: int, j: int| 0 <= i < j < a@.len() implies #[trigger] a@[i] <= #[trigger] a@[j] by {
            assert(crate::heap::order::le(a@[i], a@[j]));
        }
    }
    if contains_duplicates(a) {
        proof {
            let k = choose|k: int| 1 <= k < a@.len() && #[trigger] a@[k] == a@[k - 1];
            assert(a@[k - 1] == a@[k]);
        }
        return Err(InvalidArgument(String::from_str("slice contains duplicate integers")));
    }
    proof {
        lemma_sorted_distinct(a@);
    }
    let n = a.len();
    let mut r: Vec<(i32, i32, i32)> = Vec::new();
    let mut i: usize = 0;
    while i < n
        invariant
            n == a@.len(),
            n < usize::MAX / 2,
            i <= n,
            sorted_i32(a@),
            strictly_increasing(a@),
            r@ == triples_list_below(a@, i as int),
        decreases n - i,
    {
        let mut j: usize = i + 1;
        while j < n
            invariant
                n == a@.len(),
                n < usize::MAX / 2,
                i < j <= n,
                sorted_i32(a@),
                strictly_increasing(a@),
                r@ == triples_list_below(a@, i as int) + row3_list(a@, i as int, j as int),
            decreases n - j,
        {
            proof {
                lemma_cell3_list_distinct(a@, i as int, j as int, n as int);
            }
            let ghost before = r@;
            let mut found = false;
            let sum = a[i] as i64 + a[j] as i64;
            if -sum >= i32::MIN as i64 && -sum <= i32::MAX as i64 {
                let key = (-sum) as i32;
                let k = index_of_i32_seq(a, &key);
                if k > j as i64 {
                    r.push((a[i], a[j], a[k as usize]));
                    found = true;
                    proof {
                        assert(a@[i as int] + a@[j as int] + a@[k as int] == 0);
                        assert(r@ =~= before + cell3_list(a@, i as int, j as int, n as int));
                    }
                } else {
                    proof {
                        assert forall|t: int| j < t < n implies a@[i as int] + a@[j as int] + a@[t] != 0 by {
                            if a@[i as int] + a@[j as int] + a@[t] == 0 {
                                assert(a@.contains(key)) by {
                                    assert(a@[t] == key);
                                }
                                assert(a@[k as int] == key);
                                assert(a@[k as int] < a@[t]);
                            }
                        }
                    }
                }
            } else {
                proof {
                    assert forall|t: int| j < t < n implies a@[i as int] + a@[j as int] + a@[t] != 0 by {}
                }
            }
            proof {
                if !found {
                    assert(r@ =~= before + cell3_list(a@, i as int, j as int, n as int));
                }
                assert(r@ =~= triples_list_below(a@, i as int) + row3_list(a@, i as int, j + 1));
            }
            j = j + 1;
        }
        proof {
            assert(r@ =~= triples_list_below(a@, i + 1));
        }
        i = i + 1;
    }
    Ok(r)
}

} // verus!
