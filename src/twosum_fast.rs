//! Counting the pairs of integers that sum to exactly 0, by sorting and binary search.
use crate::binary_search::{index_of_i32_seq, sorted_by_le, sorted_i32};
use crate::error::InvalidArgument;
use crate::heap::order::lemma_i32_lawful;
use crate::heap::sort::heap_sort;
use crate::twosum::{lemma_two_sum_count_permutation, pairs_below, pairs_list_below, row2, row2_list, two_sum_count, zero2, zero_pairs};
use vstd::prelude::*;

verus! {

/// Two neighbouring items of `s` are equal.
pub open spec fn adjacent_dup(s: Seq<i32>) -> bool {
    exists|k: int| 1 <= k < s.len() && #[trigger] s[k] == s[k - 1]
}

/// Two items of `s` are equal.
pub open spec fn has_duplicates(s: Seq<i32>) -> bool {
    exists|p: int, q: int| 0 <= p < q < s.len() && #[trigger] s[p] == #[trigger] s[q]
}

/// `s` is strictly increasing.
pub open spec fn strictly_increasing(s: Seq<i32>) -> bool {
    forall|p: int, q: int| 0 <= p < q < s.len() ==> #[trigger] s[p] < #[trigger] s[q]
}

/// Two items of `s` are equal exactly when some value occurs twice in its multiset.
proof fn lemma_duplicates_multiset(s: Seq<i32>)
    ensures
        has_duplicates(s) <==> exists|x: i32| s.to_multiset().count(x) >= 2,
{
    broadcast use vstd::multiset::group_multiset_axioms;

    if has_duplicates(s) {
        let (p, q) = choose|p: int, q: int| 0 <= p < q < s.len() && s[p] == s[q];
        vstd::seq_lib::to_multiset_remove(s, p);
        assert(s.remove(p)[q - 1] == s[q]);
        vstd::seq_lib::to_multiset_contains(s.remove(p), s[q]);
        assert(s.to_multiset().count(s[p]) >= 2);
    }
    if exists|x: i32| s.to_multiset().count(x) >= 2 {
        let x = choose|x: i32| s.to_multiset().count(x) >= 2;
        vstd::seq_lib::to_multiset_contains(s, x);
        let p = choose|p: int| 0 <= p < s.len() && s[p] == x;
        vstd::seq_lib::to_multiset_remove(s, p);
        vstd::seq_lib::to_multiset_contains(s.remove(p), x);
        let q = choose|q: int| 0 <= q < s.remove(p).len() && s.remove(p)[q] == x;
        if q < p {
            assert(s[q] == x);
            assert(0 <= q < p < s.len() && s[q] == s[p]);
        } else {
            assert(s[q + 1] == x);
            assert(0 <= p < q + 1 < s.len() && s[p] == s[q + 1]);
        }
    }
}

/// Rearranging the items keeps whether two of them are equal.
pub proof fn lemma_duplicates_permutation(s: Seq<i32>, t: Seq<i32>)
    requires
        s.to_multiset() == t.to_multiset(),
    ensures
        has_duplicates(s) == has_duplicates(t),
{
    lemma_duplicates_multiset(s);
    lemma_duplicates_multiset(t);
}

/// In a sorted sequence with no two equal neighbours, every item is below every later one.
pub proof fn lemma_sorted_distinct(s: Seq<i32>)
    requires
        sorted_i32(s),
        !adjacent_dup(s),
    ensures
        strictly_increasing(s),
        !has_duplicates(s),
{
    assert forall|p: int, q: int| 0 <= p < q < s.len() implies #[trigger] s[p] < #[trigger] s[q] by {
        assert(s[q] != s[q - 1]);
        if p < q - 1 {
            assert(s[p] <= s[q - 1]);
        }
    }
}

/// Whether two neighbouring items of `a` are equal.
pub(crate) fn contains_duplicates(a: &[i32]) -> (r: bool)
    ensures
        r == adjacent_dup(a@),
{
    let mut i: usize = 1;
    while i < a.len()
        invariant
            1 <= i,
            i <= a@.len() || a@.len() == 0,
            forall|k: int| 1 <= k < i && k < a@.len() ==> #[trigger] a@[k] != a@[k - 1],
        decreases a@.len() - i,
    {
        if a[i] == a[i - 1] {
            return true;
        }
        i = i + 1;
    }
    false
}

/// In a strictly increasing sequence, at most one position pairs with `p`.
proof fn lemma_row2_distinct(s: Seq<i32>, p: int, j: int)
    requires
        strictly_increasing(s),
        0 <= p < s.len(),
        j <= s.len(),
    ensures
        row2(s, p, j) == if exists|q: int| p < q < j && s[p] + s[q] == 0 {
            1nat
        } else {
            0nat
        },
    decreases j - p,
{
    if j > p + 1 {
        lemma_row2_distinct(s, p, j - 1);
        if zero2(s, p, j - 1) == 1 {
            assert forall|q: int| p < q < j - 1 implies !(s[p] + s[q] == 0) by {
                assert(s[q] < s[j - 1]);
            }
        }
    }
}

/// Sorts `a`, then counts the pairs of its items that sum to exactly 0; an error when two
/// items are equal.
pub fn count(a: &mut [i32]) -> (r: Result<i32, InvalidArgument>)
    requires
        old(a)@.len() < usize::MAX / 2,
        old(a)@.len() <= i32::MAX,
    ensures
        sorted_i32(final(a)@),
        final(a)@.to_multiset() == old(a)@.to_multiset(),
        r is Err <==> has_duplicates(old(a)@),
        r is Err ==> r->Err_0.0@ == "slice contains duplicate integers"@,
        r is Ok ==> r->Ok_0 == two_sum_count(old(a)@),
{
    proof {
        lemma_i32_lawful();
    }
    heap_sort(a);
    proof {
        lemma_duplicates_permutation(a@, old(a)@);
        lemma_two_sum_count_permutation(a@, old(a)@);
        a@.to_multiset_ensures();
        old(a)@.to_multiset_ensures();
        assert(sorted_by_le(a@));
        assert forall|i: int, j: int| 0 <= i < j < a@.len() implies #[trigger] a@[i] <= #[trigger] a@[j] by {
            assert(crate::heap::order::le(a@[i], a@[j]));
        }
    }
    if contains_duplicates(a) {
        proof {
            let k = choose|k: int| 1 <= k < a@.len() && #[trigger] a@[k] == a@[k - 1];
            assert(a@[k - 1] == a@[k]);
        }
        return Err(InvalidArgument(String::from_str("slice contains duplicate integers")));
    }
    proof {
        lemma_sorted_distinct(a@);
    }
    let n = a.len();
    let mut count: i32 = 0;
    let mut i: usize = 0;
    while i < n
        invariant
            n == a@.len(),
            n <= i32::MAX,
            i <= n,
            sorted_i32(a@),
            strictly_increasing(a@),
            count == pairs_below(a@, i as int),
            count <= i,
        decreases n - i,
    {
        proof {
            lemma_row2_distinct(a@, i as int, n as int);
        }
        if a[i] != i32::MIN {
            let key = -a[i];
            let j = index_of_i32_seq(a, &key);
            if j > i as i64 {
                proof {
                    assert(a@[i as int] + a@[j as int] == 0);
                }
                count = count + 1;
            } else {
                proof {
                    assert forall|q: int| i < q < n implies !(a@[i as int] + a@[q] == 0) by {
                        if a@[i as int] + a@[q] == 0 {
                            assert(a@.contains(key)) by {
                                assert(a@[q] == key);
                            }
                            assert(a@[j as int] == key);
                            assert(a@[j as int] < a@[q]);
                        }
                    }
                }
            }
        }
        i = i + 1;
    }
    Ok(count)
}

/// In a strictly increasing sequence, the zero-sum pairs starting at `p` are the one with its
/// partner, if there is one.
proof fn lemma_row2_list_distinct(s: Seq<i32>, p: int, j: int)
    requires
        strictly_increasing(s),
        0 <= p < s.len(),
        j <= s.len(),
    ensures
        forall|q: int| p < q < j && s[p] + s[q] == 0 ==> row2_list(s, p, j) == seq![(s[p], s[q])],
        (forall|q: int| p < q < j ==> s[p] + s[q] != 0) ==> row2_list(s, p, j) == Seq::<(i32, i32)>::empty(),
    decreases j - p,
{
    if j > p + 1 {
        lemma_row2_list_distinct(s, p, j - 1);
        if s[p] + s[j - 1] == 0 {
            assert forall|q: int| p < q < j - 1 implies s[p] + s[q] != 0 by {
                assert(s[q] < s[j - 1]);
            }
            assert(row2_list(s, p, j - 1) == Seq::<(i32, i32)>::empty());
            assert(row2_list(s, p, j) =~= seq![(s[p], s[j - 1])]);
        } else {
            assert(row2_list(s, p, j) =~= row2_list(s, p, j - 1));
        }
    }
}

/// Sorts `a`, then lists the pairs of its items that sum to exactly 0, in the order of their
/// positions; an error when two items are equal.
pub fn pairs(a: &mut [i32]) -> (r: Result<Vec<(i32, i32)>, InvalidArgument>)
    requires
        old(a)@.len() < usize::MAX / 2,
    ensures
        sorted_i32(final(a)@),
        final(a)@.to_multiset() == old(a)@.to_multiset(),
        r is Err <==> has_duplicates(old(a)@),
        r is Err ==> r->Err_0.0@ == "slice contains duplicate integers"@,
        r is Ok ==> r->Ok_0@ == zero_pairs(final(a)@),
{
    proof {
        lemma_i32_lawful();
    }
    heap_sort(a);
    proof {
        lemma_duplicates_permutation(a@, old(a)@);
        a@.to_multiset_ensures();
        old(a)@.to_multiset_ensures();
        assert forall|i: int, j: int| 0 <= i < j < a@.len() implies #[trigger] a@[i] <= #[trigger] a@[j] by {
            assert(crate::heap::order::le(a@[i], a@[j]));
        }
    }
    if contains_duplicates(a) {
        proof {
            let k = choose|k: int| 1 <= k < a@.len() && #[trigger] a@[k] == a@[k - 1];
            assert(a@[k - 1] == a@[k]);
        }
        return Err(InvalidArgument(String::from_str("slice contains duplicate integers")));
    }
    proof {
        lemma_sorted_distinct(a@);
    }
    let n = a.len();
    let mut r: Vec<(i32, i32)> = Vec::new();
    let mut i: usize = 0;
    while i < n
        invariant
            n == a@.len(),
            n < usize::MAX / 2,
            i <= n,
            sorted_i32(a@),
            strictly_increasing(a@),
            r@ == pairs_list_below(a@, i as int),
        decreases n - i,
    {
        proof {
            lemma_row2_list_distinct(a@, i as int, n as int);
        }
        let ghost before = r@;
        let mut found = false;
        if a[i] != i32::MIN {
            let key = -a[i];
            let j = index_of_i32_seq(a, &key);
            if j > i as i64 {
                r.push((a[i], a[j as usize]));
                found = true;
                proof {
                    assert(a@[i as int] + a@[j as int] == 0);
                    assert(r@ =~= before + row2_list(a@, i as int, n as int));
                }
            } else {
                proof {
                    assert forall|q: int| i < q < n implies a@[i as int] + a@[q] != 0 by {
                        if a@[i as int] + a@[q] == 0 {
                            assert(a@.contains(key)) by {
                                assert(a@[q] == key);
                            }
                            assert(a@[j as int] == key);
                            assert(a@[j as int] < a@[q]);
                        }
                    }
                }
            }
        }
        proof {
            if !found {
                assert(r@ =~= before + row2_list(a@, i as int, n as int));
            }
            assert(r@ =~= pairs_list_below(a@, i + 1));
        }
        i = i + 1;
    }
    Ok(r)
}

} // verus!
