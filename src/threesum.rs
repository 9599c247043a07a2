//! Counting the triples of integers that sum to exactly 0, by trying every triple.
use vstd::prelude::*;

verus! {

/// 1 when the items at `p`, `q` and `r` sum to 0, as integers.
pub open spec fn zero3(s: Seq<i32>, p: int, q: int, r: int) -> nat {
    if s[p] + s[q] + s[r] == 0 {
        1
    } else {
        0
    }
}

/// Number of positions `r` in `q + 1..k` that complete `p`, `q` to a triple summing to 0.
pub open spec fn cell3(s: Seq<i32>, p: int, q: int, k: int) -> nat
    decreases k - q,
{
    if k <= q + 1 {
        0
    } else {
        cell3(s, p, q, k - 1) + zero3(s, p, q, k - 1)
    }
}

/// Number of triples `p < q < r` with the given `p` and `q < j` whose items sum to 0.
pub open spec fn row3(s: Seq<i32>, p: int, j: int) -> nat
    decreases j - p,
{
    if j <= p + 1 {
        0
    } else {
        row3(s, p, j - 1) + cell3(s, p, j - 1, s.len() as int)
    }
}

/// Number of triples `p < q < r` of positions, with `p < i`, whose items sum to 0.
pub open spec fn triples_below(s: Seq<i32>, i: int) -> nat
    decreases i,
{
    if i <= 0 {
        0
    } else {
        triples_below(s, i - 1) + row3(s, i - 1, s.len() as int)
    }
}

/// Number of triples `p < q < r` of positions of `s` whose items sum to 0.
pub open spec fn three_sum_count(s: Seq<i32>) -> nat {
    triples_below(s, s.len() as int)
}

pub(crate) proof fn lemma_cell3_mono(s: Seq<i32>, p: int, q: int, j: int, k: int)
    requires
        j <= k,
    ensures
        cell3(s, p, q, j) <= cell3(s, p, q, k),
    decreases k - j,
{
    if j < k {
        lemma_cell3_mono(s, p, q, j, k - 1);
    }
}

pub(crate) proof fn lemma_row3_mono(s: Seq<i32>, p: int, j: int, k: int)
    requires
        j <= k,
    ensures
        row3(s, p, j) <= row3(s, p, k),
    decreases k - j,
{
    if j < k {
        lemma_row3_mono(s, p, j, k - 1);
    }
}

pub(crate) proof fn lemma_triples_below_mono(s: Seq<i32>, i: int, k: int)
    requires
        i <= k,
    ensures
        triples_below(s, i) <= triples_below(s, k),
    decreases k - i,
{
    if i < k {
        lemma_triples_below_mono(s, i, k - 1);
    }
}

/// Number of triples of positions of `a` whose items sum to exactly 0.
pub fn count(a: &[i32]) -> (r: i32)
    requires
        three_sum_count(a@) <= i32::MAX,
    ensures
        r == three_sum_count(a@),
{
    let n = a.len();
    let mut count: i32 = 0;
    let mut i: usize = 0;
    while i < n
        invariant
            n == a@.len(),
            i <= n,
            three_sum_count(a@) <= i32::MAX,
            count == triples_below(a@, i as int),
        decreases n - i,
    {
        let mut j: usize = i + 1;
        while j < n
            invariant
                n == a@.len(),
                i < n,
                i + 1 <= j <= n,
                three_sum_count(a@) <= i32::MAX,
                count == triples_below(a@, i as int) + row3(a@, i as int, j as int),
            decreases n - j,
        {
            let mut k: usize = j + 1;
            while k < n
                invariant
                    n == a@.len(),
                    i < j < n,
                    j + 1 <= k <= n,
                    three_sum_count(a@) <= i32::MAX,
                    count == triples_below(a@, i as int) + row3(a@, i as int, j as int) + cell3(
                        a@,
                        i as int,
                        j as int,
                        k as int,
                    ),
                decreases n - k,
            {
                if a[i] as i64 + a[j] as i64 + a[k] as i64 == 0 {
                    proof {
                        lemma_cell3_mono(a@, i as int, j as int, k + 1, n as int);
                        lemma_row3_mono(a@, i as int, j + 1, n as int);
                        lemma_triples_below_mono(a@, i + 1, n as int);
                    }
                    count = count + 1;
                }
                k = k + 1;
            }
            j = j + 1;
        }
        i = i + 1;
    }
    count
}

/// The triples `(s[p], s[q], s[r])` with `r` in `q + 1..k` that sum to 0, by increasing `r`.
pub open spec fn cell3_list(s: Seq<i32>, p: int, q: int, k: int) -> Seq<(i32, i32, i32)>
    decreases k - q,
{
    if k <= q + 1 {
        Seq::empty()
    } else {
        cell3_list(s, p, q, k - 1) + if s[p] + s[q] + s[k - 1] == 0 {
            seq![(s[p], s[q], s[k - 1])]
        } else {
            Seq::empty()
        }
    }
}

/// The zero-sum triples with first position `p` and second below `j`, in position order.
pub open spec fn row3_list(s: Seq<i32>, p: int, j: int) -> Seq<(i32, i32, i32)>
    decreases j - p,
{
    if j <= p + 1 {
        Seq::empty()
    } else {
        row3_list(s, p, j - 1) + cell3_list(s, p, j - 1, s.len() as int)
    }
}

/// The zero-sum triples with first position below `i`, in position order.
pub open spec fn triples_list_below(s: Seq<i32>, i: int) -> Seq<(i32, i32, i32)>
    decreases i,
{
    if i <= 0 {
        Seq::empty()
    } else {
        triples_list_below(s, i - 1) + row3_list(s, i - 1, s.len() as int)
    }
}

/// The triples of items of `s` at positions `p < q < r` that sum to 0, in position order.
pub open spec fn zero_triples(s: Seq<i32>) -> Seq<(i32, i32, i32)> {
    triples_list_below(s, s.len() as int)
}

/// The triples of items of `a` that sum to exactly 0, in the order of their positions.
pub fn triples(a: &[i32]) -> (r: Vec<(i32, i32, i32)>)
    ensures
        r@ == zero_triples(a@),
{
    let n = a.len();
    let mut r: Vec<(i32, i32, i32)> = Vec::new();
    let mut i: usize = 0;
    while i < n
        invariant
            n == a@.len(),
            i <= n,
            r@ == triples_list_below(a@, i as int),
        decreases n - i,
    {
        let mut j: usize = i + 1;
        while j < n
            invariant
                n == a@.len(),
                i < n,
                i + 1 <= j <= n,
                r@ == triples_list_below(a@, i as int) + row3_list(a@, i as int, j as int),
            decreases n - j,
        {
            let mut k: usize = j + 1;
            while k < n
                invariant
                    n == a@.len(),
                    i < j < n,
                    j + 1 <= k <= n,
                    r@ == triples_list_below(a@, i as int) + row3_list(a@, i as int, j as int)
                        + cell3_list(a@, i as int, j as int, k as int),
                decreases n - k,
            {
                if a[i] as i64 + a[j] as i64 + a[k] as i64 == 0 {
                    r.push((a[i], a[j], a[k]));
                }
                proof {
                    assert(r@ =~= triples_list_below(a@, i as int) + row3_list(a@, i as int, j as int)
                        + cell3_list(a@, i as int, j as int, k + 1));
                }
                k = k + 1;
            }
            proof {
                assert(r@ =~= triples_list_below(a@, i as int) + row3_list(a@, i as int, j + 1));
            }
            j = j + 1;
        }
        proof {
            assert(r@ =~= triples_list_below(a@, i + 1));
        }
        i = i + 1;
    }
    r
}

/// Number of positions `p < i` of `v` whose item sums to 0 with `c`.
pub open spec fn shifted_below(v: Seq<i32>, c: int, i: int) -> nat
    decreases i,
{
    if i <= 0 {
        0
    } else {
        shifted_below(v, c, i - 1) + if v[i - 1] + c == 0 {
            1nat
        } else {
            0nat
        }
    }
}

/// Number of items of `v` that sum to 0 with `c`.
pub open spec fn shifted(v: Seq<i32>, c: int) -> nat {
    shifted_below(v, c, v.len() as int)
}

/// Number of positions `q` in `p + 1..j` such that the items at `p`, `q` and `x` sum to 0.
pub open spec fn pair_row(s: Seq<i32>, x: int, p: int, j: int) -> nat
    decreases j - p,
{
    if j <= p + 1 {
        0
    } else {
        pair_row(s, x, p, j - 1) + if s[p] + s[j - 1] + x == 0 {
            1nat
        } else {
            0nat
        }
    }
}

/// Number of pairs `p < q`, `p < i`, of positions of `s` whose items sum to 0 with `x`.
pub open spec fn pairs_with_below(s: Seq<i32>, x: int, i: int) -> nat
    decreases i,
{
    if i <= 0 {
        0
    } else {
        pairs_with_below(s, x, i - 1) + pair_row(s, x, i - 1, s.len() as int)
    }
}

/// Number of pairs of positions of `s` whose items sum to 0 with `x`.
pub open spec fn pairs_with(s: Seq<i32>, x: int) -> nat {
    pairs_with_below(s, x, s.len() as int)
}

proof fn lemma_shifted_push(v: Seq<i32>, c: int, z: i32)
    ensures
        shifted(v.push(z), c) == shifted(v, c) + if z + c == 0 {
            1nat
        } else {
            0nat
        },
{
    lemma_shifted_prefix(v, c, z, v.len() as int);
    assert(v.push(z)[v.len() as int] == z);
}

proof fn lemma_shifted_prefix(v: Seq<i32>, c: int, z: i32, i: int)
    requires
        i <= v.len(),
    ensures
        shifted_below(v.push(z), c, i) == shifted_below(v, c, i),
    decreases i,
{
    if i > 0 {
        lemma_shifted_prefix(v, c, z, i - 1);
    }
}

proof fn lemma_shifted_remove(u: Seq<i32>, c: int, j: int)
    requires
        0 <= j < u.len(),
    ensures
        shifted(u, c) == shifted(u.remove(j), c) + if u[j] + c == 0 {
            1nat
        } else {
            0nat
        },
    decreases u.len(),
{
    let v = u.drop_last();
    let z = u.last();
    assert(u == v.push(z));
    lemma_shifted_push(v, c, z);
    if j < u.len() - 1 {
        lemma_shifted_remove(v, c, j);
        assert(u.remove(j) =~= v.remove(j).push(z));
        lemma_shifted_push(v.remove(j), c, z);
    } else {
        assert(u.remove(j) =~= v);
    }
}

proof fn lemma_pair_row_prefix(s: Seq<i32>, x: int, z: i32, p: int, j: int)
    requires
        0 <= p,
        j <= s.len(),
    ensures
        pair_row(s.push(z), x, p, j) == pair_row(s, x, p, j),
    decreases j - p,
{
    if j > p + 1 {
        lemma_pair_row_prefix(s, x, z, p, j - 1);
    }
}

proof fn lemma_pairs_with_push_below(s: Seq<i32>, x: int, z: i32, i: int)
    requires
        0 <= i <= s.len(),
    ensures
        pairs_with_below(s.push(z), x, i) == pairs_with_below(s, x, i) + shifted_below(s, x + z, i),
    decreases i,
{
    if i > 0 {
        lemma_pairs_with_push_below(s, x, z, i - 1);
        lemma_pair_row_prefix(s, x, z, i - 1, s.len() as int);
        assert(s.push(z)[s.len() as int] == z);
        assert(s.push(z)[i - 1] == s[i - 1]);
    }
}

proof fn lemma_pairs_with_push(s: Seq<i32>, x: int, z: i32)
    ensures
        pairs_with(s.push(z), x) == pairs_with(s, x) + shifted(s, x + z),
{
    lemma_pairs_with_push_below(s, x, z, s.len() as int);
    let t = s.push(z);
    assert(pair_row(t, x, s.len() as int, t.len() as int) == 0);
}

proof fn lemma_pairs_with_remove(u: Seq<i32>, y: int, j: int)
    requires
        0 <= j < u.len(),
    ensures
        pairs_with(u, y) == pairs_with(u.remove(j), y) + shifted(u.remove(j), y + u[j]),
    decreases u.len(),
{
    let v = u.drop_last();
    let z = u.last();
    assert(u == v.push(z));
    lemma_pairs_with_push(v, y, z);
    if j < u.len() - 1 {
        lemma_pairs_with_remove(v, y, j);
        assert(u.remove(j) =~= v.remove(j).push(z));
        lemma_pairs_with_push(v.remove(j), y, z);
        lemma_shifted_remove(v, y + z, j);
        lemma_shifted_push(v.remove(j), y + v[j], z);
        assert(u[j] == v[j]);
    } else {
        assert(u.remove(j) =~= v);
    }
}

proof fn lemma_cell3_prefix(s: Seq<i32>, z: i32, p: int, q: int, k: int)
    requires
        0 <= p,
        p < q,
        k <= s.len(),
    ensures
        cell3(s.push(z), p, q, k) == cell3(s, p, q, k),
    decreases k - q,
{
    if k > q + 1 {
        lemma_cell3_prefix(s, z, p, q, k - 1);
    }
}

proof fn lemma_row3_push(s: Seq<i32>, z: i32, p: int, j: int)
    requires
        0 <= p,
        j <= s.len(),
    ensures
        row3(s.push(z), p, j) == row3(s, p, j) + pair_row(s, z as int, p, j),
    decreases j - p,
{
    if j > p + 1 {
        lemma_row3_push(s, z, p, j - 1);
        let t = s.push(z);
        lemma_cell3_prefix(s, z, p, j - 1, s.len() as int);
        assert(t[s.len() as int] == z);
        assert(t[p] == s[p] && t[j - 1] == s[j - 1]);
    }
}

proof fn lemma_triples_push_below(s: Seq<i32>, z: i32, i: int)
    requires
        0 <= i <= s.len(),
    ensures
        triples_below(s.push(z), i) == triples_below(s, i) + pairs_with_below(s, z as int, i),
    decreases i,
{
    if i > 0 {
        lemma_triples_push_below(s, z, i - 1);
        let t = s.push(z);
        lemma_row3_push(s, z, i - 1, s.len() as int);
        assert(cell3(t, i - 1, s.len() as int, t.len() as int) == 0);
    }
}

/// Appending `z` adds one triple for each pair that sums to 0 with it.
proof fn lemma_count3_push(s: Seq<i32>, z: i32)
    ensures
        three_sum_count(s.push(z)) == three_sum_count(s) + pairs_with(s, z as int),
{
    lemma_triples_push_below(s, z, s.len() as int);
    let t = s.push(z);
    assert(row3(t, s.len() as int, t.len() as int) == 0);
}

proof fn lemma_count3_remove(t: Seq<i32>, j: int)
    requires
        0 <= j < t.len(),
    ensures
        three_sum_count(t) == three_sum_count(t.remove(j)) + pairs_with(t.remove(j), t[j] as int),
    decreases t.len(),
{
    let u = t.drop_last();
    let y = t.last();
    assert(t == u.push(y));
    lemma_count3_push(u, y);
    if j < t.len() - 1 {
        lemma_count3_remove(u, j);
        assert(t.remove(j) =~= u.remove(j).push(y));
        lemma_count3_push(u.remove(j), y);
        lemma_pairs_with_remove(u, y as int, j);
        lemma_pairs_with_push(u.remove(j), t[j] as int, y);
        assert(u[j] == t[j]);
    } else {
        assert(t.remove(j) =~= u);
    }
}

proof fn lemma_shifted_permutation(a: Seq<i32>, b: Seq<i32>, c: int)
    requires
        a.to_multiset() == b.to_multiset(),
    ensures
        shifted(a, c) == shifted(b, c),
    decreases a.len(),
{
    broadcast use vstd::multiset::group_multiset_axioms;

    a.to_multiset_ensures();
    b.to_multiset_ensures();
    if a.len() == 0 {
        assert(b.len() == 0);
    } else {
        let x = a.last();
        let a1 = a.drop_last();
        assert(a == a1.push(x));
        vstd::seq_lib::to_multiset_build(a1, x);
        vstd::seq_lib::to_multiset_contains(b, x);
        let j = choose|j: int| 0 <= j < b.len() && b[j] == x;
        vstd::seq_lib::to_multiset_remove(b, j);
        assert(a1.to_multiset() =~= b.remove(j).to_multiset());
        lemma_shifted_permutation(a1, b.remove(j), c);
        lemma_shifted_push(a1, c, x);
        lemma_shifted_remove(b, c, j);
    }
}

proof fn lemma_pairs_with_permutation(a: Seq<i32>, b: Seq<i32>, y: int)
    requires
        a.to_multiset() == b.to_multiset(),
    ensures
        pairs_with(a, y) == pairs_with(b, y),
    decreases a.len(),
{
    broadcast use vstd::multiset::group_multiset_axioms;

    a.to_multiset_ensures();
    b.to_multiset_ensures();
    if a.len() == 0 {
        assert(b.len() == 0);
        assert(a =~= b);
    } else {
        let x = a.last();
        let a1 = a.drop_last();
        assert(a == a1.push(x));
        vstd::seq_lib::to_multiset_build(a1, x);
        vstd::seq_lib::to_multiset_contains(b, x);
        let j = choose|j: int| 0 <= j < b.len() && b[j] == x;
        vstd::seq_lib::to_multiset_remove(b, j);
        assert(a1.to_multiset() =~= b.remove(j).to_multiset());
        lemma_pairs_with_permutation(a1, b.remove(j), y);
        lemma_shifted_permutation(a1, b.remove(j), y + x);
        lemma_pairs_with_push(a1, y, x);
        lemma_pairs_with_remove(b, y, j);
    }
}

/// The number of zero-sum triples depends only on which items there are, not on their order.
pub proof fn lemma_three_sum_count_permutation(s: Seq<i32>, t: Seq<i32>)
    requires
        s.to_multiset() == t.to_multiset(),
    ensures
        three_sum_count(s) == three_sum_count(t),
    decreases s.len(),
{
    broadcast use vstd::multiset::group_multiset_axioms;

    s.to_multiset_ensures();
    t.to_multiset_ensures();
    if s.len() == 0 {
        assert(t.len() == 0);
        assert(s =~= t);
    } else {
        let x = s.last();
        let s1 = s.drop_last();
        assert(s == s1.push(x));
        vstd::seq_lib::to_multiset_build(s1, x);
        vstd::seq_lib::to_multiset_contains(t, x);
        let j = choose|j: int| 0 <= j < t.len() && t[j] == x;
        vstd::seq_lib::to_multiset_remove(t, j);
        assert(s1.to_multiset() =~= t.remove(j).to_multiset());
        lemma_three_sum_count_permutation(s1, t.remove(j));
        lemma_pairs_with_permutation(s1, t.remove(j), x as int);
        lemma_count3_push(s1, x);
        lemma_count3_remove(t, j);
    }
}

} // verus!
