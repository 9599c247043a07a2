//! Counting the pairs of integers that sum to exactly 0, by trying every pair.
use vstd::prelude::*;

verus! {

/// 1 when the items at `p` and `q` sum to 0, as integers.
pub open spec fn zero2(s: Seq<i32>, p: int, q: int) -> nat {
    if s[p] + s[q] == 0 {
        1
    } else {
        0
    }
}

/// Number of positions `q` in `p + 1..j` whose item sums to 0 with the one at `p`.
pub open spec fn row2(s: Seq<i32>, p: int, j: int) -> nat
    decreases j - p,
{
    if j <= p + 1 {
        0
    } else {
        row2(s, p, j - 1) + zero2(s, p, j - 1)
    }
}

/// Number of pairs `p < q` of positions, with `p < i`, whose items sum to 0.
pub open spec fn pairs_below(s: Seq<i32>, i: int) -> nat
    decreases i,
{
    if i <= 0 {
        0
    } else {
        pairs_below(s, i - 1) + row2(s, i - 1, s.len() as int)
    }
}

/// Number of pairs `p < q` of positions of `s` whose items sum to 0.
pub open spec fn two_sum_count(s: Seq<i32>) -> nat {
    pairs_below(s, s.len() as int)
}

proof fn lemma_row2_mono(s: Seq<i32>, p: int, j: int, k: int)
    requires
        j <= k,
    ensures
        row2(s, p, j) <= row2(s, p, k),
    decreases k - j,
{
    if j < k {
        lemma_row2_mono(s, p, j, k - 1);
    }
}

proof fn lemma_pairs_below_mono(s: Seq<i32>, i: int, k: int)
    requires
        i <= k,
    ensures
        pairs_below(s, i) <= pairs_below(s, k),
    decreases k - i,
{
    if i < k {
        lemma_pairs_below_mono(s, i, k - 1);
    }
}

/// Number of pairs of positions of `a` whose items sum to exactly 0.
pub fn count(a: &[i32]) -> (r: i32)
    requires
        two_sum_count(a@) <= i32::MAX,
    ensures
        r == two_sum_count(a@),
{
    let n = a.len();
    let mut count: i32 = 0;
    let mut i: usize = 0;
    while i < n
        invariant
            n == a@.len(),
            i <= n,
            two_sum_count(a@) <= i32::MAX,
            count == pairs_below(a@, i as int),
        decreases n - i,
    {
        let mut j: usize = i + 1;
        while j < n
            invariant
                n == a@.len(),
                i < n,
                i + 1 <= j <= n,
                two_sum_count(a@) <= i32::MAX,
                count == pairs_below(a@, i as int) + row2(a@, i as int, j as int),
            decreases n - j,
        {
            if a[i] as i64 + a[j] as i64 == 0 {
                proof {
                    lemma_row2_mono(a@, i as int, j + 1, n as int);
                    lemma_pairs_below_mono(a@, i + 1, n as int);
                }
                count = count + 1;
            }
            j = j + 1;
        }
        i = i + 1;
    }
    count
}

/// The pairs `(s[p], s[q])` with `q` in `p + 1..j` that sum to 0, by increasing `q`.
pub open spec fn row2_list(s: Seq<i32>, p: int, j: int) -> Seq<(i32, i32)>
    decreases j - p,
{
    if j <= p + 1 {
        Seq::empty()
    } else {
        row2_list(s, p, j - 1) + if s[p] + s[j - 1] == 0 {
            seq![(s[p], s[j - 1])]
        } else {
            Seq::empty()
        }
    }
}

/// The pairs `(s[p], s[q])`, `p < q`, `p < i`, that sum to 0, by increasing `p`, then `q`.
pub open spec fn pairs_list_below(s: Seq<i32>, i: int) -> Seq<(i32, i32)>
    decreases i,
{
    if i <= 0 {
        Seq::empty()
    } else {
        pairs_list_below(s, i - 1) + row2_list(s, i - 1, s.len() as int)
    }
}

/// The pairs of items of `s` at positions `p < q` that sum to 0, by increasing `p`, then `q`.
pub open spec fn zero_pairs(s: Seq<i32>) -> Seq<(i32, i32)> {
    pairs_list_below(s, s.len() as int)
}

/// The pairs of items of `a` that sum to exactly 0, in the order of their positions.
pub fn pairs(a: &[i32]) -> (r: Vec<(i32, i32)>)
    ensures
        r@ == zero_pairs(a@),
{
    let n = a.len();
    let mut r: Vec<(i32, i32)> = Vec::new();
    let mut i: usize = 0;
    while i < n
        invariant
            n == a@.len(),
            i <= n,
            r@ == pairs_list_below(a@, i as int),
        decreases n - i,
    {
        let mut j: usize = i + 1;
        while j < n
            invariant
                n == a@.len(),
                i < n,
                i + 1 <= j <= n,
                r@ == pairs_list_below(a@, i as int) + row2_list(a@, i as int, j as int),
            decreases n - j,
        {
            let ghost before = r@;
            if a[i] as i64 + a[j] as i64 == 0 {
                r.push((a[i], a[j]));
            }
            proof {
                assert(r@ =~= pairs_list_below(a@, i as int) + row2_list(a@, i as int, j + 1));
            }
            j = j + 1;
        }
        proof {
            assert(r@ =~= pairs_list_below(a@, i + 1));
        }
        i = i + 1;
    }
    r
}

/// Number of positions `p < i` of `s` whose item sums to 0 with `x`.
pub open spec fn partners_below(s: Seq<i32>, x: i32, i: int) -> nat
    decreases i,
{
    if i <= 0 {
        0
    } else {
        partners_below(s, x, i - 1) + if s[i - 1] + x == 0 {
            1nat
        } else {
            0nat
        }
    }
}

/// Number of items of `s` that sum to 0 with `x`.
pub open spec fn partners(s: Seq<i32>, x: i32) -> nat {
    partners_below(s, x, s.len() as int)
}

proof fn lemma_row2_prefix(s: Seq<i32>, x: i32, p: int, j: int)
    requires
        0 <= p,
        j <= s.len(),
    ensures
        row2(s.push(x), p, j) == row2(s, p, j),
    decreases j - p,
{
    if j > p + 1 {
        lemma_row2_prefix(s, x, p, j - 1);
    }
}

proof fn lemma_partners_prefix(s: Seq<i32>, x: i32, y: i32, i: int)
    requires
        i <= s.len(),
    ensures
        partners_below(s.push(y), x, i) == partners_below(s, x, i),
    decreases i,
{
    if i > 0 {
        lemma_partners_prefix(s, x, y, i - 1);
    }
}

proof fn lemma_pairs_push_below(s: Seq<i32>, x: i32, i: int)
    requires
        0 <= i <= s.len(),
    ensures
        pairs_below(s.push(x), i) == pairs_below(s, i) + partners_below(s, x, i),
    decreases i,
{
    if i > 0 {
        lemma_pairs_push_below(s, x, i - 1);
        lemma_row2_prefix(s, x, i - 1, s.len() as int);
        assert(s.push(x)[s.len() as int] == x);
        assert(s.push(x)[i - 1] == s[i - 1]);
    }
}

/// Appending `x` adds one pair for each item that sums to 0 with it.
proof fn lemma_count_push(s: Seq<i32>, x: i32)
    ensures
        two_sum_count(s.push(x)) == two_sum_count(s) + partners(s, x),
{
    lemma_pairs_push_below(s, x, s.len() as int);
    let t = s.push(x);
    assert(row2(t, s.len() as int, t.len() as int) == 0);
}

proof fn lemma_partners_push(s: Seq<i32>, x: i32, y: i32)
    ensures
        partners(s.push(y), x) == partners(s, x) + if y + x == 0 {
            1nat
        } else {
            0nat
        },
{
    lemma_partners_prefix(s, x, y, s.len() as int);
    assert(s.push(y)[s.len() as int] == y);
}

proof fn lemma_partners_remove(u: Seq<i32>, y: i32, j: int)
    requires
        0 <= j < u.len(),
    ensures
        partners(u, y) == partners(u.remove(j), y) + if u[j] + y == 0 {
            1nat
        } else {
            0nat
        },
    decreases u.len(),
{
    let v = u.drop_last();
    let z = u.last();
    assert(u == v.push(z));
    lemma_partners_push(v, y, z);
    if j < u.len() - 1 {
        lemma_partners_remove(v, y, j);
        assert(u.remove(j) =~= v.remove(j).push(z));
        lemma_partners_push(v.remove(j), y, z);
    } else {
        assert(u.remove(j) =~= v);
    }
}

proof fn lemma_count_remove(t: Seq<i32>, j: int)
    requires
        0 <= j < t.len(),
    ensures
        two_sum_count(t) == two_sum_count(t.remove(j)) + partners(t.remove(j), t[j]),
    decreases t.len(),
{
    let u = t.drop_last();
    let y = t.last();
    assert(t == u.push(y));
    lemma_count_push(u, y);
    if j < t.len() - 1 {
        lemma_count_remove(u, j);
        assert(t.remove(j) =~= u.remove(j).push(y));
        lemma_count_push(u.remove(j), y);
        lemma_partners_remove(u, y, j);
        lemma_partners_push(u.remove(j), t[j], y);
        assert(u[j] == t[j]);
    } else {
        assert(t.remove(j) =~= u);
    }
}

proof fn lemma_partners_permutation(a: Seq<i32>, b: Seq<i32>, y: i32)
    requires
        a.to_multiset() == b.to_multiset(),
    ensures
        partners(a, y) == partners(b, y),
    decreases a.len(),
{
    broadcast use vstd::multiset::group_multiset_axioms;

    a.to_multiset_ensures();
    b.to_multiset_ensures();
    if a.len() == 0 {
        assert(b.len() == 0);
    } else {
        let x = a.last();
        let a1 = a.drop_last();
        assert(a == a1.push(x));
        vstd::seq_lib::to_multiset_build(a1, x);
        vstd::seq_lib::to_multiset_contains(b, x);
        let j = choose|j: int| 0 <= j < b.len() && b[j] == x;
        vstd::seq_lib::to_multiset_remove(b, j);
        assert(a1.to_multiset() =~= b.remove(j).to_multiset());
        lemma_partners_permutation(a1, b.remove(j), y);
        lemma_partners_push(a1, y, x);
        lemma_partners_remove(b, y, j);
    }
}

/// The number of zero-sum pairs depends only on which items there are, not on their order.
pub proof fn lemma_two_sum_count_permutation(s: Seq<i32>, t: Seq<i32>)
    requires
        s.to_multiset() == t.to_multiset(),
    ensures
        two_sum_count(s) == two_sum_count(t),
    decreases s.len(),
{
    broadcast use vstd::multiset::group_multiset_axioms;

    s.to_multiset_ensures();
    t.to_multiset_ensures();
    if s.len() == 0 {
        assert(t.len() == 0);
        assert(s =~= t);
    } else {
        let x = s.last();
        let s1 = s.drop_last();
        assert(s == s1.push(x));
        vstd::seq_lib::to_multiset_build(s1, x);
        vstd::seq_lib::to_multiset_contains(t, x);
        let j = choose|j: int| 0 <= j < t.len() && t[j] == x;
        vstd::seq_lib::to_multiset_remove(t, j);
        assert(s1.to_multiset() =~= t.remove(j).to_multiset());
        lemma_two_sum_count_permutation(s1, t.remove(j));
        lemma_partners_permutation(s1, t.remove(j), x);
        lemma_count_push(s1, x);
        lemma_count_remove(t, j);
    }
}

} // verus!
