//! The priority order a heap keeps, and the facts about it that the heap proofs use.
use core::cmp::Ordering;
use vstd::std_specs::cmp::OrdSpec;
use vstd::prelude::*;

verus! {

/// `cmp` behaves as a total order: it agrees with its specification, `a < b` exactly when
/// `b > a`, and "not greater" is transitive. The documentation of `Ord` asks this of every
/// implementation.
pub open spec fn lawful_order<T: Ord>() -> bool {
    &&& T::obeys_cmp_spec()
    &&& forall|a: T, b: T| #[trigger]
        a.cmp_spec(&b) == Ordering::Less <==> b.cmp_spec(&a) == Ordering::Greater
    &&& forall|a: T, b: T, c: T|
        #![trigger a.cmp_spec(&b), b.cmp_spec(&c)]
        a.cmp_spec(&b) != Ordering::Greater && b.cmp_spec(&c) != Ordering::Greater
            ==> a.cmp_spec(&c) != Ordering::Greater
}

/// `a <= b` in the order of `T`.
pub open spec fn le<T: Ord>(a: T, b: T) -> bool {
    a.cmp_spec(&b) != Ordering::Greater
}

/// `a` may sit below `b` in a heap that puts the largest item on top (`max_first`) or the
/// smallest.
pub open spec fn below<T: Ord>(max_first: bool, a: T, b: T) -> bool {
    if max_first {
        le(a, b)
    } else {
        le(b, a)
    }
}

/// `a` must sit above `b`: the strict form of the heap order, as the heap compares.
pub open spec fn outranks<T: Ord>(max_first: bool, a: T, b: T) -> bool {
    if max_first {
        b.cmp_spec(&a) == Ordering::Less
    } else {
        b.cmp_spec(&a) == Ordering::Greater
    }
}

pub proof fn lemma_below_refl<T: Ord>(d: bool, a: T)
    requires
        lawful_order::<T>(),
    ensures
        below(d, a, a),
{
    assert(a.cmp_spec(&a) == Ordering::Less <==> a.cmp_spec(&a) == Ordering::Greater);
}

pub proof fn lemma_below_trans<T: Ord>(d: bool, a: T, b: T, c: T)
    requires
        lawful_order::<T>(),
        below(d, a, b),
        below(d, b, c),
    ensures
        below(d, a, c),
{
    if d {
        assert(a.cmp_spec(&b) != Ordering::Greater && b.cmp_spec(&c) != Ordering::Greater);
    } else {
        assert(c.cmp_spec(&b) != Ordering::Greater && b.cmp_spec(&a) != Ordering::Greater);
    }
}

/// Either `b` outranks `a`, or `a` may sit above `b`.
pub proof fn lemma_below_total<T: Ord>(d: bool, a: T, b: T)
    requires
        lawful_order::<T>(),
    ensures
        outranks(d, b, a) ==> below(d, a, b),
        !outranks(d, b, a) ==> below(d, b, a),
{
    assert(a.cmp_spec(&b) == Ordering::Less <==> b.cmp_spec(&a) == Ordering::Greater);
    assert(b.cmp_spec(&a) == Ordering::Less <==> a.cmp_spec(&b) == Ordering::Greater);
}

/// `s` with the items at `i` and `j` exchanged.
pub open spec fn swapped<T>(s: Seq<T>, i: int, j: int) -> Seq<T> {
    s.update(i, s[j]).update(j, s[i])
}

pub proof fn lemma_swap_to_multiset<T>(s: Seq<T>, i: int, j: int)
    requires
        0 <= i < s.len(),
        0 <= j < s.len(),
    ensures
        swapped(s, i, j).to_multiset() == s.to_multiset(),
{
    broadcast use vstd::seq_lib::to_multiset_update;
    broadcast use vstd::multiset::group_multiset_axioms;

    let s1 = s.update(i, s[j]);
    assert(s1.to_multiset() == s.to_multiset().insert(s[j]).remove(s[i]));
    assert(swapped(s, i, j).to_multiset() == s1.to_multiset().insert(s[i]).remove(s1[j]));
    if i == j {
        assert(s1 =~= s);
        assert(swapped(s, i, j) =~= s);
    } else {
        assert(s1[j] == s[j]);
        assert(s.to_multiset().insert(s[j]).remove(s[i]).insert(s[i]).remove(s[j])
            =~= s.to_multiset()) by {
            vstd::seq_lib::to_multiset_contains(s, s[i]);
            vstd::seq_lib::to_multiset_contains(s, s[j]);
        }
    }
}

/// The order of `i32` is lawful.
pub proof fn lemma_i32_lawful()
    ensures
        lawful_order::<i32>(),
{
}

} // verus!
