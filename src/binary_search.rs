//! Binary search in a sorted sequence.
use crate::heap::order::{lawful_order, le};
use core::cmp::Ordering;
use vstd::prelude::*;
use vstd::std_specs::cmp::OrdSpec;

verus! {

/// `s` is in non-decreasing order.
pub open spec fn sorted_by_le<T: Ord>(s: Seq<T>) -> bool {
    forall|i: int, j: int| 0 <= i < j < s.len() ==> le(#[trigger] s[i], #[trigger] s[j])
}

/// `s` is in non-decreasing order.
pub open spec fn sorted_i32(s: Seq<i32>) -> bool {
    forall|i: int, j: int| 0 <= i < j < s.len() ==> #[trigger] s[i] <= #[trigger] s[j]
}

/// The position of an item of the sorted `a` that compares equal to `key`, or -1 when there is
/// none. Where several items are equal to `key`, any of their positions may come back.
pub fn index_of<T: Ord>(a: &[T], key: &T) -> (r: i64)
    requires
        lawful_order::<T>(),
        sorted_by_le(a@),
        a@.len() <= i64::MAX,
    ensures
        -1 <= r < a@.len(),
        r >= 0 ==> key.cmp_spec(&a@[r as int]) == Ordering::Equal,
        r == -1 ==> forall|i: int| 0 <= i < a@.len() ==> key.cmp_spec(&a@[i]) != Ordering::Equal,
{
    let mut lo: usize = 0;
    let mut hi: usize = a.len();
    while lo < hi
        invariant
            lawful_order::<T>(),
            sorted_by_le(a@),
            a@.len() <= i64::MAX,
            lo <= hi <= a@.len(),
            forall|i: int| 0 <= i < lo ==> !le(*key, #[trigger] a@[i]),
            forall|i: int| hi <= i < a@.len() ==> !le(#[trigger] a@[i], *key),
        decreases hi - lo,
    {
        let mid = lo + (hi - 1 - lo) / 2;
        let c = key.cmp(&a[mid]);
        proof {
            assert(key.cmp_spec(&a@[mid as int]) == Ordering::Less <==> a@[mid as int].cmp_spec(key)
                == Ordering::Greater);
        }
        match c {
            Ordering::Less => {
                proof {
                    assert forall|i: int| mid <= i < a@.len() implies !le(#[trigger] a@[i], *key) by {
                        if i > mid && le(a@[i], *key) {
                            assert(le(a@[mid as int], a@[i]));
                        }
                    }
                }
                hi = mid;
            },
            Ordering::Greater => {
                proof {
                    assert forall|i: int| 0 <= i <= mid implies !le(*key, #[trigger] a@[i]) by {
                        if i < mid && le(*key, a@[i]) {
                            assert(le(a@[i], a@[mid as int]));
                        }
                    }
                }
                lo = mid + 1;
            },
            Ordering::Equal => {
                return mid as i64;
            },
        }
    }
    proof {
        assert forall|i: int| 0 <= i < a@.len() implies key.cmp_spec(&a@[i]) != Ordering::Equal by {
            assert(key.cmp_spec(&a@[i]) == Ordering::Less <==> a@[i].cmp_spec(key)
                == Ordering::Greater);
        }
    }
    -1
}

/// The position of `key` in the sorted `a`, or -1 when it does not occur. Where it occurs
/// several times, any of its positions may come back.
pub fn index_of_i32_seq(a: &[i32], key: &i32) -> (r: i64)
    requires
        sorted_i32(a@),
        a@.len() <= i64::MAX,
    ensures
        -1 <= r < a@.len(),
        r >= 0 ==> a@[r as int] == *key,
        r == -1 ==> !a@.contains(*key),
{
    let mut lo: usize = 0;
    let mut hi: usize = a.len();
    while lo < hi
        invariant
            sorted_i32(a@),
            a@.len() <= i64::MAX,
            lo <= hi <= a@.len(),
            forall|i: int| 0 <= i < lo ==> #[trigger] a@[i] < *key,
            forall|i: int| hi <= i < a@.len() ==> #[trigger] a@[i] > *key,
        decreases hi - lo,
    {
        let mid = lo + (hi - 1 - lo) / 2;
        if *key < a[mid] {
            proof {
                assert forall|i: int| mid <= i < a@.len() implies #[trigger] a@[i] > *key by {
                    if i > mid {
                        assert(a@[mid as int] <= a@[i]);
                    }
                }
            }
            hi = mid;
        } else if *key > a[mid] {
            proof {
                assert forall|i: int| 0 <= i <= mid implies #[trigger] a@[i] < *key by {
                    if i < mid {
                        assert(a@[i] <= a@[mid as int]);
                    }
                }
            }
            lo = mid + 1;
        } else {
            return mid as i64;
        }
    }
    -1
}

} // verus!
