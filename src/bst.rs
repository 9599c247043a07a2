//! An ordered symbol table on an unbalanced binary search tree.
use crate::error::InvalidArgument;
use crate::heap::order::{lawful_order, le};
use core::cmp::Ordering;
use std::collections::VecDeque;
use vstd::multiset::Multiset;
use vstd::prelude::*;
use vstd::std_specs::cmp::OrdSpec;
use vstd::string::StringExecFns;

verus! {

/// A node of the tree, with the number of nodes in its subtree.
pub(crate) struct Node<K, V> {
    pub(crate) key: K,
    pub(crate) val: V,
    pub(crate) left: Option<Box<Node<K, V>>>,
    pub(crate) right: Option<Box<Node<K, V>>>,
    pub(crate) size: usize,
}

/// `a < b` in the order of `K`.
pub open spec fn lt<K: Ord>(a: K, b: K) -> bool {
    a.cmp_spec(&b) == Ordering::Less
}

/// The entries of a subtree, in key order.
pub(crate) open spec fn inorder<K, V>(l: Option<Box<Node<K, V>>>) -> Seq<(K, V)>
    decreases l,
{
    match l {
        None => Seq::empty(),
        Some(n) => inorder(n.left) + seq![(n.key, n.val)] + inorder(n.right),
    }
}

/// Every node has the right subtree size, keys below it on the left and above it on the
/// right.
pub(crate) open spec fn bst_ok<K: Ord, V>(l: Option<Box<Node<K, V>>>) -> bool
    decreases l,
{
    match l {
        None => true,
        Some(n) => {
            &&& bst_ok(n.left)
            &&& bst_ok(n.right)
            &&& n.size == inorder(n.left).len() + 1 + inorder(n.right).len()
            &&& forall|i: int|
                0 <= i < inorder(n.left).len() ==> lt(#[trigger] inorder(n.left)[i].0, n.key)
            &&& forall|i: int|
                0 <= i < inorder(n.right).len() ==> lt(n.key, #[trigger] inorder(n.right)[i].0)
        },
    }
}

/// The keys of `s` are strictly increasing.
pub open spec fn sorted_keys<K: Ord, V>(s: Seq<(K, V)>) -> bool {
    forall|i: int, j: int| 0 <= i < j < s.len() ==> lt(#[trigger] s[i].0, #[trigger] s[j].0)
}

/// Some entry of `s` has a key equal to `key`.
pub open spec fn has_key<K: Ord, V>(s: Seq<(K, V)>, key: K) -> bool {
    exists|i: int| 0 <= i < s.len() && key.cmp_spec(&s[i].0) == Ordering::Equal
}

proof fn lemma_lt_trans<K: Ord>(a: K, b: K, c: K)
    requires
        lawful_order::<K>(),
        lt(a, b),
        lt(b, c),
    ensures
        lt(a, c),
{
    assert(a.cmp_spec(&b) == Ordering::Less <==> b.cmp_spec(&a) == Ordering::Greater);
    assert(b.cmp_spec(&c) == Ordering::Less <==> c.cmp_spec(&b) == Ordering::Greater);
    assert(a.cmp_spec(&c) == Ordering::Less <==> c.cmp_spec(&a) == Ordering::Greater);
    assert(c.cmp_spec(&a) == Ordering::Less <==> a.cmp_spec(&c) == Ordering::Greater);
    if a.cmp_spec(&c) != Ordering::Less {
        assert(c.cmp_spec(&a) != Ordering::Greater);
        assert(c.cmp_spec(&a) != Ordering::Greater && a.cmp_spec(&b) != Ordering::Greater);
        assert(c.cmp_spec(&b) != Ordering::Greater);
    }
}

/// Comparing the other way round gives the mirrored answer.
proof fn lemma_cmp_flip<K: Ord>(a: K, b: K)
    requires
        lawful_order::<K>(),
    ensures
        a.cmp_spec(&b) == Ordering::Less <==> b.cmp_spec(&a) == Ordering::Greater,
        a.cmp_spec(&b) == Ordering::Greater <==> b.cmp_spec(&a) == Ordering::Less,
        a.cmp_spec(&b) == Ordering::Equal <==> b.cmp_spec(&a) == Ordering::Equal,
{
    assert(a.cmp_spec(&b) == Ordering::Less <==> b.cmp_spec(&a) == Ordering::Greater);
    assert(b.cmp_spec(&a) == Ordering::Less <==> a.cmp_spec(&b) == Ordering::Greater);
}

proof fn lemma_bst_sorted<K: Ord, V>(l: Option<Box<Node<K, V>>>)
    requires
        lawful_order::<K>(),
        bst_ok(l),
    ensures
        sorted_keys(inorder(l)),
    decreases l,
{
    match l {
        None => {},
        Some(n) => {
            lemma_bst_sorted(n.left);
            lemma_bst_sorted(n.right);
            let a = inorder(n.left);
            let b = inorder(n.right);
            let s = inorder(l);
            assert forall|i: int, j: int| 0 <= i < j < s.len() implies lt(
                #[trigger] s[i].0,
                #[trigger] s[j].0,
            ) by {
                if j < a.len() {
                    assert(s[i] == a[i] && s[j] == a[j]);
                } else if i > a.len() {
                    assert(s[i] == b[i - a.len() - 1] && s[j] == b[j - a.len() - 1]);
                } else if i == a.len() {
                    assert(s[j] == b[j - a.len() - 1]);
                    assert(lt(n.key, b[j - a.len() - 1].0));
                } else if j == a.len() {
                    assert(s[i] == a[i]);
                    assert(lt(a[i].0, n.key));
                } else {
                    assert(s[i] == a[i] && s[j] == b[j - a.len() - 1]);
                    assert(lt(a[i].0, n.key));
                    assert(lt(n.key, b[j - a.len() - 1].0));
                    lemma_lt_trans(a[i].0, n.key, b[j - a.len() - 1].0);
                }
            }
        },
    }
}

proof fn lemma_size_field<K: Ord, V>(l: Option<Box<Node<K, V>>>)
    requires
        bst_ok(l),
    ensures
        l is Some ==> l->Some_0.size == inorder(l).len(),
{
    match l {
        Some(n) => {
            assert(inorder(l) == inorder(n.left) + seq![(n.key, n.val)] + inorder(n.right));
        },
        None => {},
    }
}

fn size_of<K, V>(x: &Option<Box<Node<K, V>>>) -> (r: usize)
    requires
        x is Some ==> x->Some_0.size == inorder(*x).len(),
    ensures
        r == inorder(*x).len(),
{
    match x {
        None => 0,
        Some(n) => n.size,
    }
}

fn get_in<'a, K: Ord, V>(x: &'a Option<Box<Node<K, V>>>, key: &K) -> (r: Option<&'a V>)
    requires
        lawful_order::<K>(),
        bst_ok(*x),
    ensures
        r is Some <==> has_key(inorder(*x), *key),
        r is Some ==> exists|i: int|
            0 <= i < inorder(*x).len() && key.cmp_spec(&inorder(*x)[i].0) == Ordering::Equal
                && inorder(*x)[i].1 == *r->Some_0,
    decreases *x,
{
    match x {
        None => None,
        Some(node) => {
            let a = Ghost(inorder(node.left));
            let b = Ghost(inorder(node.right));
            let s = Ghost(inorder(*x));
            match key.cmp(&node.key) {
                Ordering::Equal => {
                    proof {
                        assert(s@[a@.len() as int] == (node.key, node.val));
                    }
                    Some(&node.val)
                },
                Ordering::Less => {
                    let r = get_in(&node.left, key);
                    proof {
                        assert forall|i: int|
                            0 <= i < s@.len() && key.cmp_spec(&s@[i].0) == Ordering::Equal implies i
                            < a@.len() by {
                            if i == a@.len() {
                            } else if i > a@.len() {
                                assert(s@[i] == b@[i - a@.len() - 1]);
                                assert(lt(node.key, b@[i - a@.len() - 1].0));
                                lemma_lt_trans(*key, node.key, s@[i].0);
                            }
                        }
                        if has_key(a@, *key) {
                            let i = choose|i: int| 0 <= i < a@.len() && key.cmp_spec(&a@[i].0) == Ordering::Equal;
                            assert(s@[i] == a@[i]);
                        }
                        if r is Some {
                            let i = choose|i: int|
                                0 <= i < a@.len() && key.cmp_spec(&a@[i].0) == Ordering::Equal && a@[i].1 == *r->Some_0;
                            assert(s@[i] == a@[i]);
                        }
                    }
                    r
                },
                Ordering::Greater => {
                    let r = get_in(&node.right, key);
                    proof {
                        lemma_cmp_flip(*key, node.key);
                        assert forall|i: int|
                            0 <= i < s@.len() && key.cmp_spec(&s@[i].0) == Ordering::Equal implies i
                            > a@.len() by {
                            if i < a@.len() {
                                assert(s@[i] == a@[i]);
                                assert(lt(a@[i].0, node.key));
                                lemma_lt_trans(s@[i].0, node.key, *key);
                                lemma_cmp_flip(s@[i].0, *key);
                            }
                        }
                        if has_key(b@, *key) {
                            let i = choose|i: int| 0 <= i < b@.len() && key.cmp_spec(&b@[i].0) == Ordering::Equal;
                            assert(s@[i + a@.len() + 1] == b@[i]);
                        }
                        if has_key(s@, *key) {
                            let i = choose|i: int| 0 <= i < s@.len() && key.cmp_spec(&s@[i].0) == Ordering::Equal;
                            assert(s@[i] == b@[i - a@.len() - 1]);
                        }
                        if r is Some {
                            let i = choose|i: int|
                                0 <= i < b@.len() && key.cmp_spec(&b@[i].0) == Ordering::Equal && b@[i].1 == *r->Some_0;
                            assert(s@[i + a@.len() + 1] == b@[i]);
                        }
                    }
                    r
                },
            }
        },
    }
}

fn put_in<K: Ord, V>(x: Option<Box<Node<K, V>>>, key: K, val: V) -> (r: Option<Box<Node<K, V>>>)
    requires
        lawful_order::<K>(),
        bst_ok(x),
        inorder(x).len() < usize::MAX,
    ensures
        bst_ok(r),
        has_key(inorder(x), key) ==> exists|i: int|
            0 <= i < inorder(x).len() && key.cmp_spec(&inorder(x)[i].0) == Ordering::Equal
                && inorder(r) == inorder(x).update(i, (inorder(x)[i].0, val)),
        !has_key(inorder(x), key) ==> exists|i: int|
            0 <= i <= inorder(x).len() && inorder(r) == inorder(x).insert(i, (key, val)),
    decreases x,
{
    match x {
        None => {
            let r = Some(Box::new(Node { key, val, left: None, right: None, size: 1 }));
            proof {
                assert(inorder(r) =~= inorder(x).insert(0, (key, val)));
            }
            r
        },
        Some(b) => {
            let mut n = *b;
            let ghost a = inorder(n.left);
            let ghost c = inorder(n.right);
            let ghost s = inorder(x);
            let ghost nk = n.key;
            let ghost nv = n.val;
            proof {
                assert(s == a + seq![(nk, nv)] + c);
            }
            match key.cmp(&n.key) {
                Ordering::Less => {
                    let l = n.left.take();
                    let nl = put_in(l, key, val);
                    n.left = nl;
                    proof {
                        assert forall|i: int| 0 <= i < s.len() && key.cmp_spec(&s[i].0) == Ordering::Equal implies i < a.len() by {
                            if i > a.len() {
                                assert(s[i] == c[i - a.len() - 1]);
                                lemma_lt_trans(key, nk, s[i].0);
                            }
                        }
                        let na = inorder(nl);
                        if has_key(a, key) {
                            let i = choose|i: int|
                                0 <= i < a.len() && key.cmp_spec(&a[i].0) == Ordering::Equal && na == a.update(i, (a[i].0, val));
                            assert(s[i] == a[i]);
                            assert(na + seq![(nk, nv)] + c =~= s.update(i, (s[i].0, val)));
                            assert forall|k: int| 0 <= k < na.len() implies lt(#[trigger] na[k].0, nk) by {
                                assert(na[k].0 == a[k].0);
                            }
                        } else {
                            let i = choose|i: int| 0 <= i <= a.len() && na == a.insert(i, (key, val));
                            assert(na + seq![(nk, nv)] + c =~= s.insert(i, (key, val)));
                            assert forall|k: int| 0 <= k < na.len() implies lt(#[trigger] na[k].0, nk) by {
                                if k < i {
                                    assert(na[k] == a[k]);
                                } else if k > i {
                                    assert(na[k] == a[k - 1]);
                                }
                            }
                            if has_key(s, key) {
                                let j = choose|j: int| 0 <= j < s.len() && key.cmp_spec(&s[j].0) == Ordering::Equal;
                                assert(s[j] == a[j]);
                            }
                        }
                    }
                },
                Ordering::Greater => {
                    let rt = n.right.take();
                    let nr = put_in(rt, key, val);
                    n.right = nr;
                    proof {
                        lemma_cmp_flip(key, nk);
                        assert forall|i: int| 0 <= i < s.len() && key.cmp_spec(&s[i].0) == Ordering::Equal implies i > a.len() by {
                            if i < a.len() {
                                assert(s[i] == a[i]);
                                lemma_lt_trans(s[i].0, nk, key);
                                lemma_cmp_flip(s[i].0, key);
                            }
                        }
                        let nc = inorder(nr);
                        let off = a.len() + 1;
                        if has_key(c, key) {
                            let i = choose|i: int|
                                0 <= i < c.len() && key.cmp_spec(&c[i].0) == Ordering::Equal && nc == c.update(i, (c[i].0, val));
                            assert(s[i + off] == c[i]);
                            assert(a + seq![(nk, nv)] + nc =~= s.update(i + off, (s[i + off].0, val)));
                            assert forall|k: int| 0 <= k < nc.len() implies lt(nk, #[trigger] nc[k].0) by {
                                assert(nc[k].0 == c[k].0);
                            }
                        } else {
                            let i = choose|i: int| 0 <= i <= c.len() && nc == c.insert(i, (key, val));
                            assert(a + seq![(nk, nv)] + nc =~= s.insert(i + off, (key, val)));
                            assert forall|k: int| 0 <= k < nc.len() implies lt(nk, #[trigger] nc[k].0) by {
                                if k < i {
                                    assert(nc[k] == c[k]);
                                } else if k > i {
                                    assert(nc[k] == c[k - 1]);
                                }
                            }
                            if has_key(s, key) {
                                let j = choose|j: int| 0 <= j < s.len() && key.cmp_spec(&s[j].0) == Ordering::Equal;
                                assert(s[j] == c[j - off]);
                            }
                        }
                    }
                },
                Ordering::Equal => {
                    n.val = val;
                    proof {
                        assert(s[a.len() as int] == (nk, nv));
                        assert(a + seq![(nk, val)] + c =~= s.update(a.len() as int, (nk, val)));
                    }
                },
            }
            proof {
                lemma_size_field(n.left);
                lemma_size_field(n.right);
            }
            let sl = size_of(&n.left);
            let sr = size_of(&n.right);
            n.size = sl + 1 + sr;
            Some(Box::new(n))
        },
    }
}

/// Removes the node with the smallest key from the subtree at `x`; returns the rest of the
/// subtree and the removed node, detached.
fn delete_min_in<K: Ord, V>(x: Box<Node<K, V>>) -> (r: (Option<Box<Node<K, V>>>, Box<Node<K, V>>))
    requires
        lawful_order::<K>(),
        bst_ok(Some(x)),
    ensures
        bst_ok(r.0),
        inorder(Some(x)).len() > 0,
        inorder(r.0) == inorder(Some(x)).drop_first(),
        (r.1.key, r.1.val) == inorder(Some(x))[0],
        r.1.left is None,
        r.1.right is None,
    decreases x,
{
    let mut n = *x;
    let ghost a = inorder(n.left);
    let ghost c = inorder(n.right);
    let ghost nk = n.key;
    let ghost nv = n.val;
    proof {
        assert(inorder(Some(x)) == a + seq![(nk, nv)] + c);
    }
    match n.left.take() {
        None => {
            let rest = n.right.take();
            proof {
                assert(a =~= Seq::<(K, V)>::empty());
                assert(inorder(rest) =~= inorder(Some(x)).drop_first());
            }
            (rest, Box::new(n))
        },
        Some(left) => {
            let (t, deleted) = delete_min_in(left);
            n.left = t;
            proof {
                lemma_size_field(n.left);
                lemma_size_field(n.right);
                assert forall|k: int| 0 <= k < inorder(n.left).len() implies lt(#[trigger] inorder(n.left)[k].0, nk) by {
                    assert(inorder(n.left)[k] == a[k + 1]);
                }
            }
            let sl = size_of(&n.left);
            let sr = size_of(&n.right);
            n.size = sl + sr + 1;
            let r = Some(Box::new(n));
            proof {
                assert(inorder(r) =~= inorder(Some(x)).drop_first());
            }
            (r, deleted)
        },
    }
}

/// Removes the node with the largest key from the subtree at `x`; returns the rest of the
/// subtree and the removed node, detached.
fn delete_max_in<K: Ord, V>(x: Box<Node<K, V>>) -> (r: (Option<Box<Node<K, V>>>, Box<Node<K, V>>))
    requires
        lawful_order::<K>(),
        bst_ok(Some(x)),
    ensures
        bst_ok(r.0),
        inorder(Some(x)).len() > 0,
        inorder(r.0) == inorder(Some(x)).drop_last(),
        (r.1.key, r.1.val) == inorder(Some(x)).last(),
        r.1.left is None,
        r.1.right is None,
    decreases x,
{
    let mut n = *x;
    let ghost a = inorder(n.left);
    let ghost c = inorder(n.right);
    let ghost nk = n.key;
    let ghost nv = n.val;
    proof {
        assert(inorder(Some(x)) == a + seq![(nk, nv)] + c);
    }
    match n.right.take() {
        None => {
            let rest = n.left.take();
            proof {
                assert(c =~= Seq::<(K, V)>::empty());
                assert(inorder(rest) =~= inorder(Some(x)).drop_last());
            }
            (rest, Box::new(n))
        },
        Some(right) => {
            let (t, deleted) = delete_max_in(right);
            n.right = t;
            proof {
                lemma_size_field(n.left);
                lemma_size_field(n.right);
                assert forall|k: int| 0 <= k < inorder(n.right).len() implies lt(nk, #[trigger] inorder(n.right)[k].0) by {
                    assert(inorder(n.right)[k] == c[k]);
                }
            }
            let sl = size_of(&n.left);
            let sr = size_of(&n.right);
            n.size = sl + sr + 1;
            let r = Some(Box::new(n));
            proof {
                assert(inorder(r) =~= inorder(Some(x)).drop_last());
            }
            (r, deleted)
        },
    }
}

/// Removes the entry whose key equals `key` from the subtree at `x`, if there is one.
fn delete_in<K: Ord, V>(x: Option<Box<Node<K, V>>>, key: &K) -> (r: Option<Box<Node<K, V>>>)
    requires
        lawful_order::<K>(),
        bst_ok(x),
    ensures
        bst_ok(r),
        has_key(inorder(x), *key) ==> exists|i: int|
            0 <= i < inorder(x).len() && key.cmp_spec(&inorder(x)[i].0) == Ordering::Equal
                && inorder(r) == inorder(x).remove(i),
        !has_key(inorder(x), *key) ==> inorder(r) == inorder(x),
    decreases x,
{
    match x {
        None => None,
        Some(b) => {
            let mut n = *b;
            let ghost a = inorder(n.left);
            let ghost c = inorder(n.right);
            let ghost s = inorder(x);
            let ghost nk = n.key;
            let ghost nv = n.val;
            proof {
                assert(s == a + seq![(nk, nv)] + c);
                lemma_bst_sorted(n.right);
            }
            match key.cmp(&n.key) {
                Ordering::Less => {
                    let l = n.left.take();
                    n.left = delete_in(l, key);
                    proof {
                        assert forall|i: int| 0 <= i < s.len() && key.cmp_spec(&s[i].0) == Ordering::Equal implies i < a.len() by {
                            if i > a.len() {
                                assert(s[i] == c[i - a.len() - 1]);
                                lemma_lt_trans(*key, nk, s[i].0);
                            }
                        }
                        let na = inorder(n.left);
                        if has_key(a, *key) {
                            let i = choose|i: int|
                                0 <= i < a.len() && key.cmp_spec(&a[i].0) == Ordering::Equal && na == a.remove(i);
                            assert(s[i] == a[i]);
                            assert(na + seq![(nk, nv)] + c =~= s.remove(i));
                            assert forall|k: int| 0 <= k < na.len() implies lt(#[trigger] na[k].0, nk) by {
                                if k < i {
                                    assert(na[k] == a[k]);
                                } else {
                                    assert(na[k] == a[k + 1]);
                                }
                            }
                        } else {
                            if has_key(s, *key) {
                                let j = choose|j: int| 0 <= j < s.len() && key.cmp_spec(&s[j].0) == Ordering::Equal;
                                assert(s[j] == a[j]);
                            }
                        }
                    }
                },
                Ordering::Greater => {
                    let rt = n.right.take();
                    n.right = delete_in(rt, key);
                    proof {
                        lemma_cmp_flip(*key, nk);
                        assert forall|i: int| 0 <= i < s.len() && key.cmp_spec(&s[i].0) == Ordering::Equal implies i > a.len() by {
                            if i < a.len() {
                                assert(s[i] == a[i]);
                                lemma_lt_trans(s[i].0, nk, *key);
                                lemma_cmp_flip(s[i].0, *key);
                            }
                        }
                        let nc = inorder(n.right);
                        let off = a.len() + 1;
                        if has_key(c, *key) {
                            let i = choose|i: int|
                                0 <= i < c.len() && key.cmp_spec(&c[i].0) == Ordering::Equal && nc == c.remove(i);
                            assert(s[i + off] == c[i]);
                            assert(a + seq![(nk, nv)] + nc =~= s.remove(i + off));
                            assert forall|k: int| 0 <= k < nc.len() implies lt(nk, #[trigger] nc[k].0) by {
                                if k < i {
                                    assert(nc[k] == c[k]);
                                } else {
                                    assert(nc[k] == c[k + 1]);
                                }
                            }
                        } else {
                            if has_key(s, *key) {
                                let j = choose|j: int| 0 <= j < s.len() && key.cmp_spec(&s[j].0) == Ordering::Equal;
                                assert(s[j] == c[j - off]);
                            }
                        }
                    }
                },
                Ordering::Equal => {
                    proof {
                        assert(s[a.len() as int] == (nk, nv));
                    }
                    match n.right.take() {
                        None => {
                            proof {
                                assert(c =~= Seq::<(K, V)>::empty());
                                assert(a =~= s.remove(a.len() as int));
                            }
                            return n.left;
                        },
                        Some(right) => {
                            if n.left.is_none() {
                                proof {
                                    assert(a =~= Seq::<(K, V)>::empty());
                                    assert(c =~= s.remove(0));
                                }
                                return Some(right);
                            }
                            let (rest, mut t) = delete_min_in(right);
                            t.right = rest;
                            t.left = n.left.take();
                            proof {
                                let mk = c[0].0;
                                assert(t.key == mk);
                                lemma_size_field(t.left);
                                lemma_size_field(t.right);
                                assert forall|k: int| 0 <= k < inorder(t.left).len() implies lt(#[trigger] inorder(t.left)[k].0, mk) by {
                                    assert(lt(a[k].0, nk));
                                    assert(lt(nk, c[0].0));
                                    lemma_lt_trans(a[k].0, nk, mk);
                                }
                                assert forall|k: int| 0 <= k < inorder(t.right).len() implies lt(mk, #[trigger] inorder(t.right)[k].0) by {
                                    assert(inorder(t.right)[k] == c[k + 1]);
                                    assert(lt(c[0].0, c[k + 1].0));
                                }
                            }
                            let sl = size_of(&t.left);
                            let sr = size_of(&t.right);
                            t.size = sl + sr + 1;
                            let r = Some(t);
                            proof {
                                assert(inorder(r) =~= s.remove(a.len() as int));
                            }
                            return r;
                        },
                    }
                },
            }
            proof {
                lemma_size_field(n.left);
                lemma_size_field(n.right);
            }
            let sl = size_of(&n.left);
            let sr = size_of(&n.right);
            n.size = sl + 1 + sr;
            let r = Some(Box::new(n));
            proof {
                if !has_key(s, *key) {
                    assert(inorder(r) =~= s);
                }
            }
            r
        },
    }
}

proof fn lemma_le_lt<K: Ord>(a: K, b: K, c: K)
    requires
        lawful_order::<K>(),
    ensures
        le(a, b) && lt(b, c) ==> lt(a, c),
        lt(a, b) && le(b, c) ==> lt(a, c),
        lt(a, b) ==> le(a, b),
        !lt(a, b) <==> le(b, a),
        a.cmp_spec(&b) == Ordering::Equal ==> le(a, b) && le(b, a),
{
    lemma_cmp_flip(a, b);
    lemma_cmp_flip(a, c);
    lemma_cmp_flip(b, c);
    if le(a, b) && lt(b, c) && !lt(a, c) {
        assert(le(c, a) && le(a, b));
    }
    if lt(a, b) && le(b, c) && !lt(a, c) {
        assert(le(b, c) && le(c, a));
    }
}

/// Position `i` holds the floor of `key` in `s`: the last key not above it.
pub open spec fn is_floor<K: Ord, V>(s: Seq<(K, V)>, key: K, i: int) -> bool {
    &&& 0 <= i < s.len()
    &&& le(s[i].0, key)
    &&& forall|j: int| i < j < s.len() ==> !le(#[trigger] s[j].0, key)
}

/// Position `i` holds the ceiling of `key` in `s`: the first key not below it.
pub open spec fn is_ceiling<K: Ord, V>(s: Seq<(K, V)>, key: K, i: int) -> bool {
    &&& 0 <= i < s.len()
    &&& le(key, s[i].0)
    &&& forall|j: int| 0 <= j < i ==> !le(key, #[trigger] s[j].0)
}

fn floor_in<'a, K: Ord, V>(x: &'a Option<Box<Node<K, V>>>, key: &K, best: Option<&'a K>) -> (r: Option<&'a K>)
    requires
        lawful_order::<K>(),
        bst_ok(*x),
    ensures
        (exists|i: int| 0 <= i < inorder(*x).len() && le(#[trigger] inorder(*x)[i].0, *key)) ==> exists|i: int|
            is_floor(inorder(*x), *key, i) && r == Some(&inorder(*x)[i].0),
        !(exists|i: int| 0 <= i < inorder(*x).len() && le(#[trigger] inorder(*x)[i].0, *key)) ==> r == best,
    decreases *x,
{
    match x {
        None => best,
        Some(y) => {
            let ghost a = inorder(y.left);
            let ghost c = inorder(y.right);
            let ghost s = inorder(*x);
            let ghost off = a.len() + 1;
            proof {
                assert(s == a + seq![(y.key, y.val)] + c);
                assert(s[a.len() as int] == (y.key, y.val));
            }
            match key.cmp(&y.key) {
                Ordering::Equal => {
                    proof {
                        lemma_le_lt(*key, y.key, y.key);
                        lemma_le_lt(y.key, *key, y.key);
                        assert forall|j: int| a.len() < j < s.len() implies !le(#[trigger] s[j].0, *key) by {
                            assert(s[j] == c[j - off]);
                            lemma_le_lt(*key, y.key, s[j].0);
                            lemma_le_lt(*key, s[j].0, *key);
                        }
                        assert(is_floor(s, *key, a.len() as int));
                    }
                    Some(&y.key)
                },
                Ordering::Less => {
                    let r = floor_in(&y.left, key, best);
                    proof {
                        lemma_le_lt(y.key, *key, y.key);
                        lemma_cmp_flip(*key, y.key);
                        assert forall|j: int| a.len() <= j < s.len() implies !le(#[trigger] s[j].0, *key) by {
                            if j > a.len() {
                                assert(s[j] == c[j - off]);
                                lemma_lt_trans(*key, y.key, s[j].0);
                                lemma_le_lt(*key, s[j].0, *key);
                            }
                        }
                        if exists|i: int| 0 <= i < s.len() && le(#[trigger] s[i].0, *key) {
                            let i = choose|i: int| 0 <= i < s.len() && le(#[trigger] s[i].0, *key);
                            assert(s[i] == a[i]);
                            assert(le(a[i].0, *key));
                            let k = choose|k: int| is_floor(a, *key, k) && r == Some(&a[k].0);
                            assert(s[k] == a[k]);
                            assert forall|j: int| k < j < s.len() implies !le(#[trigger] s[j].0, *key) by {
                                if j < a.len() {
                                    assert(s[j] == a[j]);
                                }
                            }
                            assert(is_floor(s, *key, k));
                        } else {
                            assert forall|i: int| 0 <= i < a.len() implies !le(#[trigger] a[i].0, *key) by {
                                assert(s[i] == a[i]);
                            }
                        }
                    }
                    r
                },
                Ordering::Greater => {
                    let t = floor_in(&y.right, key, Some(&y.key));
                    proof {
                        lemma_cmp_flip(*key, y.key);
                        lemma_le_lt(y.key, *key, y.key);
                        if exists|i: int| 0 <= i < c.len() && le(#[trigger] c[i].0, *key) {
                            let k = choose|k: int| is_floor(c, *key, k) && t == Some(&c[k].0);
                            assert(s[k + off] == c[k]);
                            assert forall|j: int| k + off < j < s.len() implies !le(#[trigger] s[j].0, *key) by {
                                assert(s[j] == c[j - off]);
                            }
                            assert(is_floor(s, *key, k + off));
                        } else {
                            assert forall|j: int| a.len() < j < s.len() implies !le(#[trigger] s[j].0, *key) by {
                                assert(s[j] == c[j - off]);
                            }
                            assert(is_floor(s, *key, a.len() as int));
                        }
                    }
                    t
                },
            }
        },
    }
}

fn ceiling_in<'a, K: Ord, V>(x: &'a Option<Box<Node<K, V>>>, key: &K, best: Option<&'a K>) -> (r: Option<&'a K>)
    requires
        lawful_order::<K>(),
        bst_ok(*x),
    ensures
        (exists|i: int| 0 <= i < inorder(*x).len() && le(*key, #[trigger] inorder(*x)[i].0)) ==> exists|i: int|
            is_ceiling(inorder(*x), *key, i) && r == Some(&inorder(*x)[i].0),
        !(exists|i: int| 0 <= i < inorder(*x).len() && le(*key, #[trigger] inorder(*x)[i].0)) ==> r == best,
    decreases *x,
{
    match x {
        None => best,
        Some(y) => {
            let ghost a = inorder(y.left);
            let ghost c = inorder(y.right);
            let ghost s = inorder(*x);
            let ghost off = a.len() + 1;
            proof {
                assert(s == a + seq![(y.key, y.val)] + c);
                assert(s[a.len() as int] == (y.key, y.val));
            }
            match key.cmp(&y.key) {
                Ordering::Equal => {
                    proof {
                        lemma_le_lt(*key, y.key, y.key);
                        assert forall|j: int| 0 <= j < a.len() implies !le(*key, #[trigger] s[j].0) by {
                            assert(s[j] == a[j]);
                            lemma_le_lt(s[j].0, y.key, *key);
                            lemma_le_lt(s[j].0, *key, *key);
                        }
                        assert(is_ceiling(s, *key, a.len() as int));
                    }
                    Some(&y.key)
                },
                Ordering::Greater => {
                    let r = ceiling_in(&y.right, key, best);
                    proof {
                        lemma_cmp_flip(*key, y.key);
                        lemma_le_lt(y.key, *key, y.key);
                        assert forall|j: int| 0 <= j <= a.len() implies !le(*key, #[trigger] s[j].0) by {
                            if j < a.len() {
                                assert(s[j] == a[j]);
                                lemma_lt_trans(s[j].0, y.key, *key);
                                lemma_le_lt(s[j].0, *key, *key);
                            }
                        }
                        if exists|i: int| 0 <= i < s.len() && le(*key, #[trigger] s[i].0) {
                            let i = choose|i: int| 0 <= i < s.len() && le(*key, #[trigger] s[i].0);
                            assert(s[i] == c[i - off]);
                            assert(le(*key, c[i - off].0));
                            let k = choose|k: int| is_ceiling(c, *key, k) && r == Some(&c[k].0);
                            assert(s[k + off] == c[k]);
                            assert forall|j: int| 0 <= j < k + off implies !le(*key, #[trigger] s[j].0) by {
                                if j > a.len() {
                                    assert(s[j] == c[j - off]);
                                }
                            }
                            assert(is_ceiling(s, *key, k + off));
                        } else {
                            assert forall|i: int| 0 <= i < c.len() implies !le(*key, #[trigger] c[i].0) by {
                                assert(s[i + off] == c[i]);
                            }
                        }
                    }
                    r
                },
                Ordering::Less => {
                    let t = ceiling_in(&y.left, key, Some(&y.key));
                    proof {
                        lemma_le_lt(*key, y.key, y.key);
                        if exists|i: int| 0 <= i < a.len() && le(*key, #[trigger] a[i].0) {
                            let k = choose|k: int| is_ceiling(a, *key, k) && t == Some(&a[k].0);
                            assert(s[k] == a[k]);
                            assert forall|j: int| 0 <= j < k implies !le(*key, #[trigger] s[j].0) by {
                                assert(s[j] == a[j]);
                            }
                            assert(is_ceiling(s, *key, k));
                        } else {
                            assert forall|j: int| 0 <= j < a.len() implies !le(*key, #[trigger] s[j].0) by {
                                assert(s[j] == a[j]);
                            }
                            assert(is_ceiling(s, *key, a.len() as int));
                        }
                    }
                    t
                },
            }
        },
    }
}

fn rank_in<K: Ord, V>(key: &K, x: &Option<Box<Node<K, V>>>) -> (r: usize)
    requires
        lawful_order::<K>(),
        bst_ok(*x),
    ensures
        r <= inorder(*x).len(),
        forall|i: int| 0 <= i < r ==> lt(#[trigger] inorder(*x)[i].0, *key),
        forall|i: int| r <= i < inorder(*x).len() ==> !lt(#[trigger] inorder(*x)[i].0, *key),
    decreases *x,
{
    match x {
        None => 0,
        Some(y) => {
            let ghost a = inorder(y.left);
            let ghost c = inorder(y.right);
            let ghost s = inorder(*x);
            let ghost off = a.len() + 1;
            proof {
                assert(s == a + seq![(y.key, y.val)] + c);
                assert(s[a.len() as int] == (y.key, y.val));
                lemma_size_field(y.left);
                lemma_size_field(y.right);
            }
            match key.cmp(&y.key) {
                Ordering::Equal => {
                    proof {
                        lemma_le_lt(y.key, *key, y.key);
                        lemma_le_lt(*key, y.key, y.key);
                        assert forall|i: int| 0 <= i < a.len() implies lt(#[trigger] s[i].0, *key) by {
                            assert(s[i] == a[i]);
                            lemma_le_lt(s[i].0, y.key, *key);
                        }
                        assert forall|i: int| a.len() <= i < s.len() implies !lt(#[trigger] s[i].0, *key) by {
                            if i > a.len() {
                                assert(s[i] == c[i - off]);
                                lemma_le_lt(*key, y.key, s[i].0);
                                lemma_le_lt(*key, s[i].0, *key);
                                lemma_le_lt(s[i].0, *key, *key);
                            }
                        }
                    }
                    size_of(&y.left)
                },
                Ordering::Less => {
                    let r = rank_in(key, &y.left);
                    proof {
                        lemma_cmp_flip(*key, y.key);
                        lemma_le_lt(y.key, *key, y.key);
                        assert forall|i: int| 0 <= i < r implies lt(#[trigger] s[i].0, *key) by {
                            assert(s[i] == a[i]);
                        }
                        assert forall|i: int| r <= i < s.len() implies !lt(#[trigger] s[i].0, *key) by {
                            if i < a.len() {
                                assert(s[i] == a[i]);
                            } else if i > a.len() {
                                assert(s[i] == c[i - off]);
                                lemma_lt_trans(*key, y.key, s[i].0);
                                lemma_le_lt(s[i].0, *key, *key);
                            }
                        }
                    }
                    r
                },
                Ordering::Greater => {
                    let rr = rank_in(key, &y.right);
                    proof {
                        lemma_cmp_flip(*key, y.key);
                        assert forall|i: int| 0 <= i < off + rr implies lt(#[trigger] s[i].0, *key) by {
                            if i < a.len() {
                                assert(s[i] == a[i]);
                                lemma_lt_trans(s[i].0, y.key, *key);
                            } else if i > a.len() {
                                assert(s[i] == c[i - off]);
                            }
                        }
                        assert forall|i: int| off + rr <= i < s.len() implies !lt(#[trigger] s[i].0, *key) by {
                            assert(s[i] == c[i - off]);
                        }
                    }
                    1 + size_of(&y.left) + rr
                },
            }
        },
    }
}

fn select_in<K: Ord, V>(y: &Box<Node<K, V>>, rank: usize) -> (r: &K)
    requires
        bst_ok(Some(*y)),
        rank < inorder(Some(*y)).len(),
    ensures
        *r == inorder(Some(*y))[rank as int].0,
    decreases *y,
{
    let ghost a = inorder(y.left);
    let ghost c = inorder(y.right);
    let ghost s = inorder(Some(*y));
    proof {
        assert(s == a + seq![(y.key, y.val)] + c);
        lemma_size_field(y.left);
        lemma_size_field(y.right);
    }
    let left_size = size_of(&y.left);
    if left_size > rank {
        match &y.left {
            Some(l) => {
                let r = select_in(l, rank);
                proof {
                    assert(s[rank as int] == a[rank as int]);
                }
                r
            },
            None => &y.key,
        }
    } else if left_size < rank {
        match &y.right {
            Some(rt) => {
                let r = select_in(rt, rank - left_size - 1);
                proof {
                    assert(s[rank as int] == c[rank - left_size - 1]);
                }
                r
            },
            None => &y.key,
        }
    } else {
        &y.key
    }
}

/// `k` lies in `[lo, hi]`.
pub open spec fn in_range<K: Ord>(lo: K, hi: K) -> spec_fn(K) -> bool {
    |k: K| le(lo, k) && le(k, hi)
}

/// The entries of `s` with keys in `[lo, hi]` are exactly those at positions `[p, p + n)`.
pub open spec fn range_at<K: Ord, V>(s: Seq<(K, V)>, lo: K, hi: K, p: int, n: int) -> bool {
    &&& 0 <= p
    &&& 0 <= n
    &&& p + n <= s.len()
    &&& forall|i: int|
        0 <= i < s.len() ==> ((p <= i < p + n) <==> (le(lo, #[trigger] s[i].0) && le(s[i].0, hi)))
}

/// The values behind a sequence of references.
pub open spec fn deref_seq<K>(s: Seq<&K>) -> Seq<K> {
    s.map_values(|r: &K| *r)
}

proof fn lemma_filter_one<K>(k: K, p: spec_fn(K) -> bool)
    ensures
        seq![k].filter(p) == if p(k) {
            seq![k]
        } else {
            Seq::<K>::empty()
        },
{
    reveal(Seq::filter);
    assert(seq![k].drop_last() =~= Seq::<K>::empty());
    assert(Seq::<K>::empty().filter(p) =~= Seq::<K>::empty());
    assert(Seq::<K>::empty().push(k) =~= seq![k]);
}

fn keys_range_in<'a, K: Ord, V>(x: &'a Option<Box<Node<K, V>>>, out: &mut VecDeque<&'a K>, lo: &K, hi: &K)
    requires
        lawful_order::<K>(),
        bst_ok(*x),
    ensures
        deref_seq(final(out)@) == deref_seq(old(out)@) + keys_of(inorder(*x)).filter(in_range(*lo, *hi)),
    decreases *x,
{
    let ghost p = in_range(*lo, *hi);
    match x {
        None => {
            proof {
                reveal(Seq::filter);
                assert(keys_of(inorder(*x)) =~= Seq::<K>::empty());
                assert(deref_seq(out@) + Seq::<K>::empty() =~= deref_seq(out@));
            }
        },
        Some(y) => {
            let ghost a = keys_of(inorder(y.left));
            let ghost c = keys_of(inorder(y.right));
            proof {
                assert(keys_of(inorder(*x)) =~= a + seq![y.key] + c);
                Seq::filter_distributes_over_add(a + seq![y.key], c, p);
                Seq::filter_distributes_over_add(a, seq![y.key], p);
                lemma_filter_one(y.key, p);
            }
            let cmplo = lo.cmp(&y.key);
            let cmphi = hi.cmp(&y.key);
            let ghost start = deref_seq(out@);
            let lo_below = match cmplo {
                Ordering::Less => true,
                _ => false,
            };
            let hi_above = match cmphi {
                Ordering::Greater => true,
                _ => false,
            };
            if lo_below {
                keys_range_in(&y.left, out, lo, hi);
            } else {
                proof {
                    assert(a.all(|k: K| !p(k))) by {
                        assert forall|i: int| 0 <= i < a.len() implies !p(#[trigger] a[i]) by {
                            assert(lt(inorder(y.left)[i].0, y.key));
                            lemma_le_lt(*lo, y.key, y.key);
                            lemma_cmp_flip(*lo, y.key);
                            lemma_le_lt(a[i], y.key, *lo);
                            lemma_le_lt(a[i], *lo, *lo);
                        }
                    }
                    a.lemma_all_neg_filter_empty(p);
                }
            }
            let ghost mid = deref_seq(out@);
            let lo_ok = match cmplo {
                Ordering::Greater => false,
                _ => true,
            };
            let hi_ok = match cmphi {
                Ordering::Less => false,
                _ => true,
            };
            proof {
                lemma_cmp_flip(*lo, y.key);
                lemma_cmp_flip(*hi, y.key);
                lemma_le_lt(*lo, y.key, y.key);
                lemma_le_lt(y.key, *hi, y.key);
                assert(p(y.key) == (lo_ok && hi_ok));
            }
            if lo_ok && hi_ok {
                out.push_back(&y.key);
                proof {
                    assert(deref_seq(out@) =~= mid + seq![y.key]);
                }
            }
            let ghost mid2 = deref_seq(out@);
            if hi_above {
                keys_range_in(&y.right, out, lo, hi);
            } else {
                proof {
                    assert(c.all(|k: K| !p(k))) by {
                        assert forall|i: int| 0 <= i < c.len() implies !p(#[trigger] c[i]) by {
                            assert(lt(y.key, inorder(y.right)[i].0));
                            lemma_le_lt(y.key, *hi, y.key);
                            lemma_le_lt(*hi, y.key, c[i]);
                            lemma_le_lt(c[i], *hi, *hi);
                        }
                    }
                    c.lemma_all_neg_filter_empty(p);
                    assert(deref_seq(out@) =~= mid2 + c.filter(p));
                }
            }
            proof {
                if !lo_below {
                    assert(mid =~= start + a.filter(p));
                }
                if !(lo_ok && hi_ok) {
                    assert(mid2 =~= mid + seq![y.key].filter(p));
                } else {
                    assert(mid2 =~= mid + seq![y.key].filter(p));
                }
                assert(deref_seq(out@) =~= start + (a.filter(p) + seq![y.key].filter(p) + c.filter(p)));
            }
        },
    }
}

/// An iterator over the keys of a `BST` that lie in a range, in increasing order. The keys
/// are collected when it is made.
pub struct KeysRange<'a, K> {
    queue: VecDeque<&'a K>,
}

impl<'a, K> View for KeysRange<'a, K> {
    type V = Seq<K>;

    /// The keys not handed out yet, in order.
    closed spec fn view(&self) -> Seq<K> {
        deref_seq(self.queue@)
    }
}

impl<'a, K> KeysRange<'a, K> {
    /// The last key not handed out yet, or `None` when all were handed out.
    pub fn next_back(&mut self) -> (r: Option<&'a K>)
        ensures
            old(self)@.len() == 0 ==> r is None && final(self)@ == old(self)@,
            old(self)@.len() > 0 ==> r == Some(&old(self)@.last()) && final(self)@ == old(
                self,
            )@.drop_last(),
    {
        let r = self.queue.pop_back();
        proof {
            if old(self)@.len() > 0 {
                assert(self@ =~= old(self)@.drop_last());
            }
        }
        r
    }

    /// The next key, or `None` when all were handed out.
    pub fn next(&mut self) -> (r: Option<&'a K>)
        ensures
            old(self)@.len() == 0 ==> r is None && final(self)@ == old(self)@,
            old(self)@.len() > 0 ==> r == Some(&old(self)@[0]) && final(self)@ == old(
                self,
            )@.drop_first(),
    {
        let r = self.queue.pop_front();
        proof {
            if old(self)@.len() > 0 {
                assert(self@ =~= old(self)@.drop_first());
            }
        }
        r
    }
}

/// The keys in the subtrees of the nodes of `q`, as a multiset.
pub(crate) open spec fn queue_keys<K, V>(q: Seq<&Node<K, V>>) -> Multiset<K>
    decreases q.len(),
{
    if q.len() == 0 {
        Multiset::empty()
    } else {
        keys_of(inorder(Some(Box::new(*q[0])))).to_multiset().add(queue_keys(q.drop_first()))
    }
}

/// Number of nodes in the subtrees of the nodes of `q`.
pub(crate) open spec fn queue_nodes<K, V>(q: Seq<&Node<K, V>>) -> nat
    decreases q.len(),
{
    if q.len() == 0 {
        0
    } else {
        inorder(Some(Box::new(*q[0]))).len() + queue_nodes(q.drop_first())
    }
}

proof fn lemma_queue_push<K, V>(q: Seq<&Node<K, V>>, n: &Node<K, V>)
    ensures
        queue_keys(q.push(n)) == queue_keys(q).add(keys_of(inorder(Some(Box::new(*n)))).to_multiset()),
        queue_nodes(q.push(n)) == queue_nodes(q) + inorder(Some(Box::new(*n))).len(),
    decreases q.len(),
{
    broadcast use vstd::multiset::group_multiset_axioms;

    if q.len() == 0 {
        assert(q.push(n).drop_first() =~= Seq::<&Node<K, V>>::empty());
        assert(q.push(n)[0] == n);
        assert(queue_keys(q.push(n).drop_first()) == Multiset::<K>::empty());
        assert(queue_nodes(q.push(n).drop_first()) == 0);
        assert(queue_keys(q) == Multiset::<K>::empty());
        assert(queue_keys(q.push(n)) =~= queue_keys(q).add(keys_of(inorder(Some(Box::new(*n)))).to_multiset()));
    } else {
        lemma_queue_push(q.drop_first(), n);
        assert(q.push(n).drop_first() =~= q.drop_first().push(n));
        assert(queue_keys(q.push(n)) =~= queue_keys(q).add(keys_of(inorder(Some(Box::new(*n)))).to_multiset()));
    }
}

proof fn lemma_node_keys<K, V>(n: &Node<K, V>)
    ensures
        keys_of(inorder(Some(Box::new(*n)))).to_multiset() == keys_of(inorder(n.left)).to_multiset().add(
            keys_of(inorder(n.right)).to_multiset(),
        ).insert(n.key),
        inorder(Some(Box::new(*n))).len() == inorder(n.left).len() + 1 + inorder(n.right).len(),
{
    broadcast use vstd::multiset::group_multiset_axioms;

    let a = keys_of(inorder(n.left));
    let c = keys_of(inorder(n.right));
    assert(keys_of(inorder(Some(Box::new(*n)))) =~= a + seq![n.key] + c);
    vstd::seq_lib::lemma_multiset_commutative(a + seq![n.key], c);
    vstd::seq_lib::lemma_multiset_commutative(a, seq![n.key]);
    assert(seq![n.key].to_multiset() =~= Multiset::<K>::empty().insert(n.key)) by {
        vstd::seq_lib::to_multiset_build(Seq::<K>::empty(), n.key);
        assert(Seq::<K>::empty().push(n.key) =~= seq![n.key]);
        Seq::<K>::empty().to_multiset_ensures();
        vstd::multiset::lemma_multiset_empty_len(Seq::<K>::empty().to_multiset());
    }
    assert(keys_of(inorder(Some(Box::new(*n)))).to_multiset() =~= a.to_multiset().add(c.to_multiset()).insert(n.key));
}

/// An iterator over the keys of a `BST` in level order: the root, then the keys one level
/// down, left to right, and so on. The keys are collected when it is made.
pub struct KeysLevelOrder<'a, K> {
    queue: VecDeque<&'a K>,
}

impl<'a, K> View for KeysLevelOrder<'a, K> {
    type V = Seq<K>;

    /// The keys not handed out yet.
    closed spec fn view(&self) -> Seq<K> {
        deref_seq(self.queue@)
    }
}

impl<'a, K> KeysLevelOrder<'a, K> {
    fn new<V>(root: &'a Option<Box<Node<K, V>>>) -> (r: Self)
        ensures
            r@.to_multiset() == keys_of(inorder(*root)).to_multiset(),
    {
        broadcast use vstd::multiset::group_multiset_axioms;

        let mut out: VecDeque<&'a K> = VecDeque::new();
        let mut nodes: VecDeque<&'a Node<K, V>> = VecDeque::new();
        let ghost total = keys_of(inorder(*root)).to_multiset();
        match root {
            None => {
                proof {
                    assert(deref_seq(out@) =~= Seq::<K>::empty());
                    assert(keys_of(inorder(*root)) =~= Seq::<K>::empty());
                }
                return KeysLevelOrder { queue: out };
            },
            Some(b) => {
                nodes.push_back(&**b);
                proof {
                    lemma_queue_push(Seq::<&Node<K, V>>::empty(), &**b);
                    assert(Seq::<&Node<K, V>>::empty().push(&**b) =~= nodes@);
                    assert(Some(Box::new(**b)) == *root);
                    assert(deref_seq(out@) =~= Seq::<K>::empty());
                    Seq::<K>::empty().to_multiset_ensures();
                    vstd::multiset::lemma_multiset_empty_len(Seq::<K>::empty().to_multiset());
                    assert(queue_keys(Seq::<&Node<K, V>>::empty()) =~= Multiset::<K>::empty());
                    assert(deref_seq(out@).to_multiset().add(queue_keys(nodes@)) =~= total);
                }
            },
        }
        while nodes.len() > 0
            invariant
                deref_seq(out@).to_multiset().add(queue_keys(nodes@)) == total,
            decreases queue_nodes(nodes@),
        {
            let ghost q = nodes@;
            let x = nodes.pop_front().unwrap();
            let ghost before = deref_seq(out@);
            out.push_back(&x.key);
            proof {
                assert(q.drop_first() =~= nodes@);
                lemma_node_keys(x);
                assert(deref_seq(out@) =~= before.push(x.key));
                vstd::seq_lib::to_multiset_build(before, x.key);
            }
            match &x.left {
                Some(l) => {
                    let ghost q1 = nodes@;
                    nodes.push_back(&**l);
                    proof {
                        lemma_queue_push(q1, &**l);
                        assert(q1.push(&**l) =~= nodes@);
                        assert(Some(Box::new(**l)) == x.left);
                    }
                },
                None => {
                    proof {
                        assert(keys_of(inorder(x.left)) =~= Seq::<K>::empty());
                        Seq::<K>::empty().to_multiset_ensures();
                        vstd::multiset::lemma_multiset_empty_len(Seq::<K>::empty().to_multiset());
                    }
                },
            }
            match &x.right {
                Some(rt) => {
                    let ghost q2 = nodes@;
                    nodes.push_back(&**rt);
                    proof {
                        lemma_queue_push(q2, &**rt);
                        assert(q2.push(&**rt) =~= nodes@);
                        assert(Some(Box::new(**rt)) == x.right);
                    }
                },
                None => {
                    proof {
                        assert(keys_of(inorder(x.right)) =~= Seq::<K>::empty());
                        Seq::<K>::empty().to_multiset_ensures();
                        vstd::multiset::lemma_multiset_empty_len(Seq::<K>::empty().to_multiset());
                    }
                },
            }
            proof {
                assert(deref_seq(out@).to_multiset().add(queue_keys(nodes@)) =~= total);
            }
        }
        proof {
            assert(queue_keys(nodes@) =~= Multiset::<K>::empty());
            assert(deref_seq(out@).to_multiset() =~= total);
        }
        KeysLevelOrder { queue: out }
    }

    /// The next key, or `None` when all were handed out.
    pub fn next(&mut self) -> (r: Option<&'a K>)
        ensures
            old(self)@.len() == 0 ==> r is None && final(self)@ == old(self)@,
            old(self)@.len() > 0 ==> r == Some(&old(self)@[0]) && final(self)@ == old(
                self,
            )@.drop_first(),
    {
        let r = self.queue.pop_front();
        proof {
            if old(self)@.len() > 0 {
                assert(self@ =~= old(self)@.drop_first());
            }
        }
        r
    }
}

fn min_key<K, V>(x: &Box<Node<K, V>>) -> (r: &K)
    ensures
        inorder(Some(*x)).len() > 0,
        *r == inorder(Some(*x))[0].0,
    decreases *x,
{
    match &x.left {
        None => {
            assert(inorder(x.left) =~= Seq::<(K, V)>::empty());
            &x.key
        },
        Some(l) => {
            let r = min_key(l);
            r
        },
    }
}

fn max_key<K, V>(x: &Box<Node<K, V>>) -> (r: &K)
    ensures
        inorder(Some(*x)).len() > 0,
        *r == inorder(Some(*x)).last().0,
    decreases *x,
{
    match &x.right {
        None => {
            assert(inorder(x.right) =~= Seq::<(K, V)>::empty());
            &x.key
        },
        Some(rt) => {
            let r = max_key(rt);
            r
        },
    }
}

/// Number of edges on the longest path from the root down; -1 for an empty tree.
pub(crate) open spec fn height_of<K, V>(l: Option<Box<Node<K, V>>>) -> int
    decreases l,
{
    match l {
        None => -1,
        Some(n) => 1 + if height_of(n.left) >= height_of(n.right) {
            height_of(n.left)
        } else {
            height_of(n.right)
        },
    }
}

proof fn lemma_height_below_size<K, V>(l: Option<Box<Node<K, V>>>)
    ensures
        -1 <= height_of(l) < inorder(l).len(),
    decreases l,
{
    match l {
        None => {},
        Some(n) => {
            lemma_height_below_size(n.left);
            lemma_height_below_size(n.right);
        },
    }
}

fn height_in<K, V>(x: &Option<Box<Node<K, V>>>) -> (r: isize)
    requires
        inorder(*x).len() <= isize::MAX,
    ensures
        r == height_of(*x),
    decreases *x,
{
    proof {
        lemma_height_below_size(*x);
    }
    match x {
        None => -1,
        Some(n) => {
            proof {
                lemma_height_below_size(n.left);
                lemma_height_below_size(n.right);
            }
            let hl = height_in(&n.left);
            let hr = height_in(&n.right);
            if hl >= hr {
                1 + hl
            } else {
                1 + hr
            }
        },
    }
}

/// The keys of `s`, in order.
pub open spec fn keys_of<K, V>(s: Seq<(K, V)>) -> Seq<K> {
    s.map_values(|p: (K, V)| p.0)
}

/// The keys a node still has to hand out when it is on the stack: its own, then those of
/// its right subtree.
pub(crate) open spec fn node_tail<K, V>(n: &Node<K, V>) -> Seq<K> {
    seq![n.key] + keys_of(inorder(n.right))
}

/// The keys still to come from a stack of nodes, top first.
pub(crate) open spec fn stack_keys<K, V>(st: Seq<&Node<K, V>>) -> Seq<K>
    decreases st.len(),
{
    if st.len() == 0 {
        Seq::empty()
    } else {
        node_tail(st.last()) + stack_keys(st.drop_last())
    }
}

/// An in-order iterator over the keys of a `BST`: a stack of the nodes whose key and right
/// subtree are still to come.
pub struct Keys<'a, K, V> {
    stack: Vec<&'a Node<K, V>>,
}

impl<'a, K, V> View for Keys<'a, K, V> {
    type V = Seq<K>;

    /// The keys not handed out yet, in order.
    closed spec fn view(&self) -> Seq<K> {
        stack_keys(self.stack@)
    }
}

impl<'a, K, V> Keys<'a, K, V> {
    fn new(root: &'a Option<Box<Node<K, V>>>) -> (r: Self)
        ensures
            r@ == keys_of(inorder(*root)),
    {
        let mut iter = Keys { stack: Vec::new() };
        iter.push_left_branch(root);
        proof {
            assert(keys_of(inorder(*root)) + Seq::<K>::empty() =~= keys_of(inorder(*root)));
        }
        iter
    }

    fn push_left_branch(&mut self, node: &'a Option<Box<Node<K, V>>>)
        ensures
            final(self)@ == keys_of(inorder(*node)) + old(self)@,
    {
        let mut cur = node;
        while cur.is_some()
            invariant
                keys_of(inorder(*cur)) + self@ == keys_of(inorder(*node)) + old(self)@,
            decreases inorder(*cur).len(),
        {
            match cur {
                Some(n) => {
                    let ghost before = self.stack@;
                    self.stack.push(&**n);
                    proof {
                        assert(self.stack@.drop_last() =~= before);
                        let l = inorder(n.left);
                        assert(inorder(*cur) == l + seq![(n.key, n.val)] + inorder(n.right));
                        assert(keys_of(inorder(*cur)) =~= keys_of(l) + node_tail(&**n));
                        assert(keys_of(l) + stack_keys(self.stack@) =~= keys_of(inorder(*cur)) + stack_keys(before));
                    }
                    cur = &n.left;
                },
                None => {},
            }
        }
        proof {
            assert(keys_of(inorder(*cur)) =~= Seq::<K>::empty());
            assert(self@ =~= keys_of(inorder(*node)) + old(self)@);
        }
    }

    /// The next key in order, or `None` when all were handed out.
    pub fn next(&mut self) -> (r: Option<&'a K>)
        ensures
            old(self)@.len() == 0 ==> r is None && final(self)@ == old(self)@,
            old(self)@.len() > 0 ==> r == Some(&old(self)@[0]) && final(self)@ == old(
                self,
            )@.drop_first(),
    {
        let ghost st = self.stack@;
        match self.stack.pop() {
            None => {
                proof {
                    assert(st.len() == 0);
                }
                None
            },
            Some(node) => {
                proof {
                    assert(st.drop_last() =~= self.stack@);
                    assert(node == st.last());
                }
                let key = &node.key;
                let ghost mid = self@;
                self.push_left_branch(&node.right);
                proof {
                    assert(old(self)@ == seq![node.key] + keys_of(inorder(node.right)) + mid);
                    assert(self@ =~= old(self)@.drop_first());
                }
                Some(key)
            },
        }
    }
}

/// An ordered symbol table: keys of an ordered type, each with a value. Its contents `self@`
/// are the entries in increasing key order.
pub struct BST<K, V> {
    root: Option<Box<Node<K, V>>>,
}

impl<K: Ord, V> View for BST<K, V> {
    type V = Seq<(K, V)>;

    closed spec fn view(&self) -> Seq<(K, V)> {
        inorder(self.root)
    }
}

impl<K: Ord, V> BST<K, V> {
    pub closed spec fn wf(&self) -> bool {
        bst_ok(self.root)
    }

    /// The entries are in strictly increasing key order.
    pub proof fn lemma_sorted(&self)
        requires
            self.wf(),
            lawful_order::<K>(),
        ensures
            sorted_keys(self@),
    {
        lemma_bst_sorted(self.root);
    }

    /// An empty table.
    pub fn new() -> (r: Self)
        ensures
            r.wf(),
            r@ == Seq::<(K, V)>::empty(),
    {
        BST { root: None }
    }

    pub fn size(&self) -> (r: usize)
        requires
            self.wf(),
        ensures
            r == self@.len(),
    {
        size_of(&self.root)
    }

    pub fn is_empty(&self) -> (r: bool)
        requires
            self.wf(),
        ensures
            r == (self@.len() == 0),
    {
        self.size() == 0
    }

    /// The value of the entry whose key equals `key`, if there is one.
    pub fn get(&self, key: &K) -> (r: Option<&V>)
        requires
            self.wf(),
            lawful_order::<K>(),
        ensures
            r is Some <==> has_key(self@, *key),
            r is Some ==> exists|i: int|
                0 <= i < self@.len() && key.cmp_spec(&self@[i].0) == Ordering::Equal && self@[i].1
                    == *r->Some_0,
    {
        get_in(&self.root, key)
    }

    /// Whether some entry has a key equal to `key`.
    pub fn contains(&self, key: &K) -> (r: bool)
        requires
            self.wf(),
            lawful_order::<K>(),
        ensures
            r == has_key(self@, *key),
    {
        self.get(key).is_some()
    }
}

impl<K: Ord, V> BST<K, V> {
    /// Puts `val` under `key`: replaces the value of the entry whose key equals `key`, or
    /// else adds the entry `(key, val)` in key order.
    pub fn put(&mut self, key: K, val: V)
        requires
            old(self).wf(),
            lawful_order::<K>(),
            old(self)@.len() < usize::MAX,
        ensures
            final(self).wf(),
            has_key(old(self)@, key) ==> exists|i: int|
                0 <= i < old(self)@.len() && key.cmp_spec(&old(self)@[i].0) == Ordering::Equal
                    && final(self)@ == old(self)@.update(i, (old(self)@[i].0, val)),
            !has_key(old(self)@, key) ==> exists|i: int|
                0 <= i <= old(self)@.len() && final(self)@ == old(self)@.insert(i, (key, val)),
    {
        let root = self.root.take();
        self.root = put_in(root, key, val);
    }

    /// Removes the entry with the smallest key, or returns an error when the table is empty.
    pub fn delete_min(&mut self) -> (r: Result<(), InvalidArgument>)
        requires
            old(self).wf(),
            lawful_order::<K>(),
        ensures
            final(self).wf(),
            r is Err <==> old(self)@.len() == 0,
            r is Err ==> final(self)@ == old(self)@ && r->Err_0.0@ == "symbol table underflow"@,
            r is Ok ==> final(self)@ == old(self)@.drop_first(),
    {
        match self.root.take() {
            None => Err(InvalidArgument(String::from_str("symbol table underflow"))),
            Some(b) => {
                let (t, _deleted) = delete_min_in(b);
                self.root = t;
                Ok(())
            },
        }
    }

    /// Removes the entry with the largest key, or returns an error when the table is empty.
    pub fn delete_max(&mut self) -> (r: Result<(), InvalidArgument>)
        requires
            old(self).wf(),
            lawful_order::<K>(),
        ensures
            final(self).wf(),
            r is Err <==> old(self)@.len() == 0,
            r is Err ==> final(self)@ == old(self)@ && r->Err_0.0@ == "symbol table underflow"@,
            r is Ok ==> final(self)@ == old(self)@.drop_last(),
    {
        match self.root.take() {
            None => Err(InvalidArgument(String::from_str("symbol table underflow"))),
            Some(b) => {
                let (t, _deleted) = delete_max_in(b);
                self.root = t;
                Ok(())
            },
        }
    }

    /// Removes the entry whose key equals `key`, if there is one.
    pub fn delete(&mut self, key: &K)
        requires
            old(self).wf(),
            lawful_order::<K>(),
        ensures
            final(self).wf(),
            has_key(old(self)@, *key) ==> exists|i: int|
                0 <= i < old(self)@.len() && key.cmp_spec(&old(self)@[i].0) == Ordering::Equal
                    && final(self)@ == old(self)@.remove(i),
            !has_key(old(self)@, *key) ==> final(self)@ == old(self)@,
    {
        let root = self.root.take();
        self.root = delete_in(root, key);
    }

    /// The largest key not above `key`, or `None` when every key is above it.
    pub fn floor(&self, key: &K) -> (r: Option<&K>)
        requires
            self.wf(),
            lawful_order::<K>(),
        ensures
            r is None <==> forall|i: int| 0 <= i < self@.len() ==> !le(#[trigger] self@[i].0, *key),
            r is Some ==> exists|i: int| is_floor(self@, *key, i) && r == Some(&self@[i].0),
    {
        let r = floor_in(&self.root, key, None);
        proof {
            if exists|i: int| 0 <= i < self@.len() && le(#[trigger] self@[i].0, *key) {
                let i = choose|i: int| 0 <= i < self@.len() && le(#[trigger] self@[i].0, *key);
                assert(0 <= i < inorder(self.root).len() && le(inorder(self.root)[i].0, *key));
            } else {
                assert forall|i: int| 0 <= i < self@.len() implies !le(#[trigger] self@[i].0, *key) by {
                    if le(self@[i].0, *key) {
                        assert(exists|i: int| 0 <= i < self@.len() && le(#[trigger] self@[i].0, *key));
                    }
                }
            }
        }
        r
    }

    /// The largest key not above `key`, or `None` when every key is above it; the same as
    /// `floor`, found by carrying the best candidate down the tree.
    pub fn floor2(&self, key: &K) -> (r: Option<&K>)
        requires
            self.wf(),
            lawful_order::<K>(),
        ensures
            r is None <==> forall|i: int| 0 <= i < self@.len() ==> !le(#[trigger] self@[i].0, *key),
            r is Some ==> exists|i: int| is_floor(self@, *key, i) && r == Some(&self@[i].0),
    {
        let r = floor_in(&self.root, key, None);
        proof {
            if exists|i: int| 0 <= i < self@.len() && le(#[trigger] self@[i].0, *key) {
                let i = choose|i: int| 0 <= i < self@.len() && le(#[trigger] self@[i].0, *key);
                assert(0 <= i < inorder(self.root).len() && le(inorder(self.root)[i].0, *key));
            } else {
                assert forall|i: int| 0 <= i < self@.len() implies !le(#[trigger] self@[i].0, *key) by {
                    if le(self@[i].0, *key) {
                        assert(exists|i: int| 0 <= i < self@.len() && le(#[trigger] self@[i].0, *key));
                    }
                }
            }
        }
        r
    }

    /// The smallest key not below `key`, or `None` when every key is below it.
    pub fn ceiling(&self, key: &K) -> (r: Option<&K>)
        requires
            self.wf(),
            lawful_order::<K>(),
        ensures
            r is None <==> forall|i: int| 0 <= i < self@.len() ==> !le(*key, #[trigger] self@[i].0),
            r is Some ==> exists|i: int| is_ceiling(self@, *key, i) && r == Some(&self@[i].0),
    {
        let r = ceiling_in(&self.root, key, None);
        proof {
            assert(self@ == inorder(self.root));
            if exists|i: int| 0 <= i < self@.len() && le(*key, #[trigger] self@[i].0) {
                let i = choose|i: int| 0 <= i < self@.len() && le(*key, #[trigger] self@[i].0);
                assert(0 <= i < inorder(self.root).len() && le(*key, inorder(self.root)[i].0));
            } else {
                assert forall|i: int| 0 <= i < self@.len() implies !le(*key, #[trigger] self@[i].0) by {
                    if le(*key, self@[i].0) {
                        assert(exists|i: int| 0 <= i < self@.len() && le(*key, #[trigger] self@[i].0));
                    }
                }
                assert(!(exists|i: int| 0 <= i < inorder(self.root).len() && le(*key, #[trigger] inorder(self.root)[i].0)));
                assert(r is None);
            }
        }
        r
    }

    /// The key of rank `rank` (the `rank`-th smallest, from 0), or an error when `rank` is not
    /// below the size.
    pub fn select(&self, rank: usize) -> (r: Result<Option<&K>, InvalidArgument>)
        requires
            self.wf(),
        ensures
            r is Err <==> rank >= self@.len(),
            r is Err ==> exists|t: Seq<char>|
                r->Err_0.0@ == "argument to select() is invalid: "@ + t,
            r is Ok ==> r->Ok_0 == Some(&self@[rank as int].0),
    {
        if rank >= self.size() {
            let mut msg = String::from_str("argument to select() is invalid: ");
            let ghost head = msg@;
            let t = rank.to_string();
            msg.append(t.as_str());
            proof {
                assert(msg@ == head + t@);
            }
            return Err(InvalidArgument(msg));
        }
        match &self.root {
            Some(y) => Ok(Some(select_in(y, rank))),
            None => {
                proof {
                    assert(false);
                }
                Err(InvalidArgument(String::from_str("argument to select() is invalid: ")))
            },
        }
    }

    /// Number of keys below `key`.
    pub fn rank(&self, key: &K) -> (r: usize)
        requires
            self.wf(),
            lawful_order::<K>(),
        ensures
            r <= self@.len(),
            forall|i: int| 0 <= i < r ==> lt(#[trigger] self@[i].0, *key),
            forall|i: int| r <= i < self@.len() ==> !lt(#[trigger] self@[i].0, *key),
    {
        rank_in(key, &self.root)
    }

    /// An iterator over the keys in `[lo, hi]`, in increasing order.
    pub fn keys_range(&self, lo: &K, hi: &K) -> (r: KeysRange<'_, K>)
        requires
            self.wf(),
            lawful_order::<K>(),
        ensures
            r@ == keys_of(self@).filter(in_range(*lo, *hi)),
    {
        let mut queue: VecDeque<&K> = VecDeque::new();
        keys_range_in(&self.root, &mut queue, lo, hi);
        proof {
            assert(deref_seq(Seq::<&K>::empty()) =~= Seq::<K>::empty());
            assert(Seq::<K>::empty() + keys_of(self@).filter(in_range(*lo, *hi)) =~= keys_of(self@).filter(
                in_range(*lo, *hi),
            ));
        }
        KeysRange { queue }
    }

    /// Number of keys in `[lo, hi]`: the positions holding them are exactly those of an
    /// interval `[p, p + r)`.
    pub fn size_range(&self, lo: &K, hi: &K) -> (r: usize)
        requires
            self.wf(),
            lawful_order::<K>(),
        ensures
            exists|p: int| range_at(self@, *lo, *hi, p, r as int),
    {
        proof {
            self.lemma_sorted();
        }
        let ghost s = self@;
        match lo.cmp(hi) {
            Ordering::Greater => {
                proof {
                    assert forall|i: int| 0 <= i < s.len() implies !(le(*lo, #[trigger] s[i].0) && le(s[i].0, *hi)) by {
                        if le(*lo, s[i].0) && le(s[i].0, *hi) {
                            crate::heap::order::lemma_below_trans(true, *lo, s[i].0, *hi);
                        }
                    }
                    assert(range_at(s, *lo, *hi, 0, 0));
                }
                0
            },
            _ => {
                let rlo = self.rank(lo);
                let rhi = self.rank(hi);
                let c = self.contains(hi);
                proof {
                    lemma_le_lt(*hi, *lo, *lo);
                    lemma_cmp_flip(*lo, *hi);
                    assert(le(*lo, *hi));
                    if rlo > rhi {
                        let t = rhi as int;
                        assert(lt(s[t].0, *lo));
                        lemma_le_lt(s[t].0, *hi, *hi);
                        lemma_le_lt(*hi, s[t].0, *lo);
                        lemma_le_lt(*hi, *lo, *lo);
                    }
                    if c {
                        let j = choose|j: int| 0 <= j < s.len() && hi.cmp_spec(&s[j].0) == Ordering::Equal;
                        lemma_le_lt(*hi, s[j].0, s[j].0);
                        lemma_le_lt(s[j].0, *hi, *hi);
                        if j < rhi {
                            assert(lt(s[j].0, *hi));
                        }
                        if j > rhi {
                            let t = rhi as int;
                            assert(lt(s[t].0, s[j].0));
                            lemma_le_lt(s[t].0, *hi, *hi);
                            lemma_le_lt(*hi, s[t].0, s[j].0);
                            lemma_le_lt(s[j].0, *hi, *hi);
                        }
                        assert(j == rhi);
                    }
                }
                let r = if c {
                    rhi - rlo + 1
                } else {
                    rhi - rlo
                };
                proof {
                    let p = rlo as int;
                    let q = p + r;
                    assert forall|i: int| 0 <= i < s.len() implies ((p <= i < q) <==> (le(*lo, #[trigger] s[i].0)
                        && le(s[i].0, *hi))) by {
                        lemma_le_lt(s[i].0, *lo, *lo);
                        lemma_le_lt(s[i].0, *hi, *hi);
                        lemma_cmp_flip(*hi, s[i].0);
                        if i >= rhi && i < s.len() {
                            lemma_le_lt(*hi, s[i].0, s[i].0);
                        }
                        if c && i > rhi {
                            let t = rhi as int;
                            assert(lt(s[t].0, s[i].0));
                            lemma_le_lt(s[t].0, *hi, *hi);
                            lemma_le_lt(*hi, s[t].0, s[i].0);
                            lemma_le_lt(s[i].0, *hi, *hi);
                        }
                        if !c && i >= rhi {
                            assert(hi.cmp_spec(&s[i].0) != Ordering::Equal);
                        }
                        if c && i == rhi {
                            let j = choose|j: int| 0 <= j < s.len() && hi.cmp_spec(&s[j].0) == Ordering::Equal;
                            lemma_le_lt(s[j].0, *hi, *hi);
                        }
                    }
                    assert(range_at(s, *lo, *hi, p, r as int));
                }
                r
            },
        }
    }

    /// An iterator over the keys in level order: each key once, the root first, then the
    /// keys one level down from left to right, and so on.
    pub fn keys_level_order(&self) -> (r: KeysLevelOrder<'_, K>)
        ensures
            r@.to_multiset() == keys_of(self@).to_multiset(),
    {
        KeysLevelOrder::new(&self.root)
    }

    /// The smallest key, or `None` when the table is empty.
    pub fn min(&self) -> (r: Option<&K>)
        requires
            self.wf(),
        ensures
            self@.len() == 0 ==> r is None,
            self@.len() > 0 ==> r == Some(&self@[0].0),
    {
        match &self.root {
            None => None,
            Some(n) => Some(min_key(n)),
        }
    }

    /// The largest key, or `None` when the table is empty.
    pub fn max(&self) -> (r: Option<&K>)
        requires
            self.wf(),
        ensures
            self@.len() == 0 ==> r is None,
            self@.len() > 0 ==> r == Some(&self@.last().0),
    {
        match &self.root {
            None => None,
            Some(n) => Some(max_key(n)),
        }
    }

    /// Number of edges on the longest path from the root down; -1 for an empty table.
    pub fn height(&self) -> (r: isize)
        requires
            self@.len() <= isize::MAX,
        ensures
            r == self.tree_height(),
            self@.len() == 0 ==> r == -1,
            self@.len() > 0 ==> 0 <= r < self@.len(),
    {
        proof {
            lemma_height_below_size(self.root);
            if self.root is Some {
                let n = self.root->Some_0;
                assert(inorder(self.root) == inorder(n.left) + seq![(n.key, n.val)] + inorder(n.right));
                lemma_height_below_size(n.left);
                lemma_height_below_size(n.right);
            }
        }
        height_in(&self.root)
    }

    /// Number of edges on the longest path from the root down; -1 for an empty table.
    pub closed spec fn tree_height(&self) -> int {
        height_of(self.root)
    }

    /// An iterator over the keys, in increasing order.
    pub fn keys(&self) -> (r: Keys<'_, K, V>)
        ensures
            r@ == keys_of(self@),
    {
        Keys::new(&self.root)
    }
}

impl<K: Ord, V> Default for BST<K, V> {
    fn default() -> (r: Self)
        ensures
            r.wf(),
            r@ == Seq::<(K, V)>::empty(),
    {
        BST::new()
    }
}

} // verus!
