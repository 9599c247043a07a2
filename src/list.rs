//! Singly linked nodes shared by the linked containers.
use vstd::prelude::*;

verus! {

/// A node of a singly linked list.
pub(crate) struct Node<T> {
    pub(crate) item: T,
    pub(crate) next: Option<Box<Node<T>>>,
}

/// The items of the list that starts at `l`, first node first.
pub(crate) open spec fn list_seq<T>(l: Option<Box<Node<T>>>) -> Seq<T>
    decreases l,
{
    match l {
        Some(n) => seq![n.item] + list_seq(n.next),
        None => Seq::empty(),
    }
}

/// The items of the list that starts at the node `l` refers to, if any.
pub(crate) open spec fn ref_seq<T>(l: Option<&Node<T>>) -> Seq<T> {
    match l {
        Some(n) => seq![n.item] + list_seq(n.next),
        None => Seq::empty(),
    }
}

impl<T> Node<T> {
    /// A node holding `item`, linked to nothing.
    pub(crate) fn new(item: T) -> (r: Self)
        ensures
            r.item == item,
            r.next is None,
    {
        Node { item, next: None }
    }
}

/// A reference to the node at the head of `l`, if any.
pub(crate) fn head_ref<T>(l: &Option<Box<Node<T>>>) -> (r: Option<&Node<T>>)
    ensures
        ref_seq(r) == list_seq(*l),
{
    match l {
        Some(b) => Some(&**b),
        None => None,
    }
}

/// Hands out the item at `cur` and moves `cur` on to the next node.
pub(crate) fn step<'a, T>(cur: &mut Option<&'a Node<T>>) -> (r: Option<&'a T>)
    ensures
        ref_seq(*old(cur)).len() == 0 ==> r is None && *final(cur) == *old(cur),
        ref_seq(*old(cur)).len() > 0 ==> r == Some(&ref_seq(*old(cur))[0]) && ref_seq(*final(cur))
            == ref_seq(*old(cur)).drop_first(),
{
    match *cur {
        Some(node) => {
            *cur = head_ref(&node.next);
            assert(ref_seq(*cur) =~= ref_seq(*old(cur)).drop_first());
            Some(&node.item)
        },
        None => None,
    }
}

/// A list of clones of the items of `l`, in the same order.
pub(crate) fn clone_list<T: Clone>(l: &Option<Box<Node<T>>>) -> (r: Option<Box<Node<T>>>)
    ensures
        list_seq(r).len() == list_seq(*l).len(),
        forall|i: int|
            0 <= i < list_seq(*l).len() ==> cloned::<T>(list_seq(*l)[i], #[trigger] list_seq(r)[i]),
{
    let ghost src = list_seq(*l);
    let mut cur = head_ref(l);
    let mut items: Vec<T> = Vec::new();
    while cur.is_some()
        invariant
            items@.len() + ref_seq(cur).len() == src.len(),
            ref_seq(cur) == src.subrange(items@.len() as int, src.len() as int),
            forall|i: int| 0 <= i < items@.len() ==> cloned::<T>(src[i], #[trigger] items@[i]),
        decreases ref_seq(cur).len(),
    {
        let ghost before = ref_seq(cur);
        let x = step(&mut cur);
        match x {
            Some(e) => {
                let c = e.clone();
                assert(src[items@.len() as int] == before[0]);
                items.push(c);
                assert(ref_seq(cur) =~= src.subrange(items@.len() as int, src.len() as int));
            },
            None => {},
        }
    }
    let mut out: Option<Box<Node<T>>> = None;
    while items.len() > 0
        invariant
            items@.len() + list_seq(out).len() == src.len(),
            forall|i: int| 0 <= i < items@.len() ==> cloned::<T>(src[i], #[trigger] items@[i]),
            forall|i: int|
                0 <= i < list_seq(out).len() ==> cloned::<T>(
                    src[items@.len() + i],
                    #[trigger] list_seq(out)[i],
                ),
        decreases items@.len(),
    {
        let x = items.pop().unwrap();
        let ghost prev = list_seq(out);
        out = Some(Box::new(Node { item: x, next: out }));
        assert(list_seq(out) == seq![x] + prev);
        assert forall|i: int| 0 <= i < list_seq(out).len() implies cloned::<T>(
            src[items@.len() + i],
            #[trigger] list_seq(out)[i],
        ) by {
            if i > 0 {
                assert(list_seq(out)[i] == prev[i - 1]);
            }
        }
    }
    out
}

} // verus!
