use algs4_rs::{LinkedBag, ResizingBag, VecBag};
use std::collections::HashSet;

const LIST: [&str; 14] = [
    "to", "be", "or", "not", "to", "-", "be", "-", "-", "that", "-", "-", "-", "is",
];

fn linked_items<'a>(bag: &LinkedBag<&'a str>) -> Vec<&'a str> {
    let mut out = Vec::new();
    let mut it = bag.iter();
    while let Some(s) = it.next() {
        out.push(*s);
    }
    out
}

fn resizing_items<'a>(bag: &ResizingBag<&'a str>) -> Vec<&'a str> {
    let mut out = Vec::new();
    let mut it = bag.iter();
    while let Some(s) = it.next() {
        out.push(*s);
    }
    out
}

#[test]
fn linked_bag_of_str() {
    let mut bag = LinkedBag::new();
    let list = LIST;
    for s in list {
        bag.add(s);
    }

    assert_eq!(bag.len(), 14);
    assert_eq!(
        linked_items(&bag).into_iter().collect::<HashSet<&str>>(),
        HashSet::from(list)
    );

    let bag2 = bag.clone();
    assert_eq!(bag2.len(), bag.len());
    assert_eq!(
        linked_items(&bag2).into_iter().collect::<HashSet<&str>>(),
        HashSet::from(list)
    );
}

#[test]
fn resizing_bag_of_str() {
    let mut bag = ResizingBag::new();
    let list = LIST;
    for s in list {
        bag.add(s);
    }

    assert_eq!(bag.len(), 14);
    assert_eq!(
        resizing_items(&bag).into_iter().collect::<HashSet<&str>>(),
        HashSet::from(list)
    );

    let bag2 = bag.clone();
    assert_eq!(bag2.len(), bag.len());
    assert_eq!(
        resizing_items(&bag2).into_iter().collect::<HashSet<&str>>(),
        HashSet::from(list)
    );
}

#[test]
fn bags_iterate_in_documented_order() {
    let mut lb = LinkedBag::new();
    let mut rb = ResizingBag::new();
    let mut vb = VecBag::new();
    assert!(lb.is_empty() && rb.is_empty() && vb.is_empty());
    for s in ["a", "b", "c"] {
        lb.add(s);
        rb.add(s);
        vb.add(s);
    }
    assert_eq!(linked_items(&lb), ["c", "b", "a"]);
    assert_eq!(resizing_items(&rb), ["a", "b", "c"]);
    let mut it = vb.iter();
    let mut out = Vec::new();
    while let Some(s) = it.next() {
        out.push(*s);
    }
    assert_eq!(out, ["a", "b", "c"]);
    assert_eq!(vb.len(), 3);
    assert!(!vb.is_empty());
}
