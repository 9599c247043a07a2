use algs4_rs::SVec;
use std::cell::Cell;
use std::rc::Rc;

/// An element that counts how many times an element of its kind was dropped.
struct Counted {
    drops: Rc<Cell<usize>>,
    _name: String,
}

impl Drop for Counted {
    fn drop(&mut self) {
        self.drops.set(self.drops.get() + 1);
    }
}

fn counted(drops: &Rc<Cell<usize>>, name: &str) -> Counted {
    Counted { drops: Rc::clone(drops), _name: name.to_string() }
}

#[test]
fn test_vec_basics() {
    let mut v: SVec<&str> = SVec::new();
    v.push("hello");
    v.push("algs4");
    v.push("rs");
    v.push("lib");
    assert_eq!(v.len(), 4);
    assert_eq!(v.pop(), Some("lib"));
    assert_eq!(v.index(2), &"rs");
    assert_eq!(v.pop(), Some("rs"));
    let mut itr = v.into_iter();
    assert_eq!(itr.next_back(), Some("algs4"));
    assert_eq!(itr.size_hint(), (1, Some(1)));
    assert_eq!(itr.next(), Some("hello"));
    assert_eq!(itr.next_back(), None);
    assert_eq!(itr.next(), None);
}

#[test]
fn test_vec_clone() {
    let mut v: SVec<String> = SVec::new();
    v.push(String::from("memcpy"));
    v.push(String::from("memmove"));
    v.push(String::from("diff"));

    let u = v.clone();
    assert_eq!(u.index(0), v.index(0));
    assert_eq!(u.index(1), v.index(1));
    assert_eq!(u.index(2), v.index(2));
    assert_eq!(u.len(), v.len());
}

#[test]
fn test_vec_macro() {
    let v: SVec<f64> = SVec::new();
    assert_eq!(v.len(), 0);
    assert_eq!(format!("{:?}", v.refs()), "[]");

    let v = SVec::from_vec(vec![2, 3, 4]);
    let s = format!("{:?}", v.refs());
    assert_eq!(s, "[2, 3, 4]");

    let v = SVec::from_elem("no", 0);
    assert_eq!(v.len(), 0);

    let non_const = 4;
    let v = SVec::from_elem("no", non_const);
    assert_eq!(v.len(), non_const);
    assert_eq!(
        v.refs().into_iter().cloned().collect::<Vec<_>>(),
        ["no", "no", "no", "no"]
    );

    let v = SVec::from_vec(vec![
        "Rustonomicon".to_string(),
        "dark".to_string(),
        "magic".to_string(),
    ]);
    assert_eq!(v.len(), 3);
    assert_eq!(
        v.refs().into_iter().cloned().collect::<Vec<_>>(),
        ["Rustonomicon", "dark", "magic"]
    );
}

#[test]
fn test_vec_from_iterator() {
    let mut v: SVec<&str> = SVec::default();
    v.push("aaa");
    v.push("bbb");

    let x: SVec<&str> = SVec::from_vec(v.refs().into_iter().cloned().collect());
    assert_eq!(x.refs().into_iter().cloned().collect::<Vec<_>>()[..], ["aaa", "bbb"][..]);

    let y: Vec<&str> = v.refs().into_iter().cloned().collect();
    assert_eq!(y, ["aaa", "bbb"],);
}

#[test]
fn vec_push_pop_inverse() {
    let mut v: SVec<i32> = SVec::new();
    v.push(-1);
    let pushed = [3, 1, 4, 1, 5, 9, 2, 6];
    for x in pushed {
        v.push(x);
    }
    assert_eq!(v.len(), 9);
    for x in pushed.iter().rev() {
        assert_eq!(v.pop(), Some(*x));
    }
    assert_eq!(v.len(), 1);
    assert_eq!(v.pop(), Some(-1));
    assert_eq!(v.pop(), None);
    assert!(v.is_empty());
}

#[test]
fn vec_length_matches_readable_indices() {
    let mut v: SVec<u32> = SVec::new();
    for i in 0..10 {
        v.push(i);
    }
    v.insert(3, 100);
    v.remove(0);
    v.pop();
    v.insert(0, 7);
    assert_eq!(v.len(), 10);
    for i in 0..v.len() {
        assert!(v.get(i).is_some());
    }
    assert_eq!(v.get(v.len()), None);
    assert_eq!(v.refs().into_iter().copied().collect::<Vec<_>>(), [7, 1, 2, 100, 3, 4, 5, 6, 7, 8]);
}

#[test]
fn vec_growth_doubles_capacity() {
    let mut v: SVec<u8> = SVec::new();
    assert_eq!(v.cap(), 0);
    v.push(1);
    assert_eq!(v.cap(), 1);
    v.push(2);
    assert_eq!(v.cap(), 2);
    v.push(3);
    assert_eq!(v.cap(), 4);
    v.push(4);
    v.push(5);
    assert_eq!(v.cap(), 8);
    v.pop();
    v.pop();
    v.pop();
    assert_eq!(v.cap(), 8);
    let w: SVec<u8> = SVec::with_capacity(5);
    assert_eq!(w.cap(), 5);
    assert_eq!(w.len(), 0);
}

#[test]
fn vec_drop_destroys_each_element_once() {
    let drops = Rc::new(Cell::new(0));
    let mut v = SVec::new();
    for name in ["a", "b", "c", "d", "e"] {
        v.push(counted(&drops, name));
    }
    drop(v);
    assert_eq!(drops.get(), 5);

    let drops = Rc::new(Cell::new(0));
    let mut v = SVec::new();
    for name in ["a", "b", "c", "d", "e"] {
        v.push(counted(&drops, name));
    }
    let mut it = v.into_iter();
    while let Some(x) = it.next() {
        drop(x);
    }
    assert_eq!(drops.get(), 5);
    drop(it);
    assert_eq!(drops.get(), 5);

    let drops = Rc::new(Cell::new(0));
    let mut v = SVec::new();
    for name in ["a", "b", "c", "d", "e"] {
        v.push(counted(&drops, name));
    }
    let mut it = v.into_iter();
    drop(it.next());
    drop(it.next_back());
    assert_eq!(drops.get(), 2);
    drop(it);
    assert_eq!(drops.get(), 5);
}

#[test]
fn vec_drain_empties_at_once() {
    let mut v: SVec<i32> = SVec::new();
    v.push(1);
    v.push(2);
    v.push(3);
    {
        let d = v.drain();
        assert_eq!(d.size_hint(), (3, Some(3)));
    }
    assert_eq!(v.len(), 0);
    assert!(v.is_empty());
    v.push(9);
    assert_eq!(v.len(), 1);
}

#[test]
fn vec_drain_yields_in_order_from_both_ends() {
    let mut v: SVec<i32> = SVec::new();
    for x in [1, 2, 3, 4] {
        v.push(x);
    }
    let mut d = v.drain();
    assert_eq!(d.next(), Some(1));
    assert_eq!(d.next_back(), Some(4));
    assert_eq!(d.size_hint(), (2, Some(2)));
    assert_eq!(d.next_back(), Some(3));
    assert_eq!(d.next(), Some(2));
    assert_eq!(d.next(), None);
    assert_eq!(d.next_back(), None);
}

#[test]
fn vec_drain_partial_drop_destroys_rest() {
    let drops = Rc::new(Cell::new(0));
    let mut v = SVec::new();
    for name in ["a", "b", "c", "d", "e"] {
        v.push(counted(&drops, name));
    }
    let mut d = v.drain();
    drop(d.next());
    drop(d.next());
    assert_eq!(drops.get(), 2);
    drop(d);
    assert_eq!(drops.get(), 5);
    assert_eq!(v.len(), 0);

    let drops = Rc::new(Cell::new(0));
    let mut v = SVec::new();
    for name in ["a", "b", "c"] {
        v.push(counted(&drops, name));
    }
    let mut d = v.drain();
    while let Some(x) = d.next() {
        drop(x);
    }
    assert_eq!(drops.get(), 3);
    drop(d);
    assert_eq!(drops.get(), 3);
}

#[test]
fn vec_drain_forgotten_leaks_rest() {
    let drops = Rc::new(Cell::new(0));
    let mut v = SVec::new();
    for name in ["to", "be", "or", "not"] {
        v.push(counted(&drops, name));
    }
    drop(v.pop());
    assert_eq!(drops.get(), 1);
    assert_eq!(v.len(), 3);
    let mut d = v.drain();
    let first = d.next();
    std::mem::forget(d);
    assert_eq!(drops.get(), 1);
    drop(first);
    assert_eq!(drops.get(), 2);
    assert_eq!(v.len(), 0);
}

#[test]
fn vec_insert_remove_shift() {
    let mut v: SVec<char> = SVec::new();
    for c in ['a', 'b', 'c', 'd'] {
        v.push(c);
    }
    v.insert(2, 'x');
    assert_eq!(v.len(), 5);
    assert_eq!(v.refs().into_iter().copied().collect::<String>(), "abxcd");
    assert_eq!(v.remove(2), 'x');
    assert_eq!(v.refs().into_iter().copied().collect::<String>(), "abcd");
    v.insert(4, 'e');
    v.insert(0, 'z');
    assert_eq!(v.refs().into_iter().copied().collect::<String>(), "zabcde");
    assert_eq!(v.remove(0), 'z');
    assert_eq!(v.remove(4), 'e');
    assert_eq!(v.refs().into_iter().copied().collect::<String>(), "abcd");
}

#[test]
fn vec_clone_is_independent() {
    let mut v: SVec<String> = SVec::new();
    v.push("one".to_string());
    v.push("two".to_string());
    let mut c = v.clone();
    c.push("three".to_string());
    c.insert(0, "zero".to_string());
    assert_eq!(c.remove(1), "one");
    c.pop();
    c.set(0, "nought".to_string());
    assert_eq!(v.len(), 2);
    assert_eq!(v.index(0), "one");
    assert_eq!(v.index(1), "two");
    assert_eq!(c.refs().into_iter().cloned().collect::<Vec<_>>(), ["nought", "two"]);
}

#[test]
fn vec_remove_on_empty_is_out_of_bounds() {
    let mut v: SVec<i32> = SVec::new();
    assert!(v.get(0).is_none());
    let index = 0;
    assert!(index >= v.len());
    v.push(5);
    assert!(index < v.len());
    assert_eq!(v.remove(index), 5);
}

#[test]
fn vec_swap_and_set() {
    let mut v = SVec::from_vec(vec![1, 2, 3]);
    v.swap(0, 2);
    assert_eq!(v.refs().into_iter().copied().collect::<Vec<_>>(), [3, 2, 1]);
    v.swap(1, 1);
    v.set(1, 20);
    assert_eq!(v.refs().into_iter().copied().collect::<Vec<_>>(), [3, 20, 1]);
}

#[derive(Debug, Eq, PartialEq)]
struct Zst;

#[test]
fn test_vec_zst() {
    let mut v: SVec<Zst> = SVec::new();
    v.push(Zst);
    v.push(Zst);
    v.push(Zst);
    v.push(Zst);
    assert_eq!(v.len(), 4);
    assert_eq!(v.pop(), Some(Zst));
    assert_eq!(v.index(0), &Zst);
    let mut itr = v.into_iter();
    assert_eq!(itr.size_hint(), (3, Some(3)));
    assert_eq!(itr.next(), Some(Zst));

    let mut v1 = SVec::new();
    v1.push(Zst);
    v1.push(Zst);
    let mut drainer = v1.drain();
    assert_eq!(drainer.size_hint(), (2, Some(2)));
    assert_eq!(drainer.next_back(), Some(Zst));
    assert_eq!(drainer.next(), Some(Zst));
    assert_eq!(drainer.next_back(), None);
}

#[test]
fn vec_drain_keeps_capacity() {
    let mut v: SVec<i32> = SVec::with_capacity(4);
    v.push(1);
    v.push(2);
    v.push(3);
    assert_eq!(v.cap(), 4);
    {
        let mut d = v.drain();
        assert_eq!(d.next(), Some(1));
    }
    assert_eq!(v.len(), 0);
    assert_eq!(v.cap(), 4);
    v.push(9);
    assert_eq!(v.cap(), 4);
    assert_eq!(v.refs().into_iter().copied().collect::<Vec<_>>(), [9]);
}
