use algs4_rs::{MaxPQ, MinPQ};

#[test]
fn maxpq_basics() {
    let mut pq = MaxPQ::new();
    pq.insert(1);
    pq.insert(5);
    pq.insert(2);
    assert_eq!(pq.max(), Some(&5));
    assert_eq!(pq.len(), 3);
    assert_eq!(pq.del_max(), Some(5));
    assert_eq!(pq.del_max(), Some(2));
    assert_eq!(pq.del_max(), Some(1));
    assert_eq!(pq.del_max(), None);
    assert!(pq.is_empty());
}

#[test]
fn maxpq_with_capacity() {
    let mut pq = MaxPQ::with_capacity(5);
    pq.insert(1);
    pq.insert(5);
    pq.insert(2);
    pq.insert(80);
    pq.insert(4);
    pq.insert(-57);
    assert_eq!(pq.max(), Some(&80));
    assert_eq!(pq.len(), 6);
    assert_eq!(pq.del_max(), Some(80));
    assert_eq!(pq.del_max(), Some(5));
    assert_eq!(pq.del_max(), Some(4));
    assert_eq!(pq.del_max(), Some(2));
    assert_eq!(pq.del_max(), Some(1));
    assert_eq!(pq.del_max(), Some(-57));
    assert_eq!(pq.del_max(), None);
    assert!(pq.is_empty());
}

#[test]
fn maxpq_from_slice() {
    let array = [1, 5, 2, 80, 4, -57];
    let slice = &array[..];
    let mut pq = MaxPQ::from_slice(slice);
    assert_eq!(pq.max(), Some(&80));
    assert_eq!(pq.len(), 6);
    assert_eq!(pq.del_max(), Some(80));
    assert_eq!(pq.del_max(), Some(5));
    assert_eq!(pq.del_max(), Some(4));
    assert_eq!(pq.del_max(), Some(2));
    assert_eq!(pq.del_max(), Some(1));
    assert_eq!(pq.del_max(), Some(-57));
    assert_eq!(pq.del_max(), None);
    assert!(pq.is_empty());
}

#[test]
fn maxpq_from_array() {
    let array = [1, 5, 2, 80, 4, -57];
    let mut pq = MaxPQ::from_slice(&array);
    assert_eq!(pq.max(), Some(&80));
    assert_eq!(pq.len(), 6);
    assert_eq!(pq.del_max(), Some(80));
    assert_eq!(pq.del_max(), Some(5));
    assert_eq!(pq.del_max(), Some(4));
    assert_eq!(pq.del_max(), Some(2));
    assert_eq!(pq.del_max(), Some(1));
    assert_eq!(pq.del_max(), Some(-57));
    assert_eq!(pq.del_max(), None);
    assert!(pq.is_empty());
}

#[test]
fn maxpq_clone_into_iter() {
    let array = [1, 5, 2, 80, 4, -57];
    let pq = MaxPQ::from_slice(&array);
    let mut itr = pq.clone().into_iter();
    assert_eq!(itr.next(), Some(80));
    assert_eq!(itr.next(), Some(5));
    assert_eq!(itr.next(), Some(4));
    assert_eq!(itr.next(), Some(2));
    assert_eq!(itr.next(), Some(1));
    assert_eq!(itr.next(), Some(-57));
    assert_eq!(itr.next(), None);
    assert_eq!(pq.len(), 6);
}

#[test]
fn minpq_basics() {
    let mut pq = MinPQ::new();
    pq.insert(1);
    pq.insert(5);
    pq.insert(2);
    assert_eq!(pq.min(), Some(&1));
    assert_eq!(pq.len(), 3);
    assert_eq!(pq.del_min(), Some(1));
    assert_eq!(pq.del_min(), Some(2));
    assert_eq!(pq.del_min(), Some(5));
    assert_eq!(pq.del_min(), None);
    assert!(pq.is_empty());
}

#[test]
fn minpq_with_capacity() {
    let mut pq = MinPQ::with_capacity(5);
    pq.insert(1);
    pq.insert(5);
    pq.insert(2);
    pq.insert(80);
    pq.insert(4);
    pq.insert(-57);
    assert_eq!(pq.min(), Some(&-57));
    assert_eq!(pq.len(), 6);
    assert_eq!(pq.del_min(), Some(-57));
    assert_eq!(pq.del_min(), Some(1));
    assert_eq!(pq.del_min(), Some(2));
    assert_eq!(pq.del_min(), Some(4));
    assert_eq!(pq.del_min(), Some(5));
    assert_eq!(pq.del_min(), Some(80));
    assert_eq!(pq.del_min(), None);
    assert!(pq.is_empty());
}

#[test]
fn minpq_from_slice() {
    let array = [1, 5, 2, 80, 4, -57];
    let slice = &array[..];
    let mut pq = MinPQ::from_slice(slice);
    assert_eq!(pq.min(), Some(&-57));
    assert_eq!(pq.len(), 6);
    assert_eq!(pq.del_min(), Some(-57));
    assert_eq!(pq.del_min(), Some(1));
    assert_eq!(pq.del_min(), Some(2));
    assert_eq!(pq.del_min(), Some(4));
    assert_eq!(pq.del_min(), Some(5));
    assert_eq!(pq.del_min(), Some(80));
    assert_eq!(pq.del_min(), None);
    assert!(pq.is_empty());
}

#[test]
fn minpq_from_array() {
    let array = [1, 5, 2, 80, 4, -57];
    let mut pq = MinPQ::from_slice(&array);
    assert_eq!(pq.min(), Some(&-57));
    assert_eq!(pq.len(), 6);
    assert_eq!(pq.del_min(), Some(-57));
    assert_eq!(pq.del_min(), Some(1));
    assert_eq!(pq.del_min(), Some(2));
    assert_eq!(pq.del_min(), Some(4));
    assert_eq!(pq.del_min(), Some(5));
    assert_eq!(pq.del_min(), Some(80));
    assert_eq!(pq.del_min(), None);
    assert!(pq.is_empty());
}

#[test]
fn minpq_clone_into_iter() {
    let array = [1, 5, 2, 80, 4, -57];
    let pq = MinPQ::from_slice(&array);
    let mut itr = pq.clone().into_iter();
    assert_eq!(itr.next(), Some(-57));
    assert_eq!(itr.next(), Some(1));
    assert_eq!(itr.next(), Some(2));
    assert_eq!(itr.next(), Some(4));
    assert_eq!(itr.next(), Some(5));
    assert_eq!(itr.next(), Some(80));
    assert_eq!(itr.next(), None);
}

#[test]
fn heap_sort_orders_in_place() {
    let mut a = [5, 3, 9, 1, -2, 7, 3];
    algs4_rs::heap_sort(&mut a);
    assert_eq!(a, [-2, 1, 3, 3, 5, 7, 9]);
    let mut words = ["S", "O", "R", "T", "E", "X", "A", "M", "P", "L", "E"];
    algs4_rs::heap_sort(&mut words);
    assert_eq!(words.concat(), "AEELMOPRSTX");
    let mut empty: [u8; 0] = [];
    algs4_rs::heap_sort(&mut empty);
    let mut one = [42];
    algs4_rs::heap_sort(&mut one);
    assert_eq!(one, [42]);
}
