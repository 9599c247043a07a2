use algs4_rs::{index_of, index_of_i32_seq};

#[test]
fn test_index_of() {
    let a = ["1", "3", "5", "7", "9"];

    let i = index_of(&a, &"5");
    assert_eq!(i, 2);

    let i = index_of(&a, &"4");
    assert_eq!(i, -1);

    let a: [&str; 0] = [];
    let i = index_of(&a, &"5");
    assert_eq!(i, -1);

    let a = ["1", "3", "5", "5", "5", "7", "9"];
    let i = index_of(&a, &"5");
    assert!(match i {
        2..=4 => true,
        _ => false,
    });
}

#[test]
fn test_index_of_i32_seq() {
    let b = [0, 1, 2, 3, 5, 8, 13, 21, 34, 55];

    let i = index_of_i32_seq(&b, &13);
    assert_eq!(i, 6);

    let i = index_of_i32_seq(&b, &4);
    assert_eq!(i, -1);

    let i = index_of_i32_seq(&b, &100);
    assert_eq!(i, -1);

    let i = index_of_i32_seq(&b, &1);
    assert_eq!(i, 1);

    let a: [&str; 0] = [];
    let i = index_of(&a, &"5");
    assert_eq!(i, -1);

    let b = [1, 3, 5, 5, 5, 7, 9];
    let i = index_of_i32_seq(&b, &5);
    assert!(match i {
        2..=4 => true,
        _ => false,
    });
}

#[test]
fn binary_search_ends_and_misses() {
    let b = [-3, 0, 7];
    assert_eq!(index_of_i32_seq(&b, &-3), 0);
    assert_eq!(index_of_i32_seq(&b, &7), 2);
    assert_eq!(index_of_i32_seq(&b, &-4), -1);
    assert_eq!(index_of_i32_seq(&b, &8), -1);
    assert_eq!(index_of(&b, &0), 1);
    assert_eq!(index_of(&b, &1), -1);
}
