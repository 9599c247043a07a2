use algs4_rs::BST;

fn prepare_1() -> BST<String, usize> {
    let mut st = BST::new();
    let v = "SEARCHEXAMPLE".split("").collect::<Vec<&str>>();
    for (i, x) in v[1..v.len() - 1].iter().enumerate() {
        st.put(x.to_string(), i);
    }
    st
}

fn prepare_2() -> BST<char, usize> {
    let mut st = BST::new();
    for (i, x) in "SEARCHEXAMPLE".chars().enumerate() {
        st.put(x, i);
    }
    st
}

fn keys_string(st: &BST<char, usize>) -> String {
    let mut s = String::new();
    let mut it = st.keys();
    while let Some(k) = it.next() {
        s.push(*k);
    }
    s
}

#[test]
fn test_bst_put_and_keys() {
    let st1 = prepare_1();
    let mut s = String::new();
    let mut it = st1.keys();
    while let Some(k) = it.next() {
        s.push_str(k.as_str());
    }
    assert_eq!(s, "ACEHLMPRSX");

    let st2 = prepare_2();
    assert_eq!(keys_string(&st2), "ACEHLMPRSX");
}

#[test]
fn test_bst_size() {
    let st = prepare_2();
    assert!(!st.is_empty());
    assert_eq!(st.size(), 10);
}

#[test]
fn test_bst_contains_and_get() {
    let st = prepare_2();
    assert!(st.contains(&'X'));
    assert!(!st.contains(&'Q'));
    assert!(!st.contains(&'a'));

    assert_eq!(st.get(&'X'), Some(&7));
    assert_eq!(st.get(&'Q'), None);
    assert_eq!(st.get(&'a'), None);
    assert_eq!(st.get(&'A'), Some(&8));
}

#[test]
fn test_bst_min_and_max() {
    let empty_st: BST<i32, String> = BST::new();
    assert!(empty_st.min().is_none());
    assert!(empty_st.max().is_none());

    let st = prepare_2();
    assert_eq!(st.min(), Some(&'A'));
    assert_eq!(st.max(), Some(&'X'));
}

#[test]
fn test_bst_height() {
    let empty_st: BST<i32, String> = BST::new();
    assert_eq!(empty_st.height(), -1);

    let st = prepare_2();
    assert_eq!(st.height(), 5);
}

#[test]
fn bst_put_replaces_value_of_equal_key() {
    let mut st: BST<i32, &str> = BST::default();
    assert!(st.is_empty());
    st.put(5, "five");
    st.put(2, "two");
    st.put(5, "FIVE");
    assert_eq!(st.size(), 2);
    assert_eq!(st.get(&5), Some(&"FIVE"));
    assert_eq!(st.get(&2), Some(&"two"));
    assert_eq!(st.height(), 1);
}

fn range_string(st: &BST<char, usize>, lo: char, hi: char) -> String {
    let mut s = String::new();
    let mut it = st.keys_range(&lo, &hi);
    while let Some(k) = it.next() {
        s.push(*k);
    }
    s
}

#[test]
fn test_bst_delete_min() {
    let mut empty_st: BST<i32, String> = Default::default();
    let r = empty_st.delete_min();
    assert!(match r {
        Err(algs4_rs::InvalidArgument(s)) => s == "symbol table underflow",
        _ => false,
    });

    let mut st = prepare_2();
    assert_eq!(keys_string(&st), "ACEHLMPRSX");
    let r = st.delete_min();
    assert!(r.is_ok());
    assert!(!st.contains(&'A'));
}

#[test]
fn test_bst_delete_max() {
    let mut empty_st: BST<i32, String> = Default::default();
    let r = empty_st.delete_max();
    assert!(match r {
        Err(algs4_rs::InvalidArgument(s)) => s == "symbol table underflow",
        _ => false,
    });

    let mut st = prepare_2();
    assert_eq!(keys_string(&st), "ACEHLMPRSX");
    let r = st.delete_max();
    assert!(r.is_ok());
    assert!(!st.contains(&'X'));
}

#[test]
fn test_bst_delete() {
    let mut empty_st: BST<i32, String> = BST::new();
    empty_st.delete(&80);
    assert!(empty_st.is_empty());

    let mut st = prepare_2();
    assert_eq!(keys_string(&st), "ACEHLMPRSX");
    st.delete(&'F');
    assert_eq!(keys_string(&st), "ACEHLMPRSX");
    st.delete(&'H');
    assert_eq!(keys_string(&st), "ACELMPRSX");
}

#[test]
fn test_bst_floor_and_ceiling() {
    let empty_st: BST<i32, String> = BST::new();
    assert!(empty_st.floor(&9).is_none());
    assert!(empty_st.ceiling(&20).is_none());

    let st = prepare_2();
    assert_eq!(st.floor(&'A'), Some(&'A'));
    assert_eq!(st.floor(&'B'), Some(&'A'));
    assert_eq!(st.floor2(&'A'), Some(&'A'));
    assert_eq!(st.floor2(&'B'), Some(&'A'));
    assert_eq!(st.ceiling(&'A'), Some(&'A'));
    assert_eq!(st.ceiling(&'B'), Some(&'C'));
    assert_eq!(st.ceiling(&'X'), Some(&'X'));
    assert_eq!(st.ceiling(&'Y'), None);
}

#[test]
fn test_bst_select_and_rank() {
    let empty_st: BST<i32, String> = BST::new();
    assert!(empty_st.select(20).is_err());
    assert!(empty_st.select(0).is_err());
    assert_eq!(empty_st.rank(&-3), 0);
    assert_eq!(empty_st.rank(&0), 0);

    let st = prepare_2();
    let expected_keys = "ACEHLMPRSX";
    assert_eq!(keys_string(&st), expected_keys);
    assert_eq!(st.size(), 10);
    for (i, v) in expected_keys.chars().enumerate() {
        assert_eq!(st.select(i).unwrap(), Some(&v));
    }
    assert!(empty_st.select(11).is_err());

    let expected_ranks = [
        ('A', 0),
        ('B', 1),
        ('C', 1),
        ('D', 2),
        ('E', 2),
        ('X', 9),
        ('Z', 10),
    ];
    for (k, r) in expected_ranks {
        assert_eq!(st.rank(&k), r);
    }
}

#[test]
fn test_bst_keys_range() {
    let empty_st: BST<i32, String> = BST::new();
    let mut it = empty_st.keys_range(&2, &8);
    assert_eq!(it.next(), None);

    let st = prepare_2();
    let expected_keys = "ACEHLMPRSX";
    assert_eq!(range_string(&st, 'A', 'Z'), expected_keys);
    assert_eq!(range_string(&st, 'B', 'Q'), "CEHLMP");
    assert_eq!(range_string(&st, 'B', 'R'), "CEHLMPR");
    assert_eq!(range_string(&st, 'A', 'B'), "A");
    assert_eq!(range_string(&st, 'A', 'A'), "A");
    assert_eq!(range_string(&st, 'B', 'B'), "");
    assert_eq!(range_string(&st, 'C', 'A'), "");

    let mut rev = String::new();
    let mut it = st.keys_range(&'C', &'M');
    while let Some(k) = it.next_back() {
        rev.push(*k);
    }
    assert_eq!(rev, "MLHEC");

    let mut itr = st.keys_range(&'C', &'N');
    assert_eq!(itr.next(), Some(&'C'));
    assert_eq!(itr.next_back(), Some(&'M'));
    assert_eq!(itr.next(), Some(&'E'));
    assert_eq!(itr.next_back(), Some(&'L'));
    assert_eq!(itr.next(), Some(&'H'));
    assert_eq!(itr.next_back(), None);
    assert_eq!(itr.next(), None);
}

#[test]
fn test_bst_size_range() {
    let empty_st: BST<i32, String> = BST::new();
    assert_eq!(empty_st.size_range(&2, &8), 0);

    let st = prepare_2();
    assert_eq!(st.size_range(&'A', &'Z'), 10);
    assert_eq!(st.size_range(&'B', &'Q'), 6);
    assert_eq!(st.size_range(&'B', &'R'), 7);
    assert_eq!(st.size_range(&'A', &'B'), 1);
    assert_eq!(st.size_range(&'A', &'A'), 1);
    assert_eq!(st.size_range(&'B', &'B'), 0);
    assert_eq!(st.size_range(&'C', &'A'), 0);
}

#[test]
fn test_bst_keys_level_order() {
    let empty_st: BST<i32, String> = BST::new();
    let mut it = empty_st.keys_level_order();
    assert_eq!(it.next(), None);

    let st = prepare_2();
    let mut s = String::new();
    let mut it = st.keys_level_order();
    while let Some(k) = it.next() {
        s.push(*k);
    }
    assert_eq!(s, "SEXARCHMLP");
}
