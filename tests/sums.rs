use algs4_rs::{threesum, threesum_fast, twosum, twosum_fast};

const EIGHT: [i32; 8] = [30, -40, -20, -10, 40, 0, 10, 5];

#[test]
fn twosum_counts_every_pair() {
    assert_eq!(twosum::count(&[1, -1, 2, -2, 0, 0]), 3);
    assert_eq!(twosum::count(&[]), 0);
    assert_eq!(twosum::count(&[i32::MIN, i32::MIN]), 0);
    assert_eq!(twosum::count(&EIGHT), 2);
}

#[test]
fn threesum_counts_every_triple() {
    assert_eq!(threesum::count(&EIGHT), 4);
    assert_eq!(threesum::count(&[0, 0, 0, 0]), 4);
    assert_eq!(threesum::count(&[1, 2]), 0);
}

#[test]
fn twosum_fast_sorts_and_counts() {
    let mut a = EIGHT;
    assert_eq!(twosum_fast::count(&mut a).unwrap(), 2);
    assert_eq!(a, [-40, -20, -10, 0, 5, 10, 30, 40]);
    let mut b = [i32::MIN, 5, -5, i32::MAX];
    assert_eq!(twosum_fast::count(&mut b).unwrap(), 1);
    let mut c = [3, 1, 3];
    assert!(twosum_fast::count(&mut c).is_err());
}

#[test]
fn threesum_fast_sorts_and_counts() {
    let mut a = EIGHT;
    assert_eq!(threesum_fast::count(&mut a).unwrap(), 4);
    assert_eq!(a, [-40, -20, -10, 0, 5, 10, 30, 40]);
    let mut d = [0, 7, 0];
    assert!(threesum_fast::count(&mut d).is_err());
    let mut e = [i32::MAX, i32::MAX - 1, i32::MIN, 1];
    assert_eq!(threesum_fast::count(&mut e).unwrap(), threesum::count(&[i32::MAX, i32::MAX - 1, i32::MIN, 1]));
}

#[test]
fn zero_sum_groups_are_listed_in_position_order() {
    assert_eq!(twosum::pairs(&[1, -1, 2, -2, -1]), [(1, -1), (1, -1), (2, -2)]);
    assert_eq!(threesum::triples(&EIGHT), [(30, -40, 10), (30, -20, -10), (-40, 40, 0), (-10, 0, 10)]);
    let mut a = EIGHT;
    assert_eq!(twosum_fast::pairs(&mut a).unwrap(), [(-40, 40), (-10, 10)]);
    let mut b = EIGHT;
    assert_eq!(
        threesum_fast::triples(&mut b).unwrap(),
        [(-40, 0, 40), (-40, 10, 30), (-20, -10, 30), (-10, 0, 10)]
    );
    let mut c = [2, 2];
    assert!(twosum_fast::pairs(&mut c).is_err());
    let mut d = [5, 5, 0];
    assert!(threesum_fast::triples(&mut d).is_err());
}

#[test]
fn fast_counts_match_brute_force_on_the_input() {
    let input = [5, -3, 8, -5, 3, 0, -8, 2, -2, 11];
    let mut a = input;
    assert_eq!(twosum_fast::count(&mut a).unwrap(), twosum::count(&input));
    let mut b = input;
    assert_eq!(threesum_fast::count(&mut b).unwrap(), threesum::count(&input));
    let mut c = [4, 1, 4];
    match twosum_fast::count(&mut c) {
        Err(algs4_rs::InvalidArgument(m)) => assert_eq!(m, "slice contains duplicate integers"),
        Ok(_) => panic!("duplicates must be rejected"),
    }
}
