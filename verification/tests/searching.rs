use iot_structures::searching::{binary_search, jump_search, linear_search};

#[test]
fn test_linear_search() {
    assert_eq!(linear_search(&vec![9, 8, 7, 6], &9), Some(0));
    assert_eq!(linear_search(&vec![6, 8, 7, 9], &7), Some(2));
    assert_eq!(linear_search(&vec![2, 1, 1, 1, 1], &1), Some(1));
}

#[test]
fn test_jump_search() {
    let mut v = vec![9, 8, 7, 6];
    v.sort();
    assert_eq!(jump_search(&v, &9, 2), Some(3));
    assert_eq!(jump_search(&v, &7, 2), Some(1));
    let mut v = vec![2, 1, 1, 1, 1];
    v.sort();
    assert_eq!(jump_search(&v, &1, 2), Some(2));
}

#[test]
fn test_binary_search() {
    let mut v = vec![9, 8, 7, 6];
    v.sort();
    assert_eq!(binary_search(&v, &9), Some(3));
    assert_eq!(binary_search(&v, &7), Some(1));
    let mut v = vec![2, 1, 1, 1, 1];
    v.sort();
    assert_eq!(binary_search(&v, &1), Some(2));
}

#[test]
fn searches_for_what_is_missing() {
    let v: Vec<i64> = vec![1, 3, 5, 7, 9, 11];
    let none: Vec<i64> = vec![];
    for missing in [0i64, 2, 4, 6, 8, 10, 12] {
        assert_eq!(linear_search(&v, &missing), None);
        assert_eq!(binary_search(&v, &missing), None);
        assert_eq!(jump_search(&v, &missing, 2), None);
        assert_eq!(jump_search(&v, &missing, 4), None);
    }
    assert_eq!(linear_search(&none, &1), None);
    assert_eq!(binary_search(&none, &1), None);
    assert_eq!(jump_search(&none, &1, 1), None);
}

#[test]
fn binary_search_finds_every_value() {
    let v: Vec<i64> = vec![1, 3, 5, 7, 9, 11];
    for (i, x) in v.iter().enumerate() {
        assert_eq!(binary_search(&v, x), Some(i));
        assert_eq!(linear_search(&v, x), Some(i));
    }
    assert_eq!(binary_search(&[4], &4), Some(0));
    assert_eq!(binary_search(&[4], &3), None);
    assert_eq!(binary_search(&[4], &5), None);
}

#[test]
fn jump_search_reports_a_hit_in_a_stretch_by_its_place_there() {
    let v: Vec<i64> = vec![1, 3, 5, 7, 9, 11];
    // direct hits on the probes at 2, 4 and 5
    assert_eq!(jump_search(&v, &5, 2), Some(2));
    assert_eq!(jump_search(&v, &9, 2), Some(4));
    assert_eq!(jump_search(&v, &11, 2), Some(5));
    // 7 lies in the stretch that starts at place 2, as its second value
    assert_eq!(jump_search(&v, &7, 2), Some(1));
    // 1 and 3 lie in the first stretch
    assert_eq!(jump_search(&v, &1, 2), Some(0));
    assert_eq!(jump_search(&v, &3, 2), Some(1));
    // a jump as long as the haystack searches nothing
    assert_eq!(jump_search(&v, &1, 6), None);
    assert_eq!(jump_search(&v, &1, 7), None);
}

#[test]
fn jump_search_of_four() {
    let v: Vec<i64> = vec![6, 7, 8, 9];
    assert_eq!(jump_search(&v, &7, 2), Some(1));
    assert_eq!(jump_search(&v, &6, 2), Some(0));
    assert_eq!(jump_search(&v, &8, 2), Some(2));
    assert_eq!(jump_search(&v, &9, 2), Some(3));
    assert_eq!(jump_search(&v, &5, 2), None);
    assert_eq!(jump_search(&v, &10, 2), None);
    // in a haystack that does not ascend only the stretch before the probe is searched
    let w: Vec<i64> = vec![7, 1, 9, 7];
    assert_eq!(jump_search(&w, &7, 2), Some(0));
    assert_eq!(linear_search(&w, &7), Some(0));
    assert_eq!(linear_search(&w, &9), Some(2));
}

#[test]
fn binary_search_takes_the_middle_first() {
    // the middle of the places 0..=4 is 2, of 0..=1 it is 0, of 3..=4 it is 3
    let v: Vec<i64> = vec![5, 5, 5, 5, 5];
    assert_eq!(binary_search(&v, &5), Some(2));
    let w: Vec<i64> = vec![1, 2, 3, 4, 5];
    assert_eq!(binary_search(&w, &1), Some(0));
    assert_eq!(binary_search(&w, &2), Some(1));
    assert_eq!(binary_search(&w, &4), Some(3));
    assert_eq!(binary_search(&w, &5), Some(4));
    assert_eq!(binary_search(&w, &0), None);
    assert_eq!(binary_search(&w, &6), None);
    // where the values do not ascend, only the half that the middle names is searched
    let u: Vec<i64> = vec![9, 1, 5, 7, 3];
    assert_eq!(binary_search(&u, &9), None);
    assert_eq!(binary_search(&u, &7), Some(3));
    let none: Vec<i64> = vec![];
    assert_eq!(binary_search(&none, &1), None);
}
