use iot_structures::sorting::{
    bubble_sort, heap_sort, merge_sort, partition, quick_sort, quick_sort_r, shell_sort, swap,
};

fn check_bubble_sort() {
    assert_eq!(bubble_sort(&vec![9, 8, 7, 6]), vec![6, 7, 8, 9]);
    assert_eq!(bubble_sort(&vec![6, 8, 7, 9]), vec![6, 7, 8, 9]);
    assert_eq!(bubble_sort(&vec![2, 1, 1, 1, 1]), vec![1, 1, 1, 1, 2]);
}

#[test]
fn test_bubble_sort() {
    check_bubble_sort();
}

#[test]
fn lib_test_bubble_sort() {
    check_bubble_sort();
}

fn check_merge_sort() {
    assert_eq!(merge_sort(&vec![9, 8, 7, 6]), vec![6, 7, 8, 9]);
    assert_eq!(merge_sort(&vec![6, 8, 7, 9]), vec![6, 7, 8, 9]);
    assert_eq!(merge_sort(&vec![2, 1, 1, 1, 1]), vec![1, 1, 1, 1, 2]);
}

#[test]
fn test_merge_sort() {
    check_merge_sort();
}

#[test]
fn lib_test_merge_sort() {
    check_merge_sort();
}

fn check_shell_sort() {
    assert_eq!(shell_sort(&vec![9, 8, 7, 6]), vec![6, 7, 8, 9]);
    assert_eq!(shell_sort(&vec![6, 8, 7, 9]), vec![6, 7, 8, 9]);
    assert_eq!(shell_sort(&vec![2, 1, 1, 1, 1]), vec![1, 1, 1, 1, 2]);
}

#[test]
fn test_shell_sort() {
    check_shell_sort();
}

#[test]
fn lib_test_shell_sort() {
    check_shell_sort();
}

fn check_heap_sort() {
    assert_eq!(heap_sort(&vec![9, 8, 7, 6]), vec![6, 7, 8, 9]);
    assert_eq!(heap_sort(&vec![6, 8, 7, 9]), vec![6, 7, 8, 9]);
    assert_eq!(heap_sort(&vec![2, 1, 1, 1, 1]), vec![1, 1, 1, 1, 2]);
}

#[test]
fn test_heap_sort() {
    check_heap_sort();
}

#[test]
fn lib_test_heap_sort() {
    check_heap_sort();
}

fn check_quick_sort() {
    assert_eq!(quick_sort(&vec![9, 8, 7, 6]), vec![6, 7, 8, 9]);
    assert_eq!(quick_sort(&vec![8, 9, 7, 6]), vec![6, 7, 8, 9]);

    assert_eq!(quick_sort(&vec![6, 8, 7, 9]), vec![6, 7, 8, 9]);
    assert_eq!(quick_sort(&vec![2, 1, 1, 1, 1]), vec![1, 1, 1, 1, 2]);
}

#[test]
fn test_quick_sort() {
    check_quick_sort();
}

#[test]
fn lib_test_quick_sort() {
    check_quick_sort();
}

fn check_stdlib_sort() {
    let mut v = vec![9, 8, 7, 6];
    v.sort();
    assert_eq!(v, vec![6, 7, 8, 9]);
}

#[test]
fn test_stdlib_sort() {
    check_stdlib_sort();
}

#[test]
fn lib_test_stdlib_sort() {
    check_stdlib_sort();
}

fn all_sorts(input: &[i64]) -> Vec<Vec<i64>> {
    vec![
        bubble_sort(input),
        shell_sort(input),
        heap_sort(input),
        merge_sort(input),
        quick_sort(input),
    ]
}

#[test]
fn sorts_agree_with_the_standard_sort() {
    let inputs: Vec<Vec<i64>> = vec![
        vec![],
        vec![5],
        vec![2, 1],
        vec![1, 2],
        vec![3, 3, 3],
        vec![i64::MAX, i64::MIN, 0, -1, 1],
        vec![5, 1, 4, 2, 3, 5, 1, 4, 2, 3, 0],
        (0..200).map(|k| (k * 7919) % 101 - 50).collect(),
        (0..64).rev().collect(),
    ];
    for input in inputs {
        let mut expected = input.clone();
        expected.sort();
        for sorted in all_sorts(&input) {
            assert_eq!(sorted, expected);
        }
    }
}

#[test]
fn swap_exchanges_two_places() {
    let mut v = vec![1, 2, 3];
    swap(&mut v, 0, 2);
    assert_eq!(v, vec![3, 2, 1]);
    swap(&mut v, 1, 1);
    assert_eq!(v, vec![3, 2, 1]);
}

#[test]
fn partition_parts_around_the_last_value() {
    let mut v = vec![9, 1, 8, 2, 7, 3, 5];
    let split = partition(&mut v, 0, 6);
    assert!(split < 6);
    let upper = v[split + 1..].iter().min().unwrap();
    assert!(v[..=split].iter().all(|x| x <= upper));
    let mut all = v.clone();
    all.sort();
    assert_eq!(all, vec![1, 2, 3, 5, 7, 8, 9]);
    let mut w = vec![2, 1];
    assert_eq!(partition(&mut w, 0, 1), 0);
    assert_eq!(w, vec![1, 2]);
}

#[test]
fn quick_sort_r_leaves_the_rest() {
    let mut v = vec![9, 4, 3, 2, 1, 0];
    quick_sort_r(&mut v, 1, 4);
    assert_eq!(v, vec![9, 1, 2, 3, 4, 0]);
    quick_sort_r(&mut v, 2, 2);
    assert_eq!(v, vec![9, 1, 2, 3, 4, 0]);
}
