use algos::sort::bubble::bubble_sort;
use algos::sort::heap::heap_sort;
use algos::sort::merge::merge_sort;
use algos::sort::quick::quick_sort;

#[test]
fn bubble_sort_numbers_test_1() {
    let mut array: Vec<i32> = vec![5, 1, 2, 345, 35, 12, 1];
    bubble_sort(&mut array);

    assert_eq!(array, [1, 1, 2, 5, 12, 35, 345]);
}

#[test]
fn bubble_sort_string_test_1() {
    let mut array: Vec<&str> = vec!["aa", "bbc", "bab", "ca", "bac", "bac", "a"];
    bubble_sort(&mut array);

    assert_eq!(array, ["a", "aa", "bab", "bac", "bac", "bbc", "ca"]);
}

#[test]
fn merge_sort_numbers_test_1() {
    let mut array: Vec<i32> = vec![5, 1, 2, 345, 35, 12, 1];
    merge_sort(&mut array);

    assert_eq!(array, [1, 1, 2, 5, 12, 35, 345]);
}

#[test]
fn merge_sort_string_test_1() {
    let mut array: Vec<&str> = vec!["aa", "bbc", "bab", "ca", "bac", "bac", "a"];
    merge_sort(&mut array);

    assert_eq!(array, ["a", "aa", "bab", "bac", "bac", "bbc", "ca"]);
}

#[test]
fn quick_sort_numbers_test_1() {
    let mut array: Vec<i32> = vec![5, 1, 2, 345, 35, 12, 1];
    quick_sort(&mut array);

    assert_eq!(array, [1, 1, 2, 5, 12, 35, 345]);
}

#[test]
fn quick_sort_string_test_1() {
    let mut array: Vec<&str> = vec!["aa", "bbc", "bab", "ca", "bac", "bac", "a"];
    quick_sort(&mut array);

    assert_eq!(array, ["a", "aa", "bab", "bac", "bac", "bbc", "ca"]);
}

#[test]
fn heap_sort_numbers_test_1() {
    let mut array: Vec<i32> = vec![5, 1, 2, 345, 35, 12, 1];
    heap_sort(&mut array);

    assert_eq!(array, [1, 1, 2, 5, 12, 35, 345]);
}

#[test]
fn heap_sort_string_test_1() {
    let mut array: Vec<&str> = vec!["aa", "bbc", "bab", "ca", "bac", "bac", "a"];
    heap_sort(&mut array);

    assert_eq!(array, ["a", "aa", "bab", "bac", "bac", "bbc", "ca"]);
}

#[test]
fn bubble_sort_empty_and_single() {
    let mut empty: Vec<i64> = vec![];
    bubble_sort(&mut empty);
    assert_eq!(empty, []);

    let mut one: Vec<i64> = vec![7];
    bubble_sort(&mut one);
    assert_eq!(one, [7]);
}

#[test]
fn quick_sort_single_and_duplicates() {
    let mut one: Vec<i64> = vec![9];
    quick_sort(&mut one);
    assert_eq!(one, [9]);

    let mut dup: Vec<i64> = vec![3, 3, 3, 1, 3];
    quick_sort(&mut dup);
    assert_eq!(dup, [1, 3, 3, 3, 3]);
}

#[test]
fn merge_sort_single_and_reverse() {
    let mut one: Vec<i64> = vec![4];
    merge_sort(&mut one);
    assert_eq!(one, [4]);

    let mut rev: Vec<i64> = vec![9, 8, 7, 6, 5];
    merge_sort(&mut rev);
    assert_eq!(rev, [5, 6, 7, 8, 9]);
}

#[test]
fn heap_sort_two_and_sorted() {
    let mut two: Vec<i64> = vec![2, 1];
    heap_sort(&mut two);
    assert_eq!(two, [1, 2]);

    let mut done: Vec<i64> = vec![1, 2, 3, 4];
    heap_sort(&mut done);
    assert_eq!(done, [1, 2, 3, 4]);
}
