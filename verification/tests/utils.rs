use competitive_template::utils::{array, search, sort};
use std::cmp::Ordering;

#[test]
fn test_lower_bound() {
    let arr = vec![1, 2, 4, 4, 6, 8];
    assert_eq!(search::lower_bound(&arr, &0), 0);
    assert_eq!(search::lower_bound(&arr, &1), 0);
    assert_eq!(search::lower_bound(&arr, &3), 2);
    assert_eq!(search::lower_bound(&arr, &4), 2);
    assert_eq!(search::lower_bound(&arr, &5), 4);
    assert_eq!(search::lower_bound(&arr, &9), 6);
}

#[test]
fn test_upper_bound() {
    let arr = vec![1, 2, 4, 4, 6, 8];
    assert_eq!(search::upper_bound(&arr, &0), 0);
    assert_eq!(search::upper_bound(&arr, &1), 1);
    assert_eq!(search::upper_bound(&arr, &3), 2);
    assert_eq!(search::upper_bound(&arr, &4), 4);
    assert_eq!(search::upper_bound(&arr, &6), 5);
    assert_eq!(search::upper_bound(&arr, &8), 6);
}

#[test]
fn test_binary_search() {
    let arr = vec![1, 2, 4, 4, 6, 8];
    assert_eq!(search::binary_search(&arr, &1), Some(0));
    assert_eq!(search::binary_search(&arr, &4), Some(2));
    assert_eq!(search::binary_search(&arr, &3), None);
    assert_eq!(search::binary_search(&arr, &9), None);
}

#[test]
fn test_rotate_left() {
    let mut arr = vec![1, 2, 3, 4, 5];
    array::rotate_left(&mut arr, 2);
    assert_eq!(arr, vec![3, 4, 5, 1, 2]);

    let mut arr = vec![1, 2, 3];
    array::rotate_left(&mut arr, 3);
    assert_eq!(arr, vec![1, 2, 3]);
}

#[test]
fn test_rotate_right() {
    let mut arr = vec![1, 2, 3, 4, 5];
    array::rotate_right(&mut arr, 2);
    assert_eq!(arr, vec![4, 5, 1, 2, 3]);
}

#[test]
fn test_next_permutation() {
    let mut arr = vec![1, 2, 3];
    assert!(array::next_permutation(&mut arr));
    assert_eq!(arr, vec![1, 3, 2]);

    assert!(array::next_permutation(&mut arr));
    assert_eq!(arr, vec![2, 1, 3]);

    let mut arr = vec![3, 2, 1];
    assert!(!array::next_permutation(&mut arr));
}

#[test]
fn test_prev_permutation() {
    let mut arr = vec![1, 3, 2];
    assert!(array::prev_permutation(&mut arr));
    assert_eq!(arr, vec![1, 2, 3]);

    let mut arr = vec![1, 2, 3];
    assert!(!array::prev_permutation(&mut arr));
}

#[test]
fn test_sorting_comparators() {
    let mut pairs = vec![(3, 1), (1, 3), (2, 2)];
    pairs.sort_by(sort::by_first_then_second);
    assert_eq!(pairs, vec![(1, 3), (2, 2), (3, 1)]);

    let mut pairs = vec![(3, 1), (1, 3), (2, 2)];
    pairs.sort_by(sort::by_second_then_first);
    assert_eq!(pairs, vec![(3, 1), (2, 2), (1, 3)]);

    let mut nums = vec![5, -3, 2, -8, 1];
    nums.sort_by(sort::descending);
    assert_eq!(nums, vec![5, 2, 1, -3, -8]);
}

#[test]
fn bounds_of_an_empty_slice() {
    let arr: Vec<i64> = Vec::new();
    assert_eq!(search::lower_bound(&arr, &3), 0);
    assert_eq!(search::upper_bound(&arr, &3), 0);
    assert_eq!(search::binary_search(&arr, &3), None);
}

#[test]
fn reverse_range_reverses_a_part() {
    let mut arr = vec![1, 2, 3, 4, 5, 6];
    array::reverse_range(&mut arr, 1, 5);
    assert_eq!(arr, vec![1, 5, 4, 3, 2, 6]);
    array::reverse_range(&mut arr, 3, 3);
    array::reverse_range(&mut arr, 4, 2);
    array::reverse_range(&mut arr, 2, 7);
    assert_eq!(arr, vec![1, 5, 4, 3, 2, 6]);
    array::reverse_range(&mut arr, 0, 6);
    assert_eq!(arr, vec![6, 2, 3, 4, 5, 1]);
}

#[test]
fn rotations_take_the_shift_modulo_the_length() {
    let mut arr = vec![1, 2, 3, 4, 5];
    array::rotate_left(&mut arr, 7);
    assert_eq!(arr, vec![3, 4, 5, 1, 2]);
    array::rotate_right(&mut arr, 12);
    assert_eq!(arr, vec![1, 2, 3, 4, 5]);
    array::rotate_right(&mut arr, 5);
    assert_eq!(arr, vec![1, 2, 3, 4, 5]);
    let mut empty: Vec<i64> = Vec::new();
    array::rotate_left(&mut empty, 3);
    array::rotate_right(&mut empty, 3);
    assert!(empty.is_empty());
}

#[test]
fn permutations_run_through_all_arrangements() {
    let mut arr = vec![1, 2, 2, 3];
    let mut seen = vec![arr.clone()];
    while array::next_permutation(&mut arr) {
        assert!(seen.last().unwrap() < &arr);
        seen.push(arr.clone());
    }
    assert_eq!(seen.len(), 12);
    assert_eq!(arr, vec![3, 2, 2, 1]);
    let mut back = 1;
    while array::prev_permutation(&mut arr) {
        back += 1;
        assert_eq!(arr, seen[seen.len() - back]);
    }
    assert_eq!(back, 12);
    let mut one = vec![7];
    assert!(!array::next_permutation(&mut one));
    assert!(!array::prev_permutation(&mut one));
}

#[test]
fn comparators_order_as_stated() {
    assert_eq!(sort::by_abs(&-5, &3), Ordering::Greater);
    assert_eq!(sort::by_abs(&-5, &5), Ordering::Equal);
    assert_eq!(sort::by_abs(&2, &-3), Ordering::Less);
    assert_eq!(sort::by_abs(&i64::MIN, &i64::MAX), Ordering::Greater);
    assert_eq!(sort::by_abs(&i64::MIN, &i64::MIN), Ordering::Equal);
    assert_eq!(sort::descending(&1, &2), Ordering::Greater);
    assert_eq!(sort::descending(&2, &2), Ordering::Equal);
    assert_eq!(sort::by_first_then_second(&(1, 9), &(1, 2)), Ordering::Greater);
    assert_eq!(sort::by_second_then_first(&(1, 2), &(0, 2)), Ordering::Greater);
    let mut nums = vec![5, -3, 2, -8, 1];
    nums.sort_by(sort::by_abs);
    assert_eq!(nums, vec![1, 2, -3, 5, -8]);
}

#[test]
fn points_by_distance() {
    let by_distance = sort::by_distance_from((1, 1));
    assert_eq!(by_distance(&(1, 1), &(2, 2)), Ordering::Less);
    assert_eq!(by_distance(&(4, 5), &(2, 2)), Ordering::Greater);
    assert_eq!(by_distance(&(0, 1), &(1, 2)), Ordering::Equal);
    let mut points = vec![(5, 5), (1, 2), (-3, 1), (1, 1)];
    points.sort_by(sort::by_distance_from((1, 1)));
    assert_eq!(points, vec![(1, 1), (1, 2), (-3, 1), (5, 5)]);
}
