use competitive_template::data_structures::segment_tree::{MaxI64, MinI64, SegmentTree};
use competitive_template::data_structures::sum_segment_tree::SumSegmentTree;

#[test]
fn test_sum_segment_tree_basic() {
    let arr = vec![1, 3, 5, 7, 9, 11];
    let mut seg_tree = SumSegmentTree::from_array(&arr);

    // Test range queries
    assert_eq!(seg_tree.query(0, 2), 9); // 1 + 3 + 5
    assert_eq!(seg_tree.query(1, 4), 24); // 3 + 5 + 7 + 9
    assert_eq!(seg_tree.query(0, 5), 36); // sum of all elements

    // Test point updates
    seg_tree.update_point(2, 10);
    assert_eq!(seg_tree.query(0, 2), 14); // 1 + 3 + 10
    assert_eq!(seg_tree.query(0, 5), 41); // updated sum
}

#[test]
fn test_sum_segment_tree_range_updates() {
    let arr = vec![1, 2, 3, 4, 5];
    let mut seg_tree = SumSegmentTree::from_array(&arr);

    // Test range update
    seg_tree.update_range(1, 3, 10); // Add 10 to indices 1, 2, 3
    assert_eq!(seg_tree.query(0, 4), 45); // 1 + 12 + 13 + 14 + 5
    assert_eq!(seg_tree.query(1, 3), 39); // 12 + 13 + 14

    // Test multiple range updates
    seg_tree.update_range(0, 1, 5); // Add 5 to indices 0, 1
    assert_eq!(seg_tree.query(0, 1), 23); // 6 + 17
}

#[test]
fn test_min_segment_tree() {
    let arr = vec![4, 2, 8, 1, 6, 3];
    let seg_tree = SegmentTree::min_from_array(&arr);

    assert_eq!(seg_tree.query(0, 2), 2); // min(4, 2, 8)
    assert_eq!(seg_tree.query(2, 5), 1); // min(8, 1, 6, 3)
    assert_eq!(seg_tree.query(0, 5), 1); // min of all

    // Test point update
    let mut seg_tree = seg_tree;
    seg_tree.update_point(3, 10);
    assert_eq!(seg_tree.query(2, 5), 3); // min(8, 10, 6, 3)
}

#[test]
fn test_max_segment_tree() {
    let arr = vec![4, 2, 8, 1, 6, 3];
    let seg_tree = SegmentTree::max_from_array(&arr);

    assert_eq!(seg_tree.query(0, 2), 8); // max(4, 2, 8)
    assert_eq!(seg_tree.query(3, 5), 6); // max(1, 6, 3)
    assert_eq!(seg_tree.query(0, 5), 8); // max of all

    // Test point update
    let mut seg_tree = seg_tree;
    seg_tree.update_point(1, 15);
    assert_eq!(seg_tree.query(0, 2), 15); // max(4, 15, 8)
}

#[test]
fn test_segment_tree_edge_cases() {
    // Single element
    let arr = vec![42];
    let mut seg_tree = SumSegmentTree::from_array(&arr);
    assert_eq!(seg_tree.query(0, 0), 42);

    seg_tree.update_point(0, 100);
    assert_eq!(seg_tree.query(0, 0), 100);

    // Empty range handling with larger array
    let arr = vec![1, 2, 3, 4, 5];
    let mut seg_tree = SumSegmentTree::from_array(&arr);

    // Test single element queries
    assert_eq!(seg_tree.query(2, 2), 3);
    assert_eq!(seg_tree.query(4, 4), 5);
}

#[test]
fn test_segment_tree_performance() {
    // Test with larger array to ensure performance
    let size = 1000;
    let arr: Vec<i64> = (1..=size as i64).collect();
    let mut seg_tree = SumSegmentTree::from_array(&arr);

    // Test multiple operations
    for i in 0..100 {
        seg_tree.update_point(i % size, i as i64);
        let _ = seg_tree.query(i % size, (i + 10) % size);
    }

    // Test range updates
    seg_tree.update_range(0, 99, 5);
    let result = seg_tree.query(0, 99);
    assert!(result > 0); // Should have some positive sum
}

#[test]
fn test_lazy_propagation() {
    let arr = vec![0; 8]; // Array of zeros
    let mut seg_tree = SumSegmentTree::from_array(&arr);

    // Multiple overlapping range updates
    seg_tree.update_range(0, 3, 1); // Add 1 to [0,3]
    seg_tree.update_range(2, 5, 2); // Add 2 to [2,5]
    seg_tree.update_range(1, 6, 3); // Add 3 to [1,6]

    // Check individual positions
    assert_eq!(seg_tree.query(0, 0), 1); // Only first update
    assert_eq!(seg_tree.query(1, 1), 4); // First + third update
    assert_eq!(seg_tree.query(2, 2), 6); // All three updates
    assert_eq!(seg_tree.query(3, 3), 6); // All three updates
    assert_eq!(seg_tree.query(4, 4), 5); // Second + third update
    assert_eq!(seg_tree.query(5, 5), 5); // Second + third update
    assert_eq!(seg_tree.query(6, 6), 3); // Only third update
    assert_eq!(seg_tree.query(7, 7), 0); // No updates
}

#[test]
fn lazy_tree_sums_before_and_after_a_range_update() {
    let arr = vec![1, 3, 5, 7, 9, 11];
    let mut tree = SumSegmentTree::from_array(&arr);
    assert_eq!(tree.query(0, 2), 9);
    tree.update_range(1, 3, 10);
    assert_eq!(tree.query(0, 4), 55);
    assert_eq!(tree.query(1, 3), 45);
}

#[test]
fn lazy_tree_matches_reference_array() {
    let mut reference: Vec<i64> = vec![5, -3, 8, 0, 2, 7, -1, 4, 9, -6, 3];
    let mut tree = SumSegmentTree::from_array(&reference);
    let updates: [(usize, usize, i64); 6] =
        [(0, 10, 2), (3, 7, -5), (5, 5, 100), (0, 0, -7), (9, 10, 11), (2, 8, 1)];
    for &(l, r, delta) in updates.iter() {
        tree.update_range(l, r, delta);
        for k in l..=r {
            reference[k] += delta;
        }
        for lo in 0..reference.len() {
            for hi in lo..reference.len() {
                let expected: i64 = reference[lo..=hi].iter().sum();
                assert_eq!(tree.query(lo, hi), expected);
            }
        }
    }
}

#[test]
fn lazy_tree_ignores_what_is_out_of_range() {
    let arr = vec![1, 2, 3];
    let mut tree = SumSegmentTree::from_array(&arr);
    assert_eq!(tree.query(0, 3), 0);
    assert_eq!(tree.query(3, 3), 0);
    assert_eq!(tree.query(2, 1), 0);
    tree.update_range(1, 3, 10);
    tree.update_range(2, 1, 10);
    tree.update_point(3, 10);
    assert_eq!(tree.query(0, 2), 6);
}

#[test]
fn lazy_tree_of_no_elements() {
    let mut tree = SumSegmentTree::new(0);
    assert_eq!(tree.query(0, 0), 0);
    tree.update_range(0, 0, 5);
    tree.update_point(0, 5);
    assert_eq!(tree.query(0, 0), 0);
    let mut tree = SumSegmentTree::from_array(&[]);
    assert_eq!(tree.query(0, 0), 0);
}

#[test]
fn lazy_tree_new_holds_zeros() {
    let mut tree = SumSegmentTree::new(4);
    assert_eq!(tree.query(0, 3), 0);
    tree.update_range(0, 3, 3);
    assert_eq!(tree.query(0, 3), 12);
    assert_eq!(tree.query(1, 2), 6);
}

#[test]
fn lazy_tree_wraps_around() {
    let arr = vec![i64::MAX, 1];
    let mut tree = SumSegmentTree::from_array(&arr);
    assert_eq!(tree.query(0, 1), i64::MIN);
    assert_eq!(tree.query(0, 0), i64::MAX);
    tree.update_range(0, 1, -1);
    assert_eq!(tree.query(0, 1), i64::MAX - 1);
}

#[test]
fn point_update_after_pending_range_update() {
    let arr = vec![1, 2, 3, 4, 5, 6, 7, 8];
    let mut tree = SumSegmentTree::from_array(&arr);
    tree.update_range(0, 7, 10);
    tree.update_point(3, 0);
    assert_eq!(tree.query(3, 3), 0);
    assert_eq!(tree.query(0, 7), 36 + 80 - 14);
    assert_eq!(tree.query(2, 4), 13 + 0 + 15);
}

#[test]
fn min_and_max_over_the_full_range() {
    let arr = vec![7, -2, 9, 4, -2, 11, 0];
    let min_tree = SegmentTree::min_from_array(&arr);
    let max_tree = SegmentTree::max_from_array(&arr);
    assert_eq!(min_tree.query(0, 6), *arr.iter().min().unwrap());
    assert_eq!(max_tree.query(0, 6), *arr.iter().max().unwrap());
    for lo in 0..arr.len() {
        for hi in lo..arr.len() {
            assert_eq!(min_tree.query(lo, hi), *arr[lo..=hi].iter().min().unwrap());
            assert_eq!(max_tree.query(lo, hi), *arr[lo..=hi].iter().max().unwrap());
        }
    }
}

#[test]
fn generic_tree_gives_identity_out_of_range() {
    let arr = vec![4, 2, 8];
    let mut min_tree = SegmentTree::min_from_array(&arr);
    assert_eq!(min_tree.query(0, 3), i64::MAX);
    assert_eq!(min_tree.query(2, 1), i64::MAX);
    min_tree.update_point(3, -100);
    assert_eq!(min_tree.query(0, 2), 2);
    let max_tree = SegmentTree::max_from_array(&arr);
    assert_eq!(max_tree.query(5, 9), i64::MIN);
}

#[test]
fn generic_tree_of_identities() {
    let mut min_tree = SegmentTree::min(5);
    assert_eq!(min_tree.query(0, 4), i64::MAX);
    min_tree.update_point(2, 17);
    assert_eq!(min_tree.query(0, 4), 17);
    assert_eq!(min_tree.query(3, 4), i64::MAX);
    let mut max_tree = SegmentTree::max(5);
    assert_eq!(max_tree.query(0, 4), i64::MIN);
    max_tree.update_point(4, -3);
    assert_eq!(max_tree.query(0, 4), -3);
    let empty = SegmentTree::min(0);
    assert_eq!(empty.query(0, 0), i64::MAX);
}

#[test]
fn generic_tree_with_given_monoid() {
    let arr = vec![3, 1, 2];
    let tree = SegmentTree::from_array(&arr, MinI64);
    assert_eq!(tree.query(0, 2), 1);
    let tree = SegmentTree::new(3, MaxI64);
    assert_eq!(tree.query(0, 2), i64::MIN);
}
