use competitive_template::data_structures::fenwick::{FenwickTree, RangeUpdateFenwickTree};

#[test]
fn test_fenwick_tree_basic() {
    let arr = vec![1, 3, 5, 7, 9, 11];
    let fenwick = FenwickTree::from_array(&arr);

    // Test prefix sums
    assert_eq!(fenwick.prefix_sum(0), 1); // 1
    assert_eq!(fenwick.prefix_sum(1), 4); // 1 + 3
    assert_eq!(fenwick.prefix_sum(2), 9); // 1 + 3 + 5
    assert_eq!(fenwick.prefix_sum(5), 36); // sum of all

    // Test range sums
    assert_eq!(fenwick.range_sum(1, 3), 15); // 3 + 5 + 7
    assert_eq!(fenwick.range_sum(0, 2), 9); // 1 + 3 + 5
    assert_eq!(fenwick.range_sum(4, 5), 20); // 9 + 11
}

#[test]
fn test_fenwick_tree_updates() {
    let mut fenwick = FenwickTree::new(5);

    // Add values
    fenwick.update(0, 5);
    fenwick.update(1, 3);
    fenwick.update(2, 7);
    fenwick.update(3, 2);
    fenwick.update(4, 8);

    assert_eq!(fenwick.prefix_sum(2), 15); // 5 + 3 + 7
    assert_eq!(fenwick.range_sum(1, 3), 12); // 3 + 7 + 2

    // Update existing values
    fenwick.update(1, 2); // Add 2 to index 1
    assert_eq!(fenwick.prefix_sum(2), 17); // 5 + 5 + 7
    assert_eq!(fenwick.range_sum(1, 3), 14); // 5 + 7 + 2
}

#[test]
fn test_fenwick_tree_set() {
    let arr = vec![1, 2, 3, 4, 5];
    let mut fenwick = FenwickTree::from_array(&arr);

    // Set value at index 2 to 10
    fenwick.set(2, 10);
    assert_eq!(fenwick.range_sum(2, 2), 10); // Should be 10 now
    assert_eq!(fenwick.prefix_sum(4), 22); // 1 + 2 + 10 + 4 + 5

    // Set value at index 0 to 100
    fenwick.set(0, 100);
    assert_eq!(fenwick.range_sum(0, 0), 100);
    assert_eq!(fenwick.prefix_sum(4), 121); // 100 + 2 + 10 + 4 + 5
}

#[test]
fn test_range_update_fenwick_tree() {
    let arr = vec![1, 2, 3, 4, 5];
    let mut fenwick = RangeUpdateFenwickTree::from_array(&arr);

    // Check initial values
    assert_eq!(fenwick.query(0), 1);
    assert_eq!(fenwick.query(2), 3);
    assert_eq!(fenwick.query(4), 5);

    // Range update: add 10 to indices 1-3
    fenwick.update_range(1, 3, 10);
    assert_eq!(fenwick.query(0), 1); // unchanged
    assert_eq!(fenwick.query(1), 12); // 2 + 10
    assert_eq!(fenwick.query(2), 13); // 3 + 10
    assert_eq!(fenwick.query(3), 14); // 4 + 10
    assert_eq!(fenwick.query(4), 5); // unchanged

    // Another range update: add 5 to indices 0-2
    fenwick.update_range(0, 2, 5);
    assert_eq!(fenwick.query(0), 6); // 1 + 5
    assert_eq!(fenwick.query(1), 17); // 2 + 10 + 5
    assert_eq!(fenwick.query(2), 18); // 3 + 10 + 5
    assert_eq!(fenwick.query(3), 14); // 4 + 10 (unchanged)
    assert_eq!(fenwick.query(4), 5); // unchanged
}

#[test]
fn test_fenwick_tree_edge_cases() {
    // Single element
    let mut fenwick = FenwickTree::new(1);
    fenwick.update(0, 42);
    assert_eq!(fenwick.prefix_sum(0), 42);
    assert_eq!(fenwick.range_sum(0, 0), 42);

    // Empty tree operations
    let fenwick = FenwickTree::new(5);
    assert_eq!(fenwick.prefix_sum(3), 0);
    assert_eq!(fenwick.range_sum(1, 3), 0);
}

#[test]
fn test_fenwick_tree_performance() {
    let size = 10000;
    let mut fenwick = FenwickTree::new(size);

    // Perform many updates and queries
    for i in 0..1000 {
        fenwick.update(i % size, i as i64);
        let _ = fenwick.prefix_sum(i % size);
        let _ = fenwick.range_sum(i % size, (i + 100) % size);
    }

    // Should complete without issues
    assert!(fenwick.prefix_sum(999) >= 0);
}

#[test]
fn test_fenwick_tree_negative_values() {
    let mut fenwick = FenwickTree::new(5);

    // Add positive and negative values
    fenwick.update(0, 10);
    fenwick.update(1, -5);
    fenwick.update(2, 3);
    fenwick.update(3, -2);
    fenwick.update(4, 7);

    assert_eq!(fenwick.prefix_sum(1), 5); // 10 + (-5)
    assert_eq!(fenwick.prefix_sum(4), 13); // 10 - 5 + 3 - 2 + 7
    assert_eq!(fenwick.range_sum(1, 3), -4); // -5 + 3 + (-2)
}

#[test]
fn fenwick_sums_before_and_after_an_update() {
    let mut fenwick = FenwickTree::from_array(&[1, 3, 5, 7, 9, 11]);
    assert_eq!(fenwick.range_sum(1, 3), 15);
    fenwick.update(1, 2);
    assert_eq!(fenwick.prefix_sum(2), 11);
    assert_eq!(fenwick.range_sum(1, 3), 17);
}

#[test]
fn fenwick_matches_brute_force_after_each_update() {
    let mut reference: Vec<i64> = vec![0; 13];
    let mut fenwick = FenwickTree::new(13);
    let updates: [(usize, i64); 9] =
        [(0, 4), (12, -3), (5, 9), (5, -2), (7, 1), (1, 100), (11, -50), (6, 6), (0, -4)];
    for &(idx, delta) in updates.iter() {
        fenwick.update(idx, delta);
        reference[idx] += delta;
        for l in 0..reference.len() {
            for r in l..reference.len() {
                let expected: i64 = reference[l..=r].iter().sum();
                assert_eq!(fenwick.range_sum(l, r), expected);
            }
            let prefix: i64 = reference[..=l].iter().sum();
            assert_eq!(fenwick.prefix_sum(l), prefix);
        }
    }
}

#[test]
fn fenwick_ignores_what_is_out_of_range() {
    let mut fenwick = FenwickTree::from_array(&[1, 2, 3]);
    fenwick.update(3, 10);
    fenwick.set(7, 10);
    assert_eq!(fenwick.prefix_sum(2), 6);
    assert_eq!(fenwick.prefix_sum(3), 0);
    assert_eq!(fenwick.range_sum(1, 3), 0);
    assert_eq!(fenwick.range_sum(2, 1), 0);
    assert_eq!(fenwick.range_sum(usize::MAX, usize::MAX), 0);
    let mut empty = FenwickTree::new(0);
    empty.update(0, 1);
    assert_eq!(empty.prefix_sum(0), 0);
}

#[test]
fn fenwick_wraps_around() {
    let mut fenwick = FenwickTree::from_array(&[i64::MAX, 1, -1]);
    assert_eq!(fenwick.prefix_sum(1), i64::MIN);
    assert_eq!(fenwick.prefix_sum(2), i64::MAX);
    assert_eq!(fenwick.range_sum(1, 2), 0);
    fenwick.set(0, i64::MIN);
    assert_eq!(fenwick.range_sum(0, 0), i64::MIN);
    assert_eq!(fenwick.prefix_sum(2), i64::MIN);
}

#[test]
fn range_update_fenwick_edges() {
    let mut fenwick = RangeUpdateFenwickTree::new(4);
    assert_eq!(fenwick.query(3), 0);
    // the part of the range outside the structure is left out
    fenwick.update_range(2, 9, 7);
    assert_eq!(fenwick.query(1), 0);
    assert_eq!(fenwick.query(2), 7);
    assert_eq!(fenwick.query(3), 7);
    assert_eq!(fenwick.query(4), 0);
    // an empty range changes nothing
    fenwick.update_range(3, 1, 100);
    fenwick.update_range(4, 4, 100);
    assert_eq!(fenwick.query(0), 0);
    assert_eq!(fenwick.query(1), 0);
    assert_eq!(fenwick.query(2), 7);
    assert_eq!(fenwick.query(3), 7);
    fenwick.update_range(0, usize::MAX, i64::MIN);
    assert_eq!(fenwick.query(0), i64::MIN);
    assert_eq!(fenwick.query(3), i64::MIN + 7);
}
