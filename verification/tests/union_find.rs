use competitive_template::data_structures::union_find::UnionFind;

#[test]
fn test_union_find_basic() {
    let mut uf = UnionFind::new(5);

    // Initially all elements are separate
    assert_eq!(uf.component_count(), 5);
    assert!(!uf.connected(0, 1));
    assert!(!uf.connected(2, 3));

    // Union some elements
    assert!(uf.union(0, 1));
    assert!(uf.connected(0, 1));
    assert_eq!(uf.component_count(), 4);

    assert!(uf.union(2, 3));
    assert!(uf.connected(2, 3));
    assert_eq!(uf.component_count(), 3);

    // Union already connected elements should return false
    assert!(!uf.union(0, 1));
    assert_eq!(uf.component_count(), 3);
}

#[test]
fn test_union_find_component_sizes() {
    let mut uf = UnionFind::new(6);

    // Initially all components have size 1
    assert_eq!(uf.component_size(0), 1);
    assert_eq!(uf.component_size(3), 1);

    // Union elements and check sizes
    uf.union(0, 1);
    assert_eq!(uf.component_size(0), 2);
    assert_eq!(uf.component_size(1), 2);

    uf.union(2, 3);
    uf.union(3, 4);
    assert_eq!(uf.component_size(2), 3);
    assert_eq!(uf.component_size(3), 3);
    assert_eq!(uf.component_size(4), 3);

    // Union two components
    uf.union(1, 4);
    assert_eq!(uf.component_size(0), 5);
    assert_eq!(uf.component_size(2), 5);
    assert_eq!(uf.component_size(5), 1); // Still separate
}

#[test]
fn test_union_find_path_compression() {
    let mut uf = UnionFind::new(10);

    // Create a long chain: 0-1-2-3-4-5-6-7-8-9
    for i in 0..9 {
        uf.union(i, i + 1);
    }

    // All should be connected
    for i in 0..10 {
        for j in i + 1..10 {
            assert!(uf.connected(i, j));
        }
    }

    assert_eq!(uf.component_count(), 1);
    assert_eq!(uf.component_size(0), 10);
    assert_eq!(uf.component_size(9), 10);
}

#[test]
fn test_union_find_components() {
    let mut uf = UnionFind::new(8);

    // Create components: {0,1,2}, {3,4}, {5}, {6,7}
    uf.union(0, 1);
    uf.union(1, 2);
    uf.union(3, 4);
    uf.union(6, 7);

    let components = uf.get_components();
    assert_eq!(components.len(), 4);

    // Check component sizes
    let mut sizes: Vec<usize> = components.iter().map(|c| c.len()).collect();
    sizes.sort();
    assert_eq!(sizes, vec![1, 2, 2, 3]);

    // Check representatives
    let representatives = uf.get_representatives();
    assert_eq!(representatives.len(), 4);
}

#[test]
fn test_union_find_utilities() {
    let mut uf = UnionFind::new(6);

    // Initially not fully connected
    assert!(!uf.is_fully_connected());
    assert_eq!(uf.max_component_size(), 1);

    // Union some elements
    uf.union(0, 1);
    uf.union(2, 3);
    uf.union(4, 5);

    assert_eq!(uf.component_count(), 3);
    assert_eq!(uf.max_component_size(), 2);
    assert!(!uf.is_fully_connected());

    // Union all into one component
    uf.union(0, 2);
    uf.union(2, 4);

    assert_eq!(uf.component_count(), 1);
    assert_eq!(uf.max_component_size(), 6);
    assert!(uf.is_fully_connected());
}

#[test]
fn test_union_find_union_all() {
    let mut uf = UnionFind::new(8);

    // Union multiple elements at once
    let elements = vec![0, 2, 4, 6];
    assert!(uf.union_all(&elements));

    // All should be connected
    for &i in &elements {
        for &j in &elements {
            assert!(uf.connected(i, j));
        }
    }

    assert_eq!(uf.component_size(0), 4);
    assert_eq!(uf.component_count(), 5); // 4 connected + 4 separate

    // Union already connected elements should return false
    assert!(!uf.union_all(&elements));
}

#[test]
fn test_union_find_reset() {
    let mut uf = UnionFind::new(5);

    // Make some unions
    uf.union(0, 1);
    uf.union(2, 3);
    assert_eq!(uf.component_count(), 3);

    // Reset
    uf.reset();
    assert_eq!(uf.component_count(), 5);
    assert!(!uf.connected(0, 1));
    assert!(!uf.connected(2, 3));

    for i in 0..5 {
        assert_eq!(uf.component_size(i), 1);
    }
}

#[test]
fn test_union_find_performance() {
    let size = 10000;
    let mut uf = UnionFind::new(size);

    // Perform many union operations
    for i in 0..size - 1 {
        uf.union(i, i + 1);
    }

    // All should be in one component
    assert_eq!(uf.component_count(), 1);
    assert_eq!(uf.component_size(0), size);

    // Test many find operations
    for i in 0..1000 {
        assert!(uf.connected(i, size - 1 - i));
    }
}

#[test]
fn test_union_find_edge_cases() {
    // Single element
    let mut uf = UnionFind::new(1);
    assert_eq!(uf.component_count(), 1);
    assert_eq!(uf.component_size(0), 1);
    assert!(uf.is_fully_connected());

    // Empty union_all
    let mut uf = UnionFind::new(3);
    assert!(!uf.union_all(&[]));
    assert!(!uf.union_all(&[0]));

    // Self union
    assert!(!uf.union(0, 0));
    assert_eq!(uf.component_count(), 3);
}

#[test]
fn union_find_of_five_elements() {
    let mut uf = UnionFind::new(5);
    uf.union(0, 1);
    uf.union(2, 3);
    assert_eq!(uf.component_count(), 3);
    uf.union(1, 4);
    assert_eq!(uf.component_size(0), 3);
}

#[test]
fn union_of_connected_elements_changes_nothing() {
    let mut uf = UnionFind::new(6);
    assert!(uf.union(0, 1));
    assert!(uf.union(1, 2));
    let count = uf.component_count();
    assert!(!uf.union(0, 2));
    assert!(!uf.union(2, 0));
    assert!(!uf.union(1, 1));
    assert_eq!(uf.component_count(), count);
    assert_eq!(uf.get_components(), vec![vec![0, 1, 2], vec![3], vec![4], vec![5]]);
}

#[test]
fn every_merge_takes_one_component() {
    let n = 12;
    let mut uf = UnionFind::new(n);
    let pairs: [(usize, usize); 10] =
        [(0, 1), (2, 3), (1, 0), (1, 3), (4, 5), (6, 7), (5, 7), (0, 3), (8, 8), (11, 0)];
    let mut merges = 0;
    for &(x, y) in pairs.iter() {
        if uf.union(x, y) {
            merges += 1;
        }
        assert_eq!(uf.component_count(), n - merges);
    }
    assert_eq!(merges, 7);
}

#[test]
fn find_gives_one_representative_per_component() {
    let mut uf = UnionFind::new(7);
    uf.union(0, 1);
    uf.union(2, 1);
    uf.union(5, 6);
    let root = uf.find(0);
    assert_eq!(uf.find(1), root);
    assert_eq!(uf.find(2), root);
    assert_eq!(uf.find(root), root);
    assert_ne!(uf.find(3), root);
    assert_eq!(uf.find(3), 3);
    assert_eq!(uf.find(5), uf.find(6));
    // with as many elements on both sides the representative of the first
    // argument survives
    assert_eq!(root, 0);
    assert_eq!(uf.find(6), 5);
}

#[test]
fn larger_component_survives_a_merge() {
    let mut uf = UnionFind::new(4);
    uf.union(2, 3);
    // the component of 2 has two elements, that of 0 one
    uf.union(0, 2);
    assert_eq!(uf.find(0), 2);
    uf.union(1, 0);
    assert_eq!(uf.find(1), 2);
    assert_eq!(uf.component_size(1), 4);
}

#[test]
fn size_decides_a_merge_and_not_rank() {
    let mut uf = UnionFind::new(9);
    // a component of four elements whose representative 0 has rank two
    uf.union(0, 1);
    uf.union(2, 3);
    uf.union(0, 2);
    assert_eq!(uf.find(3), 0);
    // a component of five elements whose representative 4 has rank one
    uf.union(4, 5);
    uf.union(4, 6);
    uf.union(4, 7);
    uf.union(4, 8);
    assert_eq!(uf.find(8), 4);
    assert!(uf.union(0, 4));
    assert_eq!(uf.find(0), 4);
    assert_eq!(uf.find(3), 4);
    assert_eq!(uf.component_size(3), 9);
    assert_eq!(uf.get_representatives(), vec![4]);
}

#[test]
fn union_find_ignores_what_is_out_of_range() {
    let mut uf = UnionFind::new(3);
    assert!(!uf.union(0, 3));
    assert!(!uf.union(3, 0));
    assert!(!uf.union(7, 7));
    assert!(!uf.connected(0, 3));
    assert!(!uf.connected(5, 5));
    assert_eq!(uf.component_size(3), 0);
    assert_eq!(uf.find(9), 9);
    assert!(!uf.union_all(&[0, 5]));
    assert_eq!(uf.component_count(), 3);
}

#[test]
fn union_find_of_no_elements() {
    let mut uf = UnionFind::new(0);
    assert_eq!(uf.component_count(), 0);
    assert!(!uf.is_fully_connected());
    assert_eq!(uf.max_component_size(), 0);
    assert!(uf.get_components().is_empty());
    assert!(uf.get_representatives().is_empty());
    uf.reset();
    assert_eq!(uf.component_count(), 0);
}

#[test]
fn components_and_representatives_are_ordered() {
    let mut uf = UnionFind::new(8);
    uf.union(0, 1);
    uf.union(1, 2);
    uf.union(3, 4);
    uf.union(6, 7);
    assert_eq!(uf.get_representatives(), vec![0, 3, 5, 6]);
    assert_eq!(
        uf.get_components(),
        vec![vec![0, 1, 2], vec![3, 4], vec![5], vec![6, 7]]
    );
    assert_eq!(uf.max_component_size(), 3);
}

#[test]
fn test_data_structures() {
    // Test Union-Find
    let mut uf = UnionFind::new(5);
    uf.union(0, 1);
    uf.union(2, 3);

    assert!(uf.connected(0, 1));
    assert!(!uf.connected(0, 2));

    // Test Fenwick Tree
    let mut ft = competitive_template::data_structures::fenwick::FenwickTree::new(5);
    ft.update(0, 5);
    ft.update(2, 3);

    assert_eq!(ft.prefix_sum(2), 8); // sum from 0 to 2
}

#[test]
fn find_links_the_way_to_the_representative() {
    let mut uf = UnionFind::new(8);
    // pairs 0-1, 2-3, 4-5, 6-7, then two components of four, then one of eight
    uf.union(0, 1);
    uf.union(2, 3);
    uf.union(4, 5);
    uf.union(6, 7);
    uf.union(0, 2);
    uf.union(4, 6);
    uf.union(0, 4);
    assert_eq!(uf.find(7), 0);
    assert_eq!(uf.find(7), 0);
    assert!(uf.connected(7, 3));
    assert_eq!(uf.component_size(7), 8);
    assert_eq!(uf.get_representatives(), vec![0]);
}
