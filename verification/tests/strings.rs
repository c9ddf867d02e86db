use competitive_template::string::hashing::{
    polynomial_hash, polynomial_hash_with_powers, precompute_powers, DoubleHash, RollingHash,
    SubstringComparator,
};
use competitive_template::string::{
    kmp_search, kmp_table, multi_pattern_search, z_algorithm, z_search,
};

#[test]
fn failure_tables() {
    assert_eq!(kmp_table("abcabcd"), vec![0, 0, 0, 1, 2, 3, 0]);
    assert_eq!(kmp_table("aaaa"), vec![0, 1, 2, 3]);
    assert_eq!(kmp_table("abacabab"), vec![0, 0, 1, 0, 1, 2, 3, 2]);
    assert_eq!(kmp_table(""), Vec::<usize>::new());
    assert_eq!(kmp_table("x"), vec![0]);
}

#[test]
fn searches_with_failure_table() {
    assert_eq!(kmp_search("abababa", "aba"), vec![0, 2, 4]);
    assert_eq!(kmp_search("aaaaa", "aa"), vec![0, 1, 2, 3]);
    assert_eq!(kmp_search("hello world", "o"), vec![4, 7]);
    assert_eq!(kmp_search("hello", "xyz"), Vec::<usize>::new());
    assert_eq!(kmp_search("hello", ""), Vec::<usize>::new());
    assert_eq!(kmp_search("ab", "abc"), Vec::<usize>::new());
    assert_eq!(kmp_search("", "a"), Vec::<usize>::new());
    assert_eq!(kmp_search("abc", "abc"), vec![0]);
}

#[test]
fn z_arrays() {
    assert_eq!(z_algorithm("aabxaab"), vec![7, 1, 0, 0, 3, 1, 0]);
    assert_eq!(z_algorithm("aaaaa"), vec![5, 4, 3, 2, 1]);
    assert_eq!(z_algorithm("abcd"), vec![4, 0, 0, 0]);
    assert_eq!(z_algorithm(""), Vec::<usize>::new());
    assert_eq!(z_algorithm("abacaba"), vec![7, 0, 1, 0, 3, 0, 1]);
}

#[test]
fn searches_with_z_array() {
    assert_eq!(z_search("abababa", "aba"), vec![0, 2, 4]);
    assert_eq!(z_search("aaaaa", "aa"), vec![0, 1, 2, 3]);
    assert_eq!(z_search("hello", "xyz"), Vec::<usize>::new());
    assert_eq!(z_search("hello", ""), Vec::<usize>::new());
    assert_eq!(z_search("", "a"), Vec::<usize>::new());
    // an occurrence that a dollar sign follows is left out
    assert_eq!(z_search("a$a", "a"), vec![2]);
    assert_eq!(kmp_search("a$a", "a"), vec![0, 2]);
}

#[test]
fn searches_agree_on_plain_text() {
    let text = "the cat sat on the mat with the hat";
    for pattern in ["the", "at", "t", " ", "hat", "cat sat", "zebra"] {
        assert_eq!(kmp_search(text, pattern), z_search(text, pattern));
        let expected: Vec<usize> = (0..text.len())
            .filter(|&i| text[i..].starts_with(pattern))
            .collect();
        assert_eq!(kmp_search(text, pattern), expected);
    }
}

#[test]
fn several_patterns_at_once() {
    let found = multi_pattern_search("abcabc", &["bc", "abc", "", "c", "x"]);
    assert_eq!(found, vec![(1, 0), (0, 1), (3, 2), (1, 3), (0, 4), (3, 5)]);
    assert_eq!(multi_pattern_search("abc", &[]), Vec::<(usize, usize)>::new());
    assert_eq!(multi_pattern_search("aa", &["a", "a"]), vec![(0, 0), (1, 0), (0, 1), (1, 1)]);
}

#[test]
fn polynomial_hashes() {
    // 97 + 98 * 31 + 99 * 31^2
    assert_eq!(polynomial_hash("abc", 31, 1_000_000_007), 98_274);
    assert_eq!(polynomial_hash("", 31, 1_000_000_007), 0);
    assert_eq!(polynomial_hash("abc", 31, 1), 0);
    assert_eq!(polynomial_hash("abc", 31, 1000), 274);
    let powers = precompute_powers(31, 1000, 4);
    assert_eq!(powers, vec![1, 31, 961, 791, 521]);
    assert_eq!(precompute_powers(5, 7, 0), vec![1]);
    assert_eq!(polynomial_hash_with_powers("abc", 31, 1000, &powers), 274);
    // bytes beyond the table are left out
    assert_eq!(polynomial_hash_with_powers("abc", 31, 1000, &powers[..2]), (97 + 98 * 31) % 1000);
    assert_eq!(polynomial_hash_with_powers("abc", 31, 1000, &[]), 0);
}

#[test]
fn rolling_hashes_of_substrings() {
    let text = "abracadabra";
    let rolling = RollingHash::new(text, 31, 1_000_000_007);
    for l in 0..text.len() {
        for r in l..text.len() {
            assert_eq!(
                rolling.get_hash(l, r),
                polynomial_hash(&text[l..=r], 31, 1_000_000_007)
            );
        }
    }
    assert_eq!(rolling.get_hash(3, 2), 0);
    assert_eq!(rolling.get_hash(0, text.len()), 0);
    assert_eq!(rolling.get_hash(text.len(), text.len()), 0);
}

#[test]
fn double_hashes_compare_substrings() {
    let double = DoubleHash::new("abracadabra");
    assert_eq!(double.get_hash(0, 3), double.get_hash(7, 10));
    assert!(double.compare_substrings(0, 3, 7, 10));
    assert!(!double.compare_substrings(0, 3, 1, 4));
    assert_eq!(
        double.get_hash(0, 2),
        (
            polynomial_hash("abr", 31, 1_000_000_007),
            polynomial_hash("abr", 37, 1_000_000_009)
        )
    );
    let comparator = SubstringComparator::new("abracadabra");
    assert!(comparator.are_equal(0, 3, 7, 10));
    assert!(!comparator.are_equal(0, 3, 7, 9));
    assert!(!comparator.are_equal(0, 0, 1, 1));
    assert!(comparator.are_equal(0, 0, 3, 3));
}

#[test]
fn unique_substrings_by_hash() {
    let text = "abab";
    let comparator = SubstringComparator::new(text);
    let pairs = comparator.unique_substrings(2, text.len());
    let double = DoubleHash::new(text);
    assert_eq!(pairs, vec![double.get_hash(0, 1), double.get_hash(1, 2)]);
    assert_eq!(comparator.unique_substrings(1, text.len()).len(), 2);
    assert_eq!(comparator.unique_substrings(4, text.len()).len(), 1);
    assert_eq!(comparator.unique_substrings(0, text.len()), Vec::<(u64, u64)>::new());
    // a piece longer than the text reaches beyond it and hashes to zero
    assert_eq!(comparator.unique_substrings(5, text.len()), vec![(0, 0)]);
}
