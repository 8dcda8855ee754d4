use multilinear::merkle_util::extend_to_power_of_two;
use multilinear::merkle_util::extra_hash_count;
use multilinear::merkle_util::number_of_leaves;
use multilinear::merkle_util::parent;
use multilinear::merkle_util::sibling;

#[test]
fn test_get_sibling_index() {
    assert_eq!(sibling(4), 3);
    assert_eq!(sibling(1), 2);
    assert_eq!(sibling(0), 0);
}

#[test]
fn test_get_parent_index() {
    assert_eq!(parent(1), 0);
    assert_eq!(parent(2), 0);
    assert_eq!(parent(11), 5);
    assert_eq!(parent(13), 6);
}

#[test]
fn test_extend_to_power_of_two() {
    // 5 elements, next values of 2 is 8
    let mut set1 = vec![5, 6, 7, 8, 9];
    extend_to_power_of_two(&mut set1, 0);
    assert_eq!(set1.len(), 8);
    assert_eq!(set1, vec![5, 6, 7, 8, 9, 0, 0, 0]);
}

#[test]
fn test_number_of_leaves() {
    // leaves = 5 tree_len = 9
    assert_eq!(number_of_leaves(9), 5);
    // leaves = 10 tree_len = 19
    assert_eq!(number_of_leaves(20), 10);
}

#[test]
fn test_extra_hash_count() {
    assert_eq!(extra_hash_count(5), 4);
    assert_eq!(extra_hash_count(1), 0);
}

#[test]
fn test_extend_edge_cases() {
    // an empty vector grows to a single padding element
    let mut empty: Vec<u32> = vec![];
    extend_to_power_of_two(&mut empty, 9);
    assert_eq!(empty, vec![9]);

    // a power-of-two length stays as it is
    let mut exact = vec![1, 2, 3, 4];
    extend_to_power_of_two(&mut exact, 0);
    assert_eq!(exact, vec![1, 2, 3, 4]);
}
