use rand::Rng;
use rusty_markets::algorithm::k_min_tree::{merge_sorted, KMinTree};

#[test]
fn merge_sorted_test() {
    let a = [1, 3];
    let b = [2, 3, 4];
    let empty: [i32; 0] = [];
    assert_eq!(merge_sorted(0, &a, &b), empty);
    assert_eq!(merge_sorted(1, &a, &b), [1]);
    assert_eq!(merge_sorted(2, &a, &b), [1, 2]);
    assert_eq!(merge_sorted(3, &a, &b), [1, 2, 3]);
    assert_eq!(merge_sorted(4, &a, &b), [1, 2, 3, 3]);
    assert_eq!(merge_sorted(5, &a, &b), [1, 2, 3, 3, 4]);
    assert_eq!(merge_sorted(6, &a, &b), [1, 2, 3, 3, 4]);
}

// The smallest n items in the collection. Slow & correct, for verification.
fn smallest_n_simple<T: Ord + Clone>(n: usize, leaves: &[Vec<T>]) -> Vec<T> {
    let mut xs: Vec<T> = leaves.iter().flatten().cloned().collect();
    xs.sort();
    xs.truncate(n);
    xs
}

#[test]
fn first_n_test() {
    let mut rng = rand::rng();
    for k in 0..10 {
        for nb_leaves in 1..8 {
            let mut leaves: Vec<Vec<i32>> = vec![Vec::new(); nb_leaves];
            let mut tree: KMinTree<i32> = KMinTree::new(k, nb_leaves);
            for _ in 0..32 {
                let first_before = smallest_n_simple(k, &leaves);
                // Update a random leaf
                let i: usize = rng.random_range(0..nb_leaves);
                let len: usize = rng.random_range(0..=2 * k);
                let v: Vec<i32> = (0..len).map(|_| rng.random()).collect();
                leaves[i] = v.clone();
                let first_after = smallest_n_simple(k, &leaves);

                match tree.update_leaf(i, v) {
                    None => {
                        // First n have not changed
                        assert_eq!(first_before, first_after);
                    }
                    Some(first) => {
                        // First n have changed
                        assert_ne!(first_before, first_after);
                        assert_eq!(first, &first_after);
                    }
                }
            }
        }
    }
}

#[test]
fn merge_sorted_takes_left_on_ties_and_exhausts_both() {
    assert_eq!(merge_sorted(10, &[5, 7], &[1, 9]), [1, 5, 7, 9]);
    assert_eq!(merge_sorted(3, &[], &[2, 4, 6, 8]), [2, 4, 6]);
    assert_eq!(merge_sorted(2, &[2, 4], &[]), [2, 4]);
}

#[test]
fn tree_without_leaves() {
    let tree: KMinTree<i32> = KMinTree::new(3, 0);
    assert_eq!(tree.nb_leaves(), 0);
}

#[test]
fn tree_keeps_k_smallest_of_all_leaves() {
    let mut tree: KMinTree<i32> = KMinTree::new(3, 5);
    assert_eq!(tree.nb_leaves(), 5);
    assert_eq!(tree.update_leaf(0, vec![9, 4, 7]).cloned(), Some(vec![4, 7, 9]));
    assert_eq!(tree.update_leaf(3, vec![8, 1]).cloned(), Some(vec![1, 4, 7]));
    // A larger value below the top three changes nothing.
    assert_eq!(tree.update_leaf(4, vec![100]), None);
    assert_eq!(tree.update_leaf(2, vec![2, 2, 2, 2]).cloned(), Some(vec![1, 2, 2]));
    assert_eq!(tree.update_leaf(2, Vec::new()).cloned(), Some(vec![1, 4, 7]));
}

#[test]
fn repeating_an_update_reports_no_change() {
    let mut tree: KMinTree<i32> = KMinTree::new(2, 3);
    assert!(tree.update_leaf(1, vec![3, -1]).is_some());
    assert_eq!(tree.update_leaf(1, vec![3, -1]), None);
    assert_eq!(tree.update_leaf(1, vec![-1, 3]), None);
}

#[test]
fn tracking_nothing_never_changes() {
    let mut tree: KMinTree<i32> = KMinTree::new(0, 4);
    assert_eq!(tree.update_leaf(2, vec![1, 2, 3]), None);
}
