use learn_rust_ds::avl_vec::Tree;
use std::collections::BTreeSet;

#[test]
fn avl_vec_empty_after_creation() {
    let tree = Tree::<i32>::new();
    assert_eq!(tree.len(), 0);
}

#[test]
fn avl_vec_insert_and_contains() {
    let mut tree = Tree::<i32>::new();
    for i in 0..10 {
        assert_eq!(tree.len(), i as usize);
        tree.insert(i);
        assert!(tree.contains(&i));
    }
    for i in 0..10 {
        assert!(tree.contains(&i));
    }
    assert!(!tree.contains(&100));
}

#[test]
fn insert_large_logarithmic_height() {
    let mut tree = Tree::<i32>::new();
    let size = 1000;
    for i in 0..size {
        assert_eq!(tree.len(), i as usize);
        tree.insert(i);
        assert!(tree.contains(&i));
    }
    for i in 0..size {
        assert!(tree.contains(&i));
    }

    assert_eq!(tree.height(), size.ilog2() as i32);
}

#[test]
fn avl_vec_remove_and_contains() {
    let mut tree = Tree::<i32>::new();
    for i in 0..10 {
        tree.insert(i);
    }
    for i in 0..10 {
        assert!(tree.contains(&i));
    }
    for i in 0..10 {
        for j in 0..i {
            assert_eq!(tree.contains(&j), false);
        }
        for j in i..10 {
            assert_eq!(tree.contains(&j), true);
        }

        let removed = tree.remove(&i);
        assert_eq!(removed, true);

        for j in 0..i + 1 {
            assert_eq!(tree.contains(&j), false);
        }
        for j in i + 1..10 {
            assert_eq!(tree.contains(&j), true);
        }
    }
}

#[test]
fn avl_vec_first_after_asc_insert() {
    let mut tree = Tree::new();
    for i in 0..10 {
        tree.insert(i);
    }
    assert_eq!(tree.first_value().copied(), Some(0));
}

#[test]
fn avl_vec_first_after_desc_insert() {
    let mut tree = Tree::new();
    for i in (0..10).rev() {
        tree.insert(i);
    }
    assert_eq!(tree.first_value().copied(), Some(0));
}

#[test]
fn avl_vec_into_iter_asc() {
    let mut tree = Tree::new();
    for i in 0..10 {
        tree.insert(i);
    }

    let mut iter = tree.into_iter();
    for i in 0..10 {
        assert_eq!(iter.next(), Some(i));
    }
    assert_eq!(iter.next(), None);
}

#[test]
fn avl_vec_into_iter_desc() {
    let mut tree = Tree::new();
    for i in (0..10).rev() {
        tree.insert(i);
    }

    let mut iter = tree.into_iter();
    for i in 0..10 {
        assert_eq!(iter.next(), Some(i));
    }
    assert_eq!(iter.next(), None);
}

#[test]
fn avl_vec_iter_asc() {
    let mut tree = Tree::new();
    for i in 0..10 {
        tree.insert(i);
    }

    let mut iter = tree.iter();
    for i in 0..10 {
        assert_eq!(iter.next(), Some(&i));
    }
    assert_eq!(iter.next(), None);
}

#[test]
fn avl_vec_iter_desc() {
    let mut tree = Tree::new();
    for i in (0..10).rev() {
        tree.insert(i);
    }

    let mut iter = tree.iter();
    for i in 0..10 {
        assert_eq!(iter.next(), Some(&i));
    }
    assert_eq!(iter.next(), None);
}

fn collect(tree: &Tree<i64>) -> Vec<i64> {
    let mut out = Vec::new();
    let mut iter = tree.iter();
    while let Some(v) = iter.next() {
        out.push(*v);
    }
    out
}

#[test]
fn duplicate_insert_is_rejected() {
    let mut tree = Tree::<i64>::new();
    assert!(tree.insert(5));
    assert!(!tree.insert(5));
    assert_eq!(tree.len(), 1);
    assert_eq!(collect(&tree), vec![5]);
}

#[test]
fn removing_a_missing_value_changes_nothing() {
    let mut tree = Tree::<i64>::new();
    assert!(!tree.remove(&3));
    for v in [4, 2, 6, 1, 3, 5, 7] {
        tree.insert(v);
    }
    let height = tree.height();
    assert!(!tree.remove(&10));
    assert!(!tree.remove(&0));
    assert_eq!(tree.len(), 7);
    assert_eq!(tree.height(), height);
    assert_eq!(collect(&tree), vec![1, 2, 3, 4, 5, 6, 7]);
}

#[test]
fn empty_tree_has_height_minus_one_and_no_first() {
    let tree = Tree::<i64>::new();
    assert_eq!(tree.height(), -1);
    assert_eq!(tree.first_value(), None);
    let mut iter = tree.iter();
    assert_eq!(iter.next(), None);
}

#[test]
fn single_element_has_height_zero() {
    let mut tree = Tree::<i64>::new();
    tree.insert(42);
    assert_eq!(tree.height(), 0);
    assert!(tree.remove(&42));
    assert_eq!(tree.height(), -1);
    assert_eq!(tree.len(), 0);
}

#[test]
fn double_rotations_keep_order_and_balance() {
    // left-right, then right-left
    let mut tree = Tree::<i64>::new();
    for v in [30, 10, 20] {
        tree.insert(v);
    }
    assert_eq!(tree.height(), 1);
    assert_eq!(collect(&tree), vec![10, 20, 30]);
    let mut tree = Tree::<i64>::new();
    for v in [10, 30, 20] {
        tree.insert(v);
    }
    assert_eq!(tree.height(), 1);
    assert_eq!(collect(&tree), vec![10, 20, 30]);
}

#[test]
fn removing_a_node_with_two_children() {
    let mut tree = Tree::<i64>::new();
    for v in [50, 30, 70, 20, 40, 60, 80, 35, 45] {
        tree.insert(v);
    }
    assert!(tree.remove(&30));
    assert!(tree.remove(&50));
    assert_eq!(collect(&tree), vec![20, 35, 40, 45, 60, 70, 80]);
    assert_eq!(tree.len(), 7);
    assert!(tree.height() <= 3);
}

#[test]
fn slots_are_reused_after_removal() {
    let mut tree = Tree::<i64>::new();
    for v in 0..100 {
        tree.insert(v);
    }
    for v in 0..100 {
        if v % 3 == 0 {
            assert!(tree.remove(&v));
        }
    }
    for v in 100..134 {
        assert!(tree.insert(v));
    }
    let expected: Vec<i64> = (0..134).filter(|v| *v >= 100 || v % 3 != 0).collect();
    assert_eq!(collect(&tree), expected);
}

#[test]
fn mixed_operations_match_an_ordered_set() {
    let mut tree = Tree::<i64>::new();
    let mut model = BTreeSet::new();
    let mut x: i64 = 12345;
    for step in 0..4000 {
        x = (x * 1103515245 + 12345) % 2147483648;
        let v = x % 200;
        if step % 3 == 2 {
            assert_eq!(tree.remove(&v), model.remove(&v));
        } else {
            assert_eq!(tree.insert(v), model.insert(v));
        }
        assert_eq!(tree.len(), model.len());
        // an AVL tree of n nodes is less than 1.45 log2(n + 2) high
        let n = model.len() as f64;
        assert!((tree.height() as f64) < 1.45 * (n + 2.0).log2());
    }
    assert_eq!(collect(&tree), model.iter().copied().collect::<Vec<_>>());
    let mut drained = Vec::new();
    let mut iter = tree.into_iter();
    while let Some(v) = iter.next() {
        drained.push(v);
    }
    assert_eq!(drained, model.iter().copied().collect::<Vec<_>>());
}

#[test]
fn ascending_inserts_of_seven_make_a_perfect_tree() {
    let mut tree = Tree::<i64>::new();
    for v in 1..=7 {
        tree.insert(v);
    }
    assert_eq!(tree.height(), 2);
}
