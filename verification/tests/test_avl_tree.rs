use pror::avl_tree::AvlTree;
use std::fmt::Display;

fn inorder_keys<K: Ord + Clone, V: Clone>(tree: &AvlTree<K, V>) -> Vec<K> {
    tree.inorder().into_iter().map(|(_, key, _)| key.clone()).collect()
}

fn pretty_print_to_string<K, V>(tree: &AvlTree<K, V>) -> String
where
    K: Ord + Clone + Display,
    V: Clone + Display,
{
    let mut out = String::new();
    for (level, key, value) in tree.inorder() {
        out.push_str(&format!("{}{}: {}\n", "  ".repeat(level), key, value));
    }
    out
}

#[test]
fn test_insert_and_get() {
    let mut tree = AvlTree::new();
    tree.insert("a", 1);
    tree.insert("b", 2);
    tree.insert("c", 3);
    let s = pretty_print_to_string(&tree);
    assert_eq!(s, "  a: 1\nb: 2\n  c: 3\n");
    assert_eq!(tree.get(&"a"), Some(&1));
    assert_eq!(tree.get(&"b"), Some(&2));
    assert_eq!(tree.get(&"c"), Some(&3));
}

#[test]
fn test_update_value() {
    let mut tree = AvlTree::new();
    tree.insert("key", 10);
    assert_eq!(tree.get(&"key"), Some(&10));
    tree.insert("key", 20);
    assert_eq!(tree.get(&"key"), Some(&20));
}

#[test]
fn test_inorder_sorted() {
    let mut tree = AvlTree::new();
    let vals = vec![10, 5, 20, 15, 25, 3, 8];
    for &v in &vals {
        tree.insert(v, v * 10);
    }
    let keys = inorder_keys(&tree);
    let mut sorted = vals.clone();
    sorted.sort();
    assert_eq!(keys, sorted);
}

#[test]
fn test_remove_leaf() {
    let mut tree = AvlTree::new();
    tree.insert(1, "one");
    tree.insert(2, "two");
    let s = pretty_print_to_string(&tree);
    assert_eq!(s, "1: one\n  2: two\n");
    tree.remove(&2);
    let s = pretty_print_to_string(&tree);
    assert_eq!(s, "1: one\n");
    assert_eq!(tree.get(&2), None);
    assert_eq!(tree.get(&1), Some(&"one"));
}

#[test]
fn test_remove_node_with_one_child() {
    let mut tree = AvlTree::new();
    tree.insert(10, "ten");
    tree.insert(5, "five");
    tree.insert(3, "three");
    tree.remove(&5);
    assert_eq!(tree.get(&5), None);
    assert_eq!(tree.get(&3), Some(&"three"));
    assert_eq!(tree.get(&10), Some(&"ten"));
}

#[test]
fn test_remove_node_with_two_children() {
    let mut tree = AvlTree::new();
    for &k in &[2, 1, 3] {
        tree.insert(k, k);
    }
    tree.remove(&2);
    assert_eq!(tree.get(&2), None);
    let keys = inorder_keys(&tree);
    assert_eq!(keys, vec![1, 3]);
}

#[test]
fn test_balance_after_operations() {
    let mut tree = AvlTree::new();
    for k in 1..=100 {
        tree.insert(k, k);
    }
    for k in &[50, 75, 25] {
        tree.remove(k);
    }
    let balanced = tree.is_balanced();
    assert!(balanced, "Tree is unbalanced after operations");
}

#[test]
fn avl_many_inserts_and_removes_keep_order_and_content() {
    let mut tree = AvlTree::new();
    for k in 0..200u32 {
        tree.insert((k * 37) % 211, k);
    }
    for k in 0..200u32 {
        assert_eq!(tree.get(&((k * 37) % 211)), Some(&k));
    }
    for k in 0..100u32 {
        tree.remove(&((k * 37) % 211));
    }
    for k in 0..100u32 {
        assert_eq!(tree.get(&((k * 37) % 211)), None);
    }
    for k in 100..200u32 {
        assert_eq!(tree.get(&((k * 37) % 211)), Some(&k));
    }
    let keys = inorder_keys(&tree);
    assert_eq!(keys.len(), 100);
    for w in keys.windows(2) {
        assert!(w[0] < w[1]);
    }
    assert!(tree.is_balanced());
}

#[test]
fn avl_remove_of_an_absent_key_changes_nothing() {
    let mut tree = AvlTree::new();
    tree.insert(4, 'a');
    tree.remove(&7);
    assert_eq!(tree.get(&4), Some(&'a'));
    assert_eq!(inorder_keys(&tree), vec![4]);
}
