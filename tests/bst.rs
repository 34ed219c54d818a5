use data_structure::non_linear::bst::BSTree;

const TREE_VALUES: [i32; 9] = [5, -1, -2, -3, 7, -9, 0, 10, 4];
const TREE_DISPLAY: &'static str = "[-9, -3, -2, -1, 0, 4, 5, 7, 10]";
const TREE_DISPLAY_REMOVED: &'static str = "[-9, -3, -2, -1, 4, 5, 7, 10]";

fn create_tree() -> BSTree<i32> {
    let mut tree = BSTree::<i32>::new();
    for val in TREE_VALUES {
        tree.insert(val);
    }
    assert_eq!(tree.size(), TREE_VALUES.len());
    tree
}

fn in_order(tree: &BSTree<i32>) -> Vec<i32> {
    tree.in_order_values().into_iter().map(|v| *v).collect()
}

#[test]
fn test_find() {
    let tree = create_tree();
    let result = tree.find(&7);
    assert!(result.is_some());
    assert_eq!(*result.unwrap(), 7);
    let result = tree.find(&-545);
    assert!(result.is_none());
}

#[test]
fn tests_test_insert() {
    let mut tree = create_tree();
    let start_size = tree.size();
    tree.insert(99);
    assert_eq!(tree.size(), start_size + 1);
    let result = tree.find(&99);
    assert!(result.is_some());
    assert_eq!(tree.size(), start_size + 1);
}

#[test]
fn test_remove() {
    let mut tree = create_tree();
    let start_size = tree.size();
    let result = tree.remove(&0);
    assert!(result.is_some());
    assert_eq!(result.unwrap(), 0);
    assert_eq!(tree.size(), start_size - 1);
    let result = tree.remove(&0);
    assert!(result.is_none());
    assert_eq!(tree.size(), start_size - 1);
}

#[test]
fn bst_test_display() {
    let mut tree = create_tree();
    assert_eq!(tree.in_order_str(), TREE_DISPLAY);
    let _ = tree.remove(&0);
    assert_eq!(tree.in_order_str(), TREE_DISPLAY_REMOVED);
}

#[test]
fn bst_scenario_in_order_before_and_after_remove() {
    let mut tree = create_tree();
    assert_eq!(in_order(&tree), vec![-9, -3, -2, -1, 0, 4, 5, 7, 10]);
    assert_eq!(tree.remove(&0), Some(0));
    assert_eq!(in_order(&tree), vec![-9, -3, -2, -1, 4, 5, 7, 10]);
    assert_eq!(tree.size(), 8);
    assert!(tree.find(&0).is_none());
}

#[test]
fn bst_duplicate_insert_keeps_size() {
    let mut tree = create_tree();
    tree.insert(7);
    tree.insert(-9);
    assert_eq!(tree.size(), 9);
    assert_eq!(in_order(&tree), vec![-9, -3, -2, -1, 0, 4, 5, 7, 10]);
}

#[test]
fn bst_any_insertion_order_sorts() {
    let orders: [[i32; 6]; 3] = [[3, 1, 4, 5, 9, 2], [9, 5, 4, 3, 2, 1], [1, 2, 3, 4, 5, 9]];
    for order in orders {
        let mut tree = BSTree::<i32>::new();
        for v in order {
            tree.insert(v);
        }
        assert_eq!(tree.size(), 6);
        assert_eq!(in_order(&tree), vec![1, 2, 3, 4, 5, 9]);
    }
}

#[test]
fn bst_traversal_orders() {
    let tree = create_tree();
    let pre: Vec<i32> = tree.pre_order_values().into_iter().map(|v| *v).collect();
    let post: Vec<i32> = tree.post_order_values().into_iter().map(|v| *v).collect();
    assert_eq!(pre, vec![5, -1, -2, -3, -9, 0, 4, 7, 10]);
    assert_eq!(post, vec![-9, -3, -2, 4, 0, -1, 10, 7, 5]);
}

#[test]
fn bst_remove_promotes_neighbours() {
    // Root 5 has a left subtree: its greatest value, 4, takes its place.
    let mut tree = create_tree();
    assert_eq!(tree.remove(&5), Some(5));
    let pre: Vec<i32> = tree.pre_order_values().into_iter().map(|v| *v).collect();
    assert_eq!(pre, vec![4, -1, -2, -3, -9, 0, 7, 10]);
    // 7 has only a right subtree: its least value, 10, takes its place.
    assert_eq!(tree.remove(&7), Some(7));
    let pre: Vec<i32> = tree.pre_order_values().into_iter().map(|v| *v).collect();
    assert_eq!(pre, vec![4, -1, -2, -3, -9, 0, 10]);
    assert_eq!(in_order(&tree), vec![-9, -3, -2, -1, 0, 4, 10]);
    assert_eq!(tree.size(), 7);
}

#[test]
fn bst_remove_absent_and_empty() {
    let mut tree = BSTree::<i32>::new();
    assert_eq!(tree.remove(&1), None);
    assert_eq!(tree.size(), 0);
    assert_eq!(tree.in_order_str(), "[]");
    let mut tree = create_tree();
    let before: Vec<i32> = tree.pre_order_values().into_iter().map(|v| *v).collect();
    assert_eq!(tree.remove(&42), None);
    let after: Vec<i32> = tree.pre_order_values().into_iter().map(|v| *v).collect();
    assert_eq!(before, after);
    assert_eq!(tree.size(), 9);
}
