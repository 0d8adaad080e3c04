use linked_avl::tree::TreeNode;

#[test]
fn new_tree_is_leaf() {
    let t = TreeNode::new();
    assert_eq!(t, TreeNode::Leaf);
    assert!(t.validate());
    assert_eq!(t.height(), 0);
    assert_eq!(t.to_vec(), Vec::<i64>::new());
}

#[test]
fn default_tree_is_leaf() {
    let t: TreeNode = Default::default();
    assert_eq!(t, TreeNode::new());
}

#[test]
fn node_builds_a_branch() {
    let t = TreeNode::node(2, TreeNode::node(1, TreeNode::new(), TreeNode::new()), TreeNode::new());
    assert_eq!(t.height(), 2);
    assert_eq!(t.to_vec(), vec![1i64, 2]);
}

#[test]
fn validate_rejects_unordered_tree() {
    let t = TreeNode::node(1, TreeNode::node(2, TreeNode::new(), TreeNode::new()), TreeNode::new());
    assert!(!t.validate());
}

#[test]
fn validate_rejects_unbalanced_tree() {
    let inner = TreeNode::node(3, TreeNode::new(), TreeNode::new());
    let middle = TreeNode::node(2, TreeNode::new(), inner);
    let t = TreeNode::node(1, TreeNode::new(), middle);
    assert!(!t.is_balanced());
    assert!(!t.validate());
}

#[test]
fn insert_keeps_tree_valid_at_every_step() {
    let values = [5i64, 3, 8, 1, 4, 7, 9];
    let mut t = TreeNode::new();
    for v in values {
        t.insert(v);
        assert!(t.validate());
    }
    assert_eq!(t.to_vec(), vec![1i64, 3, 4, 5, 7, 8, 9]);
}

#[test]
fn ascending_insertions_stay_balanced() {
    let mut t = TreeNode::new();
    for v in [1i64, 2, 3, 4, 5] {
        t.insert(v);
        assert!(t.validate());
    }
    assert_eq!(t.height(), 3);
    assert_eq!(t.to_vec(), vec![1i64, 2, 3, 4, 5]);
}

#[test]
fn descending_insertions_stay_balanced() {
    let mut t = TreeNode::new();
    for v in [5i64, 4, 3, 2, 1] {
        t.insert(v);
        assert!(t.validate());
    }
    assert_eq!(t.height(), 3);
    assert_eq!(t.to_vec(), vec![1i64, 2, 3, 4, 5]);
}

#[test]
fn duplicate_insert_is_idempotent() {
    let mut t = TreeNode::from_vec(&vec![5i64, 3, 8]);
    let before_vec = t.to_vec();
    let before_height = t.height();
    let copy = TreeNode::from_vec(&vec![5i64, 3, 8]);
    t.insert(3);
    assert_eq!(t.to_vec(), before_vec);
    assert_eq!(t.height(), before_height);
    assert!(t.validate());
    assert_eq!(t, copy);
}

#[test]
fn from_vec_stores_duplicates_once() {
    let t = TreeNode::from_vec(&vec![2i64, 2, 2]);
    assert_eq!(t.to_vec(), vec![2i64]);
    assert_eq!(t.height(), 1);
    assert!(t.validate());
}

#[test]
fn insertion_order_does_not_change_contents() {
    let t1 = TreeNode::from_vec(&vec![1i64, 2, 3]);
    let t2 = TreeNode::from_vec(&vec![3i64, 2, 1]);
    assert!(t1.validate());
    assert!(t2.validate());
    assert_eq!(t1.to_vec(), vec![1i64, 2, 3]);
    assert_eq!(t1.to_vec(), t2.to_vec());
}

#[test]
fn insertion_order_independence_larger() {
    let t1 = TreeNode::from_vec(&vec![10i64, -3, 7, 22, 0, 15]);
    let t2 = TreeNode::from_vec(&vec![15i64, 0, 22, 7, -3, 10]);
    assert!(t1.validate());
    assert!(t2.validate());
    assert_eq!(t1.to_vec(), vec![-3i64, 0, 7, 10, 15, 22]);
    assert_eq!(t2.to_vec(), vec![-3i64, 0, 7, 10, 15, 22]);
}

#[test]
fn left_rotate_reshapes_right_chain() {
    let mut t = TreeNode::node(
        1,
        TreeNode::new(),
        TreeNode::node(2, TreeNode::new(), TreeNode::node(3, TreeNode::new(), TreeNode::new())),
    );
    t.left_rotate();
    let expected = TreeNode::node(
        2,
        TreeNode::node(1, TreeNode::new(), TreeNode::new()),
        TreeNode::node(3, TreeNode::new(), TreeNode::new()),
    );
    assert_eq!(t, expected);
    assert!(t.validate());
}

#[test]
fn right_rotate_reshapes_left_chain() {
    let mut t = TreeNode::node(
        3,
        TreeNode::node(2, TreeNode::node(1, TreeNode::new(), TreeNode::new()), TreeNode::new()),
        TreeNode::new(),
    );
    t.right_rotate();
    let expected = TreeNode::node(
        2,
        TreeNode::node(1, TreeNode::new(), TreeNode::new()),
        TreeNode::node(3, TreeNode::new(), TreeNode::new()),
    );
    assert_eq!(t, expected);
    assert!(t.validate());
}

#[test]
fn rotations_without_pivot_are_noops() {
    let mut t = TreeNode::node(1, TreeNode::new(), TreeNode::new());
    let copy = TreeNode::node(1, TreeNode::new(), TreeNode::new());
    t.left_rotate();
    assert_eq!(t, copy);
    t.right_rotate();
    assert_eq!(t, copy);

    let mut leaf = TreeNode::new();
    leaf.left_rotate();
    assert_eq!(leaf, TreeNode::Leaf);
    leaf.right_rotate();
    assert_eq!(leaf, TreeNode::Leaf);
}

#[test]
fn rotations_preserve_in_order_sequence() {
    let mut t = TreeNode::from_vec(&vec![4i64, 2, 6, 1, 3, 5, 7]);
    let in_order = t.to_vec();
    t.left_rotate();
    assert_eq!(t.to_vec(), in_order);
    t.right_rotate();
    assert_eq!(t.to_vec(), in_order);
}

#[test]
fn round_trip_sorts_unique_values() {
    let t = TreeNode::from_vec(&vec![9i64, -4, 12, 0, 5]);
    assert_eq!(t.to_vec(), vec![-4i64, 0, 5, 9, 12]);
}

#[test]
fn height_grows_logarithmically() {
    let mut t = TreeNode::new();
    let mut v: i64 = 0;
    while v < 100 {
        t.insert(v);
        v += 1;
    }
    assert!(t.validate());
    assert_eq!(t.to_vec().len(), 100);
    assert!(t.height() <= 9);
}
