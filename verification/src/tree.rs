//! A self-balancing binary search tree (AVL tree) over `i64` values.
//!
//! The tree keeps two structural invariants after every public mutation:
//! the binary-search ordering ([`TreeNode::bst_ordered`]: values in a left
//! subtree are strictly below the node's value, values in a right subtree
//! strictly above, so no duplicates are stored), and the AVL height balance
//! ([`TreeNode::height_balanced`]: the heights of the two children of every
//! node differ by at most one).  Imbalance after an insertion is repaired on
//! the way back up by single or double rotations.
//!
//! The abstract model of a tree is its set of values
//! ([`TreeNode::value_set`]); for a tree with the binary-search ordering the
//! in-order sequence ([`TreeNode::in_order`]) is the strictly ascending
//! enumeration of that set.

use vstd::prelude::*;

verus! {

/// An AVL tree: either an empty subtree, or a value with two owned children.
#[derive(Debug, PartialEq, Eq)]
pub enum TreeNode {
    Leaf,
    Node(i64, Box<TreeNode>, Box<TreeNode>),
}

impl TreeNode {
    /// The height of the tree: 0 for a leaf, one more than the taller child
    /// otherwise.
    pub open spec fn spec_height(self) -> nat
        decreases self,
    {
        match self {
            TreeNode::Leaf => 0,
            TreeNode::Node(_, left, right) => 1 + if left.spec_height() >= right.spec_height() {
                left.spec_height()
            } else {
                right.spec_height()
            },
        }
    }

    /// The number of values stored in the tree.
    pub open spec fn size(self) -> nat
        decreases self,
    {
        match self {
            TreeNode::Leaf => 0,
            TreeNode::Node(_, left, right) => 1 + left.size() + right.size(),
        }
    }

    /// The balance factor: height of the left child minus height of the
    /// right child (0 for a leaf).
    pub open spec fn balance(self) -> int {
        match self {
            TreeNode::Leaf => 0,
            TreeNode::Node(_, left, right) => left.spec_height() - right.spec_height(),
        }
    }

    /// The abstract model of the tree: the set of values it stores.
    pub open spec fn value_set(self) -> Set<i64>
        decreases self,
    {
        match self {
            TreeNode::Leaf => Set::empty(),
            TreeNode::Node(value, left, right) => left.value_set().union(
                right.value_set(),
            ).insert(value),
        }
    }

    /// The values of the tree in in-order traversal order (left subtree,
    /// node, right subtree).
    pub open spec fn in_order(self) -> Seq<i64>
        decreases self,
    {
        match self {
            TreeNode::Leaf => Seq::empty(),
            TreeNode::Node(value, left, right) => left.in_order() + seq![value]
                + right.in_order(),
        }
    }

    /// The binary-search ordering: every value in a left subtree is strictly
    /// below its node's value, every value in a right subtree strictly
    /// above, recursively.
    pub open spec fn bst_ordered(self) -> bool
        decreases self,
    {
        match self {
            TreeNode::Leaf => true,
            TreeNode::Node(value, left, right) => {
                &&& (forall|x: i64| left.value_set().contains(x) ==> x < value)
                &&& (forall|x: i64| right.value_set().contains(x) ==> x > value)
                &&& left.bst_ordered()
                &&& right.bst_ordered()
            },
        }
    }

    /// The AVL balance condition: at every node the children's heights
    /// differ by at most one.
    pub open spec fn height_balanced(self) -> bool
        decreases self,
    {
        match self {
            TreeNode::Leaf => true,
            TreeNode::Node(_, left, right) => {
                &&& -1 <= left.spec_height() - right.spec_height() <= 1
                &&& left.height_balanced()
                &&& right.height_balanced()
            },
        }
    }

    /// A well-formed AVL tree: binary-search ordered and height-balanced.
    pub open spec fn wf(self) -> bool {
        self.bst_ordered() && self.height_balanced()
    }

    /// The tree after a left rotation: the right child's value becomes the
    /// subtree root, its former left child becomes the right child of the
    /// old root, and the old root becomes the new left child.  A tree whose
    /// right child is a leaf is left unchanged.
    pub open spec fn left_rotated(self) -> Self {
        match self {
            TreeNode::Leaf => self,
            TreeNode::Node(root_value, left, right) => match *right {
                TreeNode::Leaf => self,
                TreeNode::Node(pivot_value, pivot_left, pivot_right) => TreeNode::Node(
                    pivot_value,
                    Box::new(TreeNode::Node(root_value, left, pivot_left)),
                    pivot_right,
                ),
            },
        }
    }

    /// The left child of the tree (a leaf for a leaf).
    pub open spec fn left_child(self) -> Self {
        match self {
            TreeNode::Leaf => TreeNode::Leaf,
            TreeNode::Node(_, left, _) => *left,
        }
    }

    /// The right child of the tree (a leaf for a leaf).
    pub open spec fn right_child(self) -> Self {
        match self {
            TreeNode::Leaf => TreeNode::Leaf,
            TreeNode::Node(_, _, right) => *right,
        }
    }

    /// The tree after a right rotation, the mirror image of
    /// [`TreeNode::left_rotated`].
    pub open spec fn right_rotated(self) -> Self {
        match self {
            TreeNode::Leaf => self,
            TreeNode::Node(root_value, left, right) => match *left {
                TreeNode::Leaf => self,
                TreeNode::Node(pivot_value, pivot_left, pivot_right) => TreeNode::Node(
                    pivot_value,
                    pivot_left,
                    Box::new(TreeNode::Node(root_value, pivot_right, right)),
                ),
            },
        }
    }
}

impl TreeNode {
    /// The tree after one round of AVL rebalancing at the root: a single or
    /// double rotation when the balance factor is -2 or +2, the unchanged
    /// tree otherwise.
    pub open spec fn rebalanced(self) -> Self {
        if self.balance() == -2 {
            if self.right_child().balance() == 1 {
                (match self {
                    TreeNode::Leaf => self,
                    TreeNode::Node(value, left, right) => TreeNode::Node(
                        value,
                        left,
                        Box::new(right.right_rotated()),
                    ),
                }).left_rotated()
            } else {
                self.left_rotated()
            }
        } else if self.balance() == 2 {
            if self.left_child().balance() == -1 {
                (match self {
                    TreeNode::Leaf => self,
                    TreeNode::Node(value, left, right) => TreeNode::Node(
                        value,
                        Box::new(left.left_rotated()),
                        right,
                    ),
                }).right_rotated()
            } else {
                self.right_rotated()
            }
        } else {
            self
        }
    }

    /// Creates a new empty tree.
    pub fn new() -> (r: TreeNode)
        ensures
            r == TreeNode::Leaf,
            r.wf(),
            r.value_set() == Set::<i64>::empty(),
    {
        TreeNode::Leaf
    }

    /// Creates a tree node holding `value`, owning the two given subtrees.
    pub fn node(value: i64, left: TreeNode, right: TreeNode) -> (r: TreeNode)
        ensures
            r == TreeNode::Node(value, Box::new(left), Box::new(right)),
    {
        TreeNode::Node(value, Box::new(left), Box::new(right))
    }

    /// Computes the height of the tree.  Recursive; every call recomputes
    /// the heights of the subtrees from scratch.
    pub fn height(&self) -> (r: usize)
        requires
            self.spec_height() <= usize::MAX,
        ensures
            r == self.spec_height(),
        decreases *self,
    {
        match self {
            TreeNode::Leaf => 0,
            TreeNode::Node(_, left, right) => {
                let left_height = left.height();
                let right_height = right.height();
                1 + if left_height >= right_height {
                    left_height
                } else {
                    right_height
                }
            },
        }
    }

    /// Computes the balance factor of the tree: the difference between the
    /// heights of the left and the right subtree.
    fn balance_factor(&self) -> (r: i32)
        requires
            self.spec_height() <= 0x7fff_ffff,
        ensures
            r as int == self.balance(),
    {
        match self {
            TreeNode::Leaf => 0,
            TreeNode::Node(_, left, right) => {
                let left_height = left.height();
                let right_height = right.height();
                (left_height as i32) - (right_height as i32)
            },
        }
    }

    /// Performs a left rotation in place, by taking ownership of the root,
    /// reshaping it, and writing the result back.
    pub fn left_rotate(&mut self)
        ensures
            *final(self) == old(self).left_rotated(),
            final(self).value_set() == old(self).value_set(),
            final(self).in_order() == old(self).in_order(),
            final(self).size() == old(self).size(),
            old(self).bst_ordered() ==> final(self).bst_ordered(),
    {
        proof {
            lemma_left_rotated_preserves(*old(self));
        }
        let mut taken = TreeNode::Leaf;
        core::mem::swap(self, &mut taken);
        match taken {
            TreeNode::Leaf => {}
            TreeNode::Node(root_value, left, right) => {
                match *right {
                    TreeNode::Leaf => {
                        *self = TreeNode::Node(root_value, left, Box::new(TreeNode::Leaf));
                    },
                    TreeNode::Node(pivot_value, pivot_left, pivot_right) => {
                        *self = TreeNode::Node(
                            pivot_value,
                            Box::new(TreeNode::Node(root_value, left, pivot_left)),
                            pivot_right,
                        );
                    },
                }
            },
        }
    }

    /// Performs a right rotation in place, the mirror image of
    /// [`TreeNode::left_rotate`].
    pub fn right_rotate(&mut self)
        ensures
            *final(self) == old(self).right_rotated(),
            final(self).value_set() == old(self).value_set(),
            final(self).in_order() == old(self).in_order(),
            final(self).size() == old(self).size(),
            old(self).bst_ordered() ==> final(self).bst_ordered(),
    {
        proof {
            lemma_right_rotated_preserves(*old(self));
        }
        let mut taken = TreeNode::Leaf;
        core::mem::swap(self, &mut taken);
        match taken {
            TreeNode::Leaf => {}
            TreeNode::Node(root_value, left, right) => {
                match *left {
                    TreeNode::Leaf => {
                        *self = TreeNode::Node(root_value, Box::new(TreeNode::Leaf), right);
                    },
                    TreeNode::Node(pivot_value, pivot_left, pivot_right) => {
                        *self = TreeNode::Node(
                            pivot_value,
                            pivot_left,
                            Box::new(TreeNode::Node(root_value, pivot_right, right)),
                        );
                    },
                }
            },
        }
    }
}

/// A left rotation rearranges the nodes without changing the in-order
/// sequence, the value set or the size, and it preserves the binary-search
/// ordering.
proof fn lemma_left_rotated_preserves(t: TreeNode)
    ensures
        t.left_rotated().in_order() == t.in_order(),
        t.left_rotated().value_set() == t.value_set(),
        t.left_rotated().size() == t.size(),
        t.bst_ordered() ==> t.left_rotated().bst_ordered(),
{
    match t {
        TreeNode::Leaf => {}
        TreeNode::Node(root_value, left, right) => {
            match *right {
                TreeNode::Leaf => {}
                TreeNode::Node(pivot_value, pivot_left, pivot_right) => {
                    let new_left = TreeNode::Node(root_value, left, pivot_left);
                    let rotated = TreeNode::Node(pivot_value, Box::new(new_left), pivot_right);
                    assert(new_left.in_order() == left.in_order() + seq![root_value]
                        + pivot_left.in_order());
                    assert(rotated.in_order() == new_left.in_order() + seq![pivot_value]
                        + pivot_right.in_order());
                    assert(right.in_order() == pivot_left.in_order() + seq![pivot_value]
                        + pivot_right.in_order());
                    assert(rotated.in_order() =~= t.in_order());
                    assert(new_left.value_set() == left.value_set().union(
                        pivot_left.value_set(),
                    ).insert(root_value));
                    assert(rotated.value_set() == new_left.value_set().union(
                        pivot_right.value_set(),
                    ).insert(pivot_value));
                    assert(right.value_set() == pivot_left.value_set().union(
                        pivot_right.value_set(),
                    ).insert(pivot_value));
                    assert(rotated.value_set() =~= t.value_set());
                    assert(new_left.size() == 1 + left.size() + pivot_left.size());
                    assert(rotated.size() == 1 + new_left.size() + pivot_right.size());
                    assert(right.size() == 1 + pivot_left.size() + pivot_right.size());
                    if t.bst_ordered() {
                        reveal_with_fuel(TreeNode::bst_ordered, 4);
                        assert(right.value_set().contains(pivot_value));
                        assert(root_value < pivot_value);
                        assert forall|x: i64| pivot_left.value_set().contains(x) implies x
                            > root_value by {
                            assert(right.value_set().contains(x));
                        }
                        assert(new_left.bst_ordered());
                        assert forall|x: i64| new_left.value_set().contains(x) implies x
                            < pivot_value by {
                            if left.value_set().contains(x) {
                                assert(x < root_value);
                            } else if pivot_left.value_set().contains(x) {
                                assert(x < pivot_value);
                            } else {
                                assert(x == root_value);
                            }
                        }
                        assert(rotated.bst_ordered());
                    }
                },
            }
        },
    }
}

/// A right rotation rearranges the nodes without changing the in-order
/// sequence, the value set or the size, and it preserves the binary-search
/// ordering.
proof fn lemma_right_rotated_preserves(t: TreeNode)
    ensures
        t.right_rotated().in_order() == t.in_order(),
        t.right_rotated().value_set() == t.value_set(),
        t.right_rotated().size() == t.size(),
        t.bst_ordered() ==> t.right_rotated().bst_ordered(),
{
    match t {
        TreeNode::Leaf => {}
        TreeNode::Node(root_value, left, right) => {
            match *left {
                TreeNode::Leaf => {}
                TreeNode::Node(pivot_value, pivot_left, pivot_right) => {
                    let new_right = TreeNode::Node(root_value, pivot_right, right);
                    let rotated = TreeNode::Node(pivot_value, pivot_left, Box::new(new_right));
                    assert(new_right.in_order() == pivot_right.in_order() + seq![root_value]
                        + right.in_order());
                    assert(rotated.in_order() == pivot_left.in_order() + seq![pivot_value]
                        + new_right.in_order());
                    assert(left.in_order() == pivot_left.in_order() + seq![pivot_value]
                        + pivot_right.in_order());
                    assert(rotated.in_order() =~= t.in_order());
                    assert(new_right.value_set() == pivot_right.value_set().union(
                        right.value_set(),
                    ).insert(root_value));
                    assert(rotated.value_set() == pivot_left.value_set().union(
                        new_right.value_set(),
                    ).insert(pivot_value));
                    assert(left.value_set() == pivot_left.value_set().union(
                        pivot_right.value_set(),
                    ).insert(pivot_value));
                    assert(rotated.value_set() =~= t.value_set());
                    assert(new_right.size() == 1 + pivot_right.size() + right.size());
                    assert(rotated.size() == 1 + pivot_left.size() + new_right.size());
                    assert(left.size() == 1 + pivot_left.size() + pivot_right.size());
                    if t.bst_ordered() {
                        reveal_with_fuel(TreeNode::bst_ordered, 4);
                        assert(left.value_set().contains(pivot_value));
                        assert(root_value > pivot_value);
                        assert forall|x: i64| pivot_right.value_set().contains(x) implies x
                            < root_value by {
                            assert(left.value_set().contains(x));
                        }
                        assert(new_right.bst_ordered());
                        assert forall|x: i64| new_right.value_set().contains(x) implies x
                            > pivot_value by {
                            if right.value_set().contains(x) {
                                assert(x > root_value);
                            } else if pivot_right.value_set().contains(x) {
                                assert(x > pivot_value);
                            } else {
                                assert(x == root_value);
                            }
                        }
                        assert(rotated.bst_ordered());
                    }
                },
            }
        },
    }
}

/// One round of rebalancing at the root restores the AVL balance: if both
/// children are height-balanced and the balance factor is within [-2, 2],
/// the rebalanced tree is height-balanced, its height is the old height or
/// one less, and the rotations change neither the in-order sequence, the
/// value set, the size, nor the binary-search ordering.  A tree whose
/// balance factor is already within [-1, 1] is left unchanged.
proof fn lemma_rebalanced_props(t: TreeNode)
    requires
        t.left_child().height_balanced(),
        t.right_child().height_balanced(),
        -2 <= t.balance() <= 2,
    ensures
        t.rebalanced().height_balanced(),
        t.spec_height() - 1 <= t.rebalanced().spec_height() <= t.spec_height(),
        -1 <= t.balance() <= 1 ==> t.rebalanced() == t,
        t.rebalanced().in_order() == t.in_order(),
        t.rebalanced().value_set() == t.value_set(),
        t.rebalanced().size() == t.size(),
        t.bst_ordered() ==> t.rebalanced().bst_ordered(),
{
    match t {
        TreeNode::Leaf => {}
        TreeNode::Node(value, left, right) => {
            let lh = left.spec_height();
            let rh = right.spec_height();
            if t.balance() == -2 {
                assert(rh == lh + 2);
                match *right {
                    TreeNode::Leaf => {
                        assert(right.spec_height() == 0);
                    },
                    TreeNode::Node(pivot_value, pivot_left, pivot_right) => {
                        assert(right.spec_height() == 1 + if pivot_left.spec_height()
                            >= pivot_right.spec_height() {
                            pivot_left.spec_height()
                        } else {
                            pivot_right.spec_height()
                        });
                        assert(pivot_left.height_balanced() && pivot_right.height_balanced());
                        if right.balance() == 1 {
                            // Right-left imbalance: rotate the right child
                            // right, then the root left.
                            assert(pivot_left.spec_height() == lh + 1);
                            assert(pivot_right.spec_height() == lh);
                            let mid = TreeNode::Node(
                                value,
                                left,
                                Box::new(right.right_rotated()),
                            );
                            assert(t.rebalanced() == mid.left_rotated());
                            match *pivot_left {
                                TreeNode::Leaf => {
                                    assert(pivot_left.spec_height() == 0);
                                },
                                TreeNode::Node(mid_value, mid_left, mid_right) => {
                                    let a = mid_left.spec_height();
                                    let b = mid_right.spec_height();
                                    assert(pivot_left.spec_height() == 1 + if a >= b {
                                        a
                                    } else {
                                        b
                                    });
                                    assert(mid_left.height_balanced()
                                        && mid_right.height_balanced());
                                    let new_right = TreeNode::Node(
                                        pivot_value,
                                        mid_right,
                                        pivot_right,
                                    );
                                    assert(right.right_rotated() == TreeNode::Node(
                                        mid_value,
                                        mid_left,
                                        Box::new(new_right),
                                    ));
                                    let new_left = TreeNode::Node(value, left, mid_left);
                                    let res = TreeNode::Node(
                                        mid_value,
                                        Box::new(new_left),
                                        Box::new(new_right),
                                    );
                                    assert(mid.left_rotated() == res);
                                    assert(new_left.spec_height() == lh + 1);
                                    assert(new_right.spec_height() == lh + 1);
                                    assert(res.spec_height() == lh + 2);
                                    assert(t.spec_height() == lh + 3);
                                    assert(new_left.height_balanced());
                                    assert(new_right.height_balanced());
                                    assert(res.height_balanced());
                                    lemma_right_rotated_preserves(*right);
                                    assert(mid.in_order() =~= t.in_order());
                                    assert(mid.value_set() =~= t.value_set());
                                    lemma_left_rotated_preserves(mid);
                                    if t.bst_ordered() {
                                        assert forall|x: i64| right.right_rotated().value_set()
                                            .contains(x) implies x > value by {
                                            assert(right.value_set().contains(x));
                                        }
                                        assert(mid.bst_ordered());
                                    }
                                },
                            }
                        } else {
                            // Right-right imbalance: a single left rotation.
                            assert(t.rebalanced() == t.left_rotated());
                            assert(-1 <= right.balance() <= 0);
                            let new_left = TreeNode::Node(value, left, pivot_left);
                            let res = TreeNode::Node(
                                pivot_value,
                                Box::new(new_left),
                                pivot_right,
                            );
                            assert(t.left_rotated() == res);
                            if right.balance() == 0 {
                                assert(pivot_left.spec_height() == lh + 1);
                                assert(pivot_right.spec_height() == lh + 1);
                                assert(new_left.spec_height() == lh + 2);
                                assert(res.spec_height() == lh + 3);
                                assert(t.spec_height() == lh + 3);
                            } else {
                                assert(pivot_left.spec_height() == lh);
                                assert(pivot_right.spec_height() == lh + 1);
                                assert(new_left.spec_height() == lh + 1);
                                assert(res.spec_height() == lh + 2);
                                assert(t.spec_height() == lh + 3);
                            }
                            assert(new_left.height_balanced());
                            assert(res.height_balanced());
                            lemma_left_rotated_preserves(t);
                        }
                    },
                }
            } else if t.balance() == 2 {
                assert(lh == rh + 2);
                match *left {
                    TreeNode::Leaf => {
                        assert(left.spec_height() == 0);
                    },
                    TreeNode::Node(pivot_value, pivot_left, pivot_right) => {
                        assert(left.spec_height() == 1 + if pivot_left.spec_height()
                            >= pivot_right.spec_height() {
                            pivot_left.spec_height()
                        } else {
                            pivot_right.spec_height()
                        });
                        assert(pivot_left.height_balanced() && pivot_right.height_balanced());
                        if left.balance() == -1 {
                            // Left-right imbalance: rotate the left child
                            // left, then the root right.
                            assert(pivot_left.spec_height() == rh);
                            assert(pivot_right.spec_height() == rh + 1);
                            let mid = TreeNode::Node(
                                value,
                                Box::new(left.left_rotated()),
                                right,
                            );
                            assert(t.rebalanced() == mid.right_rotated());
                            match *pivot_right {
                                TreeNode::Leaf => {
                                    assert(pivot_right.spec_height() == 0);
                                },
                                TreeNode::Node(mid_value, mid_left, mid_right) => {
                                    let a = mid_left.spec_height();
                                    let b = mid_right.spec_height();
                                    assert(pivot_right.spec_height() == 1 + if a >= b {
                                        a
                                    } else {
                                        b
                                    });
                                    assert(mid_left.height_balanced()
                                        && mid_right.height_balanced());
                                    let new_left = TreeNode::Node(
                                        pivot_value,
                                        pivot_left,
                                        mid_left,
                                    );
                                    assert(left.left_rotated() == TreeNode::Node(
                                        mid_value,
                                        Box::new(new_left),
                                        mid_right,
                                    ));
                                    let new_right = TreeNode::Node(value, mid_right, right);
                                    let res = TreeNode::Node(
                                        mid_value,
                                        Box::new(new_left),
                                        Box::new(new_right),
                                    );
                                    assert(mid.right_rotated() == res);
                                    assert(new_left.spec_height() == rh + 1);
                                    assert(new_right.spec_height() == rh + 1);
                                    assert(res.spec_height() == rh + 2);
                                    assert(t.spec_height() == rh + 3);
                                    assert(new_left.height_balanced());
                                    assert(new_right.height_balanced());
                                    assert(res.height_balanced());
                                    lemma_left_rotated_preserves(*left);
                                    assert(mid.in_order() =~= t.in_order());
                                    assert(mid.value_set() =~= t.value_set());
                                    lemma_right_rotated_preserves(mid);
                                    if t.bst_ordered() {
                                        assert forall|x: i64| left.left_rotated().value_set()
                                            .contains(x) implies x < value by {
                                            assert(left.value_set().contains(x));
                                        }
                                        assert(mid.bst_ordered());
                                    }
                                },
                            }
                        } else {
                            // Left-left imbalance: a single right rotation.
                            assert(t.rebalanced() == t.right_rotated());
                            assert(0 <= left.balance() <= 1);
                            let new_right = TreeNode::Node(value, pivot_right, right);
                            let res = TreeNode::Node(
                                pivot_value,
                                pivot_left,
                                Box::new(new_right),
                            );
                            assert(t.right_rotated() == res);
                            if left.balance() == 0 {
                                assert(pivot_left.spec_height() == rh + 1);
                                assert(pivot_right.spec_height() == rh + 1);
                                assert(new_right.spec_height() == rh + 2);
                                assert(res.spec_height() == rh + 3);
                                assert(t.spec_height() == rh + 3);
                            } else {
                                assert(pivot_left.spec_height() == rh + 1);
                                assert(pivot_right.spec_height() == rh);
                                assert(new_right.spec_height() == rh + 1);
                                assert(res.spec_height() == rh + 2);
                                assert(t.spec_height() == rh + 3);
                            }
                            assert(new_right.height_balanced());
                            assert(res.height_balanced());
                            lemma_right_rotated_preserves(t);
                        }
                    },
                }
            } else {
                assert(t.rebalanced() == t);
                assert(t.height_balanced());
            }
        },
    }
}

impl TreeNode {
    /// Rebalances the tree at the root with a single or double rotation, as
    /// the AVL rebalancing algorithm prescribes; a no-op when the balance
    /// factor is already within [-1, 1].
    fn rebalance(&mut self)
        requires
            old(self).left_child().height_balanced(),
            old(self).right_child().height_balanced(),
            -2 <= old(self).balance() <= 2,
            old(self).spec_height() <= 0x7fff_ffff,
        ensures
            *final(self) == old(self).rebalanced(),
    {
        let balance_factor: i32 = self.balance_factor();
        if balance_factor == -2 {
            let mut taken = TreeNode::Leaf;
            core::mem::swap(self, &mut taken);
            match taken {
                TreeNode::Leaf => {}
                TreeNode::Node(value, left, mut right) => {
                    let ghost right0 = *right;
                    proof {
                        assert(old(self).spec_height() == 1 + if left.spec_height()
                            >= right0.spec_height() {
                            left.spec_height()
                        } else {
                            right0.spec_height()
                        });
                    }
                    if (&*right).balance_factor() == 1 {
                        (&mut *right).right_rotate();
                    }
                    *self = TreeNode::Node(value, left, right);
                    self.left_rotate();
                },
            }
        } else if balance_factor == 2 {
            let mut taken = TreeNode::Leaf;
            core::mem::swap(self, &mut taken);
            match taken {
                TreeNode::Leaf => {}
                TreeNode::Node(value, mut left, right) => {
                    let ghost left0 = *left;
                    proof {
                        assert(old(self).spec_height() == 1 + if left0.spec_height()
                            >= right.spec_height() {
                            left0.spec_height()
                        } else {
                            right.spec_height()
                        });
                    }
                    if (&*left).balance_factor() == -1 {
                        (&mut *left).left_rotate();
                    }
                    *self = TreeNode::Node(value, left, right);
                    self.right_rotate();
                },
            }
        }
    }
}

impl TreeNode {
    /// Inserts `value` into the tree.  A value already present is discarded
    /// silently and the tree is left exactly as it was.  Otherwise the value
    /// is added at its ordered position and the tree is rebalanced on the
    /// way back up, so that both the binary-search ordering and the AVL
    /// balance hold afterwards; the height grows by at most one and never
    /// shrinks.
    pub fn insert(&mut self, value: i64)
        requires
            old(self).wf(),
            old(self).spec_height() + 1 <= 0x7fff_ffff,
        ensures
            final(self).wf(),
            final(self).value_set() == old(self).value_set().insert(value),
            old(self).spec_height() <= final(self).spec_height() <= old(self).spec_height()
                + 1,
            final(self).size() <= old(self).size() + 1,
            !old(self).value_set().contains(value) ==> final(self).size() == old(self).size()
                + 1,
            old(self).value_set().contains(value) ==> *final(self) == *old(self),
        decreases *old(self),
    {
        let mut taken = TreeNode::Leaf;
        core::mem::swap(self, &mut taken);
        match taken {
            TreeNode::Leaf => {
                *self = TreeNode::Node(value, Box::new(TreeNode::Leaf), Box::new(TreeNode::Leaf));
                proof {
                    assert(self.value_set() =~= old(self).value_set().insert(value));
                    assert(self.spec_height() == 1);
                    assert(self.height_balanced());
                    assert(self.bst_ordered());
                }
            },
            TreeNode::Node(node_value, mut left, mut right) => {
                let ghost left0 = *left;
                let ghost right0 = *right;
                proof {
                    assert(old(self).spec_height() == 1 + if left0.spec_height()
                        >= right0.spec_height() {
                        left0.spec_height()
                    } else {
                        right0.spec_height()
                    });
                    assert(old(self).value_set() == left0.value_set().union(
                        right0.value_set(),
                    ).insert(node_value));
                }
                if value == node_value {
                    *self = TreeNode::Node(node_value, left, right);
                    proof {
                        assert(*self == *old(self));
                        assert(old(self).value_set().contains(value));
                        assert(self.value_set() =~= old(self).value_set().insert(value));
                    }
                    return ;
                } else if value < node_value {
                    (&mut *left).insert(value);
                    *self = TreeNode::Node(node_value, left, right);
                    proof {
                        let mid = *self;
                        let new_left = mid.left_child();
                        assert(mid == TreeNode::Node(
                            node_value,
                            Box::new(new_left),
                            Box::new(right0),
                        ));
                        assert(mid.spec_height() == 1 + if new_left.spec_height()
                            >= right0.spec_height() {
                            new_left.spec_height()
                        } else {
                            right0.spec_height()
                        });
                        assert(mid.value_set() == new_left.value_set().union(
                            right0.value_set(),
                        ).insert(node_value));
                        assert(mid.value_set() =~= old(self).value_set().insert(value));
                        assert forall|x: i64| new_left.value_set().contains(x) implies x
                            < node_value by {
                            assert(left0.value_set().insert(value).contains(x));
                        }
                        assert(mid.bst_ordered());
                        if old(self).value_set().contains(value) {
                            assert(!right0.value_set().contains(value)) by {
                                if right0.value_set().contains(value) {
                                    assert(value > node_value);
                                }
                            }
                            assert(left0.value_set().contains(value));
                            assert(mid == *old(self));
                        }
                    }
                } else {
                    (&mut *right).insert(value);
                    *self = TreeNode::Node(node_value, left, right);
                    proof {
                        let mid = *self;
                        let new_right = mid.right_child();
                        assert(mid == TreeNode::Node(
                            node_value,
                            Box::new(left0),
                            Box::new(new_right),
                        ));
                        assert(mid.spec_height() == 1 + if left0.spec_height()
                            >= new_right.spec_height() {
                            left0.spec_height()
                        } else {
                            new_right.spec_height()
                        });
                        assert(mid.value_set() == left0.value_set().union(
                            new_right.value_set(),
                        ).insert(node_value));
                        assert(mid.value_set() =~= old(self).value_set().insert(value));
                        assert forall|x: i64| new_right.value_set().contains(x) implies x
                            > node_value by {
                            assert(right0.value_set().insert(value).contains(x));
                        }
                        assert(mid.bst_ordered());
                        if old(self).value_set().contains(value) {
                            assert(!left0.value_set().contains(value)) by {
                                if left0.value_set().contains(value) {
                                    assert(value < node_value);
                                }
                            }
                            assert(right0.value_set().contains(value));
                            assert(mid == *old(self));
                        }
                    }
                }
            },
        }
        proof {
            lemma_rebalanced_props(*self);
        }
        self.rebalance();
    }
}

impl TreeNode {
    /// All values of the tree lie strictly above `lower` and strictly below
    /// `upper`, where `None` means unbounded.
    pub open spec fn within(self, lower: Option<i64>, upper: Option<i64>) -> bool {
        forall|x: i64|
            self.value_set().contains(x) ==> (match lower {
                Option::Some(m) => m < x,
                Option::None => true,
            } && match upper {
                Option::Some(m) => x < m,
                Option::None => true,
            })
    }
}

/// Checks the binary-search ordering of `tree` together with the bounds
/// inherited from its ancestors: every value must lie strictly between
/// `lower` and `upper`.
fn is_bst_within(tree: &TreeNode, lower: Option<i64>, upper: Option<i64>) -> (r: bool)
    ensures
        r == (tree.bst_ordered() && tree.within(lower, upper)),
    decreases *tree,
{
    match tree {
        TreeNode::Leaf => true,
        TreeNode::Node(value, left, right) => {
            let value = *value;
            proof {
                assert(tree.value_set().contains(value));
                assert(forall|x: i64|
                    left.value_set().contains(x) ==> tree.value_set().contains(x));
                assert(forall|x: i64|
                    right.value_set().contains(x) ==> tree.value_set().contains(x));
            }
            let lower_ok = match lower {
                Option::Some(m) => m < value,
                Option::None => true,
            };
            if !lower_ok {
                return false;
            }
            let upper_ok = match upper {
                Option::Some(m) => value < m,
                Option::None => true,
            };
            if !upper_ok {
                return false;
            }
            let left_ok = is_bst_within(left, lower, Some(value));
            let right_ok = is_bst_within(right, Some(value), upper);
            proof {
                if left_ok && right_ok {
                    assert(tree.bst_ordered());
                    assert forall|x: i64| tree.value_set().contains(x) implies (match lower {
                        Option::Some(m) => m < x,
                        Option::None => true,
                    } && match upper {
                        Option::Some(m) => x < m,
                        Option::None => true,
                    }) by {
                        if left.value_set().contains(x) {
                            assert(x < value);
                        } else if right.value_set().contains(x) {
                            assert(value < x);
                        } else {
                            assert(x == value);
                        }
                    }
                    assert(tree.within(lower, upper));
                }
                if tree.bst_ordered() && tree.within(lower, upper) {
                    assert(left.within(lower, Some(value)));
                    assert(right.within(Some(value), upper));
                }
            }
            left_ok && right_ok
        },
    }
}

impl TreeNode {
    /// Checks that the tree is a binary search tree.
    fn is_bst(&self) -> (r: bool)
        ensures
            r == self.bst_ordered(),
    {
        is_bst_within(self, None, None)
    }

    /// Checks that the tree is height-balanced everywhere.
    pub fn is_balanced(&self) -> (r: bool)
        requires
            self.spec_height() <= usize::MAX,
        ensures
            r == self.height_balanced(),
        decreases *self,
    {
        match self {
            TreeNode::Leaf => true,
            TreeNode::Node(_, left, right) => {
                let left_height = left.height();
                let right_height = right.height();
                let near = if left_height >= right_height {
                    left_height - right_height <= 1
                } else {
                    right_height - left_height <= 1
                };
                near && left.is_balanced() && right.is_balanced()
            },
        }
    }

    /// Checks that the tree is a valid AVL tree: binary-search ordered and
    /// height-balanced.
    pub fn validate(&self) -> (r: bool)
        requires
            self.spec_height() <= usize::MAX,
        ensures
            r == self.wf(),
    {
        self.is_bst() && self.is_balanced()
    }
}

/// The height of a tree never exceeds the number of its values.
proof fn lemma_height_le_size(t: TreeNode)
    ensures
        t.spec_height() <= t.size(),
    decreases t,
{
    match t {
        TreeNode::Leaf => {}
        TreeNode::Node(_, left, right) => {
            lemma_height_le_size(*left);
            lemma_height_le_size(*right);
        },
    }
}

impl TreeNode {
    /// Builds an AVL tree holding exactly the values of `values`, by
    /// inserting them in order into an empty tree; duplicates in the input
    /// are stored once.
    pub fn from_vec(values: &Vec<i64>) -> (t: TreeNode)
        requires
            values@.len() + 1 <= 0x7fff_ffff,
        ensures
            t.wf(),
            t.value_set() == values@.to_set(),
            t.size() <= values@.len(),
    {
        let mut t = TreeNode::Leaf;
        proof {
            assert(values@.take(0) =~= Seq::<i64>::empty());
            assert(Seq::<i64>::empty().to_set() =~= Set::<i64>::empty());
        }
        let mut i: usize = 0;
        while i < values.len()
            invariant
                i <= values@.len(),
                values@.len() + 1 <= 0x7fff_ffff,
                t.wf(),
                t.value_set() == values@.take(i as int).to_set(),
                t.size() <= i,
            decreases values@.len() - i,
        {
            proof {
                lemma_height_le_size(t);
            }
            t.insert(values[i]);
            proof {
                assert(values@.take(i + 1) =~= values@.take(i as int).push(values@[i as int]));
                values@.take(i as int).lemma_push_to_set_commute(values@[i as int]);
            }
            i = i + 1;
        }
        proof {
            assert(values@.take(values@.len() as int) =~= values@);
        }
        t
    }

    /// Appends the values of the tree to `out` in in-order traversal order.
    fn append_in_order(&self, out: &mut Vec<i64>)
        ensures
            final(out)@ == old(out)@ + self.in_order(),
        decreases *self,
    {
        match self {
            TreeNode::Leaf => {
                proof {
                    assert(out@ + self.in_order() =~= out@);
                }
            },
            TreeNode::Node(value, left, right) => {
                left.append_in_order(out);
                out.push(*value);
                right.append_in_order(out);
                proof {
                    assert(((old(out)@ + left.in_order()).push(*value)) + right.in_order()
                        =~= old(out)@ + (left.in_order() + seq![*value] + right.in_order()));
                }
            },
        }
    }

    /// Collects the values of the tree into a vector by in-order traversal;
    /// for a binary search tree this is the ascending order.
    pub fn to_vec(&self) -> (r: Vec<i64>)
        ensures
            r@ == self.in_order(),
    {
        let mut out: Vec<i64> = Vec::new();
        self.append_in_order(&mut out);
        proof {
            assert(Seq::<i64>::empty() + self.in_order() =~= self.in_order());
        }
        out
    }
}

impl Default for TreeNode {
    /// The default tree is the empty tree, as [`TreeNode::new`] returns it.
    fn default() -> (r: Self)
        ensures
            r == TreeNode::Leaf,
    {
        TreeNode::Leaf
    }
}

/// A sequence of values in strictly ascending order.
pub open spec fn strictly_sorted(s: Seq<i64>) -> bool {
    forall|i: int, j: int| 0 <= i < j < s.len() ==> s[i] < s[j]
}

/// The in-order sequence of a binary search tree enumerates its value set
/// in strictly ascending order, each value exactly once.  Together with the
/// contracts of [`TreeNode::from_vec`] and [`TreeNode::to_vec`], this is the
/// round trip through the tree: extracting the values of a tree built from
/// a sequence yields that sequence's values, sorted and without duplicates.
pub proof fn lemma_in_order_sorted(t: TreeNode)
    requires
        t.bst_ordered(),
    ensures
        strictly_sorted(t.in_order()),
        t.in_order().to_set() == t.value_set(),
        t.in_order().no_duplicates(),
        t.in_order().len() == t.value_set().len(),
    decreases t,
{
    match t {
        TreeNode::Leaf => {
            assert(t.in_order().to_set() =~= t.value_set());
            t.in_order().unique_seq_to_set();
        },
        TreeNode::Node(value, left, right) => {
            lemma_in_order_sorted(*left);
            lemma_in_order_sorted(*right);
            let lio = left.in_order();
            let rio = right.in_order();
            let s = lio + seq![value] + rio;
            assert(t.in_order() == s);
            let n = lio.len() as int;
            assert forall|k: int| 0 <= k < s.len() implies (if k < n {
                s[k] == lio[k]
            } else if k == n {
                s[k] == value
            } else {
                s[k] == rio[k - n - 1]
            }) by {}
            assert forall|k: int| 0 <= k < s.len() implies t.value_set().contains(s[k]) by {
                if k < n {
                    assert(lio.contains(lio[k]));
                    assert(left.value_set().contains(lio[k]));
                } else if k > n {
                    assert(rio.contains(rio[k - n - 1]));
                    assert(right.value_set().contains(rio[k - n - 1]));
                }
            }
            assert forall|i: int, j: int| 0 <= i < j < s.len() implies s[i] < s[j] by {
                if j < n {
                    assert(s[i] == lio[i] && s[j] == lio[j]);
                } else if i < n && j == n {
                    assert(lio.contains(lio[i]));
                    assert(left.value_set().contains(s[i]));
                } else if i < n && j > n {
                    assert(lio.contains(lio[i]));
                    assert(rio.contains(rio[j - n - 1]));
                    assert(left.value_set().contains(s[i]));
                    assert(right.value_set().contains(s[j]));
                } else if i == n && j > n {
                    assert(rio.contains(rio[j - n - 1]));
                    assert(right.value_set().contains(s[j]));
                } else {
                    assert(s[i] == rio[i - n - 1] && s[j] == rio[j - n - 1]);
                }
            }
            assert(strictly_sorted(s));
            assert forall|y: i64| s.to_set().contains(y) implies t.value_set().contains(y) by {
                let k = choose|k: int| 0 <= k < s.len() && s[k] == y;
                assert(t.value_set().contains(s[k]));
            }
            assert forall|y: i64| t.value_set().contains(y) implies s.to_set().contains(y) by {
                if left.value_set().contains(y) {
                    let k = choose|k: int| 0 <= k < lio.len() && lio[k] == y;
                    assert(s[k] == y);
                    assert(s.contains(y));
                } else if right.value_set().contains(y) {
                    let k = choose|k: int| 0 <= k < rio.len() && rio[k] == y;
                    assert(s[k + n + 1] == y);
                    assert(s.contains(y));
                } else {
                    assert(y == value);
                    assert(s[n] == y);
                    assert(s.contains(y));
                }
            }
            assert(s.to_set() =~= t.value_set());
            assert(s.no_duplicates());
            s.unique_seq_to_set();
        },
    }
}

/// Two strictly sorted sequences over the same set of values are equal.
pub proof fn lemma_strictly_sorted_unique(s1: Seq<i64>, s2: Seq<i64>)
    requires
        strictly_sorted(s1),
        strictly_sorted(s2),
        s1.to_set() == s2.to_set(),
    ensures
        s1 == s2,
    decreases s1.len(),
{
    if s1.len() == 0 {
        if s2.len() > 0 {
            assert(s2.contains(s2[0]));
            assert(s1.to_set().contains(s2[0]));
            assert(s1.contains(s2[0]));
        }
        assert(s1 =~= s2);
    } else if s2.len() == 0 {
        assert(s1.contains(s1[0]));
        assert(s2.to_set().contains(s1[0]));
        assert(s2.contains(s1[0]));
    } else {
        assert(s1.contains(s1[0]));
        assert(s2.contains(s2[0]));
        assert(s2.to_set().contains(s1[0]));
        assert(s1.to_set().contains(s2[0]));
        let k = choose|k: int| 0 <= k < s2.len() && s2[k] == s1[0];
        let j = choose|j: int| 0 <= j < s1.len() && s1[j] == s2[0];
        assert(s1[0] == s2[0]) by {
            if s2[0] < s1[0] {
                assert(s1[j] == s2[0]);
                if j > 0 {
                    assert(s1[0] < s1[j]);
                }
            } else if s1[0] < s2[0] {
                assert(s2[k] == s1[0]);
                if k > 0 {
                    assert(s2[0] < s2[k]);
                }
            }
        }
        let t1 = s1.drop_first();
        let t2 = s2.drop_first();
        assert forall|i: int| 0 <= i < t1.len() implies t1[i] == s1[i + 1] by {}
        assert forall|i: int| 0 <= i < t2.len() implies t2[i] == s2[i + 1] by {}
        assert(strictly_sorted(t1));
        assert(strictly_sorted(t2));
        assert(t1.to_set() =~= s1.to_set().remove(s1[0])) by {
            assert forall|y: i64| t1.to_set().contains(y) implies s1.to_set().remove(
                s1[0],
            ).contains(y) by {
                let i = choose|i: int| 0 <= i < t1.len() && t1[i] == y;
                assert(s1[i + 1] == y);
                assert(s1.contains(y));
                assert(s1[0] < s1[i + 1]);
            }
            assert forall|y: i64| s1.to_set().remove(s1[0]).contains(y) implies t1.to_set()
                .contains(y) by {
                let i = choose|i: int| 0 <= i < s1.len() && s1[i] == y;
                assert(i > 0);
                assert(t1[i - 1] == y);
                assert(t1.contains(y));
            }
        }
        assert(t2.to_set() =~= s2.to_set().remove(s2[0])) by {
            assert forall|y: i64| t2.to_set().contains(y) implies s2.to_set().remove(
                s2[0],
            ).contains(y) by {
                let i = choose|i: int| 0 <= i < t2.len() && t2[i] == y;
                assert(s2[i + 1] == y);
                assert(s2.contains(y));
                assert(s2[0] < s2[i + 1]);
            }
            assert forall|y: i64| s2.to_set().remove(s2[0]).contains(y) implies t2.to_set()
                .contains(y) by {
                let i = choose|i: int| 0 <= i < s2.len() && s2[i] == y;
                assert(i > 0);
                assert(t2[i - 1] == y);
                assert(t2.contains(y));
            }
        }
        lemma_strictly_sorted_unique(t1, t2);
        assert(s1.len() == s2.len());
        assert forall|i: int| 0 <= i < s1.len() implies s1[i] == s2[i] by {
            if i > 0 {
                assert(s1[i] == t1[i - 1]);
                assert(s2[i] == t2[i - 1]);
            }
        }
        assert(s1 =~= s2);
    }
}

/// Well-formedness is hereditary: both subtrees of a well-formed tree are
/// well-formed.  So once [`TreeNode::insert`] guarantees a well-formed
/// result, [`TreeNode::validate`] holds of every subtree of that result,
/// not only of the root.
pub proof fn lemma_wf_subtrees(t: TreeNode)
    requires
        t.wf(),
    ensures
        t.left_child().wf(),
        t.right_child().wf(),
{
}

/// Inserting the same set of values in any order produces trees with the
/// same in-order (sorted) sequence: the in-order sequence of a well-formed
/// tree depends only on its value set, not on the insertion order that
/// shaped it.
pub proof fn lemma_insert_order_independence(t1: TreeNode, t2: TreeNode)
    requires
        t1.wf(),
        t2.wf(),
        t1.value_set() == t2.value_set(),
    ensures
        t1.in_order() == t2.in_order(),
{
    lemma_in_order_sorted(t1);
    lemma_in_order_sorted(t2);
    lemma_strictly_sorted_unique(t1.in_order(), t2.in_order());
}

} // verus!

