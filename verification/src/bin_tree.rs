//! A binary tree whose nodes may be empty, with ordered insertion.
//!
//! A node holds a value or none, and up to two children. Insertion walks
//! down from the root: a value that is not greater than the value of a node
//! goes to its left, any other value to its right, and the first empty node
//! or missing child on the way takes it.

use vstd::pervasive::cloned;
use vstd::prelude::*;
use vstd::std_specs::cmp::{PartialOrdIs, PartialOrdSpec};

verus! {

/// A node of a binary tree.
#[derive(Debug)]
pub struct BinTreeNode<T> {
    pub value: Option<T>,
    pub left: Option<Box<BinTreeNode<T>>>,
    pub right: Option<Box<BinTreeNode<T>>>,
}

/// The depth of the subtree in `slot`: 0 where there is none.
pub open spec fn depth_of<T>(slot: Option<Box<BinTreeNode<T>>>) -> nat
    decreases slot,
{
    match slot {
        Some(node) => node.depth(),
        None => 0,
    }
}

/// The number of values in the subtree in `slot`.
pub open spec fn count_of<T>(slot: Option<Box<BinTreeNode<T>>>) -> nat
    decreases slot,
{
    match slot {
        Some(node) => node.count(),
        None => 0,
    }
}

/// Whether the subtree in `slot` holds `value`.
pub open spec fn held_in<T>(slot: Option<Box<BinTreeNode<T>>>, value: T) -> bool
    decreases slot,
{
    match slot {
        Some(node) => node.holds(value),
        None => false,
    }
}

impl<T> BinTreeNode<T> {
    /// A node without value and without children.
    pub open spec fn empty() -> Self {
        BinTreeNode { value: None, left: None, right: None }
    }

    /// A node that holds `value` and has no children.
    pub open spec fn leaf(value: T) -> Self {
        BinTreeNode { value: Some(value), left: None, right: None }
    }

    /// The number of nodes on the longest way from this node down, this
    /// node included.
    pub open spec fn depth(self) -> nat
        decreases self,
    {
        let left = depth_of(self.left);
        let right = depth_of(self.right);
        if left >= right {
            left + 1
        } else {
            right + 1
        }
    }

    /// The number of values in the tree.
    pub open spec fn count(self) -> nat
        decreases self,
    {
        count_of(self.left) + count_of(self.right) + if self.value is Some {
            1nat
        } else {
            0nat
        }
    }

    /// Whether some node of the tree holds `value`.
    pub open spec fn holds(self, value: T) -> bool
        decreases self,
    {
        self.value == Some(value) || held_in(self.left, value) || held_in(self.right, value)
    }

    /// Makes a node without value and without children.
    pub fn new() -> (node: BinTreeNode<T>)
        ensures
            node == Self::empty(),
    {
        BinTreeNode { value: None, left: None, right: None }
    }

    /// Gives the node an empty left child, unless it has a left child.
    pub fn init_left(&mut self)
        ensures
            final(self).value == old(self).value,
            final(self).right == old(self).right,
            final(self).left == if old(self).left is None {
                Some(Box::new(Self::empty()))
            } else {
                old(self).left
            },
    {
        if self.left.is_none() {
            self.left = Some(Box::new(BinTreeNode::new()));
        }
    }

    /// Gives the node an empty right child, unless it has a right child.
    pub fn init_right(&mut self)
        ensures
            final(self).value == old(self).value,
            final(self).left == old(self).left,
            final(self).right == if old(self).right is None {
                Some(Box::new(Self::empty()))
            } else {
                old(self).right
            },
    {
        if self.right.is_none() {
            self.right = Some(Box::new(BinTreeNode::new()));
        }
    }

    /// Makes a node that holds `value` and has no children.
    pub fn of(value: T) -> (node: BinTreeNode<T>)
        ensures
            node == Self::leaf(value),
    {
        BinTreeNode { value: Some(value), left: None, right: None }
    }

    /// Makes a node of its three parts.
    pub fn from(
        value: Option<T>,
        left: Option<Box<BinTreeNode<T>>>,
        right: Option<Box<BinTreeNode<T>>>,
    ) -> (node: BinTreeNode<T>)
        ensures
            node.value == value,
            node.left == left,
            node.right == right,
    {
        BinTreeNode { value, left, right }
    }

    /// The depth of the tree.
    pub fn max_depth(&self) -> (depth: i32)
        requires
            self.depth() <= i32::MAX,
        ensures
            depth == self.depth(),
        decreases self,
    {
        let left_depth = match &self.left {
            Some(node) => node.max_depth(),
            None => 0,
        };
        let right_depth = match &self.right {
            Some(node) => node.max_depth(),
            None => 0,
        };
        if left_depth >= right_depth {
            left_depth + 1
        } else {
            right_depth + 1
        }
    }
}

/// Whether `copy` has the shape of the subtree in `slot`, with a clone of
/// each of its values at the same place.
pub open spec fn copied_to<T: Clone>(
    slot: Option<Box<BinTreeNode<T>>>,
    copy: Option<Box<BinTreeNode<T>>>,
) -> bool
    decreases slot,
{
    match (slot, copy) {
        (Some(node), Some(other)) => node.copied_as(*other),
        (None, None) => true,
        _ => false,
    }
}

impl<T: Clone> BinTreeNode<T> {
    /// Whether `copy` has the shape of this tree, with a clone of each of
    /// its values at the same place.
    pub open spec fn copied_as(self, copy: Self) -> bool
        decreases self,
    {
        &&& match (self.value, copy.value) {
            (Some(value), Some(other)) => cloned::<T>(value, other),
            (None, None) => true,
            _ => false,
        }
        &&& copied_to(self.left, copy.left)
        &&& copied_to(self.right, copy.right)
    }
}

impl<T: Clone> Clone for BinTreeNode<T> {
    fn clone(&self) -> (copy: Self)
        ensures
            self.copied_as(copy),
        decreases self,
    {
        BinTreeNode {
            value: match &self.value {
                Some(value) => Some(value.clone()),
                None => None,
            },
            left: match &self.left {
                Some(node) => Some(Box::new((&**node).clone())),
                None => None,
            },
            right: match &self.right {
                Some(node) => Some(Box::new((&**node).clone())),
                None => None,
            },
        }
    }
}

/// The subtree in `slot` after `value` went into it.
pub open spec fn grown<T: PartialOrd>(slot: Option<Box<BinTreeNode<T>>>, value: T) -> Option<
    Box<BinTreeNode<T>>,
>
    decreases slot, 1nat,
{
    match slot {
        Some(node) => Some(Box::new(node.with_value(value))),
        None => Some(Box::new(BinTreeNode::leaf(value))),
    }
}

impl<T: PartialOrd> BinTreeNode<T> {
    /// The tree after `value` went into it, by the order of `T`.
    pub open spec fn with_value(self, value: T) -> Self
        decreases self, 0nat,
    {
        match self.value {
            None => BinTreeNode { value: Some(value), left: self.left, right: self.right },
            Some(own) => if value.is_le(&own) {
                BinTreeNode { value: self.value, left: grown(self.left, value), right: self.right }
            } else {
                BinTreeNode { value: self.value, left: self.left, right: grown(self.right, value) }
            },
        }
    }

    /// The tree after the values of `values` went into it, first to last.
    pub open spec fn with_values(self, values: Seq<T>) -> Self
        decreases values.len(),
    {
        if values.len() == 0 {
            self
        } else {
            self.with_values(values.drop_last()).with_value(values.last())
        }
    }

    /// Puts `value` into the tree.
    ///
    /// The tree gains this one value and keeps all it had. Where the order
    /// of `T` is specified, the place of the value is the one that
    /// `with_value` gives.
    pub fn insert(&mut self, value: T)
        ensures
            final(self).count() == old(self).count() + 1,
            forall|v: T| #[trigger] final(self).holds(v) <==> old(self).holds(v) || v == value,
            T::obeys_partial_cmp_spec() ==> *final(self) == old(self).with_value(value),
        decreases *old(self),
    {
        if self.value.is_none() {
            self.value = Some(value);
            assert forall|v: T| #[trigger] self.holds(v) <==> old(self).holds(v) || v == value by {}
        } else {
            if value <= *self.value.as_ref().unwrap() {
                match &mut self.left {
                    Some(node) => node.insert(value),
                    None => {
                        let new_node = Box::new(BinTreeNode::of(value));
                        self.left = Some(new_node);
                    },
                }
                assert(count_of(self.left) == count_of(old(self).left) + 1);
                assert forall|v: T| #[trigger]
                    held_in(self.left, v) <==> held_in(old(self).left, v) || v == value by {
                    match old(self).left {
                        Some(before) => {
                            let now = self.left->0;
                            assert(now.holds(v) <==> before.holds(v) || v == value);
                        },
                        None => {
                            assert(self.left == Some(Box::new(Self::leaf(value))));
                            assert(Self::leaf(value).holds(v) <==> v == value);
                        },
                    }
                }
            } else {
                match &mut self.right {
                    Some(node) => node.insert(value),
                    None => {
                        let new_node = Box::new(BinTreeNode::of(value));
                        self.right = Some(new_node);
                    },
                }
                assert(count_of(self.right) == count_of(old(self).right) + 1);
                assert forall|v: T| #[trigger]
                    held_in(self.right, v) <==> held_in(old(self).right, v) || v == value by {
                    match old(self).right {
                        Some(before) => {
                            let now = self.right->0;
                            assert(now.holds(v) <==> before.holds(v) || v == value);
                        },
                        None => {
                            assert(self.right == Some(Box::new(Self::leaf(value))));
                            assert(Self::leaf(value).holds(v) <==> v == value);
                        },
                    }
                }
            }
            assert forall|v: T| #[trigger] self.holds(v) <==> old(self).holds(v) || v == value by {
                assert(held_in(self.left, v) <==> held_in(old(self).left, v) || (v == value
                    && self.left != old(self).left)) by {
                    if self.left != old(self).left {
                        assert(held_in(self.left, v) <==> held_in(old(self).left, v) || v == value);
                    }
                }
                assert(held_in(self.right, v) <==> held_in(old(self).right, v) || (v == value
                    && self.right != old(self).right)) by {
                    if self.right != old(self).right {
                        assert(held_in(self.right, v) <==> held_in(old(self).right, v) || v
                            == value);
                    }
                }
            }
        }
    }
}

/// A binary tree: a root node that is always there, though it may be empty.
#[derive(Debug)]
pub struct BinTree<T> {
    pub root: BinTreeNode<T>,
}

/// Whether each element of `copies` is a clone of the element of `values`
/// at the same place.
pub open spec fn clones_of<T: Clone>(values: Seq<T>, copies: Seq<T>) -> bool {
    &&& copies.len() == values.len()
    &&& forall|i: int| 0 <= i < values.len() ==> cloned::<T>(#[trigger] values[i], copies[i])
}

impl<T: Clone> Clone for BinTree<T> {
    fn clone(&self) -> (copy: Self)
        ensures
            self.root.copied_as(copy.root),
    {
        BinTree { root: self.root.clone() }
    }
}

impl<T: Clone> BinTree<T> {
    /// The root of the tree.
    pub fn get_root(&self) -> (root: &BinTreeNode<T>)
        ensures
            *root == self.root,
    {
        &self.root
    }

    /// Makes a tree whose root is empty.
    pub fn new() -> (tree: BinTree<T>)
        ensures
            tree.root == BinTreeNode::<T>::empty(),
    {
        BinTree { root: BinTreeNode::<T>::new() }
    }

    /// The depth of the tree, the root included.
    pub fn get_max_depth(&self) -> (depth: i32)
        requires
            self.root.depth() <= i32::MAX,
        ensures
            depth == self.root.depth(),
    {
        self.root.max_depth()
    }

    /// Empties the tree.
    pub fn clear(&mut self)
        ensures
            final(self).root == BinTreeNode::<T>::empty(),
    {
        self.root = BinTreeNode::<T>::new();
    }

    /// Puts `value` into the tree.
    pub fn insert(&mut self, value: T) where T: PartialOrd
        ensures
            final(self).root.count() == old(self).root.count() + 1,
            forall|v: T|
                #[trigger] final(self).root.holds(v) <==> old(self).root.holds(v) || v == value,
            T::obeys_partial_cmp_spec() ==> final(self).root == old(self).root.with_value(value),
    {
        self.root.insert(value);
    }

    /// Puts a clone of each element of `values` into the tree, first to last.
    pub fn insert_many(&mut self, values: &Vec<T>) where T: PartialOrd
        ensures
            final(self).root.count() == old(self).root.count() + values.len(),
            exists|copies: Seq<T>|
                {
                    &&& #[trigger] clones_of(values@, copies)
                    &&& forall|v: T| #[trigger]
                        final(self).root.holds(v) <==> old(self).root.holds(v) || copies.contains(
                            v,
                        )
                    &&& T::obeys_partial_cmp_spec() ==> final(self).root == old(
                        self,
                    ).root.with_values(copies)
                },
    {
        let ghost mut copies: Seq<T> = Seq::empty();
        let mut i: usize = 0;
        while i < values.len()
            invariant
                i <= values.len(),
                copies.len() == i,
                forall|k: int|
                    0 <= k < copies.len() ==> cloned::<T>(#[trigger] values@[k], copies[k]),
                self.root.count() == old(self).root.count() + i,
                forall|v: T| #[trigger]
                    self.root.holds(v) <==> old(self).root.holds(v) || copies.contains(v),
                T::obeys_partial_cmp_spec() ==> self.root == old(self).root.with_values(copies),
            decreases values.len() - i,
        {
            let value = values[i].clone();
            let ghost before = copies;
            let ghost root = self.root;
            self.insert(value);
            proof {
                copies = before.push(value);
                assert(copies.drop_last() =~= before);
                assert forall|v: T| copies.contains(v) <==> before.contains(v) || v == value by {
                    if copies.contains(v) {
                        let k = choose|k: int| 0 <= k < copies.len() && copies[k] == v;
                        if k < before.len() {
                            assert(before[k] == v);
                        }
                    }
                    if before.contains(v) {
                        let k = choose|k: int| 0 <= k < before.len() && before[k] == v;
                        assert(copies[k] == v);
                    }
                    if v == value {
                        assert(copies.last() == v);
                    }
                }
                assert forall|v: T| #[trigger]
                    self.root.holds(v) <==> old(self).root.holds(v) || copies.contains(v) by {
                    assert(root.holds(v) <==> old(self).root.holds(v) || before.contains(v));
                }
            }
            i += 1;
        }
        assert(clones_of(values@, copies));
    }
}

} // verus!
