//! An owned binary tree: every node holds a key and at most one left and one
//! right subtree, each owned by its parent alone.

use vstd::prelude::*;

verus! {

/// An optional, singly-owned subtree.
pub type Link<T> = Option<Box<BinaryTree<T>>>;

/// A node together with everything below it.
#[derive(Debug)]
pub struct BinaryTree<T> {
    pub key: T,
    pub left: Link<T>,
    pub right: Link<T>,
}

/// The number of nodes of an optional subtree.
pub open spec fn link_size<T>(link: Link<T>) -> nat
    decreases link,
{
    match link {
        Some(child) => child.size(),
        None => 0,
    }
}

/// The keys of an optional subtree from left to right.
pub open spec fn link_in_order<T>(link: Link<T>) -> Seq<T>
    decreases link,
{
    match link {
        Some(child) => child.in_order(),
        None => Seq::empty(),
    }
}

/// An optional subtree of the same shape, each key replaced by its view.
pub open spec fn link_view<T: DeepView>(link: Link<T>) -> Link<T::V>
    decreases link,
{
    match link {
        Some(child) => Some(Box::new(tree_view(*child))),
        None => None,
    }
}

/// The tree of the same shape, each key replaced by its view.
pub open spec fn tree_view<T: DeepView>(tree: BinaryTree<T>) -> BinaryTree<T::V>
    decreases tree,
{
    BinaryTree {
        key: tree.key.deep_view(),
        left: link_view(tree.left),
        right: link_view(tree.right),
    }
}

impl<T: DeepView> DeepView for BinaryTree<T> {
    type V = BinaryTree<T::V>;

    open spec fn deep_view(&self) -> BinaryTree<T::V> {
        tree_view(*self)
    }
}

/// Building a node above a tree that already exists.
pub trait BinaryTreeIO<T> {
    /// A node with key `root` whose left subtree is the tree that `left` held
    /// and which has no right subtree. The tree is moved out of `left`.
    fn new_binary_without_right(root: T, left: &mut BinaryTree<T>) -> (tree: BinaryTree<T>)
        ensures
            tree.key == root,
            tree.left == Some(Box::new(*old(left))),
            tree.right is None,
    ;
}

impl<T> BinaryTree<T> {
    /// The number of nodes.
    pub open spec fn size(self) -> nat
        decreases self,
    {
        1 + link_size(self.left) + link_size(self.right)
    }

    /// The keys from left to right: those of the left subtree, the key of the
    /// node, those of the right subtree.
    pub open spec fn in_order(self) -> Seq<T>
        decreases self,
    {
        link_in_order(self.left) + seq![self.key] + link_in_order(self.right)
    }

    /// There are as many keys as nodes.
    pub proof fn lemma_in_order_len(self)
        ensures
            self.in_order().len() == self.size(),
        decreases self,
    {
        match self.left {
            Some(child) => child.lemma_in_order_len(),
            None => {},
        }
        match self.right {
            Some(child) => child.lemma_in_order_len(),
            None => {},
        }
    }

    /// Whether the node has no children.
    pub open spec fn is_leaf(self) -> bool {
        self.left is None && self.right is None
    }

    /// A tree of one node.
    pub fn new(key: T) -> (tree: Self)
        ensures
            tree.key == key,
            tree.is_leaf(),
    {
        BinaryTree { key, left: None, right: None }
    }

    /// The key of the topmost node.
    pub fn get_root(&self) -> (key: &T)
        ensures
            *key == self.key,
    {
        &self.key
    }

    /// The right subtree, if there is one.
    pub fn get_right(&self) -> (child: Option<&BinaryTree<T>>)
        ensures
            match self.right {
                Some(subtree) => child == Some(&*subtree),
                None => child is None,
            },
    {
        match &self.right {
            Some(subtree) => Some(&**subtree),
            None => None,
        }
    }

    /// The left subtree, if there is one.
    pub fn get_left(&self) -> (child: Option<&BinaryTree<T>>)
        ensures
            match self.left {
                Some(subtree) => child == Some(&*subtree),
                None => child is None,
            },
    {
        match &self.left {
            Some(subtree) => Some(&**subtree),
            None => None,
        }
    }

    /// Replaces the right subtree; the subtree that was there is dropped.
    pub fn set_right(&mut self, right: Link<T>)
        ensures
            final(self).right == right,
            final(self).left == old(self).left,
            final(self).key == old(self).key,
    {
        self.right = right;
    }

    /// Replaces the left subtree; the subtree that was there is dropped.
    pub fn set_left(&mut self, left: Link<T>)
        ensures
            final(self).left == left,
            final(self).right == old(self).right,
            final(self).key == old(self).key,
    {
        self.left = left;
    }
}

} // verus!
