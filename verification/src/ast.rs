//! The payload of the syntax tree, and what makes a tree an expression.

use vstd::prelude::*;
use crate::binary_tree::{BinaryTree, BinaryTreeIO};

verus! {

/// What a node of the syntax tree stands for.
#[derive(Debug, PartialEq, Eq, Clone, Copy, Structural)]
pub enum NodeKind {
    Add,
    Sub,
    Mul,
    Div,
    Num,
}

/// The payload of a node: its kind and the characters it was read from, the
/// digits of a number or the symbol of an operator.
#[derive(Debug)]
pub struct AstNode {
    pub kind: NodeKind,
    pub value: String,
}

/// What a node says, as plain values.
pub struct AstNodeView {
    pub kind: NodeKind,
    pub text: Seq<char>,
}

/// A syntax tree as a plain value.
pub type Syntax = BinaryTree<AstNodeView>;

impl View for AstNode {
    type V = AstNodeView;

    open spec fn view(&self) -> AstNodeView {
        AstNodeView { kind: self.kind, text: self.value@ }
    }
}

impl DeepView for AstNode {
    type V = AstNodeView;

    open spec fn deep_view(&self) -> AstNodeView {
        self.view()
    }
}

/// The tree of a number: a single node.
pub open spec fn leaf(text: Seq<char>) -> Syntax {
    BinaryTree { key: AstNodeView { kind: NodeKind::Num, text }, left: None, right: None }
}

/// The tree of an operator applied to two operands.
pub open spec fn branch(kind: NodeKind, text: Seq<char>, left: Syntax, right: Syntax) -> Syntax {
    BinaryTree {
        key: AstNodeView { kind, text },
        left: Some(Box::new(left)),
        right: Some(Box::new(right)),
    }
}

/// Whether a tree is an expression: every number is a leaf and every operator
/// has exactly two operands, which are expressions themselves.
pub open spec fn is_expression(tree: Syntax) -> bool
    decreases tree,
{
    if tree.key.kind == NodeKind::Num {
        tree.left is None && tree.right is None
    } else {
        &&& tree.left matches Some(left) && is_expression(*left)
        &&& tree.right matches Some(right) && is_expression(*right)
    }
}

/// Whether a tree is a single number.
pub open spec fn is_number(tree: Syntax) -> bool {
    tree.key.kind == NodeKind::Num && tree.left is None && tree.right is None
}

/// Whether a tree is a product as the grammar builds it: a number, or `*` or
/// `/` applied to a product on the left and a number on the right.
pub open spec fn is_product(tree: Syntax) -> bool
    decreases tree,
{
    if tree.key.kind == NodeKind::Mul || tree.key.kind == NodeKind::Div {
        &&& tree.left matches Some(left) && is_product(*left)
        &&& tree.right matches Some(right) && is_number(*right)
    } else {
        is_number(tree)
    }
}

/// Whether a tree is a sum as the grammar builds it: a product, or `+` or `-`
/// applied to a sum on the left and a product on the right. In such a tree
/// no `+` or `-` stands below a `*` or `/`, and operators of one level group
/// from the left.
pub open spec fn is_sum(tree: Syntax) -> bool
    decreases tree,
{
    if tree.key.kind == NodeKind::Add || tree.key.kind == NodeKind::Sub {
        &&& tree.left matches Some(left) && is_sum(*left)
        &&& tree.right matches Some(right) && is_product(*right)
    } else {
        is_product(tree)
    }
}

/// A product is an expression.
pub proof fn lemma_product_is_expression(tree: Syntax)
    requires
        is_product(tree),
    ensures
        is_expression(tree),
    decreases tree,
{
    if tree.key.kind == NodeKind::Mul || tree.key.kind == NodeKind::Div {
        lemma_product_is_expression(*tree.left->0);
        assert(is_expression(*tree.right->0));
    }
}

/// A sum is an expression.
pub proof fn lemma_sum_is_expression(tree: Syntax)
    requires
        is_sum(tree),
    ensures
        is_expression(tree),
    decreases tree,
{
    if tree.key.kind == NodeKind::Add || tree.key.kind == NodeKind::Sub {
        lemma_sum_is_expression(*tree.left->0);
        lemma_product_is_expression(*tree.right->0);
    } else {
        lemma_product_is_expression(tree);
    }
}

/// Whether a node is a `+` or a `-`.
pub open spec fn is_additive(node: AstNodeView) -> bool {
    node.kind == NodeKind::Add || node.kind == NodeKind::Sub
}

/// The nodes of a product from left to right: no `+` or `-` is among them,
/// and where the product has an operator at its root, they end with that
/// operator and the number on its right.
pub proof fn lemma_product_nodes(tree: Syntax)
    requires
        is_product(tree),
    ensures
        tree.in_order().len() >= 1,
        forall|i: int| 0 <= i < tree.in_order().len() ==> !is_additive(#[trigger] tree.in_order()[i]),
        is_number(tree) ==> tree.in_order() == seq![tree.key],
        !is_number(tree) ==> tree.in_order() == (*tree.left->0).in_order() + seq![
            tree.key,
            (*tree.right->0).key,
        ],
    decreases tree,
{
    if tree.key.kind == NodeKind::Mul || tree.key.kind == NodeKind::Div {
        let left = *tree.left->0;
        let right = *tree.right->0;
        lemma_product_nodes(left);
        assert(right.in_order() =~= seq![right.key]);
        assert(tree.in_order() =~= left.in_order() + seq![tree.key, right.key]);
    } else {
        assert(tree.in_order() =~= seq![tree.key]);
    }
}

/// A product is determined by its nodes from left to right.
pub proof fn lemma_product_unique(one: Syntax, other: Syntax)
    requires
        is_product(one),
        is_product(other),
        one.in_order() == other.in_order(),
    ensures
        one == other,
    decreases one,
{
    lemma_product_nodes(one);
    lemma_product_nodes(other);
    let nodes = one.in_order();
    let n = nodes.len() as int;
    if is_number(one) {
        if !is_number(other) {
            lemma_product_nodes(*other.left->0);
        }
        assert(nodes[0] == one.key && nodes[0] == other.key);
    } else {
        let left = *one.left->0;
        lemma_product_nodes(left);
        if is_number(other) {
            assert(false);
        }
        let other_left = *other.left->0;
        lemma_product_nodes(other_left);
        assert(left.in_order().len() == n - 2);
        assert(other_left.in_order().len() == n - 2);
        assert(nodes[n - 2] == one.key && nodes[n - 2] == other.key);
        assert(nodes[n - 1] == (*one.right->0).key && nodes[n - 1] == (*other.right->0).key);
        assert(left.in_order() =~= nodes.take(n - 2));
        assert(other_left.in_order() =~= nodes.take(n - 2));
        lemma_product_unique(left, other_left);
        assert(*one.right->0 == *other.right->0);
        assert(one.left == other.left);
        assert(one.right == other.right);
    }
}

/// The nodes of a sum with a `+` or `-` at its root: those of the sum on
/// the left, the root, and those of the product on the right, among which
/// there is no `+` and no `-`.
pub proof fn lemma_sum_nodes(tree: Syntax)
    requires
        is_sum(tree),
        is_additive(tree.key),
    ensures
        tree.in_order() == (*tree.left->0).in_order() + seq![tree.key] + (
        *tree.right->0).in_order(),
        forall|i: int|
            (*tree.left->0).in_order().len() < i < tree.in_order().len() ==> !is_additive(
                #[trigger] tree.in_order()[i],
            ),
{
    let left = *tree.left->0;
    let right = *tree.right->0;
    lemma_product_nodes(right);
    assert(tree.in_order() =~= left.in_order() + seq![tree.key] + right.in_order());
    assert forall|i: int| left.in_order().len() < i < tree.in_order().len() implies !is_additive(
        #[trigger] tree.in_order()[i],
    ) by {
        assert(tree.in_order()[i] == right.in_order()[i - left.in_order().len() - 1]);
    }
}

/// The grammar is unambiguous: a sum is determined by its nodes from left to
/// right. So the tree of an expression is the one sum that spells its
/// tokens.
pub proof fn lemma_sum_unique(one: Syntax, other: Syntax)
    requires
        is_sum(one),
        is_sum(other),
        one.in_order() == other.in_order(),
    ensures
        one == other,
    decreases one,
{
    let nodes = one.in_order();
    if is_additive(one.key) {
        lemma_sum_nodes(one);
        let left = *one.left->0;
        let right = *one.right->0;
        let k = left.in_order().len() as int;
        assert(nodes[k] == one.key);
        if !is_additive(other.key) {
            lemma_product_nodes(other);
            assert(!is_additive(other.in_order()[k]));
        }
        lemma_sum_nodes(other);
        let other_left = *other.left->0;
        let other_right = *other.right->0;
        let m = other_left.in_order().len() as int;
        assert(nodes[m] == other.key);
        if k < m {
            assert(!is_additive(one.in_order()[m]));
        }
        if m < k {
            assert(!is_additive(other.in_order()[k]));
        }
        assert(left.in_order() =~= nodes.take(k));
        assert(other_left.in_order() =~= nodes.take(k));
        assert(right.in_order() =~= nodes.skip(k + 1));
        assert(other_right.in_order() =~= nodes.skip(k + 1));
        lemma_sum_unique(left, other_left);
        lemma_product_unique(right, other_right);
        assert(one.left == other.left);
        assert(one.right == other.right);
    } else {
        if is_additive(other.key) {
            lemma_sum_nodes(other);
            lemma_product_nodes(one);
            let m = (*other.left->0).in_order().len() as int;
            assert(other.in_order()[m] == other.key);
            assert(!is_additive(one.in_order()[m]));
        }
        lemma_product_unique(one, other);
    }
}

impl Default for AstNode {
    /// The number with no digits.
    fn default() -> (node: Self)
        ensures
            node@ == (AstNodeView { kind: NodeKind::Num, text: Seq::empty() }),
    {
        AstNode { kind: NodeKind::Num, value: String::new() }
    }
}

impl Default for BinaryTree<AstNode> {
    /// The tree of the number with no digits.
    fn default() -> (tree: Self)
        ensures
            tree.deep_view() == leaf(Seq::empty()),
    {
        BinaryTree::new(AstNode::default())
    }
}

impl BinaryTreeIO<AstNode> for BinaryTree<AstNode> {
    /// Leaves the tree of the number with no digits in `left`.
    fn new_binary_without_right(root: AstNode, left: &mut BinaryTree<AstNode>) -> (tree:
        BinaryTree<AstNode>)
        ensures
            final(left).deep_view() == leaf(Seq::empty()),
    {
        let mut bt = BinaryTree::new(root);
        let mut taken = BinaryTree::default();
        core::mem::swap(left, &mut taken);
        bt.set_left(Some(Box::new(taken)));
        bt
    }
}

} // verus!
