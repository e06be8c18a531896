use arith_compiler::ast::{AstNode, NodeKind};
use arith_compiler::binary_tree::{BinaryTree, BinaryTreeIO};

fn number(digits: &str) -> AstNode {
    AstNode { kind: NodeKind::Num, value: digits.to_string() }
}

#[test]
fn test_bt() {
    let mut bt1 = BinaryTree::new(AstNode {
        kind: NodeKind::Num,
        value: "1".to_string(),
    });
    bt1.set_left(Some(Box::new(BinaryTree::new(AstNode {
        kind: NodeKind::Num,
        value: "0".to_string(),
    }))));
    let bt2 = BinaryTree::new_binary_without_right(
        AstNode {
            kind: NodeKind::Add,
            value: String::new(),
        },
        &mut bt1,
    );

    let left = bt2.get_left();
    let lleft = left.unwrap().get_left();

    println!("{:?}", left);
    println!("{:?}", lleft);
}

#[test]
fn new_tree_is_a_leaf() {
    let tree = BinaryTree::new(number("7"));
    assert_eq!(tree.get_root().kind, NodeKind::Num);
    assert_eq!(tree.get_root().value, "7");
    assert!(tree.get_left().is_none());
    assert!(tree.get_right().is_none());
}

#[test]
fn set_left_and_right_replace_children() {
    let mut tree = BinaryTree::new(AstNode { kind: NodeKind::Sub, value: "-".to_string() });
    tree.set_left(Some(Box::new(BinaryTree::new(number("1")))));
    tree.set_right(Some(Box::new(BinaryTree::new(number("2")))));
    assert_eq!(tree.get_left().unwrap().get_root().value, "1");
    assert_eq!(tree.get_right().unwrap().get_root().value, "2");
    assert_eq!(tree.get_root().value, "-");

    tree.set_left(Some(Box::new(BinaryTree::new(number("3")))));
    assert_eq!(tree.get_left().unwrap().get_root().value, "3");
    assert_eq!(tree.get_right().unwrap().get_root().value, "2");

    tree.set_right(None);
    assert!(tree.get_right().is_none());
    assert_eq!(tree.get_left().unwrap().get_root().value, "3");
}

#[test]
fn new_binary_without_right_moves_the_left_tree() {
    let mut old = BinaryTree::new(number("1"));
    old.set_left(Some(Box::new(BinaryTree::new(number("0")))));
    let tree = BinaryTree::new_binary_without_right(
        AstNode { kind: NodeKind::Add, value: "+".to_string() },
        &mut old,
    );
    assert_eq!(tree.get_root().kind, NodeKind::Add);
    assert_eq!(tree.get_root().value, "+");
    assert!(tree.get_right().is_none());
    let left = tree.get_left().unwrap();
    assert_eq!(left.get_root().value, "1");
    assert_eq!(left.get_left().unwrap().get_root().value, "0");
    assert!(left.get_right().is_none());

    // what is left behind is the tree of the number with no digits
    assert_eq!(old.get_root().kind, NodeKind::Num);
    assert_eq!(old.get_root().value, "");
    assert!(old.get_left().is_none());
    assert!(old.get_right().is_none());
}

#[test]
fn default_values() {
    let node = AstNode::default();
    assert_eq!(node.kind, NodeKind::Num);
    assert_eq!(node.value, "");
    let tree: BinaryTree<AstNode> = BinaryTree::default();
    assert_eq!(tree.get_root().kind, NodeKind::Num);
    assert_eq!(tree.get_root().value, "");
    assert!(tree.get_left().is_none());
    assert!(tree.get_right().is_none());
}
