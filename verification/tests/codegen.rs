use arith_compiler::ast::{AstNode, NodeKind};
use arith_compiler::binary_tree::BinaryTree;
use arith_compiler::codegen::{generate, get_expr, pop, push, write_program, Instruction, Register};

fn number(digits: &str) -> BinaryTree<AstNode> {
    BinaryTree::new(AstNode { kind: NodeKind::Num, value: digits.to_string() })
}

fn binary(
    kind: NodeKind,
    symbol: &str,
    left: BinaryTree<AstNode>,
    right: BinaryTree<AstNode>,
) -> BinaryTree<AstNode> {
    let mut tree = BinaryTree::new(AstNode { kind, value: symbol.to_string() });
    tree.set_left(Some(Box::new(left)));
    tree.set_right(Some(Box::new(right)));
    tree
}

fn load(digits: &str) -> Instruction {
    Instruction::LoadImm(digits.to_string())
}

#[test]
fn push_emits_and_counts() {
    let mut code = vec![load("1")];
    let mut depth = 4;
    push(&mut code, &mut depth);
    assert_eq!(code, vec![load("1"), Instruction::Push]);
    assert_eq!(depth, 5);
}

#[test]
fn pop_emits_and_counts() {
    let mut code = vec![load("1")];
    let mut depth = 4;
    pop(&mut code, &mut depth, Register::A1);
    assert_eq!(code, vec![load("1"), Instruction::Pop(Register::A1)]);
    assert_eq!(depth, 3);
    pop(&mut code, &mut depth, Register::A0);
    assert_eq!(
        code,
        vec![load("1"), Instruction::Pop(Register::A1), Instruction::Pop(Register::A0)]
    );
    assert_eq!(depth, 2);
}

#[test]
fn number_is_one_load() {
    let tree = number("42");
    let mut code = Vec::new();
    let mut depth = 0;
    get_expr(Some(&tree), &mut code, &mut depth);
    assert_eq!(code, vec![load("42")]);
    assert_eq!(depth, 0);
}

#[test]
fn operator_takes_right_operand_first() {
    let tree = binary(NodeKind::Sub, "-", number("7"), number("2"));
    assert_eq!(
        generate(&tree),
        vec![
            load("2"),
            Instruction::Push,
            load("7"),
            Instruction::Pop(Register::A1),
            Instruction::Sub,
        ]
    );
}

#[test]
fn each_operator_has_its_instruction() {
    let last = |kind, symbol| {
        generate(&binary(kind, symbol, number("1"), number("2"))).pop().unwrap()
    };
    assert_eq!(last(NodeKind::Add, "+"), Instruction::Add);
    assert_eq!(last(NodeKind::Sub, "-"), Instruction::Sub);
    assert_eq!(last(NodeKind::Mul, "*"), Instruction::Mul);
    assert_eq!(last(NodeKind::Div, "/"), Instruction::Div);
}

#[test]
fn nested_operands() {
    // (1 - 2) + 3 * 4
    let tree = binary(
        NodeKind::Add,
        "+",
        binary(NodeKind::Sub, "-", number("1"), number("2")),
        binary(NodeKind::Mul, "*", number("3"), number("4")),
    );
    assert_eq!(
        generate(&tree),
        vec![
            load("4"),
            Instruction::Push,
            load("3"),
            Instruction::Pop(Register::A1),
            Instruction::Mul,
            Instruction::Push,
            load("2"),
            Instruction::Push,
            load("1"),
            Instruction::Pop(Register::A1),
            Instruction::Sub,
            Instruction::Pop(Register::A1),
            Instruction::Add,
        ]
    );
}

#[test]
fn get_expr_appends_and_keeps_the_depth() {
    let tree = binary(NodeKind::Div, "/", number("9"), number("3"));
    let mut code = vec![Instruction::Push];
    let mut depth = 1;
    get_expr(Some(&tree), &mut code, &mut depth);
    assert_eq!(depth, 1);
    assert_eq!(
        code,
        vec![
            Instruction::Push,
            load("3"),
            Instruction::Push,
            load("9"),
            Instruction::Pop(Register::A1),
            Instruction::Div,
        ]
    );
}

#[test]
fn depth_returns_to_zero_for_deep_trees() {
    // left-deep and right-deep chains of 200 operators
    let mut left_deep = number("0");
    let mut right_deep = number("0");
    for _ in 0..200 {
        left_deep = binary(NodeKind::Add, "+", left_deep, number("1"));
        right_deep = binary(NodeKind::Add, "+", number("1"), right_deep);
    }
    for tree in [left_deep, right_deep] {
        let mut code = Vec::new();
        let mut depth = 0;
        get_expr(Some(&tree), &mut code, &mut depth);
        assert_eq!(depth, 0);
        let pushes = code.iter().filter(|i| **i == Instruction::Push).count();
        let pops = code.iter().filter(|i| matches!(i, Instruction::Pop(_))).count();
        assert_eq!(pushes, 200);
        assert_eq!(pops, 200);
        let mut level: i64 = 0;
        for instruction in &code {
            match instruction {
                Instruction::Push => level += 1,
                Instruction::Pop(_) => level -= 1,
                _ => {}
            }
            assert!(level >= 0);
        }
        assert_eq!(level, 0);
    }
}

#[test]
fn register_names() {
    assert_eq!(Register::A0.name(), "a0");
    assert_eq!(Register::A1.name(), "a1");
}

#[test]
fn instruction_text() {
    let text = |instruction: Instruction| {
        let mut out = String::from("#");
        instruction.write_to(&mut out);
        out
    };
    assert_eq!(text(load("123")), "#  li a0, 123\n");
    assert_eq!(text(Instruction::Push), "#  addi sp, sp, -8\n  sd a0, 0(sp)\n");
    assert_eq!(text(Instruction::Pop(Register::A1)), "#  ld a1, 0(sp)\n  addi sp, sp, 8\n");
    assert_eq!(text(Instruction::Pop(Register::A0)), "#  ld a0, 0(sp)\n  addi sp, sp, 8\n");
    assert_eq!(text(Instruction::Add), "#  add a0, a0, a1\n");
    assert_eq!(text(Instruction::Sub), "#  sub a0, a0, a1\n");
    assert_eq!(text(Instruction::Mul), "#  mul a0, a0, a1\n");
    assert_eq!(text(Instruction::Div), "#  div a0, a0, a1\n");
}

#[test]
fn program_of_no_instructions() {
    assert_eq!(write_program(&[]), "  .global main\nmain:\n  ret\n");
}

#[test]
fn program_text() {
    let tree = binary(NodeKind::Sub, "-", number("7"), number("2"));
    assert_eq!(
        write_program(&generate(&tree)),
        "  .global main\n\
         main:\n\
         \x20 li a0, 2\n\
         \x20 addi sp, sp, -8\n\
         \x20 sd a0, 0(sp)\n\
         \x20 li a0, 7\n\
         \x20 ld a1, 0(sp)\n\
         \x20 addi sp, sp, 8\n\
         \x20 sub a0, a0, a1\n\
         \x20 ret\n"
    );
}
