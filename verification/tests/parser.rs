use arith_compiler::ast::{AstNode, NodeKind};
use arith_compiler::binary_tree::BinaryTree;
use arith_compiler::diagnostics::{Diagnostic, ErrorKind};
use arith_compiler::parser::{expr, mul, operator, primary, Cursor};
use arith_compiler::scanner::{tokenize, Token, TokenKind};

fn show(tree: &BinaryTree<AstNode>) -> String {
    match (tree.get_left(), tree.get_right()) {
        (None, None) => tree.get_root().value.clone(),
        (left, right) => format!(
            "({} {} {})",
            tree.get_root().value,
            left.map(show).unwrap_or("_".to_string()),
            right.map(show).unwrap_or("_".to_string())
        ),
    }
}

fn parse(input: &str) -> (Result<String, Diagnostic>, usize) {
    let tokens = tokenize(input);
    let mut cursor = Cursor::new(&tokens, input.chars().count());
    let result = expr(&mut cursor).map(|tree| show(&tree));
    (result, cursor.consumed())
}

fn expected_number(index: usize) -> Diagnostic {
    Diagnostic { kind: ErrorKind::ExpectedNumber, index }
}

fn unexpected_end(index: usize) -> Diagnostic {
    Diagnostic { kind: ErrorKind::UnexpectedEndOfInput, index }
}

#[test]
fn operator_of_tokens() {
    let token = |kind, value: &str| Token { kind, value: value.to_string(), index: 0 };
    assert_eq!(operator(&token(TokenKind::Punck, "+")), Some(NodeKind::Add));
    assert_eq!(operator(&token(TokenKind::Punck, "-")), Some(NodeKind::Sub));
    assert_eq!(operator(&token(TokenKind::Punck, "*")), Some(NodeKind::Mul));
    assert_eq!(operator(&token(TokenKind::Punck, "/")), Some(NodeKind::Div));
    assert_eq!(operator(&token(TokenKind::Punck, "(")), None);
    assert_eq!(operator(&token(TokenKind::Punck, ")")), None);
    assert_eq!(operator(&token(TokenKind::Punck, "++")), None);
    assert_eq!(operator(&token(TokenKind::Punck, "")), None);
    assert_eq!(operator(&token(TokenKind::Num, "+")), None);
    assert_eq!(operator(&token(TokenKind::Ignore, "+")), None);
    assert_eq!(operator(&token(TokenKind::Num, "1")), None);
}

#[test]
fn cursor_reads_forward() {
    let tokens = tokenize("1+2");
    let mut cursor = Cursor::new(&tokens, 3);
    assert_eq!(cursor.consumed(), 0);
    assert_eq!(cursor.peek().unwrap().value, "1");
    assert_eq!(cursor.peek().unwrap().value, "1");
    assert_eq!(cursor.consumed(), 0);
    assert_eq!(cursor.next().unwrap().value, "1");
    assert_eq!(cursor.consumed(), 1);
    assert_eq!(cursor.peek().unwrap().value, "+");
    assert_eq!(cursor.expected_number(), expected_number(1));
    assert_eq!(cursor.next().unwrap().value, "+");
    assert_eq!(cursor.next().unwrap().value, "2");
    assert!(cursor.peek().is_none());
    assert!(cursor.next().is_none());
    assert!(cursor.next().is_none());
    assert_eq!(cursor.consumed(), 3);
    assert_eq!(cursor.expected_number(), unexpected_end(3));
}

#[test]
fn primary_reads_one_number() {
    let tokens = tokenize("12 34");
    let mut cursor = Cursor::new(&tokens, 5);
    let tree = primary(&mut cursor).unwrap();
    assert_eq!(tree.get_root().kind, NodeKind::Num);
    assert_eq!(tree.get_root().value, "12");
    assert!(tree.get_left().is_none() && tree.get_right().is_none());
    assert_eq!(cursor.peek().unwrap().value, "34");
}

#[test]
fn primary_leaves_what_is_no_number() {
    let tokens = tokenize("+1");
    let mut cursor = Cursor::new(&tokens, 2);
    assert!(primary(&mut cursor).is_none());
    assert_eq!(cursor.peek().unwrap().value, "+");

    let none: Vec<Token> = Vec::new();
    let mut cursor = Cursor::new(&none, 0);
    assert!(primary(&mut cursor).is_none());
    assert!(cursor.peek().is_none());

    let odd = vec![Token { kind: TokenKind::Ignore, value: "1".to_string(), index: 0 }];
    let mut cursor = Cursor::new(&odd, 1);
    assert!(primary(&mut cursor).is_none());
    assert_eq!(cursor.peek().unwrap().value, "1");
}

#[test]
fn mul_groups_from_the_left_and_stops_at_a_sum() {
    let tokens = tokenize("8/4*2+1");
    let mut cursor = Cursor::new(&tokens, 7);
    let tree = mul(&mut cursor).unwrap();
    assert_eq!(show(&tree), "(* (/ 8 4) 2)");
    assert_eq!(tree.get_root().kind, NodeKind::Mul);
    assert_eq!(tree.get_left().unwrap().get_root().kind, NodeKind::Div);
    assert_eq!(cursor.peek().unwrap().value, "+");
}

#[test]
fn mul_reports_a_missing_operand() {
    let tokens = tokenize("2*+3");
    let mut cursor = Cursor::new(&tokens, 4);
    assert_eq!(mul(&mut cursor).unwrap_err(), expected_number(2));
    assert_eq!(cursor.peek().unwrap().index, 2);

    let tokens = tokenize("2*");
    let mut cursor = Cursor::new(&tokens, 2);
    assert_eq!(mul(&mut cursor).unwrap_err(), unexpected_end(2));

    let tokens = tokenize("*2");
    let mut cursor = Cursor::new(&tokens, 2);
    assert_eq!(mul(&mut cursor).unwrap_err(), expected_number(0));
    assert_eq!(cursor.peek().unwrap().index, 0);
}

#[test]
fn single_number() {
    assert_eq!(parse("1"), (Ok("1".to_string()), 1));
    assert_eq!(parse("123"), (Ok("123".to_string()), 1));
}

#[test]
fn sums_group_from_the_left() {
    assert_eq!(parse("1-2+3"), (Ok("(+ (- 1 2) 3)".to_string()), 5));
    assert_eq!(parse("1-2-3-4"), (Ok("(- (- (- 1 2) 3) 4)".to_string()), 7));
}

#[test]
fn products_bind_tighter_than_sums() {
    assert_eq!(parse("2+3*4"), (Ok("(+ 2 (* 3 4))".to_string()), 5));
    assert_eq!(parse("2*3+4"), (Ok("(+ (* 2 3) 4)".to_string()), 5));
    assert_eq!(parse("1+2*3-4/5"), (Ok("(- (+ 1 (* 2 3)) (/ 4 5))".to_string()), 9));
}

#[test]
fn node_kinds_follow_the_symbols() {
    let tokens = tokenize("1+2");
    let tree = expr(&mut Cursor::new(&tokens, 3)).unwrap();
    assert_eq!(tree.get_root().kind, NodeKind::Add);
    assert_eq!(tree.get_root().value, "+");
    let tokens = tokenize("1-2");
    assert_eq!(expr(&mut Cursor::new(&tokens, 3)).unwrap().get_root().kind, NodeKind::Sub);
    let tokens = tokenize("1*2");
    assert_eq!(expr(&mut Cursor::new(&tokens, 3)).unwrap().get_root().kind, NodeKind::Mul);
    let tokens = tokenize("1/2");
    assert_eq!(expr(&mut Cursor::new(&tokens, 3)).unwrap().get_root().kind, NodeKind::Div);
}

#[test]
fn parsing_stops_in_front_of_what_is_no_operator() {
    assert_eq!(parse("1 2"), (Ok("1".to_string()), 1));
    assert_eq!(parse("1+2)3"), (Ok("(+ 1 2)".to_string()), 3));
    assert_eq!(parse("1(2"), (Ok("1".to_string()), 1));
}

#[test]
fn operator_after_operator() {
    assert_eq!(parse("1++1"), (Err(expected_number(2)), 2));
    assert_eq!(parse("1 + * 2"), (Err(expected_number(4)), 2));
    assert_eq!(parse("1*2-/3"), (Err(expected_number(4)), 4));
}

#[test]
fn operator_at_the_end() {
    assert_eq!(parse("1+"), (Err(unexpected_end(2)), 2));
    assert_eq!(parse("1+2*"), (Err(unexpected_end(4)), 4));
    assert_eq!(parse("1 -  "), (Err(unexpected_end(5)), 2));
}

#[test]
fn nothing_to_parse() {
    assert_eq!(parse(""), (Err(unexpected_end(0)), 0));
    assert_eq!(parse("   "), (Err(unexpected_end(3)), 0));
}

#[test]
fn operand_missing_at_the_start() {
    assert_eq!(parse("+1"), (Err(expected_number(0)), 0));
    assert_eq!(parse(" (1)"), (Err(expected_number(1)), 0));
}
