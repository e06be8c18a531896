use arith_compiler::diagnostics::{find_invalid, Diagnostic, ErrorKind};

#[test]
fn messages() {
    let message = |kind| Diagnostic { kind, index: 0 }.message();
    assert_eq!(message(ErrorKind::InvalidCharacter), "invalid token");
    assert_eq!(message(ErrorKind::ExpectedNumber), "expected a number");
    assert_eq!(message(ErrorKind::UnexpectedEndOfInput), "expected a number");
}

#[test]
fn render_points_at_the_index() {
    let invalid = Diagnostic { kind: ErrorKind::InvalidCharacter, index: 2 };
    assert_eq!(invalid.render("1+s"), "1+s\n  ^ invalid token");
    let expected = Diagnostic { kind: ErrorKind::ExpectedNumber, index: 2 };
    assert_eq!(expected.render("1++1"), "1++1\n  ^ expected a number");
    let end = Diagnostic { kind: ErrorKind::UnexpectedEndOfInput, index: 2 };
    assert_eq!(end.render("1+"), "1+\n  ^ expected a number");
}

#[test]
fn render_at_the_first_column() {
    let diagnostic = Diagnostic { kind: ErrorKind::ExpectedNumber, index: 0 };
    assert_eq!(diagnostic.render("+1"), "+1\n^ expected a number");
    assert_eq!(diagnostic.render(""), "\n^ expected a number");
}

#[test]
fn find_invalid_finds_the_first() {
    assert_eq!(find_invalid("1+s"), Some(2));
    assert_eq!(find_invalid("s+t"), Some(0));
    assert_eq!(find_invalid("1 + 2 = 3 ?"), Some(6));
    assert_eq!(find_invalid("12.5"), Some(2));
    assert_eq!(find_invalid("\u{e9}"), Some(0));
    assert_eq!(find_invalid(" 1\u{e9}2x"), Some(2));
}

#[test]
fn find_invalid_accepts_tokens_and_blanks() {
    assert_eq!(find_invalid(""), None);
    assert_eq!(find_invalid("0123456789"), None);
    assert_eq!(find_invalid("+-*/()"), None);
    assert_eq!(find_invalid(" \t\r\n"), None);
    assert_eq!(find_invalid(" 12 + 34 - 5 "), None);
    assert_eq!(find_invalid("1++1"), None);
}
