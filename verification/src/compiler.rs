//! The whole compilation: from the text of an expression to its code, or to
//! the failure that stops it.

use vstd::prelude::*;
use crate::ast::{leaf, lemma_sum_is_expression};
use crate::codegen::{
    Instruction, InstructionView, code_of, generate, lemma_stack_need_bound, program_text,
    write_program,
};
use crate::diagnostics::{
    Diagnostic, DiagnosticView, ErrorKind, find_invalid, first_invalid, is_blank, is_invalid,
    lemma_first_invalid, rendered,
};
use crate::parser::{
    Cursor, expr, is_flat_expression, lemma_flat_expression_is_read, lemma_parse_expr,
    lemma_parse_expr_same_words, missing_operand, parse_expr,
};
use crate::scanner::{
    TokenKind, char_kind, is_digit, is_token_of, lemma_scan_digits, lemma_scan_separator,
    lemma_scan_tokens, scan, shifted, tokenize,
};
use crate::semantics::{
    Machine, lemma_code_computes_value, lemma_run_one, lemma_sum_value, literal_value, result_of,
    sum_value,
};

verus! {

/// What compiling the expression `s` gives.
///
/// A character that may not occur in an expression stops the compilation
/// before anything is parsed, and the failure points at the first such
/// character. Otherwise the tokens of `s` are parsed as a sum from the first
/// token on: a missing operand is a failure that points at the token found in
/// its place, or at the end of `s`; a sum is compiled into its code. Tokens
/// that follow the sum are not looked at.
pub open spec fn compiled(s: Seq<char>) -> Result<Seq<InstructionView>, DiagnosticView> {
    match first_invalid(s) {
        Some(i) => Err(DiagnosticView { kind: ErrorKind::InvalidCharacter, index: i }),
        None => match parse_expr(scan(s), 0) {
            Ok((tree, _)) => Ok(code_of(tree)),
            Err(at) => Err(missing_operand(scan(s), at, s.len() as int)),
        },
    }
}

/// Compiles an expression into the instructions that compute it.
pub fn compile(expression: &str) -> (result: Result<Vec<Instruction>, Diagnostic>)
    ensures
        match compiled(expression@) {
            Ok(code) => result matches Ok(built) && built.deep_view() == code,
            Err(diagnostic) => result matches Err(found) && found@ == diagnostic,
        },
{
    match find_invalid(expression) {
        Some(index) => {
            return Err(Diagnostic { kind: ErrorKind::InvalidCharacter, index });
        },
        None => {},
    }
    let tokens = tokenize(expression);
    let end = expression.unicode_len();
    let mut cursor = Cursor::new(tokens.as_slice(), end);
    let tree = match expr(&mut cursor) {
        Ok(tree) => tree,
        Err(diagnostic) => {
            return Err(diagnostic);
        },
    };
    proof {
        lemma_parse_expr(scan(expression@), 0);
        lemma_sum_is_expression(tree.deep_view());
        tree.deep_view().lemma_in_order_len();
        lemma_stack_need_bound(tree.deep_view());
    }
    Ok(generate(&tree))
}

/// Compiles an expression into a program in assembly text, or into the
/// two lines that show where and why the compilation stopped.
pub fn compile_to_assembly(expression: &str) -> (result: Result<String, String>)
    ensures
        match compiled(expression@) {
            Ok(code) => result matches Ok(text) && text@ == program_text(code),
            Err(diagnostic) => result matches Err(text) && text@ == rendered(
                expression@,
                diagnostic,
            ),
        },
{
    match compile(expression) {
        Ok(code) => Ok(write_program(code.as_slice())),
        Err(diagnostic) => Err(diagnostic.render(expression)),
    }
}

/// The code that an input is compiled into returns the value of the
/// expression that was read from it: the value that its tokens have under
/// integer arithmetic, with `*` and `/` before `+` and `-`, from left to
/// right within one level, and division rounded toward zero. Where the
/// expression divides by zero, the program faults.
pub proof fn lemma_code_returns_value(s: Seq<char>)
    requires
        compiled(s) is Ok,
    ensures
        parse_expr(scan(s), 0) matches Ok((tree, rest)) && compiled(s) == Ok::<
            Seq<InstructionView>,
            DiagnosticView,
        >(code_of(tree)) && result_of(code_of(tree)) == sum_value(scan(s).take(rest)),
{
    let ts = scan(s);
    lemma_parse_expr(ts, 0);
    let (tree, rest) = parse_expr(ts, 0)->Ok_0;
    lemma_sum_is_expression(tree);
    lemma_code_computes_value(tree, Machine { a0: 0, a1: 0, stack: Seq::empty() });
    assert(ts.subrange(0, rest) =~= ts.take(rest));
    lemma_sum_value(tree, ts.take(rest));
}

/// An input that holds an expression and nothing else but blank space is
/// compiled, and its code returns the value of the expression.
pub proof fn lemma_round_trip(s: Seq<char>)
    requires
        first_invalid(s) is None,
        is_flat_expression(scan(s)),
    ensures
        compiled(s) matches Ok(code) && result_of(code) == sum_value(scan(s)),
{
    let ts = scan(s);
    lemma_flat_expression_is_read(ts);
    lemma_code_returns_value(s);
    assert(ts.take(ts.len() as int) =~= ts);
}

/// An input that is one number is compiled into the one instruction that
/// loads it, and the code returns the number.
pub proof fn lemma_single_number(s: Seq<char>)
    requires
        s.len() > 0,
        forall|k: int| 0 <= k < s.len() ==> is_digit(#[trigger] s[k]),
    ensures
        compiled(s) == Ok::<Seq<InstructionView>, DiagnosticView>(
            seq![InstructionView::LoadImm(s)],
        ),
        result_of(seq![InstructionView::LoadImm(s)]) == Some(literal_value(s)),
{
    lemma_first_invalid(s, 0);
    match first_invalid(s) {
        Some(i) => {
            assert(is_digit(s[i]));
        },
        None => {},
    }
    lemma_scan_digits(s);
    let ts = scan(s);
    assert(ts[0].kind == TokenKind::Num);
    assert(parse_expr(ts, 0) == Ok::<_, int>((leaf(s), 1int)));
    lemma_run_one(Machine { a0: 0, a1: 0, stack: Seq::empty() }, InstructionView::LoadImm(s));
}

/// Where compiling fails, the failure points into the input or just behind
/// it: at the first character that may not occur, at a punctuation character
/// that stands where a number is required, or behind the last character.
pub proof fn lemma_failure_is_located(s: Seq<char>)
    requires
        compiled(s) is Err,
    ensures
        ({
            let failure = compiled(s)->Err_0;
            match failure.kind {
                ErrorKind::InvalidCharacter => {
                    &&& 0 <= failure.index < s.len()
                    &&& is_invalid(s[failure.index])
                    &&& forall|k: int| 0 <= k < failure.index ==> !is_invalid(#[trigger] s[k])
                },
                ErrorKind::ExpectedNumber => {
                    &&& 0 <= failure.index < s.len()
                    &&& char_kind(s[failure.index]) == TokenKind::Punck
                },
                ErrorKind::UnexpectedEndOfInput => failure.index == s.len(),
            }
        }),
{
    lemma_first_invalid(s, 0);
    if first_invalid(s) is None {
        let ts = scan(s);
        lemma_parse_expr(ts, 0);
        lemma_scan_tokens(s);
        let at = parse_expr(ts, 0)->Err_0;
        if at < ts.len() {
            assert(is_token_of(ts[at], s));
        }
    }
}

/// Blank space can be put in or taken out anywhere but inside a run of
/// digits without changing what the input is compiled into: the code is
/// the same, and so is a failure, which points at the same character.
pub proof fn lemma_blank_is_insignificant(a: Seq<char>, c: char, b: Seq<char>)
    requires
        is_blank(c),
        !(a.len() > 0 && b.len() > 0 && is_digit(a.last()) && is_digit(b.first())),
    ensures
        match (compiled(a + seq![c] + b), compiled(a + b)) {
            (Ok(with), Ok(without)) => with == without,
            (Err(with), Err(without)) => {
                &&& with.kind == without.kind
                &&& with.index == if without.index < a.len() {
                    without.index
                } else {
                    without.index + 1
                }
            },
            _ => false,
        },
{
    let s1 = a + seq![c] + b;
    let s2 = a + b;
    let n = a.len() as int;
    lemma_first_invalid(s1, 0);
    lemma_first_invalid(s2, 0);
    assert forall|i: int| 0 <= i < s2.len() implies #[trigger] s2[i] == s1[if i < n {
        i
    } else {
        i + 1
    }] by {}
    assert forall|j: int| 0 <= j < s1.len() && j != n implies #[trigger] s1[j] == s2[if j < n {
        j
    } else {
        j - 1
    }] by {}
    assert(s1[n] == c);
    match first_invalid(s2) {
        Some(i) => {
            let j = if i < n {
                i
            } else {
                i + 1
            };
            assert(s1[j] == s2[i]);
            match first_invalid(s1) {
                Some(k) => {
                    if k < j {
                        if k != n {
                            let back = if k < n {
                                k
                            } else {
                                k - 1
                            };
                            assert(s1[k] == s2[back]);
                            assert(!is_invalid(s2[back]));
                        }
                    } else if k > j {
                        assert(!is_invalid(s1[j]));
                    }
                },
                None => {
                    assert(!is_invalid(s1[j]));
                },
            }
        },
        None => {
            match first_invalid(s1) {
                Some(k) => {
                    if k != n {
                        let back = if k < n {
                            k
                        } else {
                            k - 1
                        };
                        assert(s1[k] == s2[back]);
                        assert(!is_invalid(s2[back]));
                    }
                },
                None => {},
            }
            lemma_scan_separator(a, c, b);
            let t1 = scan(s1);
            let t2 = scan(s2);
            lemma_parse_expr_same_words(t1, t2, 0);
            lemma_parse_expr(t2, 0);
            match parse_expr(t2, 0) {
                Ok(_) => {},
                Err(at) => {
                    if at < t2.len() {
                        let front = scan(a);
                        lemma_scan_tokens(a);
                        lemma_scan_tokens(b);
                        if at < front.len() {
                            assert(is_token_of(front[at], a));
                            assert(t1[at] == front[at]);
                            assert(t2[at] == front[at]);
                        } else {
                            let k = at - front.len();
                            assert(is_token_of(scan(b)[k], b));
                            assert(t1[at] == shifted(scan(b), n + 1)[k]);
                            assert(t2[at] == shifted(scan(b), n)[k]);
                        }
                    }
                },
            }
        },
    }
}

} // verus!
