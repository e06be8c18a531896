use arith_compiler::codegen::{Instruction, Register};
use arith_compiler::compiler::{compile, compile_to_assembly};
use arith_compiler::diagnostics::{Diagnostic, ErrorKind};

/// Runs instructions on a machine with two registers and a stack. `None` is a
/// fault: a pop from the empty stack or a division by zero.
fn run(code: &[Instruction]) -> Option<i64> {
    let (mut a0, mut a1): (i64, i64) = (0, 0);
    let mut stack: Vec<i64> = Vec::new();
    for instruction in code {
        match instruction {
            Instruction::LoadImm(digits) => a0 = digits.parse().unwrap(),
            Instruction::Push => stack.push(a0),
            Instruction::Pop(Register::A0) => a0 = stack.pop()?,
            Instruction::Pop(Register::A1) => a1 = stack.pop()?,
            Instruction::Add => a0 += a1,
            Instruction::Sub => a0 -= a1,
            Instruction::Mul => a0 *= a1,
            Instruction::Div => a0 = a0.checked_div(a1)?,
        }
    }
    if stack.is_empty() {
        Some(a0)
    } else {
        None
    }
}

fn value(input: &str) -> i64 {
    run(&compile(input).unwrap()).unwrap()
}

fn test_xxx_do(input: &str) -> Result<String, String> {
    let code = match compile(input) {
        Ok(code) => code,
        Err(diagnostic) => return Err(diagnostic.render(input)),
    };
    compile_to_assembly(input)?;
    Ok(run(&code).unwrap().to_string())
}

#[test]
fn test_001_0_return_integer() {
    let input = 1.to_string();
    assert_eq!(test_xxx_do(input.as_str()).unwrap(), input);
}

#[test]
fn test_001_1_return_integer() {
    let input = 123.to_string();
    assert_eq!(test_xxx_do(input.as_str()).unwrap(), input);
}

#[test]
fn test_002_0_plus_and_minus() {
    let input = "1-2+3";
    let expect = 1 - 2 + 3;
    assert_eq!(test_xxx_do(input).unwrap(), expect.to_string());
}

#[test]
fn test_002_1_plus_and_minus() {
    let input = "112-22+33";
    let expect = 112 - 22 + 33;
    assert_eq!(test_xxx_do(input).unwrap(), expect.to_string());
}

#[test]
fn test_003_0_space_characters() {
    let input = " 12 + 34 - 5 ";
    let expect = 12 + 34 - 5;
    assert_eq!(test_xxx_do(input).unwrap(), expect.to_string());
}

#[test]
fn test_004_0_space_characters() {
    let input = "1+s";
    assert_eq!(test_xxx_do(input), Err("1+s\n  ^ invalid token".to_string()));
}

#[test]
fn test_004_1_space_characters() {
    let input = "1++1";
    assert_eq!(test_xxx_do(input), Err("1++1\n  ^ expected a number".to_string()));
}

#[test]
fn round_trip_values() {
    assert_eq!(value("1-2+3"), 2);
    assert_eq!(value("112-22+33"), 123);
    assert_eq!(value(" 12 + 34 - 5 "), 41);
    assert_eq!(value("10-2-3"), 5);
    assert_eq!(value("100/10/5"), 2);
    assert_eq!(value("2*3*4"), 24);
    assert_eq!(value("1+2*3-8/4"), 5);
    assert_eq!(value("0-7"), -7);
}

#[test]
fn precedence() {
    assert_eq!(value("2+3*4"), 14);
    assert_eq!(value("2*3+4"), 10);
    assert_eq!(value("20-6/2"), 17);
    assert_eq!(value("20/2-6"), 4);
}

#[test]
fn division_truncates_toward_zero() {
    assert_eq!(value("7/2"), 3);
    assert_eq!(value("0-7/2"), -3);
    assert_eq!(value("1/3"), 0);
    let negative = compile("0-7").unwrap();
    let mut code = vec![Instruction::LoadImm("2".to_string()), Instruction::Push];
    code.extend(negative);
    code.push(Instruction::Pop(Register::A1));
    code.push(Instruction::Div);
    assert_eq!(run(&code), Some(-3));
}

#[test]
fn division_by_zero_faults_when_run() {
    let code = compile("1/0").unwrap();
    assert_eq!(run(&code), None);
    let code = compile("4+2/0*3").unwrap();
    assert_eq!(run(&code), None);
}

#[test]
fn spaces_do_not_change_the_code() {
    let dense = compile("1+2").unwrap();
    assert_eq!(compile(" 1 + 2 ").unwrap(), dense);
    assert_eq!(compile("1 +2").unwrap(), dense);
    assert_eq!(compile("\t1\n+\r2").unwrap(), dense);
    assert_eq!(compile("12*3-4").unwrap(), compile("  12  *  3  -  4  ").unwrap());
    assert_eq!(value("1+2"), value(" 1 + 2 "));
}

#[test]
fn a_space_inside_a_number_splits_it() {
    assert_eq!(compile("12").unwrap(), vec![Instruction::LoadImm("12".to_string())]);
    assert_eq!(compile("1 2").unwrap(), vec![Instruction::LoadImm("1".to_string())]);
}

#[test]
fn single_number_is_one_load() {
    for input in ["1", "123", "0", "007", "18446744073709551616000"] {
        assert_eq!(compile(input).unwrap(), vec![Instruction::LoadImm(input.to_string())]);
    }
    assert_eq!(value("1"), 1);
    assert_eq!(value("123"), 123);
}

#[test]
fn code_of_a_sum() {
    let load = |digits: &str| Instruction::LoadImm(digits.to_string());
    assert_eq!(
        compile("1-2+3").unwrap(),
        vec![
            load("3"),
            Instruction::Push,
            load("2"),
            Instruction::Push,
            load("1"),
            Instruction::Pop(Register::A1),
            Instruction::Sub,
            Instruction::Pop(Register::A1),
            Instruction::Add,
        ]
    );
}

#[test]
fn invalid_character_has_its_index() {
    assert_eq!(
        compile("1+s"),
        Err(Diagnostic { kind: ErrorKind::InvalidCharacter, index: 2 })
    );
    assert_eq!(
        compile("x"),
        Err(Diagnostic { kind: ErrorKind::InvalidCharacter, index: 0 })
    );
    assert_eq!(
        compile("1 + 2 = 3"),
        Err(Diagnostic { kind: ErrorKind::InvalidCharacter, index: 6 })
    );
}

#[test]
fn invalid_character_comes_before_a_missing_operand() {
    assert_eq!(
        compile("1++s"),
        Err(Diagnostic { kind: ErrorKind::InvalidCharacter, index: 3 })
    );
    assert_eq!(
        compile("1 2 s"),
        Err(Diagnostic { kind: ErrorKind::InvalidCharacter, index: 4 })
    );
}

#[test]
fn missing_operand_has_its_index() {
    assert_eq!(
        compile("1++1"),
        Err(Diagnostic { kind: ErrorKind::ExpectedNumber, index: 2 })
    );
    assert_eq!(
        compile("(1+2)"),
        Err(Diagnostic { kind: ErrorKind::ExpectedNumber, index: 0 })
    );
    assert_eq!(
        compile("  3 * / 4"),
        Err(Diagnostic { kind: ErrorKind::ExpectedNumber, index: 6 })
    );
}

#[test]
fn end_of_input_points_behind_the_last_character() {
    assert_eq!(
        compile("1+"),
        Err(Diagnostic { kind: ErrorKind::UnexpectedEndOfInput, index: 2 })
    );
    assert_eq!(
        compile("1+ "),
        Err(Diagnostic { kind: ErrorKind::UnexpectedEndOfInput, index: 3 })
    );
    assert_eq!(
        compile(""),
        Err(Diagnostic { kind: ErrorKind::UnexpectedEndOfInput, index: 0 })
    );
    assert_eq!(
        compile("  "),
        Err(Diagnostic { kind: ErrorKind::UnexpectedEndOfInput, index: 2 })
    );
}

#[test]
fn assembly_of_a_number() {
    assert_eq!(
        compile_to_assembly("123"),
        Ok("  .global main\nmain:\n  li a0, 123\n  ret\n".to_string())
    );
}

#[test]
fn assembly_of_a_sum() {
    assert_eq!(
        compile_to_assembly(" 12 + 34 "),
        Ok("  .global main\n\
            main:\n\
            \x20 li a0, 34\n\
            \x20 addi sp, sp, -8\n\
            \x20 sd a0, 0(sp)\n\
            \x20 li a0, 12\n\
            \x20 ld a1, 0(sp)\n\
            \x20 addi sp, sp, 8\n\
            \x20 add a0, a0, a1\n\
            \x20 ret\n"
            .to_string())
    );
}

#[test]
fn assembly_failures_are_rendered() {
    assert_eq!(compile_to_assembly("1+"), Err("1+\n  ^ expected a number".to_string()));
    assert_eq!(compile_to_assembly("a"), Err("a\n^ invalid token".to_string()));
}

#[test]
fn a_blank_moves_a_failure_behind_it_by_one() {
    let at = |input: &str| compile(input).unwrap_err();
    assert_eq!(at("1++1"), Diagnostic { kind: ErrorKind::ExpectedNumber, index: 2 });
    assert_eq!(at("1+ +1"), Diagnostic { kind: ErrorKind::ExpectedNumber, index: 3 });
    assert_eq!(at(" 1++1"), Diagnostic { kind: ErrorKind::ExpectedNumber, index: 3 });
    assert_eq!(at("1++ 1"), Diagnostic { kind: ErrorKind::ExpectedNumber, index: 2 });
    assert_eq!(at("1+s"), Diagnostic { kind: ErrorKind::InvalidCharacter, index: 2 });
    assert_eq!(at("1 +s"), Diagnostic { kind: ErrorKind::InvalidCharacter, index: 3 });
    assert_eq!(at("1+s "), Diagnostic { kind: ErrorKind::InvalidCharacter, index: 2 });
    assert_eq!(at("2*"), Diagnostic { kind: ErrorKind::UnexpectedEndOfInput, index: 2 });
    assert_eq!(at("2 *"), Diagnostic { kind: ErrorKind::UnexpectedEndOfInput, index: 3 });
}

#[test]
fn tokens_behind_the_expression_are_not_compiled() {
    let one = vec![Instruction::LoadImm("1".to_string())];
    assert_eq!(compile("1 2").unwrap(), one);
    assert_eq!(compile("1)").unwrap(), one);
    assert_eq!(compile("1(+2").unwrap(), one);
}
