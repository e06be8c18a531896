//! What expressions and generated code mean: the value of a syntax tree, a
//! model of the machine that runs the instructions, and the proof that the
//! code of an expression computes its value.
//!
//! Values are mathematical integers. Division truncates toward zero, and
//! dividing by zero is a fault: the expression has no value and the machine
//! stops.

use vstd::prelude::*;
use crate::ast::{NodeKind, Syntax, is_expression, is_product, is_sum};
use crate::codegen::{InstructionView, Register, arithmetic, code_of};
use crate::parser::{additive_at, multiplicative_at, reads_as, spells};
use crate::scanner::{TokenKind, TokenView};

verus! {

/// The number that a decimal digit stands for.
pub open spec fn digit_value(c: char) -> int {
    c as int - '0' as int
}

/// The number that a run of decimal digits stands for.
pub open spec fn literal_value(digits: Seq<char>) -> int
    decreases digits.len(),
{
    if digits.len() == 0 {
        0
    } else {
        literal_value(digits.drop_last()) * 10 + digit_value(digits.last())
    }
}

/// The quotient of `a` by `b`, rounded toward zero; `b` is not zero.
pub open spec fn truncating_quotient(a: int, b: int) -> int {
    let magnitude = (if a >= 0 { a } else { -a }) / (if b >= 0 { b } else { -b });
    if (a >= 0) == (b >= 0) {
        magnitude
    } else {
        -magnitude
    }
}

/// An operator applied to two values. Division by zero has no result.
pub open spec fn apply(kind: NodeKind, left: int, right: int) -> Option<int> {
    match kind {
        NodeKind::Add => Some(left + right),
        NodeKind::Sub => Some(left - right),
        NodeKind::Mul => Some(left * right),
        NodeKind::Div => if right == 0 {
            None
        } else {
            Some(truncating_quotient(left, right))
        },
        NodeKind::Num => None,
    }
}

/// The value of an expression, if no division by zero occurs in it.
pub open spec fn value(tree: Syntax) -> Option<int>
    decreases tree,
{
    if tree.key.kind == NodeKind::Num {
        Some(literal_value(tree.key.text))
    } else {
        match (tree.left, tree.right) {
            (Some(left), Some(right)) => match (value(*left), value(*right)) {
                (Some(a), Some(b)) => apply(tree.key.kind, a, b),
                _ => None,
            },
            _ => None,
        }
    }
}

/// The state of the machine: the primary register, the secondary register,
/// and the operand stack with its top at the end.
pub struct Machine {
    pub a0: int,
    pub a1: int,
    pub stack: Seq<int>,
}

/// The state after one instruction, or nothing where the machine faults: on
/// a pop from an empty stack and on a division by zero.
pub open spec fn step(m: Machine, instruction: InstructionView) -> Option<Machine> {
    match instruction {
        InstructionView::LoadImm(digits) => Some(Machine { a0: literal_value(digits), ..m }),
        InstructionView::Push => Some(Machine { stack: m.stack.push(m.a0), ..m }),
        InstructionView::Pop(reg) => if m.stack.len() == 0 {
            None
        } else {
            match reg {
                Register::A0 => Some(
                    Machine { a0: m.stack.last(), stack: m.stack.drop_last(), ..m },
                ),
                Register::A1 => Some(
                    Machine { a1: m.stack.last(), stack: m.stack.drop_last(), ..m },
                ),
            }
        },
        InstructionView::Add => Some(Machine { a0: m.a0 + m.a1, ..m }),
        InstructionView::Sub => Some(Machine { a0: m.a0 - m.a1, ..m }),
        InstructionView::Mul => Some(Machine { a0: m.a0 * m.a1, ..m }),
        InstructionView::Div => if m.a1 == 0 {
            None
        } else {
            Some(Machine { a0: truncating_quotient(m.a0, m.a1), ..m })
        },
    }
}

/// The state after a sequence of instructions, or nothing where one of them
/// faults.
pub open spec fn run(m: Machine, code: Seq<InstructionView>) -> Option<Machine>
    decreases code.len(),
{
    if code.len() == 0 {
        Some(m)
    } else {
        match step(m, code.first()) {
            Some(next) => run(next, code.drop_first()),
            None => None,
        }
    }
}

/// What a program returns: the primary register after its code has run on a
/// machine with an empty stack.
pub open spec fn result_of(code: Seq<InstructionView>) -> Option<int> {
    match run(Machine { a0: 0, a1: 0, stack: Seq::empty() }, code) {
        Some(m) => Some(m.a0),
        None => None,
    }
}

/// Running two pieces of code in a row is running the second from where the
/// first ends.
pub proof fn lemma_run_concat(m: Machine, first: Seq<InstructionView>, second: Seq<InstructionView>)
    ensures
        run(m, first + second) == match run(m, first) {
            Some(between) => run(between, second),
            None => None,
        },
    decreases first.len(),
{
    if first.len() == 0 {
        assert(first + second =~= second);
    } else {
        assert((first + second).first() == first.first());
        assert((first + second).drop_first() =~= first.drop_first() + second);
        match step(m, first.first()) {
            Some(next) => lemma_run_concat(next, first.drop_first(), second),
            None => {},
        }
    }
}

/// Running a single instruction is taking one step.
pub proof fn lemma_run_one(m: Machine, instruction: InstructionView)
    ensures
        run(m, seq![instruction]) == step(m, instruction),
{
    let code = seq![instruction];
    assert(code.first() == instruction);
    assert(code.drop_first() =~= Seq::empty());
    match step(m, instruction) {
        Some(next) => {
            assert(run(next, code.drop_first()) == Some(next));
        },
        None => {},
    }
}

/// The code of an expression computes its value: started in any state, it
/// ends with the value in the primary register and the operand stack as it
/// was. Where the expression divides by zero, the machine faults.
pub proof fn lemma_code_computes_value(tree: Syntax, m: Machine)
    requires
        is_expression(tree),
    ensures
        match value(tree) {
            Some(v) => {
                &&& run(m, code_of(tree)) matches Some(after)
                &&& after.a0 == v
                &&& after.stack == m.stack
            },
            None => run(m, code_of(tree)) is None,
        },
    decreases tree,
{
    if tree.key.kind == NodeKind::Num {
        lemma_run_one(m, InstructionView::LoadImm(tree.key.text));
    } else {
        let left = *tree.left->0;
        let right = *tree.right->0;
        let c1 = code_of(right);
        let c2 = c1 + seq![InstructionView::Push];
        let c3 = c2 + code_of(left);
        let c4 = c3 + seq![InstructionView::Pop(Register::A1)];
        let c5 = c4 + arithmetic(tree.key.kind);
        assert(code_of(tree) == c5);
        lemma_run_concat(m, c4, arithmetic(tree.key.kind));
        lemma_run_concat(m, c3, seq![InstructionView::Pop(Register::A1)]);
        lemma_run_concat(m, c2, code_of(left));
        lemma_run_concat(m, c1, seq![InstructionView::Push]);
        lemma_code_computes_value(right, m);
        match run(m, c1) {
            Some(m1) => {
                lemma_run_one(m1, InstructionView::Push);
                let m2 = step(m1, InstructionView::Push)->0;
                lemma_code_computes_value(left, m2);
                match run(m2, code_of(left)) {
                    Some(m3) => {
                        lemma_run_one(m3, InstructionView::Pop(Register::A1));
                        let m4 = step(m3, InstructionView::Pop(Register::A1))->0;
                        assert(m4.stack =~= m.stack);
                        assert(arithmetic(tree.key.kind).len() == 1);
                        lemma_run_one(m4, arithmetic(tree.key.kind)[0]);
                        assert(arithmetic(tree.key.kind) =~= seq![arithmetic(tree.key.kind)[0]]);
                    },
                    None => {},
                }
            },
            None => {},
        }
    }
}

/// The position of the last `+` or `-` among the tokens.
pub open spec fn last_additive(ts: Seq<TokenView>) -> Option<int>
    decreases ts.len(),
{
    if ts.len() == 0 {
        None
    } else if additive_at(ts, ts.len() - 1) is Some {
        Some(ts.len() - 1)
    } else {
        last_additive(ts.drop_last())
    }
}

/// The value of a product written as tokens: numbers joined by `*` and `/`.
/// The last operator is applied last, to the value of all that stands in
/// front of it and to the number behind it. Tokens of another form have no
/// value.
pub open spec fn product_value(ts: Seq<TokenView>) -> Option<int>
    decreases ts.len(),
{
    if ts.len() == 0 {
        None
    } else if ts.len() == 1 {
        if ts[0].kind == TokenKind::Num {
            Some(literal_value(ts[0].text))
        } else {
            None
        }
    } else {
        let n = ts.len() as int;
        match (product_value(ts.take(n - 2)), multiplicative_at(ts, n - 2)) {
            (Some(a), Some(kind)) => if ts[n - 1].kind == TokenKind::Num {
                apply(kind, a, literal_value(ts[n - 1].text))
            } else {
                None
            },
            _ => None,
        }
    }
}

/// The value of a sum written as tokens: products joined by `+` and `-`.
/// The last `+` or `-` is applied last, to the value of the sum in front of
/// it and to the value of the product behind it; so `*` and `/` bind tighter
/// than `+` and `-`, and operators of one level are applied from left to
/// right.
pub open spec fn sum_value(ts: Seq<TokenView>) -> Option<int>
    decreases ts.len(),
    via sum_value_decreases
{
    match last_additive(ts) {
        Some(k) => match (sum_value(ts.take(k)), product_value(ts.skip(k + 1))) {
            (Some(a), Some(b)) => apply(additive_at(ts, k)->0, a, b),
            _ => None,
        },
        None => product_value(ts),
    }
}

#[via_fn]
proof fn sum_value_decreases(ts: Seq<TokenView>) {
    lemma_last_additive(ts);
}

/// `last_additive` finds a `+` or `-` exactly when there is one, and then
/// the last of them.
pub proof fn lemma_last_additive(ts: Seq<TokenView>)
    ensures
        match last_additive(ts) {
            Some(k) => {
                &&& 0 <= k < ts.len()
                &&& additive_at(ts, k) is Some
                &&& forall|i: int| k < i < ts.len() ==> additive_at(ts, i) is None
            },
            None => forall|i: int| 0 <= i < ts.len() ==> additive_at(ts, i) is None,
        },
    decreases ts.len(),
{
    if ts.len() > 0 && additive_at(ts, ts.len() - 1) is None {
        let front = ts.drop_last();
        lemma_last_additive(front);
        assert forall|i: int| 0 <= i < front.len() implies additive_at(front, i) == additive_at(
            ts,
            i,
        ) by {
            assert(front[i] == ts[i]);
        }
        match last_additive(front) {
            Some(k) => {
                assert(additive_at(front, k) == additive_at(ts, k));
                assert forall|i: int| k < i < ts.len() implies additive_at(ts, i) is None by {
                    if i < front.len() {
                        assert(additive_at(front, i) is None);
                    }
                }
            },
            None => {
                assert forall|i: int| 0 <= i < ts.len() implies additive_at(ts, i) is None by {
                    if i < front.len() {
                        assert(additive_at(front, i) is None);
                    }
                }
            },
        }
    }
}

/// The last `+` or `-` is the one behind which none follows.
pub proof fn lemma_last_additive_is(ts: Seq<TokenView>, k: int)
    requires
        additive_at(ts, k) is Some,
        forall|i: int| k < i < ts.len() ==> additive_at(ts, i) is None,
    ensures
        last_additive(ts) == Some(k),
{
    lemma_last_additive(ts);
}

/// Where there is no `+` and no `-`, none is the last.
pub proof fn lemma_last_additive_none(ts: Seq<TokenView>)
    requires
        forall|i: int| 0 <= i < ts.len() ==> additive_at(ts, i) is None,
    ensures
        last_additive(ts) is None,
{
    lemma_last_additive(ts);
}

/// The value of a product tree is the value of the tokens it spells, and
/// there is no `+` and no `-` among them.
pub proof fn lemma_product_value(tree: Syntax, ts: Seq<TokenView>)
    requires
        is_product(tree),
        spells(tree, ts),
    ensures
        value(tree) == product_value(ts),
        forall|i: int| 0 <= i < ts.len() ==> additive_at(ts, i) is None,
    decreases tree,
{
    if tree.key.kind == NodeKind::Mul || tree.key.kind == NodeKind::Div {
        let left = *tree.left->0;
        let right = *tree.right->0;
        let n = ts.len() as int;
        left.lemma_in_order_len();
        assert(right.in_order() =~= seq![right.key]);
        assert(tree.in_order() =~= left.in_order() + seq![tree.key] + seq![right.key]);
        let front = ts.take(n - 2);
        assert(spells(left, front)) by {
            assert forall|i: int| 0 <= i < front.len() implies reads_as(
                #[trigger] left.in_order()[i],
                front[i],
            ) by {
                assert(left.in_order()[i] == tree.in_order()[i]);
                assert(front[i] == ts[i]);
            }
        }
        lemma_product_value(left, front);
        assert(tree.in_order()[n - 2] == tree.key);
        assert(tree.in_order()[n - 1] == right.key);
        assert(multiplicative_at(ts, n - 2) == Some(tree.key.kind));
        assert(ts[n - 1].kind == TokenKind::Num);
        assert(ts[n - 1].text == right.key.text);
        assert(value(right) == Some(literal_value(right.key.text)));
        assert forall|i: int| 0 <= i < ts.len() implies additive_at(ts, i) is None by {
            if i < n - 2 {
                assert(front[i] == ts[i]);
                assert(additive_at(front, i) is None);
            }
        }
    } else {
        assert(tree.in_order() =~= seq![tree.key]);
        assert(tree.in_order()[0] == tree.key);
    }
}

/// The value of a sum tree is the value of the tokens it spells.
pub proof fn lemma_sum_value(tree: Syntax, ts: Seq<TokenView>)
    requires
        is_sum(tree),
        spells(tree, ts),
    ensures
        value(tree) == sum_value(ts),
    decreases tree,
{
    if tree.key.kind == NodeKind::Add || tree.key.kind == NodeKind::Sub {
        let left = *tree.left->0;
        let right = *tree.right->0;
        let k = left.in_order().len() as int;
        assert(tree.in_order() =~= left.in_order() + seq![tree.key] + right.in_order());
        let front = ts.take(k);
        let back = ts.skip(k + 1);
        assert(spells(left, front)) by {
            assert forall|i: int| 0 <= i < front.len() implies reads_as(
                #[trigger] left.in_order()[i],
                front[i],
            ) by {
                assert(left.in_order()[i] == tree.in_order()[i]);
                assert(front[i] == ts[i]);
            }
        }
        assert(spells(right, back)) by {
            assert forall|i: int| 0 <= i < back.len() implies reads_as(
                #[trigger] right.in_order()[i],
                back[i],
            ) by {
                assert(right.in_order()[i] == tree.in_order()[k + 1 + i]);
                assert(back[i] == ts[k + 1 + i]);
            }
        }
        lemma_sum_value(left, front);
        lemma_product_value(right, back);
        assert(tree.in_order()[k] == tree.key);
        assert(additive_at(ts, k) == Some(tree.key.kind));
        assert forall|i: int| k < i < ts.len() implies additive_at(ts, i) is None by {
            assert(back[i - (k + 1)] == ts[i]);
            assert(additive_at(back, i - (k + 1)) is None);
        }
        lemma_last_additive_is(ts, k);
    } else {
        lemma_product_value(tree, ts);
        lemma_last_additive_none(ts);
    }
}

} // verus!
