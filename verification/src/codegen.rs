//! The code generator: from a syntax tree to instructions for a machine with
//! a primary register, a secondary register and an operand stack.

use vstd::prelude::*;
use crate::ast::{AstNode, NodeKind, Syntax, is_expression};
use crate::binary_tree::BinaryTree;

verus! {

/// The registers that generated code uses.
#[derive(Debug, PartialEq, Eq, Clone, Copy, Structural)]
pub enum Register {
    /// The primary register: it holds the value computed last.
    A0,
    /// The secondary register: it receives what is taken off the stack.
    A1,
}

/// One step of generated code.
#[derive(Debug, Clone, PartialEq, Eq)]
pub enum Instruction {
    /// Loads the number with the given digits into the primary register.
    LoadImm(String),
    /// Puts the primary register on top of the operand stack.
    Push,
    /// Takes the top of the operand stack into a register.
    Pop(Register),
    /// Primary plus secondary, into the primary register.
    Add,
    /// Primary minus secondary, into the primary register.
    Sub,
    /// Primary times secondary, into the primary register.
    Mul,
    /// Primary divided by secondary, into the primary register.
    Div,
}

/// An instruction as a plain value.
pub enum InstructionView {
    LoadImm(Seq<char>),
    Push,
    Pop(Register),
    Add,
    Sub,
    Mul,
    Div,
}

impl View for Instruction {
    type V = InstructionView;

    open spec fn view(&self) -> InstructionView {
        match self {
            Instruction::LoadImm(digits) => InstructionView::LoadImm(digits@),
            Instruction::Push => InstructionView::Push,
            Instruction::Pop(reg) => InstructionView::Pop(*reg),
            Instruction::Add => InstructionView::Add,
            Instruction::Sub => InstructionView::Sub,
            Instruction::Mul => InstructionView::Mul,
            Instruction::Div => InstructionView::Div,
        }
    }
}

impl DeepView for Instruction {
    type V = InstructionView;

    open spec fn deep_view(&self) -> InstructionView {
        self.view()
    }
}

/// The instruction that combines the two registers for an operator; nothing
/// for a number.
pub open spec fn arithmetic(kind: NodeKind) -> Seq<InstructionView> {
    match kind {
        NodeKind::Add => seq![InstructionView::Add],
        NodeKind::Sub => seq![InstructionView::Sub],
        NodeKind::Mul => seq![InstructionView::Mul],
        NodeKind::Div => seq![InstructionView::Div],
        NodeKind::Num => Seq::empty(),
    }
}

/// The code of an expression. A number is loaded into the primary register.
/// For an operator, the code of the right operand comes first and its value
/// is pushed; then comes the code of the left operand, the right value is
/// popped into the secondary register, and the two are combined.
pub open spec fn code_of(tree: Syntax) -> Seq<InstructionView>
    decreases tree,
{
    if tree.key.kind == NodeKind::Num {
        seq![InstructionView::LoadImm(tree.key.text)]
    } else {
        match (tree.left, tree.right) {
            (Some(left), Some(right)) => code_of(*right) + seq![InstructionView::Push] + code_of(
                *left,
            ) + seq![InstructionView::Pop(Register::A1)] + arithmetic(tree.key.kind),
            _ => Seq::empty(),
        }
    }
}

/// The largest number of values that the code of an expression holds on the
/// operand stack at any one time.
pub open spec fn stack_need(tree: Syntax) -> nat
    decreases tree,
{
    match (tree.left, tree.right) {
        (Some(left), Some(right)) => {
            let below_left = 1 + stack_need(*left);
            let below_right = stack_need(*right);
            if below_left >= below_right {
                below_left
            } else {
                below_right
            }
        },
        _ => 0,
    }
}

/// The code of an expression never holds more values on the stack than the
/// expression has nodes.
pub proof fn lemma_stack_need_bound(tree: Syntax)
    ensures
        stack_need(tree) < tree.size(),
    decreases tree,
{
    match (tree.left, tree.right) {
        (Some(left), Some(right)) => {
            lemma_stack_need_bound(*left);
            lemma_stack_need_bound(*right);
        },
        _ => {},
    }
}

/// By how much an instruction changes the number of values on the operand
/// stack.
pub open spec fn depth_change(instruction: InstructionView) -> int {
    match instruction {
        InstructionView::Push => 1,
        InstructionView::Pop(_) => -1,
        _ => 0,
    }
}

/// By how much a sequence of instructions changes the number of values on
/// the operand stack: its pushes less its pops.
pub open spec fn net_depth(code: Seq<InstructionView>) -> int
    decreases code.len(),
{
    if code.len() == 0 {
        0
    } else {
        net_depth(code.drop_last()) + depth_change(code.last())
    }
}

/// A single instruction changes the depth by its own change.
pub proof fn lemma_net_depth_one(instruction: InstructionView)
    ensures
        net_depth(seq![instruction]) == depth_change(instruction),
{
    let code = seq![instruction];
    assert(code.drop_last() =~= Seq::empty());
    assert(net_depth(code.drop_last()) == 0);
    assert(code.last() == instruction);
}

/// The changes of two pieces of code in a row add up.
pub proof fn lemma_net_depth_concat(first: Seq<InstructionView>, second: Seq<InstructionView>)
    ensures
        net_depth(first + second) == net_depth(first) + net_depth(second),
    decreases second.len(),
{
    if second.len() == 0 {
        assert(first + second =~= first);
    } else {
        assert((first + second).drop_last() =~= first + second.drop_last());
        lemma_net_depth_concat(first, second.drop_last());
    }
}

/// The change of the first instructions of two pieces of code in a row.
pub proof fn lemma_net_depth_take(
    first: Seq<InstructionView>,
    second: Seq<InstructionView>,
    n: int,
)
    requires
        0 <= n <= first.len() + second.len(),
    ensures
        net_depth((first + second).take(n)) == if n <= first.len() {
            net_depth(first.take(n))
        } else {
            net_depth(first) + net_depth(second.take(n - first.len()))
        },
{
    if n <= first.len() {
        assert((first + second).take(n) =~= first.take(n));
    } else {
        assert((first + second).take(n) =~= first + second.take(n - first.len()));
        lemma_net_depth_concat(first, second.take(n - first.len()));
    }
}

/// The code of an expression is balanced: it pops as often as it pushes, at
/// no point has it popped more than it has pushed, and at no point does it
/// hold more on the stack than `stack_need` says.
pub proof fn lemma_code_is_balanced(tree: Syntax)
    requires
        is_expression(tree),
    ensures
        net_depth(code_of(tree)) == 0,
        forall|n: int|
            0 <= n <= code_of(tree).len() ==> 0 <= net_depth(#[trigger] code_of(tree).take(n))
                <= stack_need(tree),
    decreases tree,
{
    let code = code_of(tree);
    if tree.key.kind == NodeKind::Num {
        lemma_net_depth_one(InstructionView::LoadImm(tree.key.text));
        assert forall|n: int| 0 <= n <= code.len() implies 0 <= net_depth(
            #[trigger] code.take(n),
        ) <= stack_need(tree) by {
            if n == 1 {
                assert(code.take(1) =~= code);
            } else {
                assert(code.take(0) =~= Seq::empty());
            }
        }
    } else {
        let left = *tree.left->0;
        let right = *tree.right->0;
        lemma_code_is_balanced(left);
        lemma_code_is_balanced(right);
        let push = seq![InstructionView::Push];
        let tail = seq![InstructionView::Pop(Register::A1)] + arithmetic(tree.key.kind);
        let c1 = code_of(right);
        let c2 = c1 + push;
        let c3 = c2 + code_of(left);
        assert(code =~= c3 + tail);
        lemma_net_depth_one(InstructionView::Push);
        lemma_net_depth_one(InstructionView::Pop(Register::A1));
        assert(tail.len() == 2);
        assert(tail.take(0) =~= Seq::empty());
        assert(tail.take(1) =~= seq![InstructionView::Pop(Register::A1)]);
        assert(net_depth(tail) == -1) by {
            assert(tail.drop_last() =~= tail.take(1));
        }
        assert(tail.take(2) =~= tail);
        lemma_net_depth_concat(c1, push);
        lemma_net_depth_concat(c2, code_of(left));
        lemma_net_depth_concat(c3, tail);
        assert forall|n: int| 0 <= n <= code.len() implies 0 <= net_depth(
            #[trigger] code.take(n),
        ) <= stack_need(tree) by {
            lemma_net_depth_take(c3, tail, n);
            if n <= c3.len() {
                lemma_net_depth_take(c2, code_of(left), n);
                if n <= c2.len() {
                    lemma_net_depth_take(c1, push, n);
                    if n <= c1.len() {
                        assert(0 <= net_depth(c1.take(n)) <= stack_need(right));
                    } else {
                        assert(push.take(n - c1.len()) =~= push);
                    }
                } else {
                    let m = n - c2.len();
                    assert(0 <= net_depth(code_of(left).take(m)) <= stack_need(left));
                }
            }
        }
    }
}

/// Emits the push of the primary register and counts it.
pub fn push(code: &mut Vec<Instruction>, depth: &mut usize)
    requires
        *old(depth) < usize::MAX,
    ensures
        final(code).deep_view() == old(code).deep_view().push(InstructionView::Push),
        *final(depth) == *old(depth) + 1,
{
    let ghost before = code.deep_view();
    code.push(Instruction::Push);
    assert(code.deep_view() =~= before.push(InstructionView::Push));
    *depth = *depth + 1;
}

/// Emits the pop into `reg` and counts it.
pub fn pop(code: &mut Vec<Instruction>, depth: &mut usize, reg: Register)
    requires
        *old(depth) > 0,
    ensures
        final(code).deep_view() == old(code).deep_view().push(InstructionView::Pop(reg)),
        *final(depth) == *old(depth) - 1,
{
    let ghost before = code.deep_view();
    code.push(Instruction::Pop(reg));
    assert(code.deep_view() =~= before.push(InstructionView::Pop(reg)));
    *depth = *depth - 1;
}

/// Appends the code of the expression `ast` to `code`. `depth` counts the
/// values on the operand stack; it is the same after the call as before.
pub fn get_expr(ast: Option<&BinaryTree<AstNode>>, code: &mut Vec<Instruction>, depth: &mut usize)
    requires
        ast is Some,
        is_expression(ast.unwrap().deep_view()),
        *old(depth) + stack_need(ast.unwrap().deep_view()) <= usize::MAX,
    ensures
        final(code).deep_view() == old(code).deep_view() + code_of(ast.unwrap().deep_view()),
        *final(depth) == *old(depth),
    decreases ast,
{
    let tree = ast.unwrap();
    let root = tree.get_root();
    let ghost before = code.deep_view();
    if root.kind == NodeKind::Num {
        code.push(Instruction::LoadImm(root.value.clone()));
        assert(code.deep_view() =~= before + code_of(tree.deep_view()));
        return ;
    }
    get_expr(tree.get_right(), code, depth);
    push(code, depth);
    get_expr(tree.get_left(), code, depth);
    pop(code, depth, Register::A1);
    let ghost operands = code.deep_view();
    match root.kind {
        NodeKind::Add => code.push(Instruction::Add),
        NodeKind::Sub => code.push(Instruction::Sub),
        NodeKind::Mul => code.push(Instruction::Mul),
        NodeKind::Div => code.push(Instruction::Div),
        _ => {},
    }
    assert(code.deep_view() =~= operands + arithmetic(root.kind));
    assert(code.deep_view() =~= before + code_of(tree.deep_view()));
}

/// The code of an expression.
pub fn generate(tree: &BinaryTree<AstNode>) -> (code: Vec<Instruction>)
    requires
        is_expression(tree.deep_view()),
        stack_need(tree.deep_view()) <= usize::MAX,
    ensures
        code.deep_view() == code_of(tree.deep_view()),
{
    let mut code: Vec<Instruction> = Vec::new();
    let mut depth: usize = 0;
    get_expr(Some(tree), &mut code, &mut depth);
    assert(code.deep_view() =~= code_of(tree.deep_view()));
    code
}

/// The name of a register in assembly text.
pub open spec fn register_name(reg: Register) -> Seq<char> {
    match reg {
        Register::A0 => "a0"@,
        Register::A1 => "a1"@,
    }
}

/// The lines of assembly text for one instruction. A push and a pop take two
/// lines each: one moves the stack pointer, the other stores or loads.
pub open spec fn instruction_text(instruction: InstructionView) -> Seq<char> {
    match instruction {
        InstructionView::LoadImm(digits) => "  li a0, "@ + digits + "\n"@,
        InstructionView::Push => "  addi sp, sp, -8\n"@ + "  sd a0, 0(sp)\n"@,
        InstructionView::Pop(reg) => "  ld "@ + register_name(reg) + ", 0(sp)\n"@
            + "  addi sp, sp, 8\n"@,
        InstructionView::Add => "  add a0, a0, a1\n"@,
        InstructionView::Sub => "  sub a0, a0, a1\n"@,
        InstructionView::Mul => "  mul a0, a0, a1\n"@,
        InstructionView::Div => "  div a0, a0, a1\n"@,
    }
}

/// The lines of assembly text for a sequence of instructions, in order.
pub open spec fn listing(code: Seq<InstructionView>) -> Seq<char>
    decreases code.len(),
{
    if code.len() == 0 {
        Seq::empty()
    } else {
        listing(code.drop_last()) + instruction_text(code.last())
    }
}

/// A whole program in assembly text: the declaration of the entry point, its
/// label, the instructions, and the return.
pub open spec fn program_text(code: Seq<InstructionView>) -> Seq<char> {
    "  .global main\n"@ + "main:\n"@ + listing(code) + "  ret\n"@
}

impl Register {
    /// The name of the register in assembly text.
    pub fn name(&self) -> (name: &'static str)
        ensures
            name@ == register_name(*self),
    {
        match self {
            Register::A0 => "a0",
            Register::A1 => "a1",
        }
    }
}

impl Instruction {
    /// Appends the lines of assembly text for the instruction to `out`.
    pub fn write_to(&self, out: &mut String)
        ensures
            final(out)@ == old(out)@ + instruction_text(self@),
    {
        let ghost before = out@;
        match self {
            Instruction::LoadImm(digits) => {
                out.append("  li a0, ");
                out.append(digits.as_str());
                out.append("\n");
            },
            Instruction::Push => {
                out.append("  addi sp, sp, -8\n");
                out.append("  sd a0, 0(sp)\n");
            },
            Instruction::Pop(reg) => {
                out.append("  ld ");
                out.append(reg.name());
                out.append(", 0(sp)\n");
                out.append("  addi sp, sp, 8\n");
            },
            Instruction::Add => out.append("  add a0, a0, a1\n"),
            Instruction::Sub => out.append("  sub a0, a0, a1\n"),
            Instruction::Mul => out.append("  mul a0, a0, a1\n"),
            Instruction::Div => out.append("  div a0, a0, a1\n"),
        }
        assert(out@ =~= before + instruction_text(self@));
    }
}

/// The program in assembly text that runs `code` and returns.
pub fn write_program(code: &[Instruction]) -> (text: String)
    ensures
        text@ == program_text(code.deep_view()),
{
    let mut text = String::new();
    text.append("  .global main\n");
    text.append("main:\n");
    let ghost head = text@;
    let mut done: usize = 0;
    assert(code.deep_view().take(0) =~= Seq::empty());
    while done < code.len()
        invariant
            done <= code.len(),
            head == "  .global main\n"@ + "main:\n"@,
            text@ == head + listing(code.deep_view().take(done as int)),
        decreases code.len() - done,
    {
        code[done].write_to(&mut text);
        done = done + 1;
        proof {
            let upto = code.deep_view().take(done as int);
            assert(upto.drop_last() =~= code.deep_view().take(done - 1));
            assert(upto.last() == code[done - 1]@);
        }
        assert(text@ =~= head + listing(code.deep_view().take(done as int)));
    }
    assert(code.deep_view().take(done as int) =~= code.deep_view());
    text.append("  ret\n");
    assert(text@ =~= program_text(code.deep_view()));
    text
}

} // verus!
