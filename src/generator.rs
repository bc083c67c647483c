//! Code generation: each tree is lowered to stack-machine code in
//! Intel-syntax x86-64 assembly, with the variables in a fixed frame.
use vstd::prelude::*;
use vstd::string::*;
use crate::parser::Node;
use crate::text::{decimal, decimal_nat, push_decimal, push_decimal_nat};

verus! {

/// The platform whose entry-symbol convention the program follows.
#[derive(Debug, Clone, Copy, PartialEq, Eq, Structural)]
pub enum Target {
    /// The entry symbol is `main`; zero extension is spelled `movzb`.
    Linux,
    /// The entry symbol is `_main`; zero extension is spelled `movzx`.
    MacOs,
}

pub open spec fn header(target: Target) -> Seq<char> {
    match target {
        Target::Linux => ".intel_syntax noprefix\n"@ + ".global main\n\n"@ + "main:\n"@,
        Target::MacOs => ".intel_syntax noprefix\n"@ + ".global _main\n\n"@ + "_main:\n"@,
    }
}

pub open spec fn zero_extend(target: Target) -> Seq<char> {
    match target {
        Target::Linux => "   movzb rax, al\n"@,
        Target::MacOs => "   movzx rax, al\n"@,
    }
}

/// Pushes the literal `v`.
pub open spec fn push_code(v: i64) -> Seq<char> {
    "   push "@ + decimal(v as int) + "\n"@
}

/// Pushes the address of the variable at `offset` below the frame base.
pub open spec fn address_code(offset: usize) -> Seq<char> {
    "   mov rax, rbp\n"@ + "   sub rax, "@ + decimal_nat(offset as nat) + "\n"@ + "   push rax\n"@
}

/// Pops two operands, the right one on top, applies `op` to them in `rax`
/// and `rdi`, and pushes `rax`.
pub open spec fn apply_code(op: Seq<char>) -> Seq<char> {
    "   pop rdi\n"@ + "   pop rax\n"@ + op + "   push rax\n"@
}

pub open spec fn compare_code(set: Seq<char>, target: Target) -> Seq<char> {
    "   cmp rax, rdi\n"@ + set + zero_extend(target)
}

/// Every assignment in `n` assigns to a variable.
pub open spec fn assignable(n: Node) -> bool
    decreases n,
{
    match n {
        Node::Add(l, r) | Node::Sub(l, r) | Node::Mul(l, r) | Node::Div(l, r) | Node::Eq(l, r)
        | Node::Ne(l, r) | Node::Le(l, r) | Node::Lt(l, r) => assignable(*l) && assignable(*r),
        Node::Assign(l, r) => (*l is LVar) && assignable(*r),
        Node::LVar(_) | Node::Num(_) => true,
    }
}

/// `n` holds only numbers and the four arithmetic operations.
pub open spec fn arithmetic(n: Node) -> bool
    decreases n,
{
    match n {
        Node::Add(l, r) | Node::Sub(l, r) | Node::Mul(l, r) | Node::Div(l, r) => arithmetic(*l)
            && arithmetic(*r),
        Node::Num(_) => true,
        _ => false,
    }
}

/// `n` holds only numbers, arithmetic and comparisons.
pub open spec fn closed_expression(n: Node) -> bool
    decreases n,
{
    match n {
        Node::Add(l, r) | Node::Sub(l, r) | Node::Mul(l, r) | Node::Div(l, r) | Node::Eq(l, r)
        | Node::Ne(l, r) | Node::Le(l, r) | Node::Lt(l, r) => closed_expression(*l)
            && closed_expression(*r),
        Node::Num(_) => true,
        _ => false,
    }
}

/// The instructions that combine the two operands of a binary node.
pub open spec fn operation_code(n: Node, target: Target) -> Seq<char> {
    match n {
        Node::Add(_, _) => "   add rax, rdi\n"@,
        Node::Sub(_, _) => "   sub rax, rdi\n"@,
        Node::Mul(_, _) => "   imul rax, rdi\n"@,
        Node::Div(_, _) => "   cqo\n"@ + "   idiv rdi\n"@,
        Node::Eq(_, _) => compare_code("   sete al\n"@, target),
        Node::Ne(_, _) => compare_code("   setne al\n"@, target),
        Node::Le(_, _) => compare_code("   setle al\n"@, target),
        Node::Lt(_, _) => compare_code("   setl al\n"@, target),
        _ => seq![],
    }
}

/// The code that leaves the value of `n` pushed on the stack.
pub open spec fn code(n: Node, target: Target) -> Seq<char>
    decreases n,
{
    match n {
        Node::Num(v) => push_code(v),
        Node::LVar(offset) => address_code(offset) + "   pop rax\n"@ + "   mov rax, [rax]\n"@
            + "   push rax\n"@,
        Node::Assign(l, r) => match *l {
            Node::LVar(offset) => address_code(offset) + code(*r, target) + "   pop rdi\n"@
                + "   pop rax\n"@ + "   mov [rax], rdi\n"@ + "   push rdi\n"@,
            _ => seq![],
        },
        Node::Add(l, r) | Node::Sub(l, r) | Node::Mul(l, r) | Node::Div(l, r) | Node::Eq(l, r)
        | Node::Ne(l, r) | Node::Le(l, r) | Node::Lt(l, r) => code(*l, target) + code(*r, target)
            + apply_code(operation_code(n, target)),
    }
}

/// Arithmetic code does not depend on the target.
proof fn lemma_arithmetic_code(n: Node, t: Target, u: Target)
    requires
        arithmetic(n),
    ensures
        code(n, t) == code(n, u),
    decreases n,
{
    match n {
        Node::Add(l, r) | Node::Sub(l, r) | Node::Mul(l, r) | Node::Div(l, r) => {
            lemma_arithmetic_code(*l, t, u);
            lemma_arithmetic_code(*r, t, u);
        },
        _ => {},
    }
}

proof fn lemma_closed_is_assignable(n: Node)
    requires
        closed_expression(n),
    ensures
        assignable(n),
    decreases n,
{
    match n {
        Node::Add(l, r) | Node::Sub(l, r) | Node::Mul(l, r) | Node::Div(l, r) | Node::Eq(l, r)
        | Node::Ne(l, r) | Node::Le(l, r) | Node::Lt(l, r) => {
            lemma_closed_is_assignable(*l);
            lemma_closed_is_assignable(*r);
        },
        _ => {},
    }
}

proof fn lemma_arithmetic_is_closed(n: Node)
    requires
        arithmetic(n),
    ensures
        closed_expression(n),
    decreases n,
{
    match n {
        Node::Add(l, r) | Node::Sub(l, r) | Node::Mul(l, r) | Node::Div(l, r) => {
            lemma_arithmetic_is_closed(*l);
            lemma_arithmetic_is_closed(*r);
        },
        _ => {},
    }
}

pub(crate) fn push_header(buffer: &mut String, target: Target)
    ensures
        final(buffer)@ == old(buffer)@ + header(target),
{
    buffer.append(".intel_syntax noprefix\n");
    match target {
        Target::Linux => {
            buffer.append(".global main\n\n");
            buffer.append("main:\n");
        },
        Target::MacOs => {
            buffer.append(".global _main\n\n");
            buffer.append("_main:\n");
        },
    }
    assert(buffer@ =~= old(buffer)@ + header(target));
}

fn push_operation(node: &Node, buffer: &mut String, target: Target)
    ensures
        final(buffer)@ == old(buffer)@ + apply_code(operation_code(*node, target)),
{
    buffer.append("   pop rdi\n");
    buffer.append("   pop rax\n");
    match node {
        Node::Add(_, _) => buffer.append("   add rax, rdi\n"),
        Node::Sub(_, _) => buffer.append("   sub rax, rdi\n"),
        Node::Mul(_, _) => buffer.append("   imul rax, rdi\n"),
        Node::Div(_, _) => {
            buffer.append("   cqo\n");
            buffer.append("   idiv rdi\n");
        },
        Node::Eq(_, _) | Node::Ne(_, _) | Node::Le(_, _) | Node::Lt(_, _) => {
            buffer.append("   cmp rax, rdi\n");
            match node {
                Node::Eq(_, _) => buffer.append("   sete al\n"),
                Node::Ne(_, _) => buffer.append("   setne al\n"),
                Node::Le(_, _) => buffer.append("   setle al\n"),
                _ => buffer.append("   setl al\n"),
            }
            match target {
                Target::Linux => buffer.append("   movzb rax, al\n"),
                Target::MacOs => buffer.append("   movzx rax, al\n"),
            }
        },
        _ => {},
    }
    buffer.append("   push rax\n");
    assert(buffer@ =~= old(buffer)@ + apply_code(operation_code(*node, target)));
}

/// Appends the code that pushes the address of the variable `node`.
pub fn generate_lvalue(node: &Node, buffer: &mut String)
    requires
        *node is LVar,
    ensures
        final(buffer)@ == old(buffer)@ + address_code(node->LVar_0),
{
    if let Node::LVar(offset) = node {
        buffer.append("   mov rax, rbp\n");
        buffer.append("   sub rax, ");
        push_decimal_nat(buffer, *offset as u64);
        buffer.append("\n");
        buffer.append("   push rax\n");
        assert(buffer@ =~= old(buffer)@ + address_code(node->LVar_0));
    }
}

/// Appends the code that leaves the value of `node` pushed on the stack: a
/// variable is read through its address, and an assignment stores the value
/// of its right side and leaves that value.
/// Appends the code that leaves the value of `node` pushed on the stack: a
/// variable is read through its address, and an assignment stores the value
/// of its right side and leaves that value.
pub fn generator(node: &Node, buffer: &mut String, target: Target)
    requires
        assignable(*node),
    ensures
        final(buffer)@ == old(buffer)@ + code(*node, target),
    decreases node,
{
    match node {
        Node::Num(v) => {
            buffer.append("   push ");
            push_decimal(buffer, *v);
            buffer.append("\n");
            assert(buffer@ =~= old(buffer)@ + code(*node, target));
        },
        Node::LVar(_) => {
            generate_lvalue(node, buffer);
            buffer.append("   pop rax\n");
            buffer.append("   mov rax, [rax]\n");
            buffer.append("   push rax\n");
            assert(buffer@ =~= old(buffer)@ + code(*node, target));
        },
        Node::Assign(l, r) => {
            generate_lvalue(l, buffer);
            generator(r, buffer, target);
            buffer.append("   pop rdi\n");
            buffer.append("   pop rax\n");
            buffer.append("   mov [rax], rdi\n");
            buffer.append("   push rdi\n");
            assert(buffer@ =~= old(buffer)@ + code(*node, target));
        },
        Node::Add(l, r) | Node::Sub(l, r) | Node::Mul(l, r) | Node::Div(l, r) | Node::Eq(l, r)
        | Node::Ne(l, r) | Node::Le(l, r) | Node::Lt(l, r) => {
            generator(l, buffer, target);
            generator(r, buffer, target);
            push_operation(node, buffer, target);
            assert(buffer@ =~= old(buffer)@ + code(*node, target));
        },
    }
}

/// Whether every assignment in `node` assigns to a variable.
pub fn is_assignable(node: &Node) -> (r: bool)
    ensures
        r == assignable(*node),
    decreases node,
{
    match node {
        Node::Add(l, r) | Node::Sub(l, r) | Node::Mul(l, r) | Node::Div(l, r) | Node::Eq(l, r)
        | Node::Ne(l, r) | Node::Le(l, r) | Node::Lt(l, r) => is_assignable(l) && is_assignable(r),
        Node::Assign(l, r) => {
            let target_is_variable = match **l {
                Node::LVar(_) => true,
                _ => false,
            };
            target_is_variable && is_assignable(r)
        },
        Node::LVar(_) | Node::Num(_) => true,
    }
}

/// Appends the code of an arithmetic tree, which is the same for every target.
pub fn generate_arithmetics(node: &Node, buffer: &mut String)
    requires
        arithmetic(*node),
    ensures
        forall|t: Target| final(buffer)@ == old(buffer)@ + #[trigger] code(*node, t),
{
    proof {
        lemma_arithmetic_is_closed(*node);
        lemma_closed_is_assignable(*node);
    }
    generator(node, buffer, Target::Linux);
    proof {
        assert forall|t: Target| buffer@ == old(buffer)@ + #[trigger] code(*node, t) by {
            lemma_arithmetic_code(*node, Target::Linux, t);
        }
    }
}

/// Appends the code of a tree of numbers, arithmetic and comparisons.
pub fn generate_arithmetics_compare(node: &Node, buffer: &mut String, target: Target)
    requires
        closed_expression(*node),
    ensures
        final(buffer)@ == old(buffer)@ + code(*node, target),
{
    proof {
        lemma_closed_is_assignable(*node);
    }
    generator(node, buffer, target);
}

/// A program that computes one expression and returns its value.
pub open spec fn expression_program(n: Node, target: Target) -> Seq<char> {
    header(target) + code(n, target) + "   pop rax\n"@ + "   ret\n"@
}

/// The program of one arithmetic tree.
pub fn generate_program01(node: &Node, target: Target) -> (r: String)
    requires
        arithmetic(*node),
    ensures
        r@ == expression_program(*node, target),
{
    let mut buffer = String::new();
    push_header(&mut buffer, target);
    proof {
        lemma_arithmetic_is_closed(*node);
        lemma_closed_is_assignable(*node);
    }
    generator(node, &mut buffer, target);
    buffer.append("   pop rax\n");
    buffer.append("   ret\n");
    buffer
}

/// The program of one tree of numbers, arithmetic and comparisons.
pub fn generate_program02(node: &Node, target: Target) -> (r: String)
    requires
        closed_expression(*node),
    ensures
        r@ == expression_program(*node, target),
{
    let mut buffer = String::new();
    push_header(&mut buffer, target);
    generate_arithmetics_compare(node, &mut buffer, target);
    buffer.append("   pop rax\n");
    buffer.append("   ret\n");
    buffer
}

/// The code of the statements, each followed by a pop of its value into
/// `rax`; the last one's value is what the program returns.
pub open spec fn statements_code(ns: Seq<Node>, target: Target) -> Seq<char>
    decreases ns.len(),
{
    if ns.len() == 0 {
        seq![]
    } else {
        statements_code(ns.drop_last(), target) + code(ns.last(), target) + "   pop rax\n"@
    }
}

/// Saves the caller's frame and reserves 208 bytes, eight for each variable.
pub open spec fn prologue() -> Seq<char> {
    "   push rbp\n"@ + "   mov rbp, rsp\n"@ + "   sub rsp, 208\n"@
}

pub open spec fn epilogue() -> Seq<char> {
    "   mov rsp, rbp\n"@ + "   pop rbp\n"@ + "   ret\n"@
}

pub open spec fn whole_program(ns: Seq<Node>, target: Target) -> Seq<char> {
    header(target) + prologue() + statements_code(ns, target) + epilogue()
}

/// The program of a sequence of statements, or `None` where one of them
/// assigns to something that is not a variable.
pub fn generate_program03(nodes: &[Node], target: Target) -> (r: Option<String>)
    ensures
        (forall|i: int| 0 <= i < nodes@.len() ==> assignable(#[trigger] nodes@[i])) ==> (r matches Some(s)
            && s@ == whole_program(nodes@, target)),
        !(forall|i: int| 0 <= i < nodes@.len() ==> assignable(#[trigger] nodes@[i])) ==> r is None,
{
    let mut i: usize = 0;
    while i < nodes.len()
        invariant
            i <= nodes@.len(),
            forall|k: int| 0 <= k < i ==> assignable(#[trigger] nodes@[k]),
        decreases nodes@.len() - i,
    {
        if !is_assignable(&nodes[i]) {
            return None;
        }
        i = i + 1;
    }
    let mut buffer = String::new();
    push_header(&mut buffer, target);
    buffer.append("   push rbp\n");
    buffer.append("   mov rbp, rsp\n");
    buffer.append("   sub rsp, 208\n");
    assert(buffer@ =~= header(target) + prologue());
    let mut j: usize = 0;
    while j < nodes.len()
        invariant
            j <= nodes@.len(),
            forall|k: int| 0 <= k < nodes@.len() ==> assignable(#[trigger] nodes@[k]),
            buffer@ == header(target) + prologue() + statements_code(nodes@.take(j as int), target),
        decreases nodes@.len() - j,
    {
        generator(&nodes[j], &mut buffer, target);
        buffer.append("   pop rax\n");
        proof {
            assert(nodes@.take(j + 1).drop_last() =~= nodes@.take(j as int));
            assert(buffer@ =~= header(target) + prologue() + statements_code(nodes@.take(j + 1), target));
        }
        j = j + 1;
    }
    buffer.append("   mov rsp, rbp\n");
    buffer.append("   pop rbp\n");
    buffer.append("   ret\n");
    assert(nodes@.take(nodes@.len() as int) =~= nodes@);
    assert(buffer@ =~= whole_program(nodes@, target));
    Some(buffer)
}

} // verus!
