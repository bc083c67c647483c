use std::collections::HashMap;

use compiler_book::direct::{add_sub, add_sub_space, return_number};
use compiler_book::generator::{
    generate_arithmetics, generate_arithmetics_compare, generate_lvalue, generate_program01,
    generate_program02, generate_program03, generator, Target,
};
use compiler_book::lexer::TokenStream;
use compiler_book::parser::{expr, parser, Node};

/// Runs the straight-line code of a generated program on a small model of
/// the machine and returns `rax` at `ret`.
fn run(program: &str) -> i64 {
    let mut regs: HashMap<&str, i64> = HashMap::new();
    let mut memory: HashMap<i64, i64> = HashMap::new();
    regs.insert("rsp", 1 << 20);
    regs.insert("rbp", 0);
    let mut flags = (0i64, 0i64);
    for line in program.lines() {
        let line = line.trim();
        if line.is_empty() || line.starts_with('.') || line.ends_with(':') {
            continue;
        }
        let (op, args) = match line.find(' ') {
            Some(i) => (&line[..i], line[i + 1..].trim()),
            None => (line, ""),
        };
        let parts: Vec<&str> = args.split(", ").collect();
        let value = |regs: &HashMap<&str, i64>, a: &str| -> i64 {
            match a.parse::<i64>() {
                Ok(v) => v,
                Err(_) => regs[a],
            }
        };
        match op {
            "push" => {
                let v = value(&regs, parts[0]);
                let sp = regs["rsp"] - 8;
                regs.insert("rsp", sp);
                memory.insert(sp, v);
            }
            "pop" => {
                let sp = regs["rsp"];
                let v = memory[&sp];
                regs.insert("rsp", sp + 8);
                let name: &str = if parts[0] == "rax" { "rax" } else if parts[0] == "rdi" { "rdi" } else { "rbp" };
                regs.insert(name, v);
            }
            "mov" => {
                if parts[0] == "[rax]" {
                    memory.insert(regs["rax"], regs["rdi"]);
                } else if parts[1] == "[rax]" {
                    let v = memory.get(&regs["rax"]).copied().unwrap_or(0);
                    regs.insert("rax", v);
                } else {
                    let v = value(&regs, parts[1]);
                    let name: &str = match parts[0] { "rax" => "rax", "rbp" => "rbp", _ => "rsp" };
                    regs.insert(name, v);
                }
            }
            "add" => {
                let v = regs["rax"].wrapping_add(value(&regs, parts[1]));
                regs.insert("rax", v);
            }
            "sub" => {
                let name: &str = match parts[0] { "rax" => "rax", _ => "rsp" };
                let v = regs[name].wrapping_sub(value(&regs, parts[1]));
                regs.insert(name, v);
            }
            "imul" => {
                let v = regs["rax"].wrapping_mul(regs["rdi"]);
                regs.insert("rax", v);
            }
            "cqo" => {}
            "idiv" => {
                let v = regs["rax"] / regs["rdi"];
                regs.insert("rax", v);
            }
            "cmp" => flags = (regs["rax"], regs["rdi"]),
            "sete" | "setne" | "setle" | "setl" => {
                let holds = match op {
                    "sete" => flags.0 == flags.1,
                    "setne" => flags.0 != flags.1,
                    "setle" => flags.0 <= flags.1,
                    _ => flags.0 < flags.1,
                };
                regs.insert("al", holds as i64);
            }
            "movzb" | "movzx" => {
                let v = regs["al"];
                regs.insert("rax", v);
            }
            "ret" => return regs["rax"],
            _ => panic!("unknown instruction {}", line),
        }
    }
    panic!("no ret")
}

fn compile(source: &str) -> String {
    let mut stream = TokenStream::tokenize01(source.to_string()).unwrap();
    let nodes = parser(&mut stream).unwrap();
    generate_program03(&nodes, Target::Linux).unwrap()
}

#[test]
fn for_generate_arithmetics() {
    let cases = vec![
        "5+20-4",
        "23 - 8+5- 3",
        "1 + 2 * 3",
        "0",
        "(4 + 3) / 7 + 1 * (4 - 2)",
    ];
    let answers = vec![
        "   push 5\
       \n   push 20\
       \n   pop rdi\
       \n   pop rax\
       \n   add rax, rdi\
       \n   push rax\
       \n   push 4\
       \n   pop rdi\
       \n   pop rax\
       \n   sub rax, rdi\
       \n   push rax\n",
        "   push 23\
       \n   push 8\
       \n   pop rdi\
       \n   pop rax\
       \n   sub rax, rdi\
       \n   push rax\
       \n   push 5\
       \n   pop rdi\
       \n   pop rax\
       \n   add rax, rdi\
       \n   push rax\
       \n   push 3\
       \n   pop rdi\
       \n   pop rax\
       \n   sub rax, rdi\
       \n   push rax\n",
        "   push 1\
       \n   push 2\
       \n   push 3\
       \n   pop rdi\
       \n   pop rax\
       \n   imul rax, rdi\
       \n   push rax\
       \n   pop rdi\
       \n   pop rax\
       \n   add rax, rdi\
       \n   push rax\n",
        "   push 0\n",
        "   push 4\
       \n   push 3\
       \n   pop rdi\
       \n   pop rax\
       \n   add rax, rdi\
       \n   push rax\
       \n   push 7\
       \n   pop rdi\
       \n   pop rax\
       \n   cqo\
       \n   idiv rdi\
       \n   push rax\
       \n   push 1\
       \n   push 4\
       \n   push 2\
       \n   pop rdi\
       \n   pop rax\
       \n   sub rax, rdi\
       \n   push rax\
       \n   pop rdi\
       \n   pop rax\
       \n   imul rax, rdi\
       \n   push rax\
       \n   pop rdi\
       \n   pop rax\
       \n   add rax, rdi\
       \n   push rax\n",
    ];
    for (case, answer) in cases.into_iter().zip(answers) {
        let mut stream = TokenStream::tokenize01(case.to_string()).unwrap();
        let ast = expr(&mut stream);
        let mut buffer = String::new();
        generate_arithmetics(&ast, &mut buffer);
        assert_eq!(buffer, answer);
    }
}

#[test]
fn for_generate_program01() {
    let cases = vec![
        "5+20-4",
        "23 - 8+5- 3",
        "1 + 2 * 3",
        "0",
        "(4 + 3) / 7 + 1 * (4 - 2)",
        "((4    +3) /  7 +4) *(4 -2 +   3 )",
        "-3*+5+20",
    ];
    let answers = vec![21, 17, 7, 0, 3, 25, 5];
    for (case, answer) in cases.into_iter().zip(answers) {
        let mut stream = TokenStream::tokenize01(case.to_string()).unwrap();
        let ast = expr(&mut stream);
        let program = generate_program01(&ast, Target::Linux);
        assert_eq!(run(&program), answer);
    }
}

#[test]
fn for_generate_program02() {
    let cases = vec![
        "5+20-4",
        "23 - 8+5- 3",
        "1 + 2 * 3",
        "0",
        "(4 + 3) / 7 + 1 * (4 - 2)",
        "((4    +3) /  7 +4) *(4 -2 +   3 )",
        "-3*+5+20",
        "0==1",
        "35==35",
        "0!=1",
        "0 != 0",
        "0 < 1",
        "1 < 1",
        "5 <= 123",
        "5 <= 5",
        "5 > 5",
        "5 >= 5",
        "127 >= 0",
        "0 >= 1",
        "0 == 0 == 0",
        " 7 > 0 > 0",
        "0 < 0 < 7",
        "((((4 + 3) / 7 + 4) * (4 - 2) == 10) > 0) * 120",
        "(((4 + 3) / 7 + 4) * (4 - 2) == 10 > 0) * 120",
    ];
    let answers = vec![
        21, 17, 7, 0, 3, 25, 5, 0, 1, 1, 0, 1, 0, 1, 1, 0, 1, 1, 0, 0, 1, 1, 120, 0,
    ];
    for (case, answer) in cases.into_iter().zip(answers) {
        let mut stream = TokenStream::tokenize01(case.to_string()).unwrap();
        let ast = expr(&mut stream);
        let program = generate_program02(&ast, Target::Linux);
        assert_eq!(run(&program), answer);
    }
}

#[test]
fn for_add_sub_space() {
    let cases = vec!["5+20-4", "23 - 8+5- 3"];
    let answers = vec![21, 17];
    for (case, answer) in cases.into_iter().zip(answers) {
        let stream = TokenStream::tokenize01(case.to_string()).unwrap();
        let program = add_sub_space(&stream, Target::Linux).unwrap();
        assert_eq!(run(&program), answer);
    }
}

#[test]
fn for_add_sub() {
    let cases = vec!["5+20-4"];
    let answers = vec![21];
    for (case, answer) in cases.into_iter().zip(answers) {
        let program = add_sub(case, Target::Linux).unwrap();
        assert_eq!(run(&program), answer);
    }
}

#[test]
fn for_return_number() {
    let cases = vec!["0", "42", "255"];
    let answers = vec![0, 42, 255];
    for (case, answer) in cases.into_iter().zip(answers) {
        let program = return_number(case, Target::Linux).unwrap();
        assert_eq!(run(&program), answer);
    }
}

#[test]
fn assignments_leave_the_last_value() {
    assert_eq!(run(&compile("a=3+4;b=+5;c=-3;c;")), -3);
    assert_eq!(run(&compile("a=3+4;b=+5;a*b;")), 35);
    assert_eq!(run(&compile("a = b = 6; a + b;")), 12);
}

#[test]
fn compiles_and_runs_arithmetic() {
    assert_eq!(run(&compile("(4 + 3) / 7 + 1 * (4 - 2);")), 3);
}

#[test]
fn program_frame_and_entry_symbol() {
    let linux = compile("1;");
    assert_eq!(
        linux,
        ".intel_syntax noprefix\n.global main\n\nmain:\n   push rbp\n   mov rbp, rsp\n   sub rsp, 208\n   push 1\n   pop rax\n   mov rsp, rbp\n   pop rbp\n   ret\n"
    );
    let mut stream = TokenStream::tokenize01("1 < 2;".to_string()).unwrap();
    let nodes = parser(&mut stream).unwrap();
    let mac = generate_program03(&nodes, Target::MacOs).unwrap();
    assert!(mac.contains(".global _main\n\n_main:\n"));
    assert!(mac.contains("   movzx rax, al\n"));
    assert!(compile("1 < 2;").contains("   movzb rax, al\n"));
}

#[test]
fn variables_are_read_and_written_through_their_address() {
    let mut buffer = String::new();
    generate_lvalue(&Node::LVar(16), &mut buffer);
    assert_eq!(buffer, "   mov rax, rbp\n   sub rax, 16\n   push rax\n");
    let mut buffer = String::new();
    generator(&Node::LVar(8), &mut buffer, Target::Linux);
    assert_eq!(
        buffer,
        "   mov rax, rbp\n   sub rax, 8\n   push rax\n   pop rax\n   mov rax, [rax]\n   push rax\n"
    );
    let mut buffer = String::new();
    generator(
        &Node::Assign(Box::new(Node::LVar(8)), Box::new(Node::Num(-7))),
        &mut buffer,
        Target::Linux,
    );
    assert_eq!(
        buffer,
        "   mov rax, rbp\n   sub rax, 8\n   push rax\n   push -7\n   pop rdi\n   pop rax\n   mov [rax], rdi\n   push rdi\n"
    );
}

#[test]
fn comparison_code_follows_the_target() {
    let node = Node::Ne(Box::new(Node::Num(1)), Box::new(Node::Num(2)));
    let mut buffer = String::new();
    generate_arithmetics_compare(&node, &mut buffer, Target::MacOs);
    assert_eq!(
        buffer,
        "   push 1\n   push 2\n   pop rdi\n   pop rax\n   cmp rax, rdi\n   setne al\n   movzx rax, al\n   push rax\n"
    );
}

#[test]
fn assignment_to_a_non_variable_gives_no_program() {
    let mut stream = TokenStream::tokenize01("3 = 4;".to_string()).unwrap();
    let nodes = parser(&mut stream).unwrap();
    assert_eq!(generate_program03(&nodes, Target::Linux), None);
}

#[test]
fn direct_programs_reject_what_they_cannot_read() {
    assert_eq!(add_sub("5+x", Target::Linux), Err('x'));
    assert_eq!(return_number("4a", Target::Linux), None);
    assert_eq!(return_number("9223372036854775808", Target::Linux), None);
    assert_eq!(run(&return_number("-9223372036854775808", Target::Linux).unwrap()), i64::MIN);
    assert_eq!(run(&return_number("+12", Target::Linux).unwrap()), 12);
    let stream = TokenStream::tokenize01("1 + a".to_string()).unwrap();
    assert!(add_sub_space(&stream, Target::Linux).is_err());
}

#[test]
fn add_sub_text_is_exact() {
    assert_eq!(
        add_sub("12-3", Target::Linux).unwrap(),
        ".intel_syntax noprefix\n.global main\n\nmain:\n  mov rax, 12\n  sub rax, 3\n  ret\n\n"
    );
}
