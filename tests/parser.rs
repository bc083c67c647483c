use compiler_book::error::Position;
use compiler_book::lexer::{Token, TokenStream};
use compiler_book::parser::{expr, parser, Node, ParseError};

fn num(v: i64) -> Node {
    Node::Num(v)
}

fn b(n: Node) -> Box<Node> {
    Box::new(n)
}

fn tokenize(case: &str) -> TokenStream {
    TokenStream::tokenize01(case.to_string()).unwrap()
}

#[test]
fn for_expr01() {
    let cases = vec![
        "5+20-4",
        "23 - 8+5- 3",
        "1 + 2 * 3",
        "0",
        "(4 + 3) / 7 + 1 * (4 - 2)",
        "-10+20",
        "(+4 + 3) / 7 + +1 * (4 - 2)",
    ];
    let answers = vec![
        Node::Sub(b(Node::Add(b(num(5)), b(num(20)))), b(num(4))),
        Node::Sub(
            b(Node::Add(b(Node::Sub(b(num(23)), b(num(8)))), b(num(5)))),
            b(num(3)),
        ),
        Node::Add(b(num(1)), b(Node::Mul(b(num(2)), b(num(3))))),
        num(0),
        Node::Add(
            b(Node::Div(b(Node::Add(b(num(4)), b(num(3)))), b(num(7)))),
            b(Node::Mul(b(num(1)), b(Node::Sub(b(num(4)), b(num(2)))))),
        ),
        Node::Add(b(Node::Sub(b(num(0)), b(num(10)))), b(num(20))),
        Node::Add(
            b(Node::Div(b(Node::Add(b(num(4)), b(num(3)))), b(num(7)))),
            b(Node::Mul(b(num(1)), b(Node::Sub(b(num(4)), b(num(2)))))),
        ),
    ];
    for (case, answer) in cases.into_iter().zip(answers) {
        let mut stream = tokenize(case);
        let ast = expr(&mut stream);
        assert_eq!(ast, answer);
    }
}

#[test]
fn product_binds_tighter_than_sum() {
    let mut stream = tokenize("1 + 2 * 3");
    assert_eq!(
        expr(&mut stream),
        Node::Add(b(num(1)), b(Node::Mul(b(num(2)), b(num(3)))))
    );
    assert_eq!(stream.sequence, vec![Token::Eof]);
}

#[test]
fn greater_or_equal_is_read_as_swapped_less_or_equal() {
    let mut ge = tokenize("5 >= 3");
    let mut le = tokenize("3 <= 5");
    let expected = Node::Le(b(num(3)), b(num(5)));
    assert_eq!(expr(&mut ge), expected);
    assert_eq!(expr(&mut le), expected);
    let mut gt = tokenize("5 > 3");
    assert_eq!(expr(&mut gt), Node::Lt(b(num(3)), b(num(5))));
}

#[test]
fn add_parses_a_sum_and_leaves_the_rest() {
    let mut stream = tokenize("1 - 2 < 3");
    let node = compiler_book::parser::add(&mut stream);
    assert_eq!(node, Node::Sub(b(num(1)), b(num(2))));
    assert_eq!(stream.sequence.len(), 3);
}

#[test]
fn parser_builds_one_tree_per_statement() {
    let mut stream = tokenize("a=3+4;b=+5;c=-3;c;");
    let nodes = parser(&mut stream).unwrap();
    assert_eq!(
        nodes,
        vec![
            Node::Assign(b(Node::LVar(8)), b(Node::Add(b(num(3)), b(num(4))))),
            Node::Assign(b(Node::LVar(16)), b(num(5))),
            Node::Assign(b(Node::LVar(24)), b(Node::Sub(b(num(0)), b(num(3))))),
            Node::LVar(24),
        ]
    );
    assert_eq!(stream.sequence, vec![Token::Eof]);
}

#[test]
fn assignment_groups_to_the_right() {
    let mut stream = tokenize("a = b = z;");
    assert_eq!(
        parser(&mut stream).unwrap(),
        vec![Node::Assign(
            b(Node::LVar(8)),
            b(Node::Assign(b(Node::LVar(16)), b(Node::LVar(208))))
        )]
    );
}

#[test]
fn parser_reports_grammar_errors() {
    let mut stream = tokenize("++9;");
    assert_eq!(
        parser(&mut stream),
        Err(ParseError::Rejected(
            "fail to parse: use unary only once.".to_string(),
            Position(1)
        ))
    );
    let mut stream = tokenize("(9));");
    assert_eq!(
        parser(&mut stream),
        Err(ParseError::Rejected(
            "fail to parse: this bracket doesn't match.".to_string(),
            Position(3)
        ))
    );
    let mut stream = tokenize("23 - 8+5");
    assert_eq!(
        parser(&mut stream),
        Err(ParseError::Rejected(
            "fail to parse: need semicolon here.".to_string(),
            Position(5)
        ))
    );
}

#[test]
fn parser_flags_input_the_check_lets_through() {
    let mut stream = tokenize("(3+)4;");
    assert_eq!(parser(&mut stream), Err(ParseError::Unparsable));
    let mut stream = tokenize(";");
    assert_eq!(parser(&mut stream), Err(ParseError::Unparsable));
}
