//! The parser: recursive descent with one function per precedence level,
//! from a checked token stream to one tree per statement.
use vstd::prelude::*;
use crate::error::Position;
pub use crate::direct::{add_sub, add_sub_space, return_number};
use crate::lexer::{Token, TokenStream, Word};
use crate::static_check::{check, error_message, verify_stream};

verus! {

/// An expression tree. A variable is held as its offset below the frame base.
#[derive(Debug, PartialEq, Eq)]
pub enum Node {
    Add(Box<Node>, Box<Node>),
    Sub(Box<Node>, Box<Node>),
    Mul(Box<Node>, Box<Node>),
    Div(Box<Node>, Box<Node>),
    Eq(Box<Node>, Box<Node>),
    Ne(Box<Node>, Box<Node>),
    Le(Box<Node>, Box<Node>),
    Lt(Box<Node>, Box<Node>),
    Assign(Box<Node>, Box<Node>),
    LVar(usize),
    Num(i64),
}

/// The number of variable slots, one for each lower-case letter.
pub const SLOTS: u64 = 26;

/// The frame offset of variable slot `id`.
pub open spec fn slot_offset(id: u64) -> usize {
    ((id + 1) * 8) as usize
}

pub open spec fn token_at(t: Seq<Token>, p: int) -> Option<Token> {
    if 0 <= p < t.len() {
        Some(t[p])
    } else {
        None
    }
}

pub open spec fn in_bounds(t: Seq<Token>, p: int) -> bool {
    0 <= p <= t.len()
}

/// `primary := Number | Ident | '(' expr ')'`
pub open spec fn parse_primary(t: Seq<Token>, p: int) -> Option<(Node, int)>
    decreases t.len() - p, 1int,
{
    if !in_bounds(t, p) {
        None
    } else {
        match token_at(t, p) {
            Some(Token::Reserved(Word::LeftBra)) => match parse_expr(t, p + 1) {
                Some((n, q)) => if p < q && token_at(t, q) == Some(Token::Reserved(Word::RightBra)) {
                    Some((n, q + 1))
                } else {
                    None
                },
                None => None,
            },
            Some(Token::Number(v)) => Some((Node::Num(v), p + 1)),
            Some(Token::Ident(id)) => if id < SLOTS {
                Some((Node::LVar(slot_offset(id)), p + 1))
            } else {
                None
            },
            _ => None,
        }
    }
}

/// `unary := ('+' | '-')? primary`, where `-x` stands for `0 - x`.
pub open spec fn parse_unary(t: Seq<Token>, p: int) -> Option<(Node, int)>
    decreases t.len() - p, 2int,
{
    if !in_bounds(t, p) {
        None
    } else {
        match token_at(t, p) {
            Some(Token::Reserved(Word::Add)) => parse_primary(t, p + 1),
            Some(Token::Reserved(Word::Sub)) => match parse_primary(t, p + 1) {
                Some((n, q)) => Some((Node::Sub(Box::new(Node::Num(0)), Box::new(n)), q)),
                None => None,
            },
            _ => parse_primary(t, p),
        }
    }
}

/// The `('*' | '/') unary` pairs that follow `left` from `p` on.
pub open spec fn parse_mul_rest(t: Seq<Token>, p: int, left: Node) -> Option<(Node, int)>
    decreases t.len() - p, 3int,
{
    if !in_bounds(t, p) {
        None
    } else {
        match token_at(t, p) {
            Some(Token::Reserved(Word::Mul)) => match parse_unary(t, p + 1) {
                Some((r, q)) => if p < q <= t.len() {
                    parse_mul_rest(t, q, Node::Mul(Box::new(left), Box::new(r)))
                } else {
                    None
                },
                None => None,
            },
            Some(Token::Reserved(Word::Div)) => match parse_unary(t, p + 1) {
                Some((r, q)) => if p < q <= t.len() {
                    parse_mul_rest(t, q, Node::Div(Box::new(left), Box::new(r)))
                } else {
                    None
                },
                None => None,
            },
            _ => Some((left, p)),
        }
    }
}

/// `mul := unary (('*' | '/') unary)*`
pub open spec fn parse_mul(t: Seq<Token>, p: int) -> Option<(Node, int)>
    decreases t.len() - p, 4int,
{
    if !in_bounds(t, p) {
        None
    } else {
        match parse_unary(t, p) {
            Some((n, q)) => if p < q <= t.len() {
                parse_mul_rest(t, q, n)
            } else {
                None
            },
            None => None,
        }
    }
}

/// The `('+' | '-') mul` pairs that follow `left` from `p` on.
pub open spec fn parse_add_rest(t: Seq<Token>, p: int, left: Node) -> Option<(Node, int)>
    decreases t.len() - p, 5int,
{
    if !in_bounds(t, p) {
        None
    } else {
        match token_at(t, p) {
            Some(Token::Reserved(Word::Add)) => match parse_mul(t, p + 1) {
                Some((r, q)) => if p < q <= t.len() {
                    parse_add_rest(t, q, Node::Add(Box::new(left), Box::new(r)))
                } else {
                    None
                },
                None => None,
            },
            Some(Token::Reserved(Word::Sub)) => match parse_mul(t, p + 1) {
                Some((r, q)) => if p < q <= t.len() {
                    parse_add_rest(t, q, Node::Sub(Box::new(left), Box::new(r)))
                } else {
                    None
                },
                None => None,
            },
            _ => Some((left, p)),
        }
    }
}

/// `add := mul (('+' | '-') mul)*`
pub open spec fn parse_add(t: Seq<Token>, p: int) -> Option<(Node, int)>
    decreases t.len() - p, 6int,
{
    if !in_bounds(t, p) {
        None
    } else {
        match parse_mul(t, p) {
            Some((n, q)) => if p < q <= t.len() {
                parse_add_rest(t, q, n)
            } else {
                None
            },
            None => None,
        }
    }
}

/// The comparisons that follow `left` from `p` on; `a >= b` is read as
/// `b <= a` and `a > b` as `b < a`.
pub open spec fn parse_relational_rest(t: Seq<Token>, p: int, left: Node) -> Option<(Node, int)>
    decreases t.len() - p, 7int,
{
    if !in_bounds(t, p) {
        None
    } else {
        match token_at(t, p) {
            Some(Token::Reserved(w)) => if w == Word::Le || w == Word::Lt || w == Word::Ge || w == Word::Gt {
                match parse_add(t, p + 1) {
                    Some((r, q)) => if p < q <= t.len() {
                        let node = if w == Word::Le {
                            Node::Le(Box::new(left), Box::new(r))
                        } else if w == Word::Lt {
                            Node::Lt(Box::new(left), Box::new(r))
                        } else if w == Word::Ge {
                            Node::Le(Box::new(r), Box::new(left))
                        } else {
                            Node::Lt(Box::new(r), Box::new(left))
                        };
                        parse_relational_rest(t, q, node)
                    } else {
                        None
                    },
                    None => None,
                }
            } else {
                Some((left, p))
            },
            _ => Some((left, p)),
        }
    }
}

/// `relational := add (('<=' | '<' | '>=' | '>') add)*`
pub open spec fn parse_relational(t: Seq<Token>, p: int) -> Option<(Node, int)>
    decreases t.len() - p, 8int,
{
    if !in_bounds(t, p) {
        None
    } else {
        match parse_add(t, p) {
            Some((n, q)) => if p < q <= t.len() {
                parse_relational_rest(t, q, n)
            } else {
                None
            },
            None => None,
        }
    }
}

/// The `('==' | '!=') relational` pairs that follow `left` from `p` on.
pub open spec fn parse_equality_rest(t: Seq<Token>, p: int, left: Node) -> Option<(Node, int)>
    decreases t.len() - p, 9int,
{
    if !in_bounds(t, p) {
        None
    } else {
        match token_at(t, p) {
            Some(Token::Reserved(Word::Eq)) => match parse_relational(t, p + 1) {
                Some((r, q)) => if p < q <= t.len() {
                    parse_equality_rest(t, q, Node::Eq(Box::new(left), Box::new(r)))
                } else {
                    None
                },
                None => None,
            },
            Some(Token::Reserved(Word::Ne)) => match parse_relational(t, p + 1) {
                Some((r, q)) => if p < q <= t.len() {
                    parse_equality_rest(t, q, Node::Ne(Box::new(left), Box::new(r)))
                } else {
                    None
                },
                None => None,
            },
            _ => Some((left, p)),
        }
    }
}

/// `equality := relational (('==' | '!=') relational)*`
pub open spec fn parse_equality(t: Seq<Token>, p: int) -> Option<(Node, int)>
    decreases t.len() - p, 10int,
{
    if !in_bounds(t, p) {
        None
    } else {
        match parse_relational(t, p) {
            Some((n, q)) => if p < q <= t.len() {
                parse_equality_rest(t, q, n)
            } else {
                None
            },
            None => None,
        }
    }
}

/// `assign := equality ('=' assign)?`, grouping to the right.
pub open spec fn parse_assign(t: Seq<Token>, p: int) -> Option<(Node, int)>
    decreases t.len() - p, 11int,
{
    if !in_bounds(t, p) {
        None
    } else {
        match parse_equality(t, p) {
            Some((n, q)) => if p < q <= t.len() {
                if token_at(t, q) == Some(Token::Reserved(Word::Assign)) {
                    match parse_assign(t, q + 1) {
                        Some((r, q2)) => Some((Node::Assign(Box::new(n), Box::new(r)), q2)),
                        None => None,
                    }
                } else {
                    Some((n, q))
                }
            } else {
                None
            },
            None => None,
        }
    }
}

/// `expr := assign`
pub open spec fn parse_expr(t: Seq<Token>, p: int) -> Option<(Node, int)>
    decreases t.len() - p, 12int,
{
    if !in_bounds(t, p) {
        None
    } else {
        parse_assign(t, p)
    }
}

/// `stmt := expr ';'`
pub open spec fn parse_stmt(t: Seq<Token>, p: int) -> Option<(Node, int)> {
    match parse_expr(t, p) {
        Some((n, q)) => if token_at(t, q) == Some(Token::SemiColon) {
            Some((n, q + 1))
        } else {
            None
        },
        None => None,
    }
}

/// `program := stmt*`, up to `Eof` or the end of the tokens: the statements
/// and the index where the program stops.
pub open spec fn parse_program(t: Seq<Token>, p: int) -> Option<(Seq<Node>, int)>
    decreases t.len() - p,
{
    if !in_bounds(t, p) {
        None
    } else if p == t.len() || t[p] == Token::Eof {
        Some((seq![], p))
    } else {
        match parse_stmt(t, p) {
            Some((n, q)) => if p < q <= t.len() {
                match parse_program(t, q) {
                    Some((ns, e)) => Some((seq![n] + ns, e)),
                    None => None,
                }
            } else {
                None
            },
            None => None,
        }
    }
}


/// `r` is what the spec parse `s` from `p` gives, and moves past `p`.
pub open spec fn agrees(r: Option<(Node, usize)>, s: Option<(Node, int)>, p: int, len: int) -> bool {
    match r {
        Some((n, q)) => s == Some((n, q as int)) && p < q <= len,
        None => s is None,
    }
}

fn word_at(toks: &Vec<Token>, q: usize) -> (r: Option<Word>)
    ensures
        r matches Some(w) ==> token_at(toks@, q as int) == Some(Token::Reserved(w)),
        r is None ==> !(token_at(toks@, q as int) matches Some(Token::Reserved(_))),
{
    if q < toks.len() {
        match toks[q] {
            Token::Reserved(w) => Some(w),
            _ => None,
        }
    } else {
        None
    }
}

fn primary(toks: &Vec<Token>, p: usize) -> (r: Option<(Node, usize)>)
    requires
        p <= toks.len(),
    ensures
        agrees(r, parse_primary(toks@, p as int), p as int, toks.len() as int),
    decreases toks.len() - p, 1int,
{
    if p >= toks.len() {
        return None;
    }
    match toks[p] {
        Token::Reserved(Word::LeftBra) => match expr_at(toks, p + 1) {
            Some((n, q)) => if q < toks.len() && toks[q] == Token::Reserved(Word::RightBra) {
                Some((n, q + 1))
            } else {
                None
            },
            None => None,
        },
        Token::Number(v) => Some((Node::Num(v), p + 1)),
        Token::Ident(id) => if id < SLOTS {
            Some((Node::LVar(((id + 1) * 8) as usize), p + 1))
        } else {
            None
        },
        _ => None,
    }
}

fn unary(toks: &Vec<Token>, p: usize) -> (r: Option<(Node, usize)>)
    requires
        p <= toks.len(),
    ensures
        agrees(r, parse_unary(toks@, p as int), p as int, toks.len() as int),
    decreases toks.len() - p, 2int,
{
    match word_at(toks, p) {
        Some(Word::Add) => primary(toks, p + 1),
        Some(Word::Sub) => match primary(toks, p + 1) {
            Some((n, q)) => Some((Node::Sub(Box::new(Node::Num(0)), Box::new(n)), q)),
            None => None,
        },
        _ => primary(toks, p),
    }
}

fn mul(toks: &Vec<Token>, p: usize) -> (r: Option<(Node, usize)>)
    requires
        p <= toks.len(),
    ensures
        agrees(r, parse_mul(toks@, p as int), p as int, toks.len() as int),
    decreases toks.len() - p, 4int,
{
    let (mut node, mut q) = match unary(toks, p) {
        Some(found) => found,
        None => return None,
    };
    loop
        invariant
            p < q <= toks.len(),
            parse_mul(toks@, p as int) == parse_mul_rest(toks@, q as int, node),
        decreases toks.len() - q,
    {
        let w = word_at(toks, q);
        if w != Some(Word::Mul) && w != Some(Word::Div) {
            return Some((node, q));
        }
        match unary(toks, q + 1) {
            Some((right, next)) => {
                node = if w == Some(Word::Mul) {
                    Node::Mul(Box::new(node), Box::new(right))
                } else {
                    Node::Div(Box::new(node), Box::new(right))
                };
                q = next;
            },
            None => return None,
        }
    }
}

fn add_at(toks: &Vec<Token>, p: usize) -> (r: Option<(Node, usize)>)
    requires
        p <= toks.len(),
    ensures
        agrees(r, parse_add(toks@, p as int), p as int, toks.len() as int),
    decreases toks.len() - p, 6int,
{
    let (mut node, mut q) = match crate::parser::mul(toks, p) {
        Some(found) => found,
        None => return None,
    };
    loop
        invariant
            p < q <= toks.len(),
            parse_add(toks@, p as int) == parse_add_rest(toks@, q as int, node),
        decreases toks.len() - q,
    {
        let w = word_at(toks, q);
        if w != Some(Word::Add) && w != Some(Word::Sub) {
            return Some((node, q));
        }
        match crate::parser::mul(toks, q + 1) {
            Some((right, next)) => {
                node = if w == Some(Word::Add) {
                    Node::Add(Box::new(node), Box::new(right))
                } else {
                    Node::Sub(Box::new(node), Box::new(right))
                };
                q = next;
            },
            None => return None,
        }
    }
}

fn relational(toks: &Vec<Token>, p: usize) -> (r: Option<(Node, usize)>)
    requires
        p <= toks.len(),
    ensures
        agrees(r, parse_relational(toks@, p as int), p as int, toks.len() as int),
    decreases toks.len() - p, 8int,
{
    let (mut node, mut q) = match add_at(toks, p) {
        Some(found) => found,
        None => return None,
    };
    loop
        invariant
            p < q <= toks.len(),
            parse_relational(toks@, p as int) == parse_relational_rest(toks@, q as int, node),
        decreases toks.len() - q,
    {
        let w = word_at(toks, q);
        if w != Some(Word::Le) && w != Some(Word::Lt) && w != Some(Word::Ge) && w != Some(Word::Gt) {
            return Some((node, q));
        }
        match add_at(toks, q + 1) {
            Some((right, next)) => {
                node = if w == Some(Word::Le) {
                    Node::Le(Box::new(node), Box::new(right))
                } else if w == Some(Word::Lt) {
                    Node::Lt(Box::new(node), Box::new(right))
                } else if w == Some(Word::Ge) {
                    Node::Le(Box::new(right), Box::new(node))
                } else {
                    Node::Lt(Box::new(right), Box::new(node))
                };
                q = next;
            },
            None => return None,
        }
    }
}

fn equality(toks: &Vec<Token>, p: usize) -> (r: Option<(Node, usize)>)
    requires
        p <= toks.len(),
    ensures
        agrees(r, parse_equality(toks@, p as int), p as int, toks.len() as int),
    decreases toks.len() - p, 10int,
{
    let (mut node, mut q) = match relational(toks, p) {
        Some(found) => found,
        None => return None,
    };
    loop
        invariant
            p < q <= toks.len(),
            parse_equality(toks@, p as int) == parse_equality_rest(toks@, q as int, node),
        decreases toks.len() - q,
    {
        let w = word_at(toks, q);
        if w != Some(Word::Eq) && w != Some(Word::Ne) {
            return Some((node, q));
        }
        match relational(toks, q + 1) {
            Some((right, next)) => {
                node = if w == Some(Word::Eq) {
                    Node::Eq(Box::new(node), Box::new(right))
                } else {
                    Node::Ne(Box::new(node), Box::new(right))
                };
                q = next;
            },
            None => return None,
        }
    }
}

fn assign(toks: &Vec<Token>, p: usize) -> (r: Option<(Node, usize)>)
    requires
        p <= toks.len(),
    ensures
        agrees(r, parse_assign(toks@, p as int), p as int, toks.len() as int),
    decreases toks.len() - p, 11int,
{
    match equality(toks, p) {
        Some((n, q)) => if word_at(toks, q) == Some(Word::Assign) {
            match assign(toks, q + 1) {
                Some((right, next)) => Some((Node::Assign(Box::new(n), Box::new(right)), next)),
                None => None,
            }
        } else {
            Some((n, q))
        },
        None => None,
    }
}

fn expr_at(toks: &Vec<Token>, p: usize) -> (r: Option<(Node, usize)>)
    requires
        p <= toks.len(),
    ensures
        agrees(r, parse_expr(toks@, p as int), p as int, toks.len() as int),
    decreases toks.len() - p, 12int,
{
    assign(toks, p)
}

fn stmt(toks: &Vec<Token>, p: usize) -> (r: Option<(Node, usize)>)
    requires
        p <= toks.len(),
    ensures
        agrees(r, parse_stmt(toks@, p as int), p as int, toks.len() as int),
{
    match expr_at(toks, p) {
        Some((n, q)) => if q < toks.len() && toks[q] == Token::SemiColon {
            Some((n, q + 1))
        } else {
            None
        },
        None => None,
    }
}

/// Appends the statements from `p` on to `nodes`; returns where they end.
fn program(toks: &Vec<Token>, p: usize, nodes: &mut Vec<Node>) -> (r: Option<usize>)
    requires
        p <= toks.len(),
    ensures
        match parse_program(toks@, p as int) {
            Some((ns, e)) => r == Some(e as usize) && p <= e <= toks.len() && final(nodes)@ == old(nodes)@ + ns,
            None => r is None,
        },
        r matches Some(e) ==> e <= toks.len(),
{
    let mut q = p;
    let ghost done: Seq<Node> = seq![];
    loop
        invariant
            p <= q <= toks.len(),
            nodes@ == old(nodes)@ + done,
            parse_program(toks@, p as int) == match parse_program(toks@, q as int) {
                Some((ns, e)) => Some((done + ns, e)),
                None => None,
            },
        decreases toks.len() - q,
    {
        if q == toks.len() || toks[q] == Token::Eof {
            proof {
                assert(done + seq![] =~= done);
            }
            return Some(q);
        }
        match stmt(toks, q) {
            Some((n, next)) => {
                proof {
                    match parse_program(toks@, next as int) {
                        Some((ns, e)) => {
                            assert(done + (seq![n] + ns) =~= done.push(n) + ns);
                        },
                        None => {},
                    }
                    done = done.push(n);
                }
                nodes.push(n);
                q = next;
            },
            None => return None,
        }
    }
}

/// Why `parser` gives no trees.
#[derive(Debug, PartialEq, Eq)]
pub enum ParseError {
    /// The grammar check rejected the tokens: its message and the token it names.
    Rejected(String, Position),
    /// The tokens passed the grammar check, yet do not form a program.
    Unparsable,
}

/// Checks the tokens of `stream` and parses them into one tree per statement,
/// consuming them up to `Eof`.
pub fn parser(stream: &mut TokenStream) -> (r: Result<Vec<Node>, ParseError>)
    ensures
        final(stream).position == old(stream).position,
        match check(old(stream).sequence@) {
            Err((e, i)) => r matches Err(ParseError::Rejected(m, pos)) && m@ == error_message(e)
                && pos.0 == i && final(stream).sequence@ == old(stream).sequence@,
            Ok(()) => match parse_program(old(stream).sequence@, 0) {
                Some((ns, e)) => r matches Ok(v) && v@ == ns && final(stream).sequence@
                    == old(stream).sequence@.skip(e),
                None => r matches Err(ParseError::Unparsable) && final(stream).sequence@ == old(stream).sequence@,
            },
        },
{
    if let Err((message, position)) = verify_stream(stream) {
        return Err(ParseError::Rejected(message, position));
    }
    let mut nodes: Vec<Node> = Vec::new();
    match program(&stream.sequence, 0, &mut nodes) {
        Some(end) => {
            let ghost before = stream.sequence@;
            let rest = stream.sequence.split_off(end);
            stream.sequence = rest;
            assert(stream.sequence@ =~= before.skip(end as int));
            assert(nodes@ =~= parse_program(before, 0)->Some_0.0);
            Ok(nodes)
        },
        None => Err(ParseError::Unparsable),
    }
}

/// Parses one expression from the front of `stream` and consumes its tokens.
pub fn expr(stream: &mut TokenStream) -> (r: Node)
    requires
        parse_expr(old(stream).sequence@, 0) is Some,
    ensures
        parse_expr(old(stream).sequence@, 0) == Some((r, old(stream).sequence@.len() - final(stream).sequence@.len())),
        final(stream).sequence@ == old(stream).sequence@.skip(parse_expr(old(stream).sequence@, 0)->Some_0.1),
        final(stream).position == old(stream).position,
{
    match expr_at(&stream.sequence, 0) {
        Some((node, end)) => {
            let rest = stream.sequence.split_off(end);
            stream.sequence = rest;
            node
        },
        None => {
            assert(false);
            Node::Num(0)
        },
    }
}

/// Parses a sum or difference of products from the front of `stream` and
/// consumes its tokens.
pub fn add(stream: &mut TokenStream) -> (r: Node)
    requires
        parse_add(old(stream).sequence@, 0) is Some,
    ensures
        parse_add(old(stream).sequence@, 0) == Some((r, old(stream).sequence@.len() - final(stream).sequence@.len())),
        final(stream).sequence@ == old(stream).sequence@.skip(parse_add(old(stream).sequence@, 0)->Some_0.1),
        final(stream).position == old(stream).position,
{
    match add_at(&stream.sequence, 0) {
        Some((node, end)) => {
            let rest = stream.sequence.split_off(end);
            stream.sequence = rest;
            node
        },
        None => {
            assert(false);
            Node::Num(0)
        },
    }
}


} // verus!
