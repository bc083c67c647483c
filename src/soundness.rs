//! What the grammar check guarantees the parser: a checked token stream in
//! which every operand and operator stands where one is due parses without
//! fault.
use vstd::prelude::*;
use crate::lexer::{Token, Word};
use crate::parser::{
    parse_add, parse_add_rest, parse_assign, parse_equality, parse_equality_rest, parse_expr,
    parse_mul, parse_mul_rest, parse_primary, parse_program, parse_relational,
    parse_relational_rest, parse_stmt, parse_unary, SLOTS,
};
use crate::static_check::{check, check_from, check_step, initial_state, ScanState};

verus! {

/// Before token `i` an operand is due: it starts a statement, or follows an
/// operator, a sign, `=` or `(`.
pub open spec fn operand_due(t: Seq<Token>, i: int) -> bool {
    i == 0 || t[i - 1] is SemiColon || (t[i - 1] is Reserved && t[i - 1] != Token::Reserved(
        Word::RightBra,
    ))
}

/// Token `i` stands where it can: no `=`, `)` or `;` where an operand is due,
/// and no `(` where an operator is due.
pub open spec fn fits(t: Seq<Token>, i: int) -> bool {
    if operand_due(t, i) {
        !(t[i] == Token::Reserved(Word::Assign) || t[i] == Token::Reserved(Word::RightBra) || t[i]
            == Token::SemiColon)
    } else {
        t[i] != Token::Reserved(Word::LeftBra)
    }
}

/// The form the lexer gives a stream: one `Eof`, at the end, and variables
/// within the slots.
pub open spec fn stream_form(t: Seq<Token>) -> bool {
    &&& t.len() > 0
    &&& t.last() == Token::Eof
    &&& forall|i: int| 0 <= i < t.len() - 1 ==> t[i] != Token::Eof
    &&& forall|i: int| 0 <= i < t.len() ==> (#[trigger] t[i] matches Token::Ident(k) ==> k < SLOTS)
}

pub open spec fn well_placed(t: Seq<Token>) -> bool {
    forall|i: int| 0 <= i < t.len() ==> #[trigger] fits(t, i)
}

/// The check's state after tokens `p` to `q`, from state `st`; `None` where it
/// stops on the way.
pub open spec fn run(t: Seq<Token>, p: int, q: int, st: ScanState) -> Option<ScanState>
    decreases q - p,
{
    if p >= q {
        Some(st)
    } else if p < 0 || p >= t.len() {
        None
    } else {
        match check_step(t[p], p, st) {
            Ok(Some(next)) => run(t, p + 1, q, next),
            _ => None,
        }
    }
}

/// Token `t` continues an expression at precedence `level`: 1 takes `*` and
/// `/`, 2 adds `+` and `-`, 3 the comparisons, 4 `==` and `!=`, 5 `=`.
pub open spec fn continues(t: Token, level: int) -> bool {
    match t {
        Token::Reserved(w) => (level >= 1 && (w == Word::Mul || w == Word::Div)) || (level >= 2 && (
        w == Word::Add || w == Word::Sub)) || (level >= 3 && (w == Word::Le || w == Word::Lt || w
            == Word::Ge || w == Word::Gt)) || (level >= 4 && (w == Word::Eq || w == Word::Ne)) || (
        level >= 5 && w == Word::Assign),
        _ => false,
    }
}

/// An operand is due at `p` in state `st`, and the check goes through from there.
pub open spec fn due(t: Seq<Token>, p: int, st: ScanState) -> bool {
    &&& 0 <= p < t.len()
    &&& st.need_number
    &&& operand_due(t, p)
    &&& t[p] != Token::Eof
    &&& check_from(t, p, st) is Ok
}

/// An expression of precedence `level` from `p` ends before `q`: the check
/// took it, at the same bracket depth, and wants an operator at `q`.
pub open spec fn ended(t: Seq<Token>, p: int, st: ScanState, q: int, level: int) -> bool {
    &&& p < q < t.len()
    &&& run(t, p, q, st) matches Some(a) && {
        &&& !a.need_number
        &&& a.need_semicolon
        &&& a.brackets == st.brackets
        &&& check_from(t, q, a) is Ok
    }
    &&& !operand_due(t, q)
    &&& !continues(t[q], level)
}

proof fn lemma_run_extend(t: Seq<Token>, p: int, q: int, st: ScanState, a: ScanState, b: ScanState)
    requires
        0 <= p <= q < t.len(),
        run(t, p, q, st) == Some(a),
        check_step(t[q], q, a) == Ok::<Option<ScanState>, (crate::static_check::GrammarError, int)>(
            Some(b),
        ),
    ensures
        run(t, p, q + 1, st) == Some(b),
    decreases q - p,
{
    if p < q {
        let next = check_step(t[p], p, st)->Ok_0->Some_0;
        lemma_run_extend(t, p + 1, q, next, a, b);
    } else {
        assert(run(t, q + 1, q + 1, b) == Some(b));
    }
}

proof fn lemma_run_compose(t: Seq<Token>, p: int, q: int, r: int, st: ScanState, a: ScanState)
    requires
        0 <= p <= q <= r,
        run(t, p, q, st) == Some(a),
    ensures
        run(t, p, r, st) == run(t, q, r, a),
    decreases q - p,
{
    if p < q {
        let next = check_step(t[p], p, st)->Ok_0->Some_0;
        lemma_run_compose(t, p + 1, q, r, next, a);
    }
}

proof fn lemma_run_check(t: Seq<Token>, p: int, q: int, st: ScanState, a: ScanState)
    requires
        0 <= p <= q,
        run(t, p, q, st) == Some(a),
    ensures
        check_from(t, p, st) == check_from(t, q, a),
    decreases q - p,
{
    if p < q {
        let next = check_step(t[p], p, st)->Ok_0->Some_0;
        lemma_run_check(t, p + 1, q, next, a);
    }
}


/// After an operator at `q` that the check takes, an operand is due at `q + 1`.
proof fn lemma_operator(t: Seq<Token>, p: int, st: ScanState, q: int, a: ScanState) -> (b: ScanState)
    requires
        stream_form(t),
        0 <= p <= q < t.len(),
        run(t, p, q, st) == Some(a),
        check_from(t, q, a) is Ok,
        t[q] is Reserved,
        t[q] != Token::Reserved(Word::LeftBra),
        t[q] != Token::Reserved(Word::RightBra),
        !a.need_number || t[q] == Token::Reserved(Word::Add) || t[q] == Token::Reserved(Word::Sub)
            || t[q] == Token::Reserved(Word::Assign),
    ensures
        run(t, p, q + 1, st) == Some(b),
        b.brackets == a.brackets,
        b.need_semicolon,
        (t[q] == Token::Reserved(Word::Add) || t[q] == Token::Reserved(Word::Sub)) ==> b.count_unary >= 1,
        due(t, q + 1, b),
{
    let b = check_step(t[q], q, a)->Ok_0->Some_0;
    lemma_run_extend(t, p, q, st, a, b);
    assert(q < t.len() - 1);
    assert(b.need_number && b.need_semicolon);
    assert(check_from(t, q + 1, b) is Ok);
    assert(t[q + 1] != Token::Eof);
    b
}

/// Two pieces that the check takes one after the other make one.
proof fn lemma_join(t: Seq<Token>, p: int, st: ScanState, q: int, b: ScanState, r: int, level: int)
    requires
        0 <= p < q,
        run(t, p, q, st) == Some(b),
        b.brackets == st.brackets,
        ended(t, q, b, r, level),
    ensures
        ended(t, p, st, r, level),
{
    lemma_run_compose(t, p, q, r, st, b);
}

proof fn lemma_primary(t: Seq<Token>, p: int, st: ScanState)
    requires
        stream_form(t),
        well_placed(t),
        due(t, p, st),
        t[p] != Token::Reserved(Word::Add),
        t[p] != Token::Reserved(Word::Sub),
    ensures
        parse_primary(t, p) matches Some((_, q)) && ended(t, p, st, q, 0),
    decreases t.len() - p, 1int,
{
    assert(fits(t, p));
    assert(p < t.len() - 1);
    let b = check_step(t[p], p, st)->Ok_0->Some_0;
    lemma_run_extend(t, p, p, st, st, b);
    if t[p] == Token::Reserved(Word::LeftBra) {
        assert(b.need_number && b.need_semicolon);
        assert(check_from(t, p + 1, b) is Ok);
        assert(t[p + 1] != Token::Eof);
        lemma_expr(t, p + 1, b);
        let q = parse_expr(t, p + 1)->Some_0.1;
        let c = run(t, p + 1, q, b)->Some_0;
        assert(fits(t, q));
        assert(t[q] == Token::Reserved(Word::RightBra));
        let d = check_step(t[q], q, c)->Ok_0->Some_0;
        lemma_run_compose(t, p, p + 1, q, st, b);
        lemma_run_extend(t, p, q, st, c, d);
        assert(d.brackets =~= st.brackets);
        assert(q < t.len() - 1);
        assert(run(t, q + 1, q + 1, d) == Some(d));
    } else {
        assert(t[p] is Number || t[p] is Ident);
        assert(run(t, p + 1, p + 1, b) == Some(b));
    }
}

proof fn lemma_unary(t: Seq<Token>, p: int, st: ScanState)
    requires
        stream_form(t),
        well_placed(t),
        due(t, p, st),
    ensures
        parse_unary(t, p) matches Some((_, q)) && ended(t, p, st, q, 0),
    decreases t.len() - p, 2int,
{
    if t[p] == Token::Reserved(Word::Add) || t[p] == Token::Reserved(Word::Sub) {
        assert(run(t, p, p, st) == Some(st));
        let b = lemma_operator(t, p, st, p, st);
        assert(check_from(t, p + 1, b) is Ok);
        assert(t[p + 1] != Token::Reserved(Word::Add) && t[p + 1] != Token::Reserved(Word::Sub));
        lemma_primary(t, p + 1, b);
        let q = parse_primary(t, p + 1)->Some_0.1;
        lemma_join(t, p, st, p + 1, b, q, 0);
    } else {
        lemma_primary(t, p, st);
    }
}

proof fn lemma_mul_rest(t: Seq<Token>, p: int, st: ScanState, q: int, left: crate::parser::Node)
    requires
        stream_form(t),
        well_placed(t),
        0 <= p,
        ended(t, p, st, q, 0),
    ensures
        parse_mul_rest(t, q, left) matches Some((_, r)) && ended(t, p, st, r, 1),
    decreases t.len() - q, 3int,
{
    if t[q] == Token::Reserved(Word::Mul) || t[q] == Token::Reserved(Word::Div) {
        let a = run(t, p, q, st)->Some_0;
        let b = lemma_operator(t, p, st, q, a);
        lemma_unary(t, q + 1, b);
        let (right, q2) = parse_unary(t, q + 1)->Some_0;
        lemma_join(t, p, st, q + 1, b, q2, 0);
        let node = if t[q] == Token::Reserved(Word::Mul) {
            crate::parser::Node::Mul(Box::new(left), Box::new(right))
        } else {
            crate::parser::Node::Div(Box::new(left), Box::new(right))
        };
        lemma_mul_rest(t, p, st, q2, node);
    }
}

proof fn lemma_mul(t: Seq<Token>, p: int, st: ScanState)
    requires
        stream_form(t),
        well_placed(t),
        due(t, p, st),
    ensures
        parse_mul(t, p) matches Some((_, q)) && ended(t, p, st, q, 1),
    decreases t.len() - p, 4int,
{
    lemma_unary(t, p, st);
    let (n, q) = parse_unary(t, p)->Some_0;
    lemma_mul_rest(t, p, st, q, n);
}

proof fn lemma_add_rest(t: Seq<Token>, p: int, st: ScanState, q: int, left: crate::parser::Node)
    requires
        stream_form(t),
        well_placed(t),
        0 <= p,
        ended(t, p, st, q, 1),
    ensures
        parse_add_rest(t, q, left) matches Some((_, r)) && ended(t, p, st, r, 2),
    decreases t.len() - q, 5int,
{
    if t[q] == Token::Reserved(Word::Add) || t[q] == Token::Reserved(Word::Sub) {
        let a = run(t, p, q, st)->Some_0;
        let b = lemma_operator(t, p, st, q, a);
        lemma_mul(t, q + 1, b);
        let (right, q2) = parse_mul(t, q + 1)->Some_0;
        lemma_join(t, p, st, q + 1, b, q2, 1);
        let node = if t[q] == Token::Reserved(Word::Add) {
            crate::parser::Node::Add(Box::new(left), Box::new(right))
        } else {
            crate::parser::Node::Sub(Box::new(left), Box::new(right))
        };
        lemma_add_rest(t, p, st, q2, node);
    }
}

proof fn lemma_add(t: Seq<Token>, p: int, st: ScanState)
    requires
        stream_form(t),
        well_placed(t),
        due(t, p, st),
    ensures
        parse_add(t, p) matches Some((_, q)) && ended(t, p, st, q, 2),
    decreases t.len() - p, 6int,
{
    lemma_mul(t, p, st);
    let (n, q) = parse_mul(t, p)->Some_0;
    lemma_add_rest(t, p, st, q, n);
}

proof fn lemma_relational_rest(t: Seq<Token>, p: int, st: ScanState, q: int, left: crate::parser::Node)
    requires
        stream_form(t),
        well_placed(t),
        0 <= p,
        ended(t, p, st, q, 2),
    ensures
        parse_relational_rest(t, q, left) matches Some((_, r)) && ended(t, p, st, r, 3),
    decreases t.len() - q, 7int,
{
    if let Token::Reserved(w) = t[q] {
        if w == Word::Le || w == Word::Lt || w == Word::Ge || w == Word::Gt {
            let a = run(t, p, q, st)->Some_0;
            let b = lemma_operator(t, p, st, q, a);
            lemma_add(t, q + 1, b);
            let (right, q2) = parse_add(t, q + 1)->Some_0;
            lemma_join(t, p, st, q + 1, b, q2, 2);
            let node = if w == Word::Le {
                crate::parser::Node::Le(Box::new(left), Box::new(right))
            } else if w == Word::Lt {
                crate::parser::Node::Lt(Box::new(left), Box::new(right))
            } else if w == Word::Ge {
                crate::parser::Node::Le(Box::new(right), Box::new(left))
            } else {
                crate::parser::Node::Lt(Box::new(right), Box::new(left))
            };
            lemma_relational_rest(t, p, st, q2, node);
        }
    }
}

proof fn lemma_relational(t: Seq<Token>, p: int, st: ScanState)
    requires
        stream_form(t),
        well_placed(t),
        due(t, p, st),
    ensures
        parse_relational(t, p) matches Some((_, q)) && ended(t, p, st, q, 3),
    decreases t.len() - p, 8int,
{
    lemma_add(t, p, st);
    let (n, q) = parse_add(t, p)->Some_0;
    lemma_relational_rest(t, p, st, q, n);
}

proof fn lemma_equality_rest(t: Seq<Token>, p: int, st: ScanState, q: int, left: crate::parser::Node)
    requires
        stream_form(t),
        well_placed(t),
        0 <= p,
        ended(t, p, st, q, 3),
    ensures
        parse_equality_rest(t, q, left) matches Some((_, r)) && ended(t, p, st, r, 4),
    decreases t.len() - q, 9int,
{
    if t[q] == Token::Reserved(Word::Eq) || t[q] == Token::Reserved(Word::Ne) {
        let a = run(t, p, q, st)->Some_0;
        let b = lemma_operator(t, p, st, q, a);
        lemma_relational(t, q + 1, b);
        let (right, q2) = parse_relational(t, q + 1)->Some_0;
        lemma_join(t, p, st, q + 1, b, q2, 3);
        let node = if t[q] == Token::Reserved(Word::Eq) {
            crate::parser::Node::Eq(Box::new(left), Box::new(right))
        } else {
            crate::parser::Node::Ne(Box::new(left), Box::new(right))
        };
        lemma_equality_rest(t, p, st, q2, node);
    }
}

proof fn lemma_equality(t: Seq<Token>, p: int, st: ScanState)
    requires
        stream_form(t),
        well_placed(t),
        due(t, p, st),
    ensures
        parse_equality(t, p) matches Some((_, q)) && ended(t, p, st, q, 4),
    decreases t.len() - p, 10int,
{
    lemma_relational(t, p, st);
    let (n, q) = parse_relational(t, p)->Some_0;
    lemma_equality_rest(t, p, st, q, n);
}

proof fn lemma_assign(t: Seq<Token>, p: int, st: ScanState)
    requires
        stream_form(t),
        well_placed(t),
        due(t, p, st),
    ensures
        parse_assign(t, p) matches Some((_, q)) && ended(t, p, st, q, 5),
    decreases t.len() - p, 11int,
{
    lemma_equality(t, p, st);
    let (n, q) = parse_equality(t, p)->Some_0;
    if t[q] == Token::Reserved(Word::Assign) {
        let a = run(t, p, q, st)->Some_0;
        let b = lemma_operator(t, p, st, q, a);
        lemma_assign(t, q + 1, b);
        let q2 = parse_assign(t, q + 1)->Some_0.1;
        lemma_join(t, p, st, q + 1, b, q2, 5);
    }
}

proof fn lemma_expr(t: Seq<Token>, p: int, st: ScanState)
    requires
        stream_form(t),
        well_placed(t),
        due(t, p, st),
    ensures
        parse_expr(t, p) matches Some((_, q)) && ended(t, p, st, q, 5),
    decreases t.len() - p, 12int,
{
    lemma_assign(t, p, st);
}

proof fn lemma_program(t: Seq<Token>, p: int)
    requires
        stream_form(t),
        well_placed(t),
        0 <= p < t.len(),
        operand_due(t, p),
        check_from(t, p, initial_state()) is Ok,
    ensures
        parse_program(t, p) is Some,
    decreases t.len() - p,
{
    if t[p] != Token::Eof {
        let st = initial_state();
        lemma_expr(t, p, st);
        let q = parse_expr(t, p)->Some_0.1;
        let a = run(t, p, q, st)->Some_0;
        assert(fits(t, q));
        assert(t[q] == Token::SemiColon);
        assert(check_step(t[q], q, a) == Ok::<Option<ScanState>, (crate::static_check::GrammarError, int)>(Some(initial_state())));
        assert(q < t.len() - 1);
        assert(parse_stmt(t, p) == Some((parse_expr(t, p)->Some_0.0, q + 1)));
        lemma_program(t, q + 1);
    }
}

/// The grammar check keeps the parser from faulting: a token stream in the
/// lexer's form that the check accepts, in which no `=`, `)` or `;` stands
/// where an operand is due and no `(` stands where an operator is due, parses
/// into statements.
pub proof fn lemma_checked_tokens_parse(t: Seq<Token>)
    requires
        stream_form(t),
        check(t) is Ok,
        well_placed(t),
    ensures
        parse_program(t, 0) is Some,
{
    lemma_program(t, 0);
}

} // verus!
