//! The grammar check: one pass over the tokens that rejects a sequence no
//! program can have, naming the token at fault.
use vstd::prelude::*;
use vstd::string::*;
use crate::error::Position;
use crate::lexer::{Token, TokenStream, Word};

verus! {

/// Why the grammar check rejects a token sequence.
#[derive(Debug, Clone, Copy, PartialEq, Eq, Structural)]
pub enum GrammarError {
    NeedNumber,
    NeedOperator,
    NeedSemicolon,
    UnmatchedBracket,
    RepeatedUnary,
}

pub open spec fn error_message(e: GrammarError) -> Seq<char> {
    match e {
        GrammarError::NeedNumber => "fail to parse: need number here."@,
        GrammarError::NeedOperator => "fail to parse: need operator here."@,
        GrammarError::NeedSemicolon => "fail to parse: need semicolon here."@,
        GrammarError::UnmatchedBracket => "fail to parse: this bracket doesn't match."@,
        GrammarError::RepeatedUnary => "fail to parse: use unary only once."@,
    }
}

impl GrammarError {
    /// The message shown for this error.
    pub fn message(&self) -> (r: String)
        ensures
            r@ == error_message(*self),
    {
        match self {
            GrammarError::NeedNumber => String::from_str("fail to parse: need number here."),
            GrammarError::NeedOperator => String::from_str("fail to parse: need operator here."),
            GrammarError::NeedSemicolon => String::from_str("fail to parse: need semicolon here."),
            GrammarError::UnmatchedBracket => String::from_str(
                "fail to parse: this bracket doesn't match.",
            ),
            GrammarError::RepeatedUnary => String::from_str("fail to parse: use unary only once."),
        }
    }
}

/// The state of the check between two tokens.
pub struct ScanState {
    /// Indices of the brackets opened and not yet closed, innermost last.
    pub brackets: Seq<int>,
    /// An operand is due next.
    pub need_number: bool,
    /// Signs seen in a row.
    pub count_unary: nat,
    /// A statement has begun and waits for its `;`.
    pub need_semicolon: bool,
}

pub open spec fn initial_state() -> ScanState {
    ScanState { brackets: seq![], need_number: true, count_unary: 0, need_semicolon: false }
}

/// What the check does with token `t` at index `i`: the next state, `None`
/// where the scan ends with success, or the error and the index it names.
pub open spec fn check_step(t: Token, i: int, st: ScanState) -> Result<Option<ScanState>, (GrammarError, int)> {
    match t {
        Token::SemiColon => if st.need_semicolon && st.need_number {
            Err((GrammarError::NeedNumber, i))
        } else if st.brackets.len() > 0 {
            Err((GrammarError::UnmatchedBracket, st.brackets.last()))
        } else {
            Ok(Some(initial_state()))
        },
        Token::Reserved(Word::Assign) => Ok(Some(ScanState { need_number: true, need_semicolon: true, ..st })),
        Token::Reserved(Word::Add) | Token::Reserved(Word::Sub) => if st.count_unary >= 1 {
            Err((GrammarError::RepeatedUnary, i))
        } else {
            Ok(Some(ScanState { need_number: true, count_unary: st.count_unary + 1, need_semicolon: true, ..st }))
        },
        Token::Reserved(Word::LeftBra) => Ok(Some(ScanState {
            brackets: st.brackets.push(i),
            count_unary: 0,
            need_semicolon: true,
            ..st
        })),
        Token::Reserved(Word::RightBra) => if st.brackets.len() == 0 {
            Err((GrammarError::UnmatchedBracket, i))
        } else {
            Ok(Some(ScanState {
                brackets: st.brackets.drop_last(),
                count_unary: 0,
                need_semicolon: true,
                ..st
            }))
        },
        Token::Reserved(_) => if st.need_number {
            Err((GrammarError::NeedNumber, i))
        } else {
            Ok(Some(ScanState { need_number: true, count_unary: 0, need_semicolon: true, ..st }))
        },
        Token::Number(_) | Token::Ident(_) => if !st.need_number {
            Err((GrammarError::NeedOperator, i))
        } else {
            Ok(Some(ScanState { need_number: false, count_unary: 0, need_semicolon: true, ..st }))
        },
        Token::Eof => if st.need_semicolon && st.need_number {
            Err((GrammarError::NeedNumber, i))
        } else if st.need_semicolon {
            Err((GrammarError::NeedSemicolon, i))
        } else {
            Ok(None)
        },
    }
}

/// The check from index `i` on, in state `st`.
pub open spec fn check_from(toks: Seq<Token>, i: int, st: ScanState) -> Result<(), (GrammarError, int)>
    decreases toks.len() - i,
{
    if i < 0 || i >= toks.len() {
        Ok(())
    } else {
        match check_step(toks[i], i, st) {
            Err(e) => Err(e),
            Ok(None) => Ok(()),
            Ok(Some(next)) => check_from(toks, i + 1, next),
        }
    }
}

/// The grammar check of a whole token sequence.
pub open spec fn check(toks: Seq<Token>) -> Result<(), (GrammarError, int)> {
    check_from(toks, 0, initial_state())
}

/// Runs the grammar check over `stream` and reports the first violation with
/// the index of the token it names.
pub fn verify_stream(stream: &TokenStream) -> (r: Result<(), (String, Position)>)
    ensures
        match check(stream.sequence@) {
            Ok(()) => r is Ok,
            Err((e, i)) => r matches Err((m, p)) && m@ == error_message(e) && p.0 == i,
        },
{
    let toks = &stream.sequence;
    let mut brackets: Vec<usize> = Vec::new();
    let mut need_number = true;
    let mut count_unary: usize = 0;
    let mut need_semicolon = false;
    let mut index: usize = 0;
    assert(brackets@.map_values(|b: usize| b as int) =~= seq![]);
    while index < toks.len()
        invariant
            index <= toks.len(),
            toks@ == stream.sequence@,
            count_unary <= 1,
            forall|k: int| 0 <= k < brackets.len() ==> brackets@[k] < index,
            check(toks@) == check_from(
                toks@,
                index as int,
                ScanState {
                    brackets: brackets@.map_values(|b: usize| b as int),
                    need_number,
                    count_unary: count_unary as nat,
                    need_semicolon,
                },
            ),
        decreases toks.len() - index,
    {
        let ghost st = ScanState {
            brackets: brackets@.map_values(|b: usize| b as int),
            need_number,
            count_unary: count_unary as nat,
            need_semicolon,
        };
        match toks[index] {
            Token::SemiColon => {
                if need_semicolon && need_number {
                    let e = GrammarError::NeedNumber;
                    return Err((e.message(), Position(index)));
                }
                if let Some(open) = brackets.pop() {
                    let e = GrammarError::UnmatchedBracket;
                    return Err((e.message(), Position(open)));
                }
                brackets = Vec::new();
                assert(brackets@.map_values(|b: usize| b as int) =~= seq![]);
                need_number = true;
                count_unary = 0;
                need_semicolon = false;
            },
            Token::Reserved(Word::Assign) => {
                need_number = true;
                need_semicolon = true;
            },
            Token::Reserved(Word::Add) | Token::Reserved(Word::Sub) => {
                need_number = true;
                if count_unary >= 1 {
                    let e = GrammarError::RepeatedUnary;
                    return Err((e.message(), Position(index)));
                }
                count_unary = count_unary + 1;
                need_semicolon = true;
            },
            Token::Reserved(Word::LeftBra) => {
                brackets.push(index);
                count_unary = 0;
                need_semicolon = true;
            },
            Token::Reserved(Word::RightBra) => {
                if brackets.pop().is_none() {
                    let e = GrammarError::UnmatchedBracket;
                    return Err((e.message(), Position(index)));
                }
                count_unary = 0;
                need_semicolon = true;
            },
            Token::Reserved(_) => {
                if need_number {
                    let e = GrammarError::NeedNumber;
                    return Err((e.message(), Position(index)));
                }
                need_number = true;
                count_unary = 0;
                need_semicolon = true;
            },
            Token::Number(_) | Token::Ident(_) => {
                if !need_number {
                    let e = GrammarError::NeedOperator;
                    return Err((e.message(), Position(index)));
                }
                need_number = false;
                count_unary = 0;
                need_semicolon = true;
            },
            Token::Eof => {
                if need_semicolon && need_number {
                    let e = GrammarError::NeedNumber;
                    return Err((e.message(), Position(index)));
                } else if need_semicolon {
                    let e = GrammarError::NeedSemicolon;
                    return Err((e.message(), Position(index)));
                }
                return Ok(());
            },
        }
        proof {
            let next = ScanState {
                brackets: brackets@.map_values(|b: usize| b as int),
                need_number,
                count_unary: count_unary as nat,
                need_semicolon,
            };
            assert(next.brackets =~= match check_step(toks@[index as int], index as int, st) {
                Ok(Some(n)) => n.brackets,
                _ => next.brackets,
            });
            assert(check_step(toks@[index as int], index as int, st) == Ok::<Option<ScanState>, (GrammarError, int)>(Some(next)));
        }
        index = index + 1;
    }
    Ok(())
}

} // verus!
