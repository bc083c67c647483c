//! The lexer: source text to a token sequence with the offset of each token.
use vstd::prelude::*;
use vstd::string::*;
use crate::error::Byte;

verus! {

/// A reserved operator or bracket.
#[derive(Debug, Clone, Copy, PartialEq, Eq, Structural)]
pub enum Word {
    LeftBra,
    RightBra,
    Add,
    Sub,
    Mul,
    Div,
    Eq,
    Ne,
    Le,
    Lt,
    Ge,
    Gt,
    Assign,
}

/// A lexical unit of the source language.
#[derive(Debug, Clone, Copy, PartialEq, Eq, Structural)]
pub enum Token {
    Reserved(Word),
    /// A variable, by its slot: 0 for `a` up to 25 for `z`.
    Ident(u64),
    Number(i64),
    SemiColon,
    Eof,
}

/// The tokens of a source text, ended by `Eof`, with the character offset at
/// which each token before `Eof` starts.
#[derive(Debug, Clone, PartialEq, Eq)]
pub struct TokenStream {
    pub sequence: Vec<Token>,
    pub position: Vec<usize>,
}

/// What `char::is_whitespace` returns for a character.
pub uninterp spec fn whitespace(c: char) -> bool;

/// What `char::is_alphabetic` returns for a character.
pub uninterp spec fn alphabetic(c: char) -> bool;

/// Relies on `char::is_whitespace`: whether `c` has Unicode's White_Space property.
#[verifier::external_body]
fn is_whitespace(c: char) -> (r: bool)
    ensures
        r == whitespace(c),
{
    c.is_whitespace()
}

/// Relies on `char::is_alphabetic`: whether `c` has Unicode's Alphabetic property.
#[verifier::external_body]
fn is_alphabetic(c: char) -> (r: bool)
    ensures
        r == alphabetic(c),
{
    c.is_alphabetic()
}

pub open spec fn is_ascii_char(c: char) -> bool {
    (c as u32) < 128
}

/// Whitespace: within ASCII the space and `\t` to `\r`; beyond it, Unicode's White_Space.
pub open spec fn space(c: char) -> bool {
    if is_ascii_char(c) {
        c == ' ' || ('\t' <= c && c <= '\r')
    } else {
        whitespace(c)
    }
}

/// A letter: within ASCII `a` to `z` and `A` to `Z`; beyond it, Unicode's Alphabetic.
pub open spec fn letter(c: char) -> bool {
    if is_ascii_char(c) {
        ('a' <= c && c <= 'z') || ('A' <= c && c <= 'Z')
    } else {
        alphabetic(c)
    }
}

pub open spec fn digit(c: char) -> bool {
    '0' <= c && c <= '9'
}

/// The number of digits from `at` on.
pub open spec fn digit_run(s: Seq<char>, at: int) -> nat
    decreases s.len() - at,
{
    if 0 <= at < s.len() && digit(s[at]) {
        1 + digit_run(s, at + 1)
    } else {
        0
    }
}

/// The number of letters from `at` on.
pub open spec fn letter_run(s: Seq<char>, at: int) -> nat
    decreases s.len() - at,
{
    if 0 <= at < s.len() && letter(s[at]) {
        1 + letter_run(s, at + 1)
    } else {
        0
    }
}

/// The number of whitespace characters from `at` on.
pub open spec fn space_run(s: Seq<char>, at: int) -> nat
    decreases s.len() - at,
{
    if 0 <= at < s.len() && space(s[at]) {
        1 + space_run(s, at + 1)
    } else {
        0
    }
}

/// The value of a sequence of decimal digits.
pub open spec fn digits_value(q: Seq<char>) -> int
    decreases q.len(),
{
    if q.len() == 0 {
        0
    } else {
        digits_value(q.drop_last()) * 10 + (q.last() as int - '0' as int)
    }
}

pub open spec fn char_at(s: Seq<char>, at: int) -> Option<char> {
    if 0 <= at < s.len() {
        Some(s[at])
    } else {
        None
    }
}

pub open spec fn lex_semicolon(s: Seq<char>, at: int) -> Option<(Token, nat)> {
    if char_at(s, at) == Some(';') {
        Some((Token::SemiColon, 1))
    } else {
        None
    }
}

pub open spec fn lex_bracket(s: Seq<char>, at: int) -> Option<(Token, nat)> {
    if char_at(s, at) == Some('(') {
        Some((Token::Reserved(Word::LeftBra), 1))
    } else if char_at(s, at) == Some(')') {
        Some((Token::Reserved(Word::RightBra), 1))
    } else {
        None
    }
}

/// A maximal run of digits whose value fits in `i64`.
pub open spec fn lex_number(s: Seq<char>, at: int) -> Option<(Token, nat)> {
    let n = digit_run(s, at);
    let v = digits_value(s.subrange(at, at + n));
    if n > 0 && v <= i64::MAX {
        Some((Token::Number(v as i64), n))
    } else {
        None
    }
}

/// The comparison operators and `=`, the longest spelling first.
pub open spec fn lex_order(s: Seq<char>, at: int) -> Option<(Token, nat)> {
    let eq_next = char_at(s, at + 1) == Some('=');
    match char_at(s, at) {
        Some('<') => if eq_next { Some((Token::Reserved(Word::Le), 2)) } else { Some((Token::Reserved(Word::Lt), 1)) },
        Some('>') => if eq_next { Some((Token::Reserved(Word::Ge), 2)) } else { Some((Token::Reserved(Word::Gt), 1)) },
        Some('=') => if eq_next { Some((Token::Reserved(Word::Eq), 2)) } else { Some((Token::Reserved(Word::Assign), 1)) },
        Some('!') => if eq_next { Some((Token::Reserved(Word::Ne), 2)) } else { None },
        _ => None,
    }
}

/// A maximal run of letters that starts with a lower-case ASCII letter, which
/// alone names the variable.
pub open spec fn lex_alphabetic(s: Seq<char>, at: int) -> Option<(Token, nat)> {
    let n = letter_run(s, at);
    if n > 0 && 'a' <= s[at] && s[at] <= 'z' {
        Some((Token::Ident((s[at] as int - 'a' as int) as u64), n))
    } else {
        None
    }
}

pub open spec fn lex_operator(s: Seq<char>, at: int) -> Option<(Token, nat)> {
    match char_at(s, at) {
        Some('+') => Some((Token::Reserved(Word::Add), 1)),
        Some('-') => Some((Token::Reserved(Word::Sub), 1)),
        Some('*') => Some((Token::Reserved(Word::Mul), 1)),
        Some('/') => Some((Token::Reserved(Word::Div), 1)),
        _ => None,
    }
}

/// What the lexer takes at `at`: a token and its width, or (`None`, width)
/// for a run of whitespace; `None` where nothing matches.
pub open spec fn lex_step(s: Seq<char>, at: int) -> Option<(Option<Token>, nat)> {
    if let Some((t, w)) = lex_semicolon(s, at) {
        Some((Some(t), w))
    } else if let Some((t, w)) = lex_bracket(s, at) {
        Some((Some(t), w))
    } else if let Some((t, w)) = lex_number(s, at) {
        Some((Some(t), w))
    } else if let Some((t, w)) = lex_order(s, at) {
        Some((Some(t), w))
    } else if let Some((t, w)) = lex_alphabetic(s, at) {
        Some((Some(t), w))
    } else if let Some((t, w)) = lex_operator(s, at) {
        Some((Some(t), w))
    } else if space_run(s, at) > 0 {
        Some((None, space_run(s, at)))
    } else {
        None
    }
}

/// The tokens and their offsets from `at` to the end of `s`, or the offset at
/// which nothing matches.
pub open spec fn lex_from(s: Seq<char>, at: int) -> Result<(Seq<Token>, Seq<usize>), int>
    decreases s.len() - at,
{
    if at < 0 || at >= s.len() {
        Ok((seq![], seq![]))
    } else {
        match lex_step(s, at) {
            None => Err(at),
            Some((tok, w)) => if w == 0 || at + w > s.len() {
                Err(at)
            } else {
                match lex_from(s, at + w) {
                    Err(e) => Err(e),
                    Ok((ts, os)) => match tok {
                        None => Ok((ts, os)),
                        Some(t) => Ok((seq![t] + ts, seq![#[verifier::truncate] (at as usize)] + os)),
                    },
                }
            },
        }
    }
}

/// The message where nothing matches at `at`: the text left from there.
pub open spec fn left_message(s: Seq<char>, at: int) -> Seq<char> {
    "fail to lex. left: "@ + s.subrange(at, s.len() as int) + "."@
}

pub open spec fn empty_message() -> Seq<char> {
    "fail to lex. need some charactors without whitespace."@
}

/// The whole lexer: tokens ended by `Eof` with the offsets of the tokens before
/// it, or an error message with the offset where lexing stopped.
pub open spec fn tokenize(s: Seq<char>) -> Result<(Seq<Token>, Seq<usize>), (Seq<char>, int)> {
    match lex_from(s, 0) {
        Err(at) => Err((left_message(s, at), at)),
        Ok((ts, os)) => if ts.len() == 0 {
            Err((empty_message(), s.len() as int))
        } else {
            Ok((ts.push(Token::Eof), os))
        },
    }
}

/// `r` with `ts` and `os` put before its tokens and offsets.
pub open spec fn prepend(
    ts: Seq<Token>,
    os: Seq<usize>,
    r: Result<(Seq<Token>, Seq<usize>), int>,
) -> Result<(Seq<Token>, Seq<usize>), int> {
    match r {
        Err(e) => Err(e),
        Ok((ts2, os2)) => Ok((ts + ts2, os + os2)),
    }
}

pub(crate) proof fn lemma_digit_run_bound(s: Seq<char>, at: int)
    requires
        0 <= at <= s.len(),
    ensures
        digit_run(s, at) <= s.len() - at,
    decreases s.len() - at,
{
    if at < s.len() {
        lemma_digit_run_bound(s, at + 1);
    }
}

proof fn lemma_letter_run_bound(s: Seq<char>, at: int)
    requires
        0 <= at <= s.len(),
    ensures
        letter_run(s, at) <= s.len() - at,
    decreases s.len() - at,
{
    if at < s.len() {
        lemma_letter_run_bound(s, at + 1);
    }
}

proof fn lemma_space_run_bound(s: Seq<char>, at: int)
    requires
        0 <= at <= s.len(),
    ensures
        space_run(s, at) <= s.len() - at,
    decreases s.len() - at,
{
    if at < s.len() {
        lemma_space_run_bound(s, at + 1);
    }
}

/// A step that matches takes at least one character and stays within `s`.
pub(crate) proof fn lemma_step_width(s: Seq<char>, at: int)
    requires
        0 <= at < s.len(),
        lex_step(s, at) is Some,
    ensures
        0 < lex_step(s, at)->Some_0.1 <= s.len() - at,
{
    lemma_digit_run_bound(s, at);
    lemma_letter_run_bound(s, at);
    lemma_space_run_bound(s, at);
}

/// The characters of `s`, one per element.
pub(crate) fn chars_of(s: &str) -> (r: Vec<char>)
    ensures
        r@ == s@,
{
    let mut r: Vec<char> = Vec::new();
    for c in it: s.chars()
        invariant
            r@ == it.seq().take(it.index() as int),
    {
        r.push(c);
    }
    r
}


pub(crate) proof fn lemma_digits_value_push(q: Seq<char>, c: char)
    ensures
        digits_value(q.push(c)) == digits_value(q) * 10 + (c as int - '0' as int),
{
    assert(q.push(c).drop_last() =~= q);
}

pub(crate) proof fn lemma_digits_value_nonneg(q: Seq<char>)
    requires
        forall|i: int| 0 <= i < q.len() ==> digit(#[trigger] q[i]),
    ensures
        digits_value(q) >= 0,
    decreases q.len(),
{
    if q.len() > 0 {
        lemma_digits_value_nonneg(q.drop_last());
    }
}

/// A longer run of digits has a value at least as large.
pub(crate) proof fn lemma_digits_value_grows(s: Seq<char>, at: int, j: int, k: int)
    requires
        0 <= at <= j <= k <= s.len(),
        forall|i: int| at <= i < k ==> digit(#[trigger] s[i]),
    ensures
        digits_value(s.subrange(at, j)) <= digits_value(s.subrange(at, k)),
    decreases k - j,
{
    if j < k {
        lemma_digits_value_grows(s, at, j, k - 1);
        assert(s.subrange(at, k) =~= s.subrange(at, k - 1).push(s[k - 1]));
        lemma_digits_value_push(s.subrange(at, k - 1), s[k - 1]);
        lemma_digits_value_nonneg(s.subrange(at, k - 1));
    }
}

pub(crate) proof fn lemma_digit_run_all(s: Seq<char>, at: int, i: int)
    requires
        0 <= at <= i < at + digit_run(s, at),
    ensures
        digit(s[i]),
        i < s.len(),
    decreases i - at,
{
    if i > at {
        lemma_digit_run_all(s, at + 1, i);
    }
}

fn is_space(c: char) -> (r: bool)
    ensures
        r == space(c),
{
    if (c as u32) < 128 {
        c == ' ' || ('\t' <= c && c <= '\r')
    } else {
        is_whitespace(c)
    }
}

fn is_letter(c: char) -> (r: bool)
    ensures
        r == letter(c),
{
    if (c as u32) < 128 {
        ('a' <= c && c <= 'z') || ('A' <= c && c <= 'Z')
    } else {
        is_alphabetic(c)
    }
}

impl TokenStream {
    /// Lexes `program`: at each offset the first sub-lexer that matches, in
    /// the order semicolon, bracket, number, comparison, identifier,
    /// arithmetic operator, whitespace, takes its characters. Fails where none
    /// matches, or where the text holds no token.
    pub fn tokenize01(program: String) -> (r: Result<TokenStream, (String, Byte)>)
        ensures
            match tokenize(program@) {
                Ok((ts, os)) => r matches Ok(st) && st.sequence@ == ts && st.position@ == os,
                Err((m, at)) => r matches Err((msg, b)) && msg@ == m && b.0 == at,
            },
    {
        let source = chars_of(program.as_str());
        let ghost s = source@;
        let mut sequence: Vec<Token> = Vec::new();
        let mut position: Vec<usize> = Vec::new();
        let mut at: usize = 0;
        while at < source.len()
            invariant
                at <= source.len(),
                s == source@,
                s == program@,
                lex_from(s, 0) == prepend(sequence@, position@, lex_from(s, at as int)),
            decreases source.len() - at,
        {
            let mut found = Self::consume_semicolon(&source, at);
            if found.is_none() {
                found = Self::consume_bracket(&source, at);
            }
            if found.is_none() {
                found = Self::consume_number(&source, at);
            }
            if found.is_none() {
                found = Self::consume_order(&source, at);
            }
            if found.is_none() {
                found = Self::consume_alphabetic(&source, at);
            }
            if found.is_none() {
                found = Self::consume_operator(&source, at);
            }
            if let Some((token, width)) = found {
                proof {
                    lemma_step_width(s, at as int);
                    assert(lex_step(s, at as int) == Some((Some(token), width as nat)));
                    match lex_from(s, at + width) {
                        Ok((ts, os)) => {
                            assert(sequence@.push(token) + ts =~= sequence@ + (seq![token] + ts));
                            assert(position@.push(at) + os =~= position@ + (seq![at] + os));
                        },
                        Err(_) => {},
                    }
                }
                sequence.push(token);
                position.push(at);
                at = at + width;
            } else {
                let width = Self::consume_whitespace(&source, at);
                if width == 0 {
                    assert(lex_step(s, at as int) is None);
                    let mut message = String::from_str("fail to lex. left: ");
                    message.append(program.as_str().substring_char(at, source.len()));
                    message.append(".");
                    return Err((message, Byte(at)));
                }
                proof {
                    lemma_step_width(s, at as int);
                    match lex_from(s, at + width) {
                        Ok((ts, os)) => {},
                        Err(_) => {},
                    }
                }
                at = at + width;
            }
        }
        proof {
            assert(sequence@ + seq![] =~= sequence@);
            assert(position@ + seq![] =~= position@);
        }
        if sequence.len() == 0 {
            return Err((
                String::from_str("fail to lex. need some charactors without whitespace."),
                Byte(at),
            ));
        }
        sequence.push(Token::Eof);
        Ok(TokenStream { sequence, position })
    }

    fn consume_semicolon(source: &Vec<char>, at: usize) -> (r: Option<(Token, usize)>)
        ensures
            r matches Some((t, w)) ==> lex_semicolon(source@, at as int) == Some((t, w as nat)),
            r is None ==> lex_semicolon(source@, at as int) is None,
    {
        if at < source.len() && source[at] == ';' {
            Some((Token::SemiColon, 1))
        } else {
            None
        }
    }

    fn consume_bracket(source: &Vec<char>, at: usize) -> (r: Option<(Token, usize)>)
        ensures
            r matches Some((t, w)) ==> lex_bracket(source@, at as int) == Some((t, w as nat)),
            r is None ==> lex_bracket(source@, at as int) is None,
    {
        if at < source.len() && source[at] == '(' {
            Some((Token::Reserved(Word::LeftBra), 1))
        } else if at < source.len() && source[at] == ')' {
            Some((Token::Reserved(Word::RightBra), 1))
        } else {
            None
        }
    }

    fn consume_number(source: &Vec<char>, at: usize) -> (r: Option<(Token, usize)>)
        requires
            at < source.len(),
        ensures
            r matches Some((t, w)) ==> lex_number(source@, at as int) == Some((t, w as nat)),
            r is None ==> lex_number(source@, at as int) is None,
    {
        let ghost s = source@;
        let mut end: usize = at;
        while end < source.len() && '0' <= source[end] && source[end] <= '9'
            invariant
                at <= end <= source.len(),
                s == source@,
                digit_run(s, at as int) == (end - at) + digit_run(s, end as int),
                forall|i: int| at <= i < end ==> digit(#[trigger] s[i]),
            decreases source.len() - end,
        {
            end = end + 1;
        }
        if end == at {
            return None;
        }
        let mut value: i64 = 0;
        let mut j: usize = at;
        while j < end
            invariant
                at <= j <= end <= source.len(),
                s == source@,
                digit_run(s, at as int) == end - at,
                forall|i: int| at <= i < end ==> digit(#[trigger] s[i]),
                value == digits_value(s.subrange(at as int, j as int)),
                value >= 0,
            decreases end - j,
        {
            let d: i64 = (source[j] as u32 - '0' as u32) as i64;
            proof {
                assert(s.subrange(at as int, j + 1) =~= s.subrange(at as int, j as int).push(s[j as int]));
                lemma_digits_value_push(s.subrange(at as int, j as int), s[j as int]);
            }
            if value > (i64::MAX - d) / 10 {
                proof {
                    assert(value * 10 + d > i64::MAX) by (nonlinear_arith)
                        requires value > (i64::MAX - d) / 10, 0 <= d <= 9;
                    lemma_digits_value_grows(s, at as int, j + 1, end as int);
                }
                return None;
            }
            assert(value * 10 + d <= i64::MAX) by (nonlinear_arith)
                requires value <= (i64::MAX - d) / 10, 0 <= d <= 9, value >= 0;
            value = value * 10 + d;
            j = j + 1;
        }
        Some((Token::Number(value), end - at))
    }

    fn consume_order(source: &Vec<char>, at: usize) -> (r: Option<(Token, usize)>)
        requires
            at < source.len(),
        ensures
            r matches Some((t, w)) ==> lex_order(source@, at as int) == Some((t, w as nat)),
            r is None ==> lex_order(source@, at as int) is None,
    {
        let eq_next = at + 1 < source.len() && source[at + 1] == '=';
        let c = source[at];
        if c == '<' {
            if eq_next { Some((Token::Reserved(Word::Le), 2)) } else { Some((Token::Reserved(Word::Lt), 1)) }
        } else if c == '>' {
            if eq_next { Some((Token::Reserved(Word::Ge), 2)) } else { Some((Token::Reserved(Word::Gt), 1)) }
        } else if c == '=' {
            if eq_next { Some((Token::Reserved(Word::Eq), 2)) } else { Some((Token::Reserved(Word::Assign), 1)) }
        } else if c == '!' && eq_next {
            Some((Token::Reserved(Word::Ne), 2))
        } else {
            None
        }
    }

    fn consume_alphabetic(source: &Vec<char>, at: usize) -> (r: Option<(Token, usize)>)
        requires
            at < source.len(),
        ensures
            r matches Some((t, w)) ==> lex_alphabetic(source@, at as int) == Some((t, w as nat)),
            r is None ==> lex_alphabetic(source@, at as int) is None,
    {
        let ghost s = source@;
        let mut end: usize = at;
        while end < source.len() && is_letter(source[end])
            invariant
                at <= end <= source.len(),
                s == source@,
                letter_run(s, at as int) == (end - at) + letter_run(s, end as int),
            decreases source.len() - end,
        {
            end = end + 1;
        }
        let first = source[at];
        if end > at && 'a' <= first && first <= 'z' {
            Some((Token::Ident((first as u32 - 'a' as u32) as u64), end - at))
        } else {
            None
        }
    }

    fn consume_operator(source: &Vec<char>, at: usize) -> (r: Option<(Token, usize)>)
        requires
            at < source.len(),
        ensures
            r matches Some((t, w)) ==> lex_operator(source@, at as int) == Some((t, w as nat)),
            r is None ==> lex_operator(source@, at as int) is None,
    {
        let c = source[at];
        if c == '+' {
            Some((Token::Reserved(Word::Add), 1))
        } else if c == '-' {
            Some((Token::Reserved(Word::Sub), 1))
        } else if c == '*' {
            Some((Token::Reserved(Word::Mul), 1))
        } else if c == '/' {
            Some((Token::Reserved(Word::Div), 1))
        } else {
            None
        }
    }

    /// The length of the run of whitespace at `at`.
    fn consume_whitespace(source: &Vec<char>, at: usize) -> (r: usize)
        requires
            at < source.len(),
        ensures
            r == space_run(source@, at as int),
    {
        let ghost s = source@;
        let mut end: usize = at;
        while end < source.len() && is_space(source[end])
            invariant
                at <= end <= source.len(),
                s == source@,
                space_run(s, at as int) == (end - at) + space_run(s, end as int),
            decreases source.len() - end,
        {
            end = end + 1;
        }
        end - at
    }
}

} // verus!
