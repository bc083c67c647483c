//! The usual spelling of each token, and what the lexer does with text
//! written from spellings: where each offset points, and that the whitespace
//! between tokens does not matter.
use vstd::prelude::*;
use crate::lexer::{
    digit, digit_run, digits_value, lemma_digit_run_all, lemma_digit_run_bound,
    lemma_digits_value_nonneg, lemma_digits_value_push, lemma_step_width, letter, letter_run,
    lex_bracket, lex_from, lex_number, lex_semicolon, lex_step, space, space_run, tokenize, Token,
    Word,
};
use crate::text::{decimal, decimal_nat, digit_char};

verus! {

pub open spec fn word_spelling(w: Word) -> Seq<char> {
    match w {
        Word::LeftBra => seq!['('],
        Word::RightBra => seq![')'],
        Word::Add => seq!['+'],
        Word::Sub => seq!['-'],
        Word::Mul => seq!['*'],
        Word::Div => seq!['/'],
        Word::Eq => seq!['=', '='],
        Word::Ne => seq!['!', '='],
        Word::Le => seq!['<', '='],
        Word::Lt => seq!['<'],
        Word::Ge => seq!['>', '='],
        Word::Gt => seq!['>'],
        Word::Assign => seq!['='],
    }
}

/// The usual spelling of a token: a number in decimal without leading zeros,
/// a variable by its letter; `Eof` has none.
pub open spec fn spelling(t: Token) -> Seq<char> {
    match t {
        Token::Reserved(w) => word_spelling(w),
        Token::Ident(k) => seq![(('a' as int) + k) as char],
        Token::Number(v) => decimal(v as int),
        Token::SemiColon => seq![';'],
        Token::Eof => seq![],
    }
}

/// A token the lexer can produce, other than `Eof`.
pub open spec fn lexable(t: Token) -> bool {
    match t {
        Token::Ident(k) => k < 26,
        Token::Number(v) => v >= 0,
        Token::Eof => false,
        _ => true,
    }
}

/// Character `c` cannot continue the spelling of `t` when it follows it
/// directly.
pub open spec fn ends_before(t: Token, c: char) -> bool {
    match t {
        Token::Number(_) => !digit(c),
        Token::Ident(_) => !letter(c),
        Token::Reserved(Word::Lt) | Token::Reserved(Word::Gt) | Token::Reserved(Word::Assign) => c != '=',
        _ => true,
    }
}

/// `decimal_nat(n)` is a run of digits, without a leading zero unless `n` is
/// zero, whose value is `n`.
proof fn lemma_decimal_nat_digits(n: nat)
    ensures
        decimal_nat(n).len() > 0,
        forall|i: int| 0 <= i < decimal_nat(n).len() ==> digit(#[trigger] decimal_nat(n)[i]),
        n > 0 ==> decimal_nat(n)[0] != '0',
        digits_value(decimal_nat(n)) == n,
    decreases n,
{
    if n < 10 {
        assert(decimal_nat(n).drop_last() =~= seq![]);
        assert(digits_value(seq![]) == 0);
    } else {
        lemma_decimal_nat_digits(n / 10);
        lemma_digits_value_push(decimal_nat(n / 10), digit_char((n % 10) as int));
        assert(decimal_nat(n)[0] == decimal_nat(n / 10)[0]);
    }
}

proof fn lemma_value_positive(q: Seq<char>)
    requires
        q.len() > 0,
        forall|i: int| 0 <= i < q.len() ==> digit(#[trigger] q[i]),
        q[0] != '0',
    ensures
        digits_value(q) >= 1,
    decreases q.len(),
{
    if q.len() > 1 {
        let p = q.drop_last();
        assert(p[0] == q[0]);
        assert forall|i: int| 0 <= i < p.len() implies digit(#[trigger] p[i]) by {
            assert(p[i] == q[i]);
        }
        lemma_value_positive(p);
        assert(digit(q[q.len() - 1]));
    } else {
        assert(q.drop_last() =~= seq![]);
        assert(digits_value(seq![]) == 0);
    }
}

/// A run of digits without a leading zero is the decimal spelling of its value.
proof fn lemma_digits_spell_value(q: Seq<char>)
    requires
        q.len() > 0,
        forall|i: int| 0 <= i < q.len() ==> digit(#[trigger] q[i]),
        q[0] != '0',
    ensures
        digits_value(q) >= 0,
        decimal_nat(digits_value(q) as nat) == q,
    decreases q.len(),
{
    lemma_value_positive(q);
    if q.len() == 1 {
        assert(q.drop_last() =~= seq![]);
        assert(digits_value(seq![]) == 0);
        assert(decimal_nat(digits_value(q) as nat) =~= q);
    } else {
        let p = q.drop_last();
        assert(p[0] == q[0]);
        assert forall|i: int| 0 <= i < p.len() implies digit(#[trigger] p[i]) by {
            assert(p[i] == q[i]);
        }
        assert(digit(q[q.len() - 1]));
        lemma_digits_spell_value(p);
        lemma_value_positive(p);
        assert(p.push(q.last()) =~= q);
        assert(decimal_nat(digits_value(q) as nat) =~= q);
    }
}

/// What the lexer takes at `at`, where it produces a token.
pub open spec fn points_at(s: Seq<char>, t: Token, at: int) -> bool {
    &&& 0 <= at < s.len()
    &&& (s[at] == spelling(t)[0] || (t is Number && s[at] == '0'))
}

proof fn lemma_step_points_at(s: Seq<char>, at: int)
    requires
        0 <= at < s.len(),
        lex_step(s, at) matches Some((Some(_), _)),
    ensures
        points_at(s, lex_step(s, at)->Some_0.0->Some_0, at),
{
    if lex_semicolon(s, at) is None && lex_bracket(s, at) is None && lex_number(s, at) is Some {
        let n = digit_run(s, at);
        lemma_digit_run_bound(s, at);
        let q = s.subrange(at, at + n);
        assert forall|i: int| 0 <= i < q.len() implies digit(#[trigger] q[i]) by {
            lemma_digit_run_all(s, at, at + i);
            assert(q[i] == s[at + i]);
        }
        lemma_digits_value_nonneg(q);
        lemma_digit_run_all(s, at, at);
        if s[at] != '0' {
            lemma_digits_spell_value(q);
        }
    }
}

pub open spec fn all_point_at(s: Seq<char>, ts: Seq<Token>, os: Seq<usize>, at: int) -> bool {
    &&& ts.len() == os.len()
    &&& forall|i: int| 0 <= i < os.len() ==> at <= #[trigger] os[i]
    &&& forall|i: int| 0 <= i < os.len() ==> #[trigger] points_at(s, ts[i], os[i] as int)
}

proof fn lemma_lex_from_points_at(s: Seq<char>, at: int)
    requires
        0 <= at,
        s.len() <= usize::MAX,
        lex_from(s, at) is Ok,
    ensures
        all_point_at(s, lex_from(s, at)->Ok_0.0, lex_from(s, at)->Ok_0.1, at),
    decreases s.len() - at,
{
    if at < s.len() {
        let (tok, w) = lex_step(s, at)->Some_0;
        lemma_step_width(s, at);
        lemma_lex_from_points_at(s, at + w);
        if tok is Some {
            lemma_step_points_at(s, at);
            let (ts, os) = lex_from(s, at + w)->Ok_0;
            let (ts2, os2) = lex_from(s, at)->Ok_0;
            assert(ts2 == seq![tok->Some_0] + ts);
            assert(os2 == seq![at as usize] + os);
            assert((at as usize) as int == at);
            assert(points_at(s, ts2[0], os2[0] as int));
            assert forall|i: int| 0 <= i < os2.len() implies #[trigger] points_at(s, ts2[i], os2[i] as int) by {
                if i > 0 {
                    assert(ts2[i] == ts[i - 1] && os2[i] == os[i - 1]);
                    assert(points_at(s, ts[i - 1], os[i - 1] as int));
                }
            }
            assert forall|i: int| 0 <= i < os2.len() implies at <= #[trigger] os2[i] by {
                if i > 0 {
                    assert(os2[i] == os[i - 1]);
                }
            }
            assert(ts2.len() == os2.len());
            assert(all_point_at(s, ts2, os2, at));
        } else {
            assert(lex_from(s, at) == lex_from(s, at + w));
            let (ts, os) = lex_from(s, at + w)->Ok_0;
            assert forall|i: int| 0 <= i < os.len() implies at <= #[trigger] os[i] by {}
            assert(ts.len() == os.len());
            assert(all_point_at(s, ts, os, at));
        }
    } else {
        assert(lex_from(s, at) == Ok::<(Seq<Token>, Seq<usize>), int>((seq![], seq![])));
    }
}

/// Each offset that the lexer records points at the first character of its
/// token's usual spelling, unless the token is a number written with leading
/// zeros, whose offset points at a `0`.
pub proof fn lemma_offsets_point_at_tokens(s: Seq<char>)
    requires
        tokenize(s) is Ok,
        s.len() <= usize::MAX,
    ensures
        ({
            let (ts, os) = tokenize(s)->Ok_0;
            &&& ts.len() == os.len() + 1
            &&& forall|i: int| 0 <= i < os.len() ==> #[trigger] points_at(s, ts[i], os[i] as int)
        }),
{
    lemma_lex_from_points_at(s, 0);
    let (ts, os) = lex_from(s, 0)->Ok_0;
    let (ts2, os2) = tokenize(s)->Ok_0;
    assert forall|i: int| 0 <= i < os2.len() implies #[trigger] points_at(s, ts2[i], os2[i] as int) by {
        assert(ts2[i] == ts[i]);
    }
}


/// Tokens with runs of whitespace around them: `gaps[i]` stands before
/// `toks[i]`, and the last gap after the last token.
pub open spec fn layout(toks: Seq<Token>, gaps: Seq<Seq<char>>) -> Seq<char>
    decreases toks.len(),
{
    if toks.len() == 0 || gaps.len() == 0 {
        if gaps.len() > 0 { gaps[0] } else { seq![] }
    } else {
        gaps[0] + spelling(toks[0]) + layout(toks.drop_first(), gaps.drop_first())
    }
}

/// A character that separates tokens: whitespace, and (as every whitespace
/// character is) not a letter.
pub open spec fn separator(c: char) -> bool {
    space(c) && !letter(c)
}

/// The layout is well spaced: every token is one the lexer produces, the gaps
/// hold only whitespace, and a gap is non-empty wherever the next token's first
/// character would otherwise continue the token before it.
pub open spec fn well_spaced(toks: Seq<Token>, gaps: Seq<Seq<char>>) -> bool {
    &&& gaps.len() == toks.len() + 1
    &&& forall|i: int| 0 <= i < toks.len() ==> lexable(#[trigger] toks[i])
    &&& forall|i: int, j: int| 0 <= i < gaps.len() && 0 <= j < gaps[i].len() ==> separator(
        #[trigger] gaps[i][j],
    )
    &&& forall|i: int|
        0 < i < toks.len() && #[trigger] gaps[i].len() == 0 ==> ends_before(
            toks[i - 1],
            spelling(toks[i])[0],
        )
}

proof fn lemma_spelling_shape(t: Token)
    requires
        lexable(t),
    ensures
        spelling(t).len() > 0,
        !space(spelling(t)[0]),
        t is Number ==> digit(spelling(t)[0]),
        t is Ident ==> letter(spelling(t)[0]),
        !(t is Number) ==> !digit(spelling(t)[0]),
        !(t is Ident) ==> !letter(spelling(t)[0]),
        (spelling(t)[0] == '=') == (t == Token::Reserved(Word::Eq) || t == Token::Reserved(Word::Assign)),
{
    if let Token::Number(v) = t {
        lemma_decimal_nat_digits(v as nat);
    }
}

proof fn lemma_space_run_exact(s: Seq<char>, at: int, end: int)
    requires
        0 <= at <= end <= s.len(),
        forall|k: int| at <= k < end ==> space(#[trigger] s[k]),
        end == s.len() || !space(s[end]),
    ensures
        space_run(s, at) == end - at,
    decreases end - at,
{
    if at < end {
        lemma_space_run_exact(s, at + 1, end);
    }
}

proof fn lemma_digit_run_exact(s: Seq<char>, at: int, end: int)
    requires
        0 <= at <= end <= s.len(),
        forall|k: int| at <= k < end ==> digit(#[trigger] s[k]),
        end == s.len() || !digit(s[end]),
    ensures
        digit_run(s, at) == end - at,
    decreases end - at,
{
    if at < end {
        lemma_digit_run_exact(s, at + 1, end);
    }
}

/// The lexer skips a run of separators that ends where something else starts.
proof fn lemma_skip_gap(s: Seq<char>, at: int, end: int)
    requires
        0 <= at <= end <= s.len(),
        forall|k: int| at <= k < end ==> separator(#[trigger] s[k]),
        end == s.len() || !space(s[end]),
    ensures
        lex_from(s, at) == lex_from(s, end),
{
    if at < end {
        lemma_space_run_exact(s, at, end);
        assert(separator(s[at]));
        assert(letter_run(s, at) == 0);
        assert(digit_run(s, at) == 0);
        assert(lex_step(s, at) == Some((None::<Token>, (end - at) as nat)));
    }
}

/// The lexer takes a token written in its usual spelling, where the character
/// after it cannot continue it.
proof fn lemma_lex_spelled(s: Seq<char>, at: int, t: Token)
    requires
        lexable(t),
        0 <= at,
        at + spelling(t).len() <= s.len(),
        s.subrange(at, at + spelling(t).len()) == spelling(t),
        at + spelling(t).len() == s.len() || ends_before(t, s[at + spelling(t).len()]),
    ensures
        lex_step(s, at) == Some((Some(t), spelling(t).len())),
{
    let w = spelling(t).len() as int;
    lemma_spelling_shape(t);
    assert(s[at] == spelling(t)[0]);
    if w > 1 {
        assert(s[at + 1] == spelling(t)[1]);
    }
    match t {
        Token::Number(v) => {
            lemma_decimal_nat_digits(v as nat);
            assert forall|k: int| at <= k < at + w implies digit(#[trigger] s[k]) by {
                assert(s[k] == spelling(t)[k - at]);
            }
            lemma_digit_run_exact(s, at, at + w);
        },
        Token::Ident(k) => {
            assert(letter_run(s, at + 1) == 0);
            assert(letter_run(s, at) == 1);
            assert(digit_run(s, at) == 0);
        },
        _ => {
            assert(digit_run(s, at) == 0);
            assert(letter_run(s, at) == 0);
        },
    }
}

/// The lexer reads a well-spaced layout that stands from `at` to the end of
/// `s` back into its tokens.
proof fn lemma_layout_lexes(s: Seq<char>, at: int, toks: Seq<Token>, gaps: Seq<Seq<char>>)
    requires
        0 <= at <= s.len(),
        well_spaced(toks, gaps),
        s.subrange(at, s.len() as int) == layout(toks, gaps),
    ensures
        lex_from(s, at) matches Ok((ts, _)) && ts == toks,
    decreases toks.len(),
{
    let g = gaps[0];
    if toks.len() == 0 {
        assert(layout(toks, gaps) == g);
    } else {
        assert(layout(toks, gaps) == g + spelling(toks[0]) + layout(toks.drop_first(), gaps.drop_first()));
    }
    assert(at + g.len() <= s.len());
    assert forall|k: int| at <= k < at + g.len() implies separator(#[trigger] s[k]) by {
        assert(s[k] == s.subrange(at, s.len() as int)[k - at]);
        assert(layout(toks, gaps)[k - at] == g[k - at]);
        assert(separator(gaps[0][k - at]));
    }
    if toks.len() == 0 {
        lemma_skip_gap(s, at, s.len() as int);
        assert(lex_from(s, s.len() as int) == Ok::<(Seq<Token>, Seq<usize>), int>((seq![], seq![])));
        assert(toks =~= seq![]);
    } else {
        let t = toks[0];
        let sp = spelling(t);
        let a1 = at + g.len();
        let a2 = a1 + sp.len();
        let rest_toks = toks.drop_first();
        let rest_gaps = gaps.drop_first();
        let rest = layout(rest_toks, rest_gaps);
        assert(layout(toks, gaps) == g + sp + rest);
        lemma_spelling_shape(t);
        assert(s.subrange(a1, a2) =~= sp) by {
            assert forall|k: int| 0 <= k < sp.len() implies s.subrange(a1, a2)[k] == sp[k] by {
                assert(s[a1 + k] == s.subrange(at, s.len() as int)[g.len() + k]);
            }
        }
        assert(s.subrange(a2, s.len() as int) =~= rest) by {
            assert forall|k: int| 0 <= k < rest.len() implies s.subrange(a2, s.len() as int)[k] == rest[k] by {
                assert(s[a2 + k] == s.subrange(at, s.len() as int)[g.len() + sp.len() + k]);
            }
        }
        assert(s[a1] == sp[0]);
        lemma_skip_gap(s, at, a1);
        assert(well_spaced(rest_toks, rest_gaps)) by {
            assert forall|i: int| 0 <= i < rest_toks.len() implies lexable(#[trigger] rest_toks[i]) by {
                assert(rest_toks[i] == toks[i + 1]);
            }
            assert forall|i: int, j: int| 0 <= i < rest_gaps.len() && 0 <= j < rest_gaps[i].len() implies separator(
                #[trigger] rest_gaps[i][j],
            ) by {
                assert(rest_gaps[i] == gaps[i + 1]);
                assert(separator(gaps[i + 1][j]));
            }
            assert forall|i: int|
                0 < i < rest_toks.len() && #[trigger] rest_gaps[i].len() == 0 implies ends_before(
                rest_toks[i - 1],
                spelling(rest_toks[i])[0],
            ) by {
                assert(rest_gaps[i] == gaps[i + 1]);
                assert(gaps[i + 1].len() == 0);
            }
        }
        if a2 < s.len() {
            assert(s[a2] == rest[0]);
            if rest_gaps[0].len() > 0 {
                assert(layout(rest_toks, rest_gaps)[0] == rest_gaps[0][0]);
                assert(separator(gaps[1][0]));
            } else {
                assert(rest_toks.len() > 0);
                assert(layout(rest_toks, rest_gaps) == rest_gaps[0] + spelling(rest_toks[0]) + layout(rest_toks.drop_first(), rest_gaps.drop_first()));
                lemma_spelling_shape(rest_toks[0]);
                assert(rest[0] == spelling(toks[1])[0]);
                assert(gaps[1].len() == 0);
            }
        }
        lemma_lex_spelled(s, a1, t);
        lemma_step_width(s, a1);
        lemma_layout_lexes(s, a2, rest_toks, rest_gaps);
        assert(seq![t] + rest_toks =~= toks);
    }
}

/// Whitespace between tokens does not matter: tokens written in their usual
/// spelling, with runs of whitespace around them that are non-empty wherever
/// a token would otherwise run into the next, lex back into the same tokens,
/// followed by `Eof`.
pub proof fn lemma_whitespace_round_trip(toks: Seq<Token>, gaps: Seq<Seq<char>>)
    requires
        toks.len() > 0,
        well_spaced(toks, gaps),
    ensures
        tokenize(layout(toks, gaps)) matches Ok((ts, _)) && ts == toks.push(Token::Eof),
{
    let s = layout(toks, gaps);
    assert(s.subrange(0, s.len() as int) =~= s);
    lemma_layout_lexes(s, 0, toks, gaps);
}

} // verus!
