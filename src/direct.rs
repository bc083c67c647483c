//! Programs written straight from the text or the tokens, without a tree:
//! a single number, and a chain of additions and subtractions.
use vstd::prelude::*;
use vstd::string::*;
use crate::error::Position;
use crate::generator::{header, push_header, Target};
use crate::lexer::{chars_of, digit, digits_value, Token, TokenStream, Word};
use crate::text::{decimal, decimal_nat, push_decimal, push_decimal_nat};

verus! {

/// The body of a program that adds and subtracts the numbers of `t` from `i`
/// on, up to `Eof`; `None` at a token that is neither a number nor an operator.
pub open spec fn sum_body(t: Seq<Token>, i: int) -> Option<Seq<char>>
    decreases t.len() - i,
{
    if i < 0 || i >= t.len() {
        Some(seq![])
    } else {
        let piece: Option<Seq<char>> = match t[i] {
            Token::Reserved(Word::Add) => Some("  add rax, "@),
            Token::Reserved(_) => Some("  sub rax, "@),
            Token::Number(n) => Some(decimal(n as int) + "\n"@),
            _ => None,
        };
        if t[i] == Token::Eof {
            Some(seq![])
        } else {
            match (piece, sum_body(t, i + 1)) {
                (Some(p), Some(rest)) => Some(p + rest),
                _ => None,
            }
        }
    }
}

pub open spec fn unexpected_message() -> Seq<char> {
    "fail to generate: unexpected token."@
}

/// The program that adds and subtracts the numbers of `stream`, reading every
/// operator other than `+` as `-`. Fails at a variable or a `;`.
pub fn add_sub_space(stream: &TokenStream, target: Target) -> (r: Result<String, (String, Position)>)
    ensures
        match sum_body(stream.sequence@, 0) {
            Some(body) => r matches Ok(s) && s@ == header(target) + "  mov rax, "@ + body + "  ret\n\n"@,
            None => r matches Err((m, p)) && m@ == unexpected_message() && p.0 < stream.sequence@.len()
                && !(stream.sequence@[p.0 as int] is Reserved || stream.sequence@[p.0 as int] is Number
                    || stream.sequence@[p.0 as int] is Eof),
        },
{
    let toks = &stream.sequence;
    let mut ret = String::new();
    push_header(&mut ret, target);
    ret.append("  mov rax, ");
    let ghost start = ret@;
    let mut i: usize = 0;
    while i < toks.len()
        invariant
            i <= toks.len(),
            toks@ == stream.sequence@,
            sum_body(toks@, 0) == match sum_body(toks@, i as int) {
                Some(rest) => Some(ret@.subrange(start.len() as int, ret@.len() as int) + rest),
                None => None,
            },
            start == header(target) + "  mov rax, "@,
            ret@.len() >= start.len(),
            ret@.subrange(0, start.len() as int) == start,
        decreases toks.len() - i,
    {
        let ghost before = ret@;
        match toks[i] {
            Token::Reserved(Word::Add) => ret.append("  add rax, "),
            Token::Reserved(_) => ret.append("  sub rax, "),
            Token::Number(n) => {
                push_decimal(&mut ret, n);
                ret.append("\n");
            },
            Token::Eof => {
                proof {
                    assert(ret@ =~= start + ret@.subrange(start.len() as int, ret@.len() as int));
                    assert(ret@.subrange(start.len() as int, ret@.len() as int) + seq![] =~= ret@.subrange(start.len() as int, ret@.len() as int));
                }
                ret.append("  ret\n\n");
                return Ok(ret);
            },
            _ => {
                return Err((String::from_str("fail to generate: unexpected token."), Position(i)));
            },
        }
        proof {
            let done = before.subrange(start.len() as int, before.len() as int);
            let piece = ret@.subrange(before.len() as int, ret@.len() as int);
            assert(ret@.subrange(start.len() as int, ret@.len() as int) =~= done + piece);
            assert(ret@.subrange(0, start.len() as int) =~= before.subrange(0, start.len() as int));
            match sum_body(toks@, i + 1) {
                Some(rest) => {
                    assert(done + (piece + rest) =~= done + piece + rest);
                },
                None => {},
            }
        }
        i = i + 1;
    }
    proof {
        assert(ret@ =~= start + ret@.subrange(start.len() as int, ret@.len() as int));
        assert(ret@.subrange(start.len() as int, ret@.len() as int) + seq![] =~= ret@.subrange(start.len() as int, ret@.len() as int));
    }
    ret.append("  ret\n\n");
    Ok(ret)
}

/// The text of a sum program for the characters of `s` from `i` on, while
/// the number being read so far is `number`; `Err` holds the first character
/// that is neither a digit nor `+` or `-`, or the digit at which a number
/// outgrows `u64`.
pub open spec fn sum_text(s: Seq<char>, i: int, number: nat) -> Result<Seq<char>, char>
    decreases s.len() - i,
{
    if i < 0 || i >= s.len() {
        Ok(decimal_nat(number) + "\n"@)
    } else if s[i] == '+' || s[i] == '-' {
        let op = if s[i] == '+' { "\n  add rax, "@ } else { "\n  sub rax, "@ };
        match sum_text(s, i + 1, 0) {
            Ok(rest) => Ok(decimal_nat(number) + op + rest),
            Err(c) => Err(c),
        }
    } else if digit(s[i]) {
        let next = number * 10 + (s[i] as int - '0' as int);
        if next > u64::MAX {
            Err(s[i])
        } else {
            sum_text(s, i + 1, next as nat)
        }
    } else {
        Err(s[i])
    }
}

/// The program that adds and subtracts the numbers written in `program`, such
/// as `5+20-4`; `Err` with the first character it cannot take.
pub fn add_sub(program: &str, target: Target) -> (r: Result<String, char>)
    ensures
        match sum_text(program@, 0, 0) {
            Ok(body) => r matches Ok(s) && s@ == header(target) + "  mov rax, "@ + body + "  ret\n\n"@,
            Err(c) => r == Err::<String, char>(c),
        },
{
    let chars = chars_of(program);
    let ghost s = chars@;
    let mut ret = String::new();
    push_header(&mut ret, target);
    ret.append("  mov rax, ");
    let ghost start = ret@;
    let mut number: u64 = 0;
    let mut i: usize = 0;
    while i < chars.len()
        invariant
            i <= chars.len(),
            s == chars@,
            s == program@,
            start == header(target) + "  mov rax, "@,
            ret@.len() >= start.len(),
            ret@.subrange(0, start.len() as int) == start,
            sum_text(s, 0, 0) == match sum_text(s, i as int, number as nat) {
                Ok(rest) => Ok(ret@.subrange(start.len() as int, ret@.len() as int) + rest),
                Err(c) => Err(c),
            },
        decreases chars.len() - i,
    {
        let c = chars[i];
        let ghost before = ret@;
        let ghost old_number = number;
        if c == '+' || c == '-' {
            push_decimal_nat(&mut ret, number);
            if c == '+' {
                ret.append("\n  add rax, ");
            } else {
                ret.append("\n  sub rax, ");
            }
            number = 0;
        } else if '0' <= c && c <= '9' {
            let d: u64 = (c as u32 - '0' as u32) as u64;
            assert(d == c as int - '0' as int);
            assert(c == s[i as int]);
            if number > (u64::MAX - d) / 10 {
                assert(number * 10 + d > u64::MAX) by (nonlinear_arith)
                    requires number > (u64::MAX - d) / 10, d <= 9;
                return Err(c);
            }
            assert(number * 10 + d <= u64::MAX) by (nonlinear_arith)
                requires number <= (u64::MAX - d) / 10, d <= 9;
            number = number * 10 + d;
        } else {
            return Err(c);
        }
        proof {
            let done = before.subrange(start.len() as int, before.len() as int);
            let piece = ret@.subrange(before.len() as int, ret@.len() as int);
            assert(ret@.subrange(start.len() as int, ret@.len() as int) =~= done + piece);
            assert(ret@.subrange(0, start.len() as int) =~= before.subrange(0, start.len() as int));
            if c == '+' || c == '-' {
                let op = if c == '+' { "\n  add rax, "@ } else { "\n  sub rax, "@ };
                assert(piece =~= decimal_nat(old_number as nat) + op);
                match sum_text(s, i + 1, 0) {
                    Ok(rest) => {
                        assert(done + (piece + rest) =~= done + piece + rest);
                    },
                    Err(_) => {},
                }
            } else {
                assert(piece =~= seq![]);
                assert(done + piece =~= done);
                assert(sum_text(s, i as int, old_number as nat) == sum_text(s, i + 1, number as nat));
            }
        }
        i = i + 1;
    }
    let ghost done = ret@.subrange(start.len() as int, ret@.len() as int);
    push_decimal_nat(&mut ret, number);
    ret.append("\n");
    ret.append("  ret\n\n");
    assert(ret@ =~= start + (done + (decimal_nat(number as nat) + "\n"@)) + "  ret\n\n"@);
    Ok(ret)
}

pub open spec fn all_digits(q: Seq<char>) -> bool {
    forall|i: int| 0 <= i < q.len() ==> digit(#[trigger] q[i])
}

/// `s` without its leading sign, if it has one.
pub open spec fn unsigned_part(s: Seq<char>) -> Seq<char> {
    if s.len() > 0 && (s[0] == '-' || s[0] == '+') {
        s.skip(1)
    } else {
        s
    }
}

pub open spec fn signed_value(s: Seq<char>) -> int {
    if s.len() > 0 && s[0] == '-' {
        -digits_value(unsigned_part(s))
    } else {
        digits_value(unsigned_part(s))
    }
}

/// The value of a decimal integer with an optional sign, as `str::parse`
/// reads an `i64`; `None` where it is not one or does not fit.
pub open spec fn integer_value(s: Seq<char>) -> Option<i64> {
    if unsigned_part(s).len() > 0 && all_digits(unsigned_part(s)) && i64::MIN <= signed_value(s)
        <= i64::MAX {
        Some(signed_value(s) as i64)
    } else {
        None
    }
}

/// A program that returns the number written in `number`; `None` where it is
/// not a decimal integer that fits in `i64`.
pub fn return_number(number: &str, target: Target) -> (r: Option<String>)
    ensures
        match integer_value(number@) {
            Some(v) => r matches Some(s) && s@ == header(target) + "    mov rax, "@ + decimal(v as int)
                + "\n"@ + "    ret\n\n"@,
            None => r is None,
        },
{
    let chars = chars_of(number);
    let ghost s = chars@;
    let negative = chars.len() > 0 && chars[0] == '-';
    let first: usize = if chars.len() > 0 && (chars[0] == '-' || chars[0] == '+') { 1 } else { 0 };
    let ghost digits = s.skip(first as int);
    assert(s.skip(0) =~= s);
    assert(digits == unsigned_part(s));
    if first >= chars.len() {
        return None;
    }
    let limit: u64 = if negative { 9223372036854775808 } else { 9223372036854775807 };
    let mut magnitude: u64 = 0;
    let mut j: usize = first;
    while j < chars.len()
        invariant
            first <= j <= chars.len(),
            s == chars@,
            digits == s.skip(first as int),
            digits == unsigned_part(s),
            magnitude <= limit,
            s == number@,
            limit == if negative { 9223372036854775808u64 } else { 9223372036854775807u64 },
            negative == (s.len() > 0 && s[0] == '-'),
            magnitude == digits_value(digits.take(j - first)),
            forall|i: int| 0 <= i < j - first ==> digit(#[trigger] digits[i]),
        decreases chars.len() - j,
    {
        let c = chars[j];
        if !('0' <= c && c <= '9') {
            assert(!digit(digits[j - first]));
            assert(!all_digits(digits));
            return None;
        }
        let d: u64 = (c as u32 - '0' as u32) as u64;
        assert(d <= 9);
        proof {
            assert(digits.take(j - first + 1).drop_last() =~= digits.take(j - first));
            assert(digits[j - first] == c);
        }
        if magnitude > (limit - d) / 10 {
            proof {
                assert(magnitude * 10 + d > limit) by (nonlinear_arith)
                    requires magnitude > (limit - d) / 10, d <= 9, d <= limit;
                if all_digits(digits) {
                    crate::lexer::lemma_digits_value_grows(digits, 0, j - first + 1, digits.len() as int);
                    assert(digits.subrange(0, j - first + 1) =~= digits.take(j - first + 1));
                    assert(digits.subrange(0, digits.len() as int) =~= digits);
                    assert(digits_value(digits) > limit);
                }
            }
            return None;
        }
        assert(magnitude * 10 + d <= limit) by (nonlinear_arith)
            requires magnitude <= (limit - d) / 10, d <= 9, d <= limit;
        magnitude = magnitude * 10 + d;
        j = j + 1;
    }
    assert(digits.take(digits.len() as int) =~= digits);
    let value: i64 = if negative { (0i128 - magnitude as i128) as i64 } else { magnitude as i64 };
    let mut ret = String::new();
    push_header(&mut ret, target);
    ret.append("    mov rax, ");
    push_decimal(&mut ret, value);
    ret.append("\n");
    ret.append("    ret\n\n");
    Some(ret)
}

} // verus!
