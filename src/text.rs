//! Decimal spelling of integers, and appending text to a buffer.
use vstd::prelude::*;
use vstd::string::*;

verus! {

/// The character of a decimal digit `d < 10`.
pub open spec fn digit_char(d: int) -> char {
    (('0' as int) + d) as char
}

/// The decimal spelling of a natural number, without leading zeros.
pub open spec fn decimal_nat(n: nat) -> Seq<char>
    decreases n,
{
    if n < 10 {
        seq![digit_char(n as int)]
    } else {
        decimal_nat(n / 10).push(digit_char((n % 10) as int))
    }
}

/// The decimal spelling of an integer, with a leading `-` when it is negative.
pub open spec fn decimal(n: int) -> Seq<char> {
    if n < 0 {
        seq!['-'] + decimal_nat((-n) as nat)
    } else {
        decimal_nat(n as nat)
    }
}

fn digit_str(d: u64) -> (r: &'static str)
    requires
        d < 10,
    ensures
        r@ == seq![digit_char(d as int)],
{
    proof {
        reveal_strlit("0");
        reveal_strlit("1");
        reveal_strlit("2");
        reveal_strlit("3");
        reveal_strlit("4");
        reveal_strlit("5");
        reveal_strlit("6");
        reveal_strlit("7");
        reveal_strlit("8");
        reveal_strlit("9");
    }
    let r = match d {
        0 => "0",
        1 => "1",
        2 => "2",
        3 => "3",
        4 => "4",
        5 => "5",
        6 => "6",
        7 => "7",
        8 => "8",
        _ => "9",
    };
    assert(r@ =~= seq![digit_char(d as int)]);
    r
}

/// Appends the decimal spelling of `n` to `buffer`.
pub fn push_decimal_nat(buffer: &mut String, n: u64)
    ensures
        final(buffer)@ == old(buffer)@ + decimal_nat(n as nat),
    decreases n,
{
    if n >= 10 {
        push_decimal_nat(buffer, n / 10);
    }
    buffer.append(digit_str(n % 10));
    proof {
        assert(old(buffer)@ + decimal_nat(n as nat) =~= buffer@);
    }
}

/// Appends the decimal spelling of `n` to `buffer`.
pub fn push_decimal(buffer: &mut String, n: i64)
    ensures
        final(buffer)@ == old(buffer)@ + decimal(n as int),
{
    if n < 0 {
        buffer.append("-");
        proof {
            reveal_strlit("-");
        }
        let m: u64 = (0i128 - n as i128) as u64;
        push_decimal_nat(buffer, m);
        assert(buffer@ =~= old(buffer)@ + decimal(n as int));
    } else {
        push_decimal_nat(buffer, n as u64);
    }
}

} // verus!
