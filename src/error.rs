//! Positions in the source and in the token stream, and the one-line
//! diagnostic shown under the source text.
use vstd::prelude::*;
use vstd::string::*;
use crate::lexer::TokenStream;

verus! {

/// A character offset into the source text.
#[derive(Debug, Clone, Copy, PartialEq, Eq, Structural)]
pub struct Byte(pub usize);

/// An index into a token sequence.
#[derive(Debug, Clone, Copy, PartialEq, Eq, Structural)]
pub struct Position(pub usize);

/// The source text on one line, and under it a caret at `at` followed by
/// the message.
pub open spec fn diagnostic(program: Seq<char>, at: nat, message: Seq<char>) -> Seq<char> {
    program + "\n"@ + Seq::new(at, |_i: int| ' ') + "^ "@ + message + "\n"@
}

/// Where token `i` of `stream` starts: its recorded offset, and for the
/// closing `Eof` the length of the source.
pub open spec fn token_offset(stream: TokenStream, program: Seq<char>, i: int) -> Option<int> {
    if 0 <= i < stream.position@.len() {
        Some(stream.position@[i] as int)
    } else if i == stream.position@.len() && i < stream.sequence@.len() {
        Some(program.len() as int)
    } else {
        None
    }
}

/// Renders `message` under the source text with a caret at `byte`.
pub fn error_at(program: String, byte: Byte, message: String) -> (r: String)
    ensures
        r@ == diagnostic(program@, byte.0 as nat, message@),
{
    let mut text = program;
    text.append("\n");
    let mut i: usize = 0;
    while i < byte.0
        invariant
            i <= byte.0,
            text@ == program@ + "\n"@ + Seq::new(i as nat, |_i: int| ' '),
        decreases byte.0 - i,
    {
        text.append(" ");
        proof {
            reveal_strlit(" ");
        }
        assert(text@ =~= program@ + "\n"@ + Seq::new((i + 1) as nat, |_i: int| ' '));
        i = i + 1;
    }
    text.append("^ ");
    text.append(message.as_str());
    text.append("\n");
    text
}

/// Renders `message` under the source text with a caret at the start of token
/// `position` of `stream`; `None` where the stream has no such token.
pub fn error_position(position: Position, stream: &TokenStream, program: String, message: String) -> (r: Option<String>)
    ensures
        match token_offset(*stream, program@, position.0 as int) {
            Some(at) => r matches Some(s) && s@ == diagnostic(program@, at as nat, message@),
            None => r is None,
        },
{
    let Position(index) = position;
    let at: usize = if index < stream.position.len() {
        stream.position[index]
    } else if index == stream.position.len() && index < stream.sequence.len() {
        program.as_str().unicode_len()
    } else {
        return None;
    };
    Some(error_at(program, Byte(at), message))
}

} // verus!
