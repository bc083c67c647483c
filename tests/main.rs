use compiler_book::error::{error_at, error_position, Byte, Position};
use compiler_book::lexer::TokenStream;

#[test]
fn for_add_1_3() {
    assert_eq!(1 + 3, 4);
}

#[test]
fn caret_under_the_offending_character() {
    assert_eq!(
        error_at("1 + x".to_string(), Byte(4), "here".to_string()),
        "1 + x\n    ^ here\n"
    );
}

#[test]
fn caret_under_a_token_and_under_the_end() {
    let source = "23 - 8+5";
    let stream = TokenStream::tokenize01(source.to_string()).unwrap();
    assert_eq!(
        error_position(Position(2), &stream, source.to_string(), "m".to_string()),
        Some("23 - 8+5\n     ^ m\n".to_string())
    );
    assert_eq!(
        error_position(Position(5), &stream, source.to_string(), "m".to_string()),
        Some("23 - 8+5\n        ^ m\n".to_string())
    );
    assert_eq!(
        error_position(Position(6), &stream, source.to_string(), "m".to_string()),
        None
    );
}
