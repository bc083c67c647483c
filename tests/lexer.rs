use compiler_book::error::Byte;
use compiler_book::lexer::{Token, TokenStream, Word};

fn stream(tokens: Vec<Token>, offsets: Vec<usize>) -> TokenStream {
    TokenStream {
        sequence: tokens.into_iter().collect(),
        position: offsets.into_iter().collect(),
    }
}

#[test]
fn for_tokenize() {
    let cases = vec![
        "5+20-4",
        "23 - 8+ 5-   3 + 56 + 9 - 8",
        "0",
        "4 * 5 < 3 - 2",
        "-3==5",
    ];
    let answers = vec![
        stream(
            vec![
                Token::Number(5),
                Token::Reserved(Word::Add),
                Token::Number(20),
                Token::Reserved(Word::Sub),
                Token::Number(4),
                Token::Eof,
            ],
            vec![0, 1, 2, 4, 5],
        ),
        stream(
            vec![
                Token::Number(23),
                Token::Reserved(Word::Sub),
                Token::Number(8),
                Token::Reserved(Word::Add),
                Token::Number(5),
                Token::Reserved(Word::Sub),
                Token::Number(3),
                Token::Reserved(Word::Add),
                Token::Number(56),
                Token::Reserved(Word::Add),
                Token::Number(9),
                Token::Reserved(Word::Sub),
                Token::Number(8),
                Token::Eof,
            ],
            vec![0, 3, 5, 6, 8, 9, 13, 15, 17, 20, 22, 24, 26],
        ),
        stream(vec![Token::Number(0), Token::Eof], vec![0]),
        stream(
            vec![
                Token::Number(4),
                Token::Reserved(Word::Mul),
                Token::Number(5),
                Token::Reserved(Word::Lt),
                Token::Number(3),
                Token::Reserved(Word::Sub),
                Token::Number(2),
                Token::Eof,
            ],
            vec![0, 2, 4, 6, 8, 10, 12],
        ),
        stream(
            vec![
                Token::Reserved(Word::Sub),
                Token::Number(3),
                Token::Reserved(Word::Eq),
                Token::Number(5),
                Token::Eof,
            ],
            vec![0, 1, 2, 4],
        ),
    ];
    for (case, answer) in cases.into_iter().map(|s| s.to_string()).zip(answers) {
        assert_eq!(TokenStream::tokenize01(case), Ok(answer));
    }
    assert_eq!(1 + 2, 3);
}

#[test]
fn for_tokenize_panic_empty() {
    let program = " \n   ".to_string();
    assert_eq!(
        TokenStream::tokenize01(program),
        Err((
            "fail to lex. need some charactors without whitespace.".to_string(),
            Byte(5)
        ))
    );
}

#[test]
fn for_tokenize_panic_invalid() {
    let program = "12 + 2 - ☀︎ + 89".to_string();
    assert_eq!(
        TokenStream::tokenize01(program),
        Err(("fail to lex. left: ☀︎ + 89.".to_string(), Byte(9)))
    );
}

fn kinds(source: &str) -> Vec<Token> {
    TokenStream::tokenize01(source.to_string()).unwrap().sequence
}

#[test]
fn lexes_every_operator_and_assignment() {
    assert_eq!(
        kinds("a=b==c!=d<=e<f>=g>h;"),
        vec![
            Token::Ident(0),
            Token::Reserved(Word::Assign),
            Token::Ident(1),
            Token::Reserved(Word::Eq),
            Token::Ident(2),
            Token::Reserved(Word::Ne),
            Token::Ident(3),
            Token::Reserved(Word::Le),
            Token::Ident(4),
            Token::Reserved(Word::Lt),
            Token::Ident(5),
            Token::Reserved(Word::Ge),
            Token::Ident(6),
            Token::Reserved(Word::Gt),
            Token::Ident(7),
            Token::SemiColon,
            Token::Eof,
        ]
    );
}

#[test]
fn letter_run_is_one_identifier_named_by_its_first_letter() {
    let stream = TokenStream::tokenize01("abc+z".to_string()).unwrap();
    assert_eq!(
        stream.sequence,
        vec![Token::Ident(0), Token::Reserved(Word::Add), Token::Ident(25), Token::Eof]
    );
    assert_eq!(stream.position, vec![0, 3, 4]);
}

#[test]
fn whitespace_does_not_change_the_tokens() {
    assert_eq!(kinds("(4+3)/7;a=-2;"), kinds(" ( 4 +\t3 )\n/ 7 ;  a = - 2 ; "));
    assert_eq!(kinds("1 2"), vec![Token::Number(1), Token::Number(2), Token::Eof]);
}

#[test]
fn offsets_point_at_the_first_character_of_each_token() {
    let source = "  x = 12 >= 3;\n(y)";
    let stream = TokenStream::tokenize01(source.to_string()).unwrap();
    let chars: Vec<char> = source.chars().collect();
    let firsts: Vec<char> = stream.position.iter().map(|&i| chars[i]).collect();
    assert_eq!(firsts, vec!['x', '=', '1', '>', '3', ';', '(', 'y', ')']);
}

#[test]
fn lone_bang_is_rejected() {
    assert_eq!(
        TokenStream::tokenize01("1 ! 2".to_string()),
        Err(("fail to lex. left: ! 2.".to_string(), Byte(2)))
    );
}

#[test]
fn upper_case_identifier_is_rejected() {
    assert_eq!(
        TokenStream::tokenize01("1+Ab".to_string()),
        Err(("fail to lex. left: Ab.".to_string(), Byte(2)))
    );
}

#[test]
fn number_too_large_for_i64_is_rejected() {
    assert_eq!(
        kinds("9223372036854775807"),
        vec![Token::Number(i64::MAX), Token::Eof]
    );
    assert_eq!(
        TokenStream::tokenize01("1+9223372036854775808".to_string()),
        Err(("fail to lex. left: 9223372036854775808.".to_string(), Byte(2)))
    );
}

#[test]
fn leading_zeros_are_read_as_one_number() {
    assert_eq!(kinds("007;"), vec![Token::Number(7), Token::SemiColon, Token::Eof]);
}

#[test]
fn unicode_whitespace_and_letters_follow_std() {
    assert_eq!(
        kinds("1\u{3000}+\u{a0}2"),
        vec![Token::Number(1), Token::Reserved(Word::Add), Token::Number(2), Token::Eof]
    );
    let stream = TokenStream::tokenize01("bé+1".to_string()).unwrap();
    assert_eq!(
        stream.sequence,
        vec![Token::Ident(1), Token::Reserved(Word::Add), Token::Number(1), Token::Eof]
    );
    assert_eq!(stream.position, vec![0, 2, 3]);
}
