use compiler_book::error::Position;
use compiler_book::lexer::TokenStream;
use compiler_book::static_check::{verify_stream, GrammarError};

fn tokenize(case: &str) -> TokenStream {
    TokenStream::tokenize01(case.to_string()).unwrap()
}

#[test]
fn for_lacking_operator() {
    let cases = vec!["23 - 8+5 3"];
    let answers = vec![17];
    for (case, _answer) in cases.into_iter().zip(answers) {
        let stream = tokenize(case);
        assert_eq!(
            verify_stream(&stream),
            Err((
                "fail to parse: need operator here.".to_string(),
                Position(5)
            ))
        );
    }
}

#[test]
fn for_lacking_semicolon() {
    let cases = vec!["23 - 8+5"];
    let answers = vec![17];
    for (case, _answer) in cases.into_iter().zip(answers) {
        let stream = tokenize(case);
        assert_eq!(
            verify_stream(&stream),
            Err((
                "fail to parse: need semicolon here.".to_string(),
                Position(5)
            ))
        );
    }
}

#[test]
fn for_invalid_bracket() {
    let cases = vec![
        "(23 - 8+5;",
        "((((34 * 5) - 5) == 0);",
        "(23 - 8+5));",
        "(9));",
        ");",
        ";3+4;);",
    ];
    let errors = vec![
        ("fail to parse: this bracket doesn't match.", 0),
        ("fail to parse: this bracket doesn't match.", 0),
        ("fail to parse: this bracket doesn't match.", 7),
        ("fail to parse: this bracket doesn't match.", 3),
        ("fail to parse: this bracket doesn't match.", 0),
        ("fail to parse: this bracket doesn't match.", 5),
    ];
    for (case, (message, position)) in cases.into_iter().zip(errors) {
        let stream = tokenize(case);
        assert_eq!(
            verify_stream(&stream),
            Err((message.to_string(), Position(position)))
        );
    }
}

#[test]
fn for_too_much_unary() {
    let cases = vec!["++9;", "a=3+4;b=+5;c=-+3"];
    let errors = vec![
        ("fail to parse: use unary only once.", 1),
        ("fail to parse: use unary only once.", 14),
    ];
    for (case, (message, position)) in cases.into_iter().zip(errors) {
        let stream = tokenize(case);
        assert_eq!(
            verify_stream(&stream),
            Err((message.to_string(), Position(position)))
        );
    }
}

#[test]
fn for_need_number() {
    let cases = vec!["3+;", "a=3+4;b=+5;c=-3;3 ==", "a=;"];
    let errors = vec![
        ("fail to parse: need number here.", 2),
        ("fail to parse: need number here.", 18),
        ("fail to parse: need number here.", 2),
    ];
    for (case, (message, position)) in cases.into_iter().zip(errors) {
        let stream = tokenize(case);
        assert_eq!(
            verify_stream(&stream),
            Err((message.to_string(), Position(position)))
        );
    }
}

#[test]
fn accepts_well_formed_programs() {
    for case in ["a=3+4;b=+5;c=-3;c;", "(4 + 3) / 7 + 1 * (4 - 2);", "1 >= 2 == 0;"] {
        assert_eq!(verify_stream(&tokenize(case)), Ok(()));
    }
}

#[test]
fn operator_where_operand_is_due() {
    assert_eq!(
        verify_stream(&tokenize("3 * / 4;")),
        Err((GrammarError::NeedNumber.message(), Position(2)))
    );
}

#[test]
fn messages_of_every_grammar_error() {
    assert_eq!(GrammarError::NeedNumber.message(), "fail to parse: need number here.");
    assert_eq!(GrammarError::NeedOperator.message(), "fail to parse: need operator here.");
    assert_eq!(GrammarError::NeedSemicolon.message(), "fail to parse: need semicolon here.");
    assert_eq!(
        GrammarError::UnmatchedBracket.message(),
        "fail to parse: this bracket doesn't match."
    );
    assert_eq!(GrammarError::RepeatedUnary.message(), "fail to parse: use unary only once.");
}
