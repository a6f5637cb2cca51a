//! Lexer behavior: token categories, the two `=` operators, keywords,
//! literals, and scan failures.

use lr1_rs::Lexer;
use lr1_rs::Token;
use lr1_rs::Type;

fn tokens_of(text: &str) -> Vec<Token> {
    let mut lx = Lexer::new(text.chars().collect());
    lx.run();
    lx.into_tokens()
}

fn types_of(text: &str) -> Vec<Type> {
    tokens_of(text).iter().map(|t| t.typ).collect()
}

#[test]
fn single_assign_is_one_token() {
    assert_eq!(
        types_of("x = 1;"),
        vec![Type::Identifier, Type::Assign, Type::Number, Type::SemiColon, Type::EOF]
    );
}

#[test]
fn double_equal_is_the_equality_operator() {
    assert_eq!(
        types_of("x == 1"),
        vec![Type::Identifier, Type::Equal, Type::Number, Type::EOF]
    );
}

#[test]
fn keywords_are_recognized() {
    assert_eq!(
        types_of("var input if print while varx"),
        vec![
            Type::Var,
            Type::Input,
            Type::If,
            Type::Print,
            Type::While,
            Type::Identifier,
            Type::EOF
        ]
    );
}

#[test]
fn identifier_text_is_preserved() {
    let ts = tokens_of("hello99 42");
    assert_eq!(ts[0].typ, Type::Identifier);
    assert_eq!(ts[0].val, "hello99");
    assert_eq!(ts[1].typ, Type::Number);
    assert_eq!(ts[1].val, "42");
    assert_eq!(ts[2].typ, Type::EOF);
}

#[test]
fn negative_numbers_and_minus() {
    assert_eq!(
        types_of("a - 1"),
        vec![Type::Identifier, Type::Minus, Type::Number, Type::EOF]
    );
    let ts = tokens_of("-12");
    assert_eq!(ts[0].typ, Type::Number);
    assert_eq!(ts[0].val, "-12");
}

#[test]
fn string_literals_scan_to_the_closing_quote() {
    let ts = tokens_of("print \"hi there!\";");
    assert_eq!(ts[0].typ, Type::Print);
    assert_eq!(ts[1].typ, Type::StringLiteral);
    assert_eq!(ts[1].val, "\"hi there!\"");
    assert_eq!(ts[2].typ, Type::SemiColon);
}

#[test]
fn unterminated_string_is_a_lexer_error() {
    let ts = tokens_of("\"oops");
    assert_eq!(ts.last().unwrap().typ, Type::LexerError);
}

#[test]
fn unexpected_character_is_a_lexer_error() {
    let ts = tokens_of("a ` b");
    assert_eq!(ts.last().unwrap().typ, Type::LexerError);
}

#[test]
fn end_of_input_token_is_empty_and_final() {
    let ts = tokens_of("a");
    assert_eq!(ts.len(), 2);
    assert_eq!(ts[1].typ, Type::EOF);
    assert_eq!(ts[1].val, "");
    let ts2 = tokens_of("");
    assert_eq!(ts2.len(), 1);
    assert_eq!(ts2[0].typ, Type::EOF);
    assert_eq!(ts2[0].val, "");
}

#[test]
fn triple_equal_is_rejected() {
    let ts = tokens_of("a === b");
    assert_eq!(ts.last().unwrap().typ, Type::LexerError);
}

#[test]
fn punctuation_tokens() {
    assert_eq!(
        types_of("( ) { } + * / > < ;"),
        vec![
            Type::LeftParen,
            Type::RightParen,
            Type::LeftBrace,
            Type::RightBrace,
            Type::Plus,
            Type::Multiply,
            Type::Divide,
            Type::Greater,
            Type::Less,
            Type::SemiColon,
            Type::EOF
        ]
    );
}
