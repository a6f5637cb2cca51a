//! Tokens of the toy language the bundled lexer scans.

use vstd::prelude::*;

verus! {

/// A lexed token: its category and the text it covers.
#[derive(Debug, Clone)]
pub struct Token {
    pub typ: Type,
    pub val: String,
}

/// Token categories: punctuation, the two `=` operators, keywords, the
/// open classes, the end-of-input marker, and the scan-failure marker.
#[derive(Debug, Clone, Copy, Hash, PartialEq, Eq, Structural)]
pub enum Type {
    LeftBrace,
    RightBrace,
    LeftParen,
    RightParen,
    SemiColon,
    Plus,
    Multiply,
    Divide,
    Greater,
    Less,
    Assign,
    Equal,
    Minus,
    Input,
    Print,
    Var,
    If,
    While,
    Identifier,
    Number,
    StringLiteral,
    EOF,
    LexerError,
}

} // verus!
