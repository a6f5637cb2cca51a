//! The toy language: lexing a source text and parsing the token
//! stream with the statement grammar.

use lr1_rs::build_grammar;
use lr1_rs::Grammar;
use lr1_rs::Lexer;
use lr1_rs::Parser;
use lr1_rs::ProdShortCut;
use lr1_rs::Symbol;
use lr1_rs::Token;
use lr1_rs::Type;

fn prod(lhs: &str, rhs: &[&str]) -> ProdShortCut {
    ProdShortCut {
        lhs: lhs.to_string(),
        rhs: rhs.iter().map(|s| s.to_string()).collect(),
    }
}

pub fn build_t2_grammar() -> Grammar {
    build_grammar(
        "PROGRAM".to_string(),
        vec![
            prod("PROGRAM", &["STATEMENT", "PROGRAM"]),
            prod("PROGRAM", &["STATEMENT"]),
            prod("PROGRAM", &[]),
            prod("STATEMENT", &["INPUT_STMT"]),
            prod("STATEMENT", &["PRINT_STMT"]),
            prod("STATEMENT", &["DECLARATION_STMT"]),
            prod("STATEMENT", &["ASSIGNMENT_STMT"]),
            prod("STATEMENT", &["IF_STMT"]),
            prod("STATEMENT", &["WHILE_STMT"]),
            prod("INPUT_STMT", &["input", "identifier", ";"]),
            prod("PRINT_STMT", &["print", "identifier", ";"]),
            prod("PRINT_STMT", &["print", "stringliteral", ";"]),
            prod("DECLARATION_STMT", &["var", "identifier", ";"]),
            prod("ASSIGNMENT_STMT", &["identifier", "=", "EXPRESSION", ";"]),
            prod("IF_STMT", &["if", "(", "CONDITION", ")", "{", "PROGRAM", "}"]),
            prod("WHILE_STMT", &["while", "(", "CONDITION", ")", "{", "PROGRAM", "}"]),
            prod("EXPRESSION", &["TERM"]),
            prod("EXPRESSION", &["TERM", "+", "TERM"]),
            prod("EXPRESSION", &["TERM", "-", "TERM"]),
            prod("TERM", &["FACTOR"]),
            prod("TERM", &["FACTOR", "*", "FACTOR"]),
            prod("TERM", &["FACTOR", "/", "FACTOR"]),
            prod("FACTOR", &["identifier"]),
            prod("FACTOR", &["number"]),
            prod("FACTOR", &["(", "EXPRESSION", ")"]),
            prod("CONDITION", &["EXPRESSION", "==", "EXPRESSION"]),
            prod("CONDITION", &["EXPRESSION", ">", "EXPRESSION"]),
            prod("CONDITION", &["EXPRESSION", "<", "EXPRESSION"]),
        ],
    )
}

pub fn tokenize(text: &str) -> Vec<Token> {
    let mut lx = Lexer::new(text.chars().collect());
    lx.run();
    lx.into_tokens()
}

fn process(text: &str) {
    let grammar = build_t2_grammar();
    let parser = Parser::new(grammar);

    let tokens = tokenize(text);
    let preprocessed: Vec<Symbol> = tokens
        .iter()
        .filter(|token| token.typ != Type::EOF)
        .map(|token| match token.typ {
            Type::Identifier | Type::Number | Type::StringLiteral => {
                Symbol::Terminal(format!("{:?}", token.typ).to_lowercase())
            }
            _ => Symbol::Terminal(token.val.clone()),
        })
        .collect();

    match parser.parse(preprocessed) {
        Err(e) => {
            panic!("{}", e.message());
        }
        Ok(_ast) => {}
    }
}

#[test]
fn test_toy_lang() {
    process(
        r#"
        var x;
        var y;
        x = 1;
        y = 2;
        print x;
    "#,
    );
}

#[test]
fn test_toy_lang_empty() {
    process("");
}
