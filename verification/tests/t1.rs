//! The bracketed-list grammar: table construction and one parse.

use lr1_rs::build_grammar;
use lr1_rs::ASTNode;
use lr1_rs::Grammar;
use lr1_rs::Parser;
use lr1_rs::ProdShortCut;
use lr1_rs::Symbol;

fn prod(lhs: &str, rhs: &[&str]) -> ProdShortCut {
    ProdShortCut {
        lhs: lhs.to_string(),
        rhs: rhs.iter().map(|s| s.to_string()).collect(),
    }
}

fn build_t1_grammer() -> Grammar {
    build_grammar(
        "E".to_string(),
        vec![
            prod("E", &["(", "L", ",", "E", ")"]),
            prod("E", &["F"]),
            prod("L", &["L", ",", "E"]),
            prod("L", &["E"]),
            prod("F", &["(", "F", ")"]),
            prod("F", &["d"]),
        ],
    )
}

fn fmt_ast(ast: &ASTNode) -> String {
    match ast {
        ASTNode::Terminal(s) => s.clone(),
        ASTNode::NonTerminal(s, children) => {
            let inner: Vec<String> = children.iter().map(fmt_ast).collect();
            format!("{}({})", s, inner.join(","))
        }
    }
}

#[test]
fn test_simple_grammer() {
    let grammar = build_t1_grammer();
    let parser = Parser::new(grammar);

    let input: Vec<Symbol> = ["(", "d", ")"]
        .iter()
        .map(|&c| Symbol::Terminal(c.to_string()))
        .collect();

    match parser.parse(input) {
        Ok(ast) => {
            println!("{}", fmt_ast(&ast));
        }
        Err(e) => panic!("Parsing error: {}", e.message()),
    }
}
