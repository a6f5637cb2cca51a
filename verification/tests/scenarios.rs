//! End-to-end parsing scenarios: tree shapes, the empty program,
//! statement sequences, syntax errors, and a small import-only
//! grammar.

use lr1_rs::build_grammar;
use lr1_rs::ASTNode;
use lr1_rs::Grammar;
use lr1_rs::ParseError;
use lr1_rs::Parser;
use lr1_rs::ProdShortCut;
use lr1_rs::Symbol;

fn prod(lhs: &str, rhs: &[&str]) -> ProdShortCut {
    ProdShortCut {
        lhs: lhs.to_string(),
        rhs: rhs.iter().map(|s| s.to_string()).collect(),
    }
}

fn terminals(names: &[&str]) -> Vec<Symbol> {
    names.iter().map(|&n| Symbol::Terminal(n.to_string())).collect()
}

fn nested_grammar() -> Grammar {
    build_grammar(
        "E".to_string(),
        vec![
            prod("E", &["(", "L", ",", "E", ")"]),
            prod("E", &["F"]),
            prod("L", &["L", ",", "E"]),
            prod("L", &["E"]),
            prod("F", &["(", "F", ")"]),
            prod("F", &["d"]),
        ],
    )
}

fn toy_grammar() -> Grammar {
    build_grammar(
        "PROGRAM".to_string(),
        vec![
            prod("PROGRAM", &["STATEMENT", "PROGRAM"]),
            prod("PROGRAM", &["STATEMENT"]),
            prod("PROGRAM", &[]),
            prod("STATEMENT", &["INPUT_STMT"]),
            prod("STATEMENT", &["PRINT_STMT"]),
            prod("STATEMENT", &["DECLARATION_STMT"]),
            prod("STATEMENT", &["ASSIGNMENT_STMT"]),
            prod("STATEMENT", &["IF_STMT"]),
            prod("STATEMENT", &["WHILE_STMT"]),
            prod("INPUT_STMT", &["input", "identifier", ";"]),
            prod("PRINT_STMT", &["print", "identifier", ";"]),
            prod("PRINT_STMT", &["print", "stringliteral", ";"]),
            prod("DECLARATION_STMT", &["var", "identifier", ";"]),
            prod("ASSIGNMENT_STMT", &["identifier", "=", "EXPRESSION", ";"]),
            prod("IF_STMT", &["if", "(", "CONDITION", ")", "{", "PROGRAM", "}"]),
            prod("WHILE_STMT", &["while", "(", "CONDITION", ")", "{", "PROGRAM", "}"]),
            prod("EXPRESSION", &["TERM"]),
            prod("EXPRESSION", &["TERM", "+", "TERM"]),
            prod("EXPRESSION", &["TERM", "-", "TERM"]),
            prod("TERM", &["FACTOR"]),
            prod("TERM", &["FACTOR", "*", "FACTOR"]),
            prod("TERM", &["FACTOR", "/", "FACTOR"]),
            prod("FACTOR", &["identifier"]),
            prod("FACTOR", &["number"]),
            prod("FACTOR", &["(", "EXPRESSION", ")"]),
            prod("CONDITION", &["EXPRESSION", "==", "EXPRESSION"]),
            prod("CONDITION", &["EXPRESSION", ">", "EXPRESSION"]),
            prod("CONDITION", &["EXPRESSION", "<", "EXPRESSION"]),
        ],
    )
}

/// The terminal leaves of a tree, left to right.
fn leaves(ast: &ASTNode, out: &mut Vec<String>) {
    match ast {
        ASTNode::Terminal(s) => out.push(s.clone()),
        ASTNode::NonTerminal(_, children) => {
            for c in children {
                leaves(c, out);
            }
        }
    }
}

/// Count `STATEMENT` nodes under a `PROGRAM` spine.
fn count_statements(ast: &ASTNode) -> usize {
    match ast {
        ASTNode::Terminal(_) => 0,
        ASTNode::NonTerminal(name, children) => {
            let own = if name == "STATEMENT" { 1 } else { 0 };
            own + children.iter().map(count_statements).sum::<usize>()
        }
    }
}

#[test]
fn nested_balanced_parse_shape() {
    let parser = Parser::new(nested_grammar());
    let ast = parser.parse(terminals(&["(", "d", ")"])).expect("should parse");
    // Root E with a single child F, then F -> ( F ), then F -> d.
    match &ast {
        ASTNode::NonTerminal(root, ch) => {
            assert_eq!(root, "E");
            assert_eq!(ch.len(), 1);
            match &ch[0] {
                ASTNode::NonTerminal(f1, ch1) => {
                    assert_eq!(f1, "F");
                    assert_eq!(ch1.len(), 3);
                    assert!(matches!(&ch1[0], ASTNode::Terminal(t) if t == "("));
                    assert!(matches!(&ch1[2], ASTNode::Terminal(t) if t == ")"));
                    match &ch1[1] {
                        ASTNode::NonTerminal(f2, ch2) => {
                            assert_eq!(f2, "F");
                            assert_eq!(ch2.len(), 1);
                            assert!(matches!(&ch2[0], ASTNode::Terminal(t) if t == "d"));
                        }
                        _ => panic!("inner F expected"),
                    }
                }
                _ => panic!("child F expected"),
            }
        }
        _ => panic!("non-terminal root expected"),
    }
    let mut ys: Vec<String> = Vec::new();
    leaves(&ast, &mut ys);
    assert_eq!(ys, vec!["(".to_string(), "d".to_string(), ")".to_string()]);
}

#[test]
fn empty_program_parses_to_empty_root() {
    let parser = Parser::new(toy_grammar());
    let ast = parser.parse(Vec::new()).expect("empty input should parse");
    match &ast {
        ASTNode::NonTerminal(name, children) => {
            assert_eq!(name, "PROGRAM");
            assert_eq!(children.len(), 0);
        }
        _ => panic!("expected a PROGRAM root"),
    }
}

#[test]
fn five_statements_parse() {
    let parser = Parser::new(toy_grammar());
    let input = terminals(&[
        "var", "identifier", ";", "var", "identifier", ";", "identifier", "=", "number", ";",
        "identifier", "=", "number", ";", "print", "identifier", ";",
    ]);
    let ast = parser.parse(input).expect("program should parse");
    match &ast {
        ASTNode::NonTerminal(name, _) => assert_eq!(name, "PROGRAM"),
        _ => panic!("expected a PROGRAM root"),
    }
    assert_eq!(count_statements(&ast), 5);
}

#[test]
fn assignment_uses_single_assign_terminal() {
    let parser = Parser::new(toy_grammar());
    let ast = parser
        .parse(terminals(&["identifier", "=", "number", ";"]))
        .expect("assignment should parse");
    let mut ys: Vec<String> = Vec::new();
    leaves(&ast, &mut ys);
    assert_eq!(ys, vec!["identifier", "=", "number", ";"]);
}

#[test]
fn missing_identifier_is_a_syntax_error_at_one() {
    let parser = Parser::new(toy_grammar());
    let r = parser.parse(terminals(&["var", ";"]));
    match r {
        Err(ParseError::Syntax { pos, .. }) => assert_eq!(pos, 1),
        other => panic!("expected a syntax error at position 1, got {:?}", other),
    }
}

#[test]
fn import_only_subset_accepts() {
    let g = build_grammar(
        "program".to_string(),
        vec![
            prod("program", &["sourceElements", "eof"]),
            prod("sourceElements", &["sourceElement", "sourceElements"]),
            prod("sourceElements", &["sourceElement"]),
            prod("sourceElement", &["statement"]),
            prod("statement", &["importStatement"]),
            prod("importStatement", &["import", "importFromBlock"]),
            prod("importFromBlock", &["str", "eos"]),
            prod("eos", &["semicolon"]),
            prod("eos", &["eof"]),
        ],
    );
    let parser = Parser::new(g);
    let ast = parser
        .parse(terminals(&["import", "str", "semicolon", "eof"]))
        .expect("import statement should parse");
    match &ast {
        ASTNode::NonTerminal(name, _) => assert_eq!(name, "program"),
        _ => panic!("expected a program root"),
    }
}

#[test]
fn end_marker_never_parses_as_input() {
    // A non-terminal fed as input is simply not in the tables.
    let parser = Parser::new(nested_grammar());
    let r = parser.parse(vec![Symbol::NonTerminal("E".to_string())]);
    assert!(matches!(r, Err(ParseError::Syntax { pos: 0, .. })));
}

#[test]
fn error_messages_name_the_failure() {
    let e = ParseError::Syntax {
        pos: 3,
        state: 7,
        symbol: Symbol::Terminal("d".to_string()),
    };
    assert!(e.message().contains("Syntax error at position 3"));
    let e2 = ParseError::InvalidTransition { state: 4 };
    assert!(e2.message().contains("Invalid state transition"));
}
