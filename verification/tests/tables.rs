//! Table-level checks: FIRST sets, state canonicality, determinism,
//! shift/GOTO agreement, and Accept uniqueness, each on a concrete
//! grammar.

use lr1_rs::build_grammar;
use lr1_rs::Action;
use lr1_rs::Grammar;
use lr1_rs::LR1Item;
use lr1_rs::Parser;
use lr1_rs::ProdShortCut;
use lr1_rs::Symbol;

fn prod(lhs: &str, rhs: &[&str]) -> ProdShortCut {
    ProdShortCut {
        lhs: lhs.to_string(),
        rhs: rhs.iter().map(|s| s.to_string()).collect(),
    }
}

fn nullable_grammar() -> Grammar {
    // S -> A B; A -> a | (empty); B -> b
    build_grammar(
        "S".to_string(),
        vec![
            prod("S", &["A", "B"]),
            prod("A", &["a"]),
            prod("A", &[]),
            prod("B", &["b"]),
        ],
    )
}

fn bracket_grammar() -> Grammar {
    build_grammar(
        "E".to_string(),
        vec![
            prod("E", &["(", "L", ",", "E", ")"]),
            prod("E", &["F"]),
            prod("L", &["L", ",", "E"]),
            prod("L", &["E"]),
            prod("F", &["(", "F", ")"]),
            prod("F", &["d"]),
        ],
    )
}

fn first_of(g: &Grammar, name: &str, nonterminal: bool) -> Vec<Symbol> {
    let fs = g.compute_first();
    let key = if nonterminal {
        Symbol::NonTerminal(name.to_string())
    } else {
        Symbol::Terminal(name.to_string())
    };
    for (i, k) in fs.keys.iter().enumerate() {
        if *k == key {
            return fs.vals[i].clone();
        }
    }
    panic!("no FIRST row for {:?}", key);
}

#[test]
fn first_sets_follow_the_fixpoint() {
    let g = nullable_grammar();
    let fa = first_of(&g, "A", true);
    assert!(fa.contains(&Symbol::Terminal("a".to_string())));
    assert!(fa.contains(&Symbol::Epsilon));
    let fs = first_of(&g, "S", true);
    // A can vanish, so both a and b begin S; S itself never vanishes.
    assert!(fs.contains(&Symbol::Terminal("a".to_string())));
    assert!(fs.contains(&Symbol::Terminal("b".to_string())));
    assert!(!fs.contains(&Symbol::Epsilon));
    let ft = first_of(&g, "b", false);
    assert_eq!(ft, vec![Symbol::Terminal("b".to_string())]);
}

/// Replay one full fixpoint pass by hand over the returned table: it
/// must add nothing to any set.
#[test]
fn one_more_first_pass_adds_nothing() {
    let g = nullable_grammar();
    let fs = g.compute_first();
    let row_of = |sym: &Symbol| -> &Vec<Symbol> {
        for (i, k) in fs.keys.iter().enumerate() {
            if k == sym {
                return &fs.vals[i];
            }
        }
        panic!("missing FIRST row");
    };
    let eps = Symbol::Epsilon;
    for p in g.productions.iter() {
        let lhs_row = row_of(&p.lhs).clone();
        let mut all_nullable = true;
        for sym in p.rhs.iter() {
            if !all_nullable {
                break;
            }
            for x in row_of(sym).iter() {
                if *x != eps {
                    assert!(lhs_row.contains(x), "a pass would still add a member");
                }
            }
            all_nullable = row_of(sym).contains(&eps);
        }
        if all_nullable {
            assert!(lhs_row.contains(&eps), "a pass would still add the empty marker");
        }
    }
}

#[test]
fn epsilon_marks_exactly_the_vanishing_symbols() {
    // S -> A A; A -> (empty): everything derives the empty string.
    let g = build_grammar(
        "S".to_string(),
        vec![prod("S", &["A", "A"]), prod("A", &[])],
    );
    assert!(first_of(&g, "S", true).contains(&Symbol::Epsilon));
    assert!(first_of(&g, "A", true).contains(&Symbol::Epsilon));
}

fn same_items(a: &Vec<LR1Item>, b: &Vec<LR1Item>) -> bool {
    a.len() == b.len() && a.iter().all(|x| b.contains(x)) && b.iter().all(|x| a.contains(x))
}

#[test]
fn states_are_canonical() {
    let g = bracket_grammar();
    let fs = g.compute_first();
    let (states, _gt) = Parser::build_canonical_collection(&g, &fs);
    for (i, st) in states.iter().enumerate() {
        assert_eq!(st.index, i);
    }
    for i in 0..states.len() {
        for j in (i + 1)..states.len() {
            assert!(!same_items(&states[i].items, &states[j].items));
        }
    }
}

fn action_eq(a: &Action, b: &Action) -> bool {
    match (a, b) {
        (Action::Shift(x), Action::Shift(y)) => x == y,
        (Action::Reduce(p), Action::Reduce(q)) => p == q,
        (Action::Accept, Action::Accept) => true,
        (Action::Error, Action::Error) => true,
        _ => false,
    }
}

#[test]
fn table_construction_is_deterministic() {
    let p1 = Parser::new(bracket_grammar());
    let p2 = Parser::new(bracket_grammar());
    assert_eq!(p1.action_table.entries.len(), p2.action_table.entries.len());
    for (a, b) in p1.action_table.entries.iter().zip(p2.action_table.entries.iter()) {
        assert_eq!(a.state, b.state);
        assert!(a.sym == b.sym);
        assert!(action_eq(&a.action, &b.action));
    }
    assert_eq!(p1.goto_table.entries.len(), p2.goto_table.entries.len());
    for (a, b) in p1.goto_table.entries.iter().zip(p2.goto_table.entries.iter()) {
        assert_eq!(a.state, b.state);
        assert!(a.sym == b.sym);
        assert_eq!(a.target, b.target);
    }
}

#[test]
fn every_shift_agrees_with_goto() {
    let p = Parser::new(bracket_grammar());
    let mut shifts = 0;
    for e in p.action_table.entries.iter() {
        if let Action::Shift(target) = &e.action {
            let hit = p
                .goto_table
                .entries
                .iter()
                .find(|ge| ge.state == e.state && ge.sym == e.sym)
                .expect("a Shift entry must mirror a GOTO entry");
            assert_eq!(hit.target, *target);
            shifts += 1;
        }
    }
    assert!(shifts > 0);
}

#[test]
fn exactly_one_accept_on_the_end_marker() {
    let p = Parser::new(bracket_grammar());
    let accepts: Vec<_> = p
        .action_table
        .entries
        .iter()
        .filter(|e| matches!(e.action, Action::Accept))
        .collect();
    assert_eq!(accepts.len(), 1);
    assert!(accepts[0].sym == Symbol::EndMarker);
}

#[test]
fn parse_yield_equals_input() {
    let p = Parser::new(bracket_grammar());
    let input = vec!["(", "(", "d", ")", ")"];
    let symbols: Vec<Symbol> = input.iter().map(|&c| Symbol::Terminal(c.to_string())).collect();
    let ast = p.parse(symbols).expect("balanced input should parse");
    let mut ys: Vec<String> = Vec::new();
    fn walk(a: &lr1_rs::ASTNode, out: &mut Vec<String>) {
        match a {
            lr1_rs::ASTNode::Terminal(s) => out.push(s.clone()),
            lr1_rs::ASTNode::NonTerminal(_, ch) => {
                for c in ch {
                    walk(c, out);
                }
            }
        }
    }
    walk(&ast, &mut ys);
    let expect: Vec<String> = input.iter().map(|s| s.to_string()).collect();
    assert_eq!(ys, expect);
}

#[test]
fn unbalanced_input_is_rejected() {
    let p = Parser::new(bracket_grammar());
    let symbols: Vec<Symbol> = ["(", "d"].iter().map(|&c| Symbol::Terminal(c.to_string())).collect();
    match p.parse(symbols) {
        Err(lr1_rs::ParseError::Syntax { pos, .. }) => assert!(pos <= 2),
        other => panic!("expected a syntax error, got {:?}", other),
    }
}
