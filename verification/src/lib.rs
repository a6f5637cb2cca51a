//! An LR(1) parser generator and runtime for context-free grammars,
//! together with a small streaming lexer for a toy language.
//!
//! A client builds a [`Grammar`] from named productions, hands it to
//! [`Parser::new`], which constructs the canonical LR(1) ACTION and GOTO
//! tables, and then calls [`Parser::parse`] on a sequence of terminal
//! symbols to obtain a concrete syntax tree or a syntax error.

pub mod first;
pub mod grammar;
pub mod item;
pub mod lexer;
pub mod parser;
pub mod prod;
pub mod statefn;
pub mod statefn_impl;
pub mod symbol;
pub mod table;
pub mod token;

pub use first::FirstSets;
pub use grammar::build_grammar;
pub use grammar::Grammar;
pub use grammar::ProdShortCut;
pub use item::LR1Item;
pub use item::SpecItem;
pub use lexer::Lexer;
pub use parser::fake_start;
pub use parser::ASTNode;
pub use parser::ParseError;
pub use parser::Parser;
pub use parser::SpecTree;
pub use prod::Production;
pub use prod::SpecProd;
pub use statefn::LexState;
pub use statefn::StateFn;
pub use statefn_impl::lex_start;
pub use symbol::SpecSymbol;
pub use symbol::Symbol;
pub use table::Action;
pub use table::ActionTable;
pub use table::GotoTable;
pub use table::SpecAction;
pub use table::State;
pub use token::Token;
pub use token::Type;
