//! The scanning routines the lexer's state functions dispatch to.

use vstd::prelude::*;

use crate::lexer::lex_alpha_step;
use crate::lexer::lex_eq_op_step;
use crate::lexer::lex_measure;
use crate::lexer::lex_minus_step;
use crate::lexer::lex_number_step;
use crate::lexer::lex_start_step;
use crate::lexer::lex_string_step;
use crate::lexer::punct_type_of;
use crate::lexer::push_char;
use crate::lexer::spec_is_alpha;
use crate::lexer::spec_is_digit;
use crate::lexer::spec_is_string_char;
use crate::lexer::state_ok;
use crate::lexer::tokens_extended;
use crate::lexer::word_type_of;
use crate::lexer::Lexer;
use crate::statefn::LexState;
use crate::statefn::StateFn;
use crate::token::Type;
use vstd::string::StringExecFns;

verus! {

impl Default for StateFn {
    /// Scanning begins in the start state.
    fn default() -> (r: StateFn)
        ensures
            r.spec_state() == LexState::Start,
    {
        StateFn::from(LexState::Start)
    }
}

/// Whether `c` is a decimal digit.
fn is_digit(c: char) -> (r: bool)
    ensures
        r == spec_is_digit(c),
{
    let u = c as u32;
    48 <= u && u <= 57
}

/// Whether `c` is an ASCII letter.
fn is_alpha(c: char) -> (r: bool)
    ensures
        r == spec_is_alpha(c),
{
    let u = c as u32;
    (97 <= u && u <= 122) || (65 <= u && u <= 90)
}

/// Whether `c` is a letter or a digit.
fn is_alnum(c: char) -> (r: bool)
    ensures
        r == (spec_is_alpha(c) || spec_is_digit(c)),
{
    is_alpha(c) || is_digit(c)
}

/// Whether `c` may appear inside a string literal.
fn is_string_char(c: char) -> (r: bool)
    ensures
        r == spec_is_string_char(c),
{
    if is_alnum(c) {
        return true;
    }
    c == ' ' || c == '!' || c == '#' || c == '$' || c == '%' || c == '&' || c == '\'' || c == '('
        || c == ')' || c == '*' || c == '+' || c == ',' || c == '-' || c == '.' || c == '/' || c
        == ':' || c == ';' || c == '<' || c == '=' || c == '>' || c == '?' || c == '@' || c == '['
        || c == '\\' || c == ']' || c == '^' || c == '_' || c == '{' || c == '|' || c == '}' || c
        == '~'
}

/// Record a scan failure and stop.
fn lex_error(lexer: &mut Lexer, msg: String) -> (r: Option<StateFn>)
    ensures
        final(lexer).wf() == old(lexer).wf(),
        final(lexer).spec_input() == old(lexer).spec_input(),
        final(lexer).spec_pos() == old(lexer).spec_pos(),
        final(lexer).spec_start() == old(lexer).spec_start(),
        tokens_extended(*old(lexer), *final(lexer)),
        r is None,
        final(lexer).spec_tokens().len() == old(lexer).spec_tokens().len() + 1,
        final(lexer).spec_tokens().last().typ == Type::LexerError,
{
    lexer.send(Type::LexerError, msg);
    None
}

/// The initial state: emit single-character tokens directly, skip
/// whitespace, hand multi-character shapes to their own states, stop
/// with the end-of-input token when the input is spent, and reject any
/// other character. [`lex_start_step`] states the cases exactly.
pub fn lex_start(lexer: &mut Lexer) -> (r: Option<StateFn>)
    requires
        old(lexer).wf(),
        state_ok(LexState::Start, *old(lexer)),
    ensures
        final(lexer).wf(),
        final(lexer).spec_input() == old(lexer).spec_input(),
        tokens_extended(*old(lexer), *final(lexer)),
        lex_start_step(*old(lexer), *final(lexer), r),
        match r {
            Some(next) => state_ok(next.spec_state(), *final(lexer)) && lex_measure(
                *final(lexer),
                next.spec_state(),
            ) < lex_measure(*old(lexer), LexState::Start),
            None => final(lexer).spec_tokens().len() > 0 && (final(lexer).spec_tokens().last().typ
                == Type::EOF || final(lexer).spec_tokens().last().typ == Type::LexerError),
        },
{
    if lexer.eof() {
        lexer.send(Type::EOF, String::new());
        proof {
            assert(lexer.spec_tokens() =~= old(lexer).spec_tokens().push(
                lexer.spec_tokens().last(),
            ));
        }
        return None;
    }
    let c = lexer.peek().unwrap();
    let punct: Option<Type> = if c == ';' {
        Some(Type::SemiColon)
    } else if c == '(' {
        Some(Type::LeftParen)
    } else if c == ')' {
        Some(Type::RightParen)
    } else if c == '{' {
        Some(Type::LeftBrace)
    } else if c == '}' {
        Some(Type::RightBrace)
    } else if c == '+' {
        Some(Type::Plus)
    } else if c == '*' {
        Some(Type::Multiply)
    } else if c == '/' {
        Some(Type::Divide)
    } else if c == '>' {
        Some(Type::Greater)
    } else if c == '<' {
        Some(Type::Less)
    } else {
        None
    };
    proof {
        assert(punct == punct_type_of(c));
    }
    match punct {
        Option::Some(ty) => {
            lexer.step();
            let ghost mid = *lexer;
            lexer.emit(ty);
            proof {
                assert(lexer.spec_tokens().last().val@ == mid.spec_input().subrange(
                    mid.spec_start(),
                    mid.spec_pos(),
                ));
                assert(mid.spec_start() == old(lexer).spec_pos());
                assert(mid.spec_pos() == old(lexer).spec_pos() + 1);
                assert(lexer.spec_tokens().last().val@ =~= seq![c]);
            }
            return Some(StateFn::from(LexState::Start));
        },
        Option::None => (),
    }
    if is_alpha(c) {
        return Some(StateFn::from(LexState::Alpha));
    }
    if is_digit(c) {
        return Some(StateFn::from(LexState::Number));
    }
    if c == '"' {
        return Some(StateFn::from(LexState::StringLit));
    }
    if c == '-' {
        return Some(StateFn::from(LexState::Minus));
    }
    if c == '=' {
        return Some(StateFn::from(LexState::EqOp));
    }
    if c == ' ' || c == '\t' || c == '\n' || c == '\r' {
        lexer.step();
        lexer.ignore();
        return Some(StateFn::from(LexState::Start));
    }
    let mut msg = String::from_str("unexpected character: '");
    push_char(&mut msg, c);
    push_char(&mut msg, '\'');
    lex_error(lexer, msg)
}

/// After a first `=`: one more makes the equality operator, none makes
/// assignment; a longer run is rejected. [`lex_eq_op_step`] states the
/// cases exactly.
pub fn lex_eq_op(lexer: &mut Lexer) -> (r: Option<StateFn>)
    requires
        old(lexer).wf(),
        state_ok(LexState::EqOp, *old(lexer)),
    ensures
        final(lexer).wf(),
        final(lexer).spec_input() == old(lexer).spec_input(),
        tokens_extended(*old(lexer), *final(lexer)),
        lex_eq_op_step(*old(lexer), *final(lexer), r),
        match r {
            Some(next) => state_ok(next.spec_state(), *final(lexer)) && lex_measure(
                *final(lexer),
                next.spec_state(),
            ) < lex_measure(*old(lexer), LexState::EqOp),
            None => final(lexer).spec_tokens().len() > 0 && (final(lexer).spec_tokens().last().typ
                == Type::EOF || final(lexer).spec_tokens().last().typ == Type::LexerError),
        },
{
    lexer.step();
    let second = match lexer.peek() {
        Option::Some(c2) => c2 == '=',
        Option::None => false,
    };
    if second {
        lexer.step();
        let third = match lexer.peek() {
            Option::Some(c3) => c3 == '=',
            Option::None => false,
        };
        if third {
            return lex_error(lexer, String::from_str("unexpected character run of '='"));
        }
        let ghost mid = *lexer;
        lexer.emit(Type::Equal);
        proof {
            assert(lexer.spec_tokens().last().val@ == mid.spec_input().subrange(
                mid.spec_start(),
                mid.spec_pos(),
            ));
            assert(mid.spec_start() == old(lexer).spec_pos());
            assert(mid.spec_pos() == old(lexer).spec_pos() + 2);
            assert(lexer.spec_tokens().last().val@ =~= seq!['=', '=']);
        }
    } else {
        let ghost mid = *lexer;
        lexer.emit(Type::Assign);
        proof {
            assert(lexer.spec_tokens().last().val@ == mid.spec_input().subrange(
                mid.spec_start(),
                mid.spec_pos(),
            ));
            assert(mid.spec_start() == old(lexer).spec_pos());
            assert(mid.spec_pos() == old(lexer).spec_pos() + 1);
            assert(lexer.spec_tokens().last().val@ =~= seq!['=']);
        }
    }
    Some(StateFn::from(LexState::Start))
}

/// After a `-`: a digit continues into a number, anything else is the
/// minus operator. [`lex_minus_step`] states the cases exactly.
pub fn lex_minus(lexer: &mut Lexer) -> (r: Option<StateFn>)
    requires
        old(lexer).wf(),
        state_ok(LexState::Minus, *old(lexer)),
    ensures
        final(lexer).wf(),
        final(lexer).spec_input() == old(lexer).spec_input(),
        tokens_extended(*old(lexer), *final(lexer)),
        lex_minus_step(*old(lexer), *final(lexer), r),
        match r {
            Some(next) => state_ok(next.spec_state(), *final(lexer)) && lex_measure(
                *final(lexer),
                next.spec_state(),
            ) < lex_measure(*old(lexer), LexState::Minus),
            None => final(lexer).spec_tokens().len() > 0 && (final(lexer).spec_tokens().last().typ
                == Type::EOF || final(lexer).spec_tokens().last().typ == Type::LexerError),
        },
{
    lexer.step();
    let next_digit = match lexer.peek() {
        Option::Some(c) => is_digit(c),
        Option::None => false,
    };
    if next_digit {
        Some(StateFn::from(LexState::Number))
    } else {
        let ghost mid = *lexer;
        lexer.emit(Type::Minus);
        proof {
            assert(lexer.spec_tokens().last().val@ == mid.spec_input().subrange(
                mid.spec_start(),
                mid.spec_pos(),
            ));
            assert(mid.spec_start() == old(lexer).spec_pos());
            assert(mid.spec_pos() == old(lexer).spec_pos() + 1);
            assert(lexer.spec_tokens().last().val@ =~= seq!['-']);
        }
        Some(StateFn::from(LexState::Start))
    }
}

/// Inside a number: consume digits one at a time, emitting the number
/// at the first non-digit. [`lex_number_step`] states the cases
/// exactly.
pub fn lex_number(lexer: &mut Lexer) -> (r: Option<StateFn>)
    requires
        old(lexer).wf(),
        state_ok(LexState::Number, *old(lexer)),
    ensures
        final(lexer).wf(),
        final(lexer).spec_input() == old(lexer).spec_input(),
        tokens_extended(*old(lexer), *final(lexer)),
        lex_number_step(*old(lexer), *final(lexer), r),
        match r {
            Some(next) => state_ok(next.spec_state(), *final(lexer)) && lex_measure(
                *final(lexer),
                next.spec_state(),
            ) < lex_measure(*old(lexer), LexState::Number),
            None => final(lexer).spec_tokens().len() > 0 && (final(lexer).spec_tokens().last().typ
                == Type::EOF || final(lexer).spec_tokens().last().typ == Type::LexerError),
        },
{
    let next_digit = match lexer.peek() {
        Option::Some(c) => is_digit(c),
        Option::None => false,
    };
    if next_digit {
        lexer.step();
        Some(StateFn::from(LexState::Number))
    } else {
        lexer.emit(Type::Number);
        Some(StateFn::from(LexState::Start))
    }
}

/// Inside a string literal: scan to the closing quote, rejecting
/// characters outside the accepted set and unterminated literals.
/// [`lex_string_step`] states the cases exactly.
pub fn lex_string_literal(lexer: &mut Lexer) -> (r: Option<StateFn>)
    requires
        old(lexer).wf(),
        state_ok(LexState::StringLit, *old(lexer)),
    ensures
        final(lexer).wf(),
        final(lexer).spec_input() == old(lexer).spec_input(),
        tokens_extended(*old(lexer), *final(lexer)),
        lex_string_step(*old(lexer), *final(lexer), r),
        match r {
            Some(next) => state_ok(next.spec_state(), *final(lexer)) && lex_measure(
                *final(lexer),
                next.spec_state(),
            ) < lex_measure(*old(lexer), LexState::StringLit),
            None => final(lexer).spec_tokens().len() > 0 && (final(lexer).spec_tokens().last().typ
                == Type::EOF || final(lexer).spec_tokens().last().typ == Type::LexerError),
        },
{
    lexer.step();
    loop
        invariant
            lexer.wf(),
            lexer.spec_input() == old(lexer).spec_input(),
            lexer.spec_start() == old(lexer).spec_start(),
            lexer.spec_tokens() == old(lexer).spec_tokens(),
            old(lexer).spec_pos() < lexer.spec_pos() <= lexer.spec_input().len(),
            forall|i: int|
                old(lexer).spec_pos() < i < lexer.spec_pos() ==> (spec_is_string_char(
                    #[trigger] lexer.spec_input()[i],
                ) && lexer.spec_input()[i] != '"'),
        decreases lexer.spec_input().len() - lexer.spec_pos(),
    {
        match lexer.peek() {
            Option::Some(c) => {
                if c == '"' {
                    lexer.step();
                    lexer.emit(Type::StringLiteral);
                    return Some(StateFn::from(LexState::Start));
                }
                if !is_string_char(c) {
                    let mut msg = String::from_str("unexpected character in string literal: '");
                    push_char(&mut msg, c);
                    push_char(&mut msg, '\'');
                    return lex_error(lexer, msg);
                }
                lexer.step();
            },
            Option::None => {
                return lex_error(lexer, String::from_str("unterminated string literal"));
            },
        }
    }
}

/// Inside a word: consume the letters and digits, then emit a keyword
/// where the text matches one, an identifier otherwise.
/// [`lex_alpha_step`] states the cases exactly.
pub fn lex_alpha(lexer: &mut Lexer) -> (r: Option<StateFn>)
    requires
        old(lexer).wf(),
        state_ok(LexState::Alpha, *old(lexer)),
    ensures
        final(lexer).wf(),
        final(lexer).spec_input() == old(lexer).spec_input(),
        tokens_extended(*old(lexer), *final(lexer)),
        lex_alpha_step(*old(lexer), *final(lexer), r),
        match r {
            Some(next) => state_ok(next.spec_state(), *final(lexer)) && lex_measure(
                *final(lexer),
                next.spec_state(),
            ) < lex_measure(*old(lexer), LexState::Alpha),
            None => final(lexer).spec_tokens().len() > 0 && (final(lexer).spec_tokens().last().typ
                == Type::EOF || final(lexer).spec_tokens().last().typ == Type::LexerError),
        },
{
    lexer.step();
    loop
        invariant
            lexer.wf(),
            lexer.spec_input() == old(lexer).spec_input(),
            lexer.spec_start() == old(lexer).spec_start(),
            lexer.spec_tokens() == old(lexer).spec_tokens(),
            old(lexer).spec_pos() < lexer.spec_pos() <= lexer.spec_input().len(),
            forall|i: int|
                old(lexer).spec_pos() <= i < lexer.spec_pos() ==> (spec_is_alpha(
                    #[trigger] lexer.spec_input()[i],
                ) || spec_is_digit(lexer.spec_input()[i])),
        ensures
            lexer.wf(),
            lexer.spec_input() == old(lexer).spec_input(),
            lexer.spec_start() == old(lexer).spec_start(),
            lexer.spec_tokens() == old(lexer).spec_tokens(),
            old(lexer).spec_pos() < lexer.spec_pos() <= lexer.spec_input().len(),
            forall|i: int|
                old(lexer).spec_pos() <= i < lexer.spec_pos() ==> (spec_is_alpha(
                    #[trigger] lexer.spec_input()[i],
                ) || spec_is_digit(lexer.spec_input()[i])),
            lexer.spec_pos() < lexer.spec_input().len() ==> !(spec_is_alpha(
                lexer.spec_input()[lexer.spec_pos()],
            ) || spec_is_digit(lexer.spec_input()[lexer.spec_pos()])),
        decreases lexer.spec_input().len() - lexer.spec_pos(),
    {
        match lexer.peek() {
            Option::Some(c) => {
                if is_alnum(c) {
                    lexer.step();
                } else {
                    break ;
                }
            },
            Option::None => {
                break ;
            },
        }
    }
    let s = lexer.current();
    let ghost w = old(lexer).spec_input().subrange(
        old(lexer).spec_start(),
        lexer.spec_pos(),
    );
    proof {
        assert(s@ == w);
    }
    if s == String::from_str("var") {
        lexer.emit(Type::Var);
    } else if s == String::from_str("input") {
        lexer.emit(Type::Input);
    } else if s == String::from_str("if") {
        lexer.emit(Type::If);
    } else if s == String::from_str("print") {
        lexer.emit(Type::Print);
    } else if s == String::from_str("while") {
        lexer.emit(Type::While);
    } else {
        lexer.emit(Type::Identifier);
    }
    proof {
        assert(lexer.spec_tokens().last().val@ == w);
        assert(lexer.spec_tokens().last().typ == word_type_of(w));
    }
    Some(StateFn::from(LexState::Start))
}

} // verus!
