//! State functions of the lexer, as first-class values: each state
//! names the scanning routine that runs next, so the driving loop is
//! decoupled from the individual scanners.

use vstd::prelude::*;

use crate::lexer::lex_measure;
use crate::lexer::scan_step;
use crate::lexer::state_ok;
use crate::lexer::tokens_extended;
use crate::lexer::Lexer;
use crate::statefn_impl::lex_alpha;
use crate::statefn_impl::lex_eq_op;
use crate::statefn_impl::lex_minus;
use crate::statefn_impl::lex_number;
use crate::statefn_impl::lex_start;
use crate::statefn_impl::lex_string_literal;
use crate::token::Type;

verus! {

/// The lexer's scanning states.
#[derive(Debug, Clone, Copy, PartialEq, Eq, Structural)]
pub enum LexState {
    Start,
    EqOp,
    Minus,
    Number,
    StringLit,
    Alpha,
}

/// A scanning routine to run next, or none to stop.
#[derive(Debug, Clone, Copy)]
pub struct StateFn {
    f: LexState,
}

impl StateFn {
    /// Which state this wraps.
    pub closed spec fn spec_state(self) -> LexState {
        self.f
    }

    /// Wrap a state.
    pub fn from(f: LexState) -> (r: StateFn)
        ensures
            r.spec_state() == f,
    {
        StateFn { f }
    }

    /// Run the wrapped scanner one step: it consumes some input,
    /// possibly emits tokens, and either names the next state (with
    /// the termination measure strictly smaller) or stops right after
    /// an end-of-input or scan-failure token.
    pub fn call(&self, lexer: &mut Lexer) -> (r: Option<StateFn>)
        requires
            old(lexer).wf(),
            state_ok(self.spec_state(), *old(lexer)),
        ensures
            final(lexer).wf(),
            final(lexer).spec_input() == old(lexer).spec_input(),
            tokens_extended(*old(lexer), *final(lexer)),
            scan_step(self.spec_state(), *old(lexer), *final(lexer), r),
            match r {
                Some(next) => state_ok(next.spec_state(), *final(lexer)) && lex_measure(
                    *final(lexer),
                    next.spec_state(),
                ) < lex_measure(*old(lexer), self.spec_state()),
                None => final(lexer).spec_tokens().len() > 0 && (final(lexer).spec_tokens().last().typ == Type::EOF || final(lexer).spec_tokens().last().typ
                    == Type::LexerError) && (final(lexer).spec_tokens().last().typ == Type::EOF
                    ==> (final(lexer).spec_pos() == final(lexer).spec_input().len() && final(lexer).spec_tokens().last().val@ == Seq::<char>::empty())),
            },
    {
        match self.f {
            LexState::Start => lex_start(lexer),
            LexState::EqOp => lex_eq_op(lexer),
            LexState::Minus => lex_minus(lexer),
            LexState::Number => lex_number(lexer),
            LexState::StringLit => lex_string_literal(lexer),
            LexState::Alpha => lex_alpha(lexer),
        }
    }
}

} // verus!
