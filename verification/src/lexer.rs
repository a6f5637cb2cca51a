//! The lexer context: a character buffer, a cursor, and the tokens
//! produced so far, handed out in strict first-in first-out order.

use vstd::prelude::*;

use crate::statefn::LexState;
use crate::statefn::StateFn;
use crate::token::Token;
use crate::token::Type;
use vstd::string::StrSliceExecFns;

verus! {

/// Relies on `String::push`: appends exactly one character at the end.
#[verifier::external_body]
pub(crate) fn push_char(s: &mut String, c: char)
    ensures
        final(s)@ == old(s)@.push(c),
{
    s.push(c);
}

/// Whether `c` is a decimal digit.
pub open spec fn spec_is_digit(c: char) -> bool {
    48 <= c as u32 <= 57
}

/// Whether `c` is an ASCII letter.
pub open spec fn spec_is_alpha(c: char) -> bool {
    (97 <= c as u32 <= 122) || (65 <= c as u32 <= 90)
}

/// The single-character token categories, by character.
pub open spec fn punct_type_of(c: char) -> Option<crate::token::Type> {
    if c == ';' {
        Some(Type::SemiColon)
    } else if c == '(' {
        Some(Type::LeftParen)
    } else if c == ')' {
        Some(Type::RightParen)
    } else if c == '{' {
        Some(Type::LeftBrace)
    } else if c == '}' {
        Some(Type::RightBrace)
    } else if c == '+' {
        Some(Type::Plus)
    } else if c == '*' {
        Some(Type::Multiply)
    } else if c == '/' {
        Some(Type::Divide)
    } else if c == '>' {
        Some(Type::Greater)
    } else if c == '<' {
        Some(Type::Less)
    } else {
        None
    }
}

/// The whitespace the scanner skips.
pub open spec fn spec_is_lex_ws(c: char) -> bool {
    c == ' ' || c == '\t' || c == '\n' || c == '\r'
}

/// The characters allowed inside a string literal besides the closing
/// quote: letters, digits, and the accepted punctuation.
pub open spec fn spec_is_string_char(c: char) -> bool {
    spec_is_alpha(c) || spec_is_digit(c) || c == ' ' || c == '!' || c == '#' || c == '$' || c == '%'
        || c == '&' || c == '\'' || c == '(' || c == ')' || c == '*' || c == '+' || c == ',' || c
        == '-' || c == '.' || c == '/' || c == ':' || c == ';' || c == '<' || c == '=' || c == '>'
        || c == '?' || c == '@' || c == '[' || c == '\\' || c == ']' || c == '^' || c == '_' || c
        == '{' || c == '|' || c == '}' || c == '~'
}

/// The keyword table: what category a scanned word receives.
pub open spec fn word_type_of(w: Seq<char>) -> crate::token::Type {
    if w == "var"@ {
        Type::Var
    } else if w == "input"@ {
        Type::Input
    } else if w == "if"@ {
        Type::If
    } else if w == "print"@ {
        Type::Print
    } else if w == "while"@ {
        Type::While
    } else {
        Type::Identifier
    }
}

/// What one step of the start state does, decided by the character
/// under the cursor: emit the end marker at end of input, emit
/// single-character tokens directly, skip whitespace, hand words,
/// numbers, string literals, `-` and `=` to their own states, and
/// reject anything else.
pub open spec fn lex_start_step(a: Lexer, b: Lexer, r: Option<StateFn>) -> bool {
    if a.spec_pos() >= a.spec_input().len() {
        &&& r is None
        &&& b.spec_tokens() =~= a.spec_tokens().push(b.spec_tokens().last())
        &&& b.spec_tokens().last().typ == Type::EOF
        &&& b.spec_tokens().last().val@ == Seq::<char>::empty()
        &&& b.spec_pos() == a.spec_pos()
    } else {
        let c = a.spec_input()[a.spec_pos()];
        if punct_type_of(c) is Some {
            &&& r matches Some(n) && n.spec_state() == LexState::Start
            &&& b.spec_pos() == a.spec_pos() + 1
            &&& b.spec_tokens().len() == a.spec_tokens().len() + 1
            &&& b.spec_tokens().last().typ == punct_type_of(c)->0
            &&& b.spec_tokens().last().val@ == seq![c]
        } else if spec_is_alpha(c) {
            r matches Some(n) && n.spec_state() == LexState::Alpha && b == a
        } else if spec_is_digit(c) {
            r matches Some(n) && n.spec_state() == LexState::Number && b == a
        } else if c == '"' {
            r matches Some(n) && n.spec_state() == LexState::StringLit && b == a
        } else if c == '-' {
            r matches Some(n) && n.spec_state() == LexState::Minus && b == a
        } else if c == '=' {
            r matches Some(n) && n.spec_state() == LexState::EqOp && b == a
        } else if spec_is_lex_ws(c) {
            &&& r matches Some(n) && n.spec_state() == LexState::Start
            &&& b.spec_pos() == a.spec_pos() + 1
            &&& b.spec_tokens() == a.spec_tokens()
        } else {
            &&& r is None
            &&& b.spec_tokens().len() == a.spec_tokens().len() + 1
            &&& b.spec_tokens().last().typ == Type::LexerError
        }
    }
}

/// What the number state does: consume one digit and continue, or emit
/// the scanned number at the first non-digit.
pub open spec fn lex_number_step(a: Lexer, b: Lexer, r: Option<StateFn>) -> bool {
    if a.spec_pos() < a.spec_input().len() && spec_is_digit(a.spec_input()[a.spec_pos()]) {
        &&& r matches Some(n) && n.spec_state() == LexState::Number
        &&& b.spec_pos() == a.spec_pos() + 1
        &&& b.spec_start() == a.spec_start()
        &&& b.spec_tokens() == a.spec_tokens()
    } else {
        &&& r matches Some(n) && n.spec_state() == LexState::Start
        &&& b.spec_pos() == a.spec_pos()
        &&& b.spec_tokens().len() == a.spec_tokens().len() + 1
        &&& b.spec_tokens().last().typ == Type::Number
        &&& b.spec_tokens().last().val@ == a.spec_input().subrange(a.spec_start(), a.spec_pos())
    }
}

/// What the minus state does: a digit after the `-` continues into a
/// number, anything else emits the minus operator.
pub open spec fn lex_minus_step(a: Lexer, b: Lexer, r: Option<StateFn>) -> bool {
    &&& b.spec_pos() == a.spec_pos() + 1
    &&& if a.spec_pos() + 1 < a.spec_input().len() && spec_is_digit(
        a.spec_input()[a.spec_pos() + 1],
    ) {
        &&& r matches Some(n) && n.spec_state() == LexState::Number
        &&& b.spec_start() == a.spec_start()
        &&& b.spec_tokens() == a.spec_tokens()
    } else {
        &&& r matches Some(n) && n.spec_state() == LexState::Start
        &&& b.spec_tokens().len() == a.spec_tokens().len() + 1
        &&& b.spec_tokens().last().typ == Type::Minus
        &&& b.spec_tokens().last().val@ == seq!['-']
    }
}

/// What the `=` state does: one more `=` makes the equality operator,
/// none makes assignment, a third is rejected.
pub open spec fn lex_eq_op_step(a: Lexer, b: Lexer, r: Option<StateFn>) -> bool {
    let two = a.spec_pos() + 1 < a.spec_input().len() && a.spec_input()[a.spec_pos() + 1] == '=';
    let three = two && a.spec_pos() + 2 < a.spec_input().len() && a.spec_input()[a.spec_pos() + 2]
        == '=';
    if three {
        &&& r is None
        &&& b.spec_tokens().len() == a.spec_tokens().len() + 1
        &&& b.spec_tokens().last().typ == Type::LexerError
    } else if two {
        &&& r matches Some(n) && n.spec_state() == LexState::Start
        &&& b.spec_pos() == a.spec_pos() + 2
        &&& b.spec_tokens().len() == a.spec_tokens().len() + 1
        &&& b.spec_tokens().last().typ == Type::Equal
        &&& b.spec_tokens().last().val@ == seq!['=', '=']
    } else {
        &&& r matches Some(n) && n.spec_state() == LexState::Start
        &&& b.spec_pos() == a.spec_pos() + 1
        &&& b.spec_tokens().len() == a.spec_tokens().len() + 1
        &&& b.spec_tokens().last().typ == Type::Assign
        &&& b.spec_tokens().last().val@ == seq!['=']
    }
}

/// What the word state does: scan the maximal run of letters and
/// digits and emit it, categorized by the keyword table.
pub open spec fn lex_alpha_step(a: Lexer, b: Lexer, r: Option<StateFn>) -> bool {
    &&& r matches Some(n) && n.spec_state() == LexState::Start
    &&& a.spec_pos() < b.spec_pos() <= a.spec_input().len()
    &&& forall|i: int|
        a.spec_pos() <= i < b.spec_pos() ==> (spec_is_alpha(#[trigger] a.spec_input()[i])
            || spec_is_digit(a.spec_input()[i]))
    &&& (b.spec_pos() < a.spec_input().len() ==> !(spec_is_alpha(a.spec_input()[b.spec_pos()])
        || spec_is_digit(a.spec_input()[b.spec_pos()])))
    &&& b.spec_tokens().len() == a.spec_tokens().len() + 1
    &&& b.spec_tokens().last().val@ == a.spec_input().subrange(a.spec_start(), b.spec_pos())
    &&& b.spec_tokens().last().typ == word_type_of(
        a.spec_input().subrange(a.spec_start(), b.spec_pos()),
    )
}

/// What the string-literal state does: scan to the closing quote over
/// allowed characters and emit the literal, quotes included; reject a
/// disallowed character or an unterminated literal.
pub open spec fn lex_string_step(a: Lexer, b: Lexer, r: Option<StateFn>) -> bool {
    if r is Some {
        &&& (r->0).spec_state() == LexState::Start
        &&& a.spec_pos() + 2 <= b.spec_pos() <= a.spec_input().len()
        &&& a.spec_input()[b.spec_pos() - 1] == '"'
        &&& forall|i: int|
            a.spec_pos() < i < b.spec_pos() - 1 ==> (spec_is_string_char(
                #[trigger] a.spec_input()[i],
            ) && a.spec_input()[i] != '"')
        &&& b.spec_tokens().len() == a.spec_tokens().len() + 1
        &&& b.spec_tokens().last().typ == Type::StringLiteral
        &&& b.spec_tokens().last().val@ == a.spec_input().subrange(a.spec_start(), b.spec_pos())
    } else {
        &&& b.spec_tokens().len() == a.spec_tokens().len() + 1
        &&& b.spec_tokens().last().typ == Type::LexerError
    }
}

/// The step relation of whichever state is scanning.
pub open spec fn scan_step(st: LexState, a: Lexer, b: Lexer, r: Option<StateFn>) -> bool {
    match st {
        LexState::Start => lex_start_step(a, b, r),
        LexState::EqOp => lex_eq_op_step(a, b, r),
        LexState::Minus => lex_minus_step(a, b, r),
        LexState::Number => lex_number_step(a, b, r),
        LexState::StringLit => lex_string_step(a, b, r),
        LexState::Alpha => lex_alpha_step(a, b, r),
    }
}

/// `k` chained scanning steps from state `st` over `a`, ending with a
/// stopping step that leaves `b`.
pub open spec fn scan_to_end(a: Lexer, st: LexState, k: nat, b: Lexer) -> bool
    decreases k,
{
    if k == 0 {
        scan_step(st, a, b, Option::<StateFn>::None)
    } else {
        exists|m: Lexer, n: StateFn|
            #![auto]
            scan_step(st, a, m, Some(n)) && scan_to_end(m, n.spec_state(), (k - 1) as nat, b)
    }
}

/// `k` chained scanning steps from state `st` over `a`, still going in
/// state `st2` over `b`.
pub open spec fn scan_reaches(a: Lexer, st: LexState, k: nat, b: Lexer, st2: LexState) -> bool
    decreases k,
{
    if k == 0 {
        b == a && st2 == st
    } else {
        exists|m: Lexer, n: StateFn|
            #![auto]
            scan_step(st, a, m, Some(n)) && scan_reaches(m, n.spec_state(), (k - 1) as nat, b, st2)
    }
}

/// The whole scan: some number of chained steps from the start state
/// turns `a` into `b`.
pub open spec fn scanned(a: Lexer, b: Lexer) -> bool {
    exists|k: nat| scan_to_end(a, LexState::Start, k, b)
}

/// A partial scan extends by one continuing step.
proof fn lemma_scan_snoc(a: Lexer, st: LexState, k: nat, b: Lexer, st2: LexState, c: Lexer, n: StateFn)
    requires
        scan_reaches(a, st, k, b, st2),
        scan_step(st2, b, c, Some(n)),
    ensures
        scan_reaches(a, st, (k + 1) as nat, c, n.spec_state()),
    decreases k,
{
    if k == 0 {
        assert(scan_step(st, a, c, Some(n)) && scan_reaches(
            c,
            n.spec_state(),
            0,
            c,
            n.spec_state(),
        ));
    } else {
        let (m, n0) = choose|m: Lexer, n0: StateFn|
            #![auto]
            scan_step(st, a, m, Some(n0)) && scan_reaches(
                m,
                n0.spec_state(),
                (k - 1) as nat,
                b,
                st2,
            );
        lemma_scan_snoc(m, n0.spec_state(), (k - 1) as nat, b, st2, c, n);
        assert(scan_step(st, a, m, Some(n0)) && scan_reaches(
            m,
            n0.spec_state(),
            k,
            c,
            n.spec_state(),
        ));
    }
}

/// A partial scan followed by a stopping step is a whole scan.
proof fn lemma_scan_close(a: Lexer, st: LexState, k: nat, b: Lexer, st2: LexState, c: Lexer)
    requires
        scan_reaches(a, st, k, b, st2),
        scan_step(st2, b, c, Option::<StateFn>::None),
    ensures
        scan_to_end(a, st, k, c),
    decreases k,
{
    if k == 0 {
    } else {
        let (m, n0) = choose|m: Lexer, n0: StateFn|
            #![auto]
            scan_step(st, a, m, Some(n0)) && scan_reaches(
                m,
                n0.spec_state(),
                (k - 1) as nat,
                b,
                st2,
            );
        lemma_scan_close(m, n0.spec_state(), (k - 1) as nat, b, st2, c);
        assert(scan_step(st, a, m, Some(n0)) && scan_to_end(m, n0.spec_state(), (k - 1) as nat, c));
    }
}

/// The lexer: input characters, the span of the token being scanned
/// (`start..pos`), the state to begin in, and the tokens emitted so
/// far.
#[derive(Debug)]
pub struct Lexer {
    input: Vec<char>,
    start: usize,
    pos: usize,
    initial_state: StateFn,
    tokens: Vec<Token>,
}

/// The token list only ever grows at the end.
pub open spec fn tokens_extended(a: Lexer, b: Lexer) -> bool {
    &&& a.spec_tokens().len() <= b.spec_tokens().len()
    &&& forall|i: int|
        0 <= i < a.spec_tokens().len() ==> b.spec_tokens()[i] == a.spec_tokens()[i]
}

/// Guard each scanning state relies on when it takes over.
pub open spec fn state_ok(st: LexState, l: Lexer) -> bool {
    match st {
        LexState::Start => l.spec_start() == l.spec_pos(),
        LexState::EqOp => l.spec_start() == l.spec_pos() && l.spec_pos() < l.spec_input().len()
            && l.spec_input()[l.spec_pos()] == '=',
        LexState::Minus => l.spec_start() == l.spec_pos() && l.spec_pos() < l.spec_input().len()
            && l.spec_input()[l.spec_pos()] == '-',
        LexState::Number => true,
        LexState::StringLit => l.spec_start() == l.spec_pos() && l.spec_pos()
            < l.spec_input().len() && l.spec_input()[l.spec_pos()] == '"',
        LexState::Alpha => l.spec_start() == l.spec_pos() && l.spec_pos() < l.spec_input().len()
            && spec_is_alpha(l.spec_input()[l.spec_pos()]),
    }
}

/// The termination measure of the scanning loop: remaining input,
/// weighted so that every state transition strictly shrinks it.
pub open spec fn lex_measure(l: Lexer, st: LexState) -> int {
    3 * (l.spec_input().len() - l.spec_pos()) + match st {
        LexState::Start => 2,
        LexState::Number => if l.spec_pos() < l.spec_input().len() && spec_is_digit(
            l.spec_input()[l.spec_pos()],
        ) {
            1int
        } else {
            3int
        },
        _ => 1,
    }
}

impl Lexer {
    /// Fields are consistent: the scanned span lies within the input,
    /// and the configured initial state is the start state.
    pub open spec fn wf(self) -> bool {
        &&& 0 <= self.spec_start() <= self.spec_pos() <= self.spec_input().len()
        &&& self.spec_init_state() == LexState::Start
    }

    /// The state scanning is configured to begin in.
    pub closed spec fn spec_init_state(self) -> LexState {
        self.initial_state.spec_state()
    }

    /// The input characters.
    pub closed spec fn spec_input(self) -> Seq<char> {
        self.input@
    }

    /// The start of the span being scanned.
    pub closed spec fn spec_start(self) -> int {
        self.start as int
    }

    /// The cursor.
    pub closed spec fn spec_pos(self) -> int {
        self.pos as int
    }

    /// The tokens emitted so far.
    pub closed spec fn spec_tokens(self) -> Seq<Token> {
        self.tokens@
    }

    /// A fresh lexer over `input`, beginning in the start state.
    pub fn new(input: Vec<char>) -> (l: Lexer)
        ensures
            l.wf(),
            l.spec_input() == input@,
            l.spec_start() == 0,
            l.spec_pos() == 0,
            l.spec_tokens().len() == 0,
    {
        Lexer {
            input,
            start: 0,
            pos: 0,
            initial_state: StateFn::default(),
            tokens: Vec::new(),
        }
    }

    /// Drive the state functions until one of them stops; the final
    /// token is then the end-of-input marker or a scan failure.
    pub fn run(&mut self)
        requires
            old(self).wf(),
            old(self).spec_start() == old(self).spec_pos(),
        ensures
            final(self).wf(),
            final(self).spec_input() == old(self).spec_input(),
            tokens_extended(*old(self), *final(self)),
            final(self).spec_tokens().len() > 0,
            final(self).spec_tokens().last().typ == Type::EOF || final(self).spec_tokens().last().typ == Type::LexerError,
            final(self).spec_tokens().last().typ == Type::EOF ==> (final(self).spec_pos() == final(self).spec_input().len() && final(self).spec_tokens().last().val@ == Seq::<char>::empty()),
            scanned(*old(self), *final(self)),
    {
        let mut f = self.initial_state;
        let ghost mut steps: nat = 0nat;
        proof {
            assert(state_ok(f.spec_state(), *self));
            assert(scan_reaches(*old(self), LexState::Start, 0, *self, f.spec_state()));
        }
        loop
            invariant_except_break
                state_ok(f.spec_state(), *self),
                scan_reaches(*old(self), LexState::Start, steps, *self, f.spec_state()),
            invariant
                self.wf(),
                self.spec_input() == old(self).spec_input(),
                tokens_extended(*old(self), *self),
            ensures
                self.wf(),
                self.spec_input() == old(self).spec_input(),
                tokens_extended(*old(self), *self),
                self.spec_tokens().len() > 0,
                self.spec_tokens().last().typ == Type::EOF || self.spec_tokens().last().typ
                    == Type::LexerError,
                self.spec_tokens().last().typ == Type::EOF ==> (self.spec_pos()
                    == self.spec_input().len() && self.spec_tokens().last().val@
                    == Seq::<char>::empty()),
                scanned(*old(self), *self),
            decreases lex_measure(*self, f.spec_state()),
        {
            let ghost pre = *self;
            let ghost pre_state = f.spec_state();
            match f.call(self) {
                Option::Some(next_f) => {
                    proof {
                        lemma_scan_snoc(
                            *old(self),
                            LexState::Start,
                            steps,
                            pre,
                            pre_state,
                            *self,
                            next_f,
                        );
                        steps = steps + 1;
                    }
                    f = next_f;
                },
                Option::None => {
                    proof {
                        lemma_scan_close(
                            *old(self),
                            LexState::Start,
                            steps,
                            pre,
                            pre_state,
                            *self,
                        );
                        assert(scan_to_end(*old(self), LexState::Start, steps, *self));
                        assert(scanned(*old(self), *self));
                    }
                    break ;
                },
            }
        }
    }

    /// The text of the span being scanned.
    pub fn current(&self) -> (r: String)
        requires
            self.wf(),
        ensures
            r@ == self.spec_input().subrange(self.spec_start(), self.spec_pos()),
    {
        let mut s = String::new();
        let mut i: usize = self.start;
        while i < self.pos
            invariant
                self.wf(),
                self.start <= i <= self.pos,
                s@ == self.spec_input().subrange(self.spec_start(), i as int),
            decreases self.pos - i,
        {
            push_char(&mut s, self.input[i]);
            proof {
                assert(self.spec_input().subrange(self.spec_start(), i + 1 as int)
                    =~= self.spec_input().subrange(self.spec_start(), i as int).push(
                    self.spec_input()[i as int],
                ));
            }
            i = i + 1;
        }
        s
    }

    /// Emit a token of category `typ` covering the current span, and
    /// begin a new span.
    pub fn emit(&mut self, typ: Type)
        requires
            old(self).wf(),
        ensures
            final(self).wf(),
            final(self).spec_input() == old(self).spec_input(),
            final(self).spec_pos() == old(self).spec_pos(),
            final(self).spec_start() == old(self).spec_pos(),
            final(self).spec_tokens().len() == old(self).spec_tokens().len() + 1,
            final(self).spec_tokens().last().typ == typ,
            final(self).spec_tokens().last().val@ == old(self).spec_input().subrange(
                old(self).spec_start(),
                old(self).spec_pos(),
            ),
            tokens_extended(*old(self), *final(self)),
    {
        let val = self.current();
        self.send(typ, val);
        self.start = self.pos;
    }

    /// Record a token without touching the span.
    pub fn send(&mut self, typ: Type, val: String)
        ensures
            final(self).wf() == old(self).wf(),
            final(self).spec_input() == old(self).spec_input(),
            final(self).spec_pos() == old(self).spec_pos(),
            final(self).spec_start() == old(self).spec_start(),
            final(self).spec_tokens() == old(self).spec_tokens().push(Token { typ, val }),
            tokens_extended(*old(self), *final(self)),
    {
        self.tokens.push(Token { typ, val });
    }

    /// Drop the current span without emitting.
    pub fn ignore(&mut self)
        requires
            old(self).wf(),
        ensures
            final(self).wf(),
            final(self).spec_input() == old(self).spec_input(),
            final(self).spec_pos() == old(self).spec_pos(),
            final(self).spec_start() == old(self).spec_pos(),
            final(self).spec_tokens() == old(self).spec_tokens(),
    {
        self.start = self.pos;
    }

    /// The character under the cursor, if any.
    pub fn peek(&self) -> (r: Option<char>)
        ensures
            self.spec_pos() < self.spec_input().len() ==> r == Some(
                self.spec_input()[self.spec_pos()],
            ),
            self.spec_pos() >= self.spec_input().len() ==> r is None,
    {
        if self.pos < self.input.len() {
            Some(self.input[self.pos])
        } else {
            None
        }
    }

    /// Advance the cursor one character; hand back the character now
    /// under it.
    pub fn step(&mut self) -> (r: Option<char>)
        requires
            old(self).wf(),
        ensures
            final(self).wf(),
            final(self).spec_input() == old(self).spec_input(),
            final(self).spec_start() == old(self).spec_start(),
            final(self).spec_tokens() == old(self).spec_tokens(),
            old(self).spec_pos() < old(self).spec_input().len() ==> final(self).spec_pos() == old(self).spec_pos() + 1,
            old(self).spec_pos() >= old(self).spec_input().len() ==> final(self).spec_pos() == old(self).spec_pos(),
            final(self).spec_pos() < final(self).spec_input().len() ==> r == Some(
                final(self).spec_input()[final(self).spec_pos()],
            ),
            final(self).spec_pos() >= final(self).spec_input().len() ==> r is None,
    {
        if self.pos < self.input.len() {
            self.pos = self.pos + 1;
        } else {
            return None;
        }
        self.peek()
    }

    /// If the character under the cursor occurs in `valid`, consume it.
    pub fn accept(&mut self, valid: &str) -> (r: bool)
        requires
            old(self).wf(),
        ensures
            final(self).wf(),
            final(self).spec_input() == old(self).spec_input(),
            final(self).spec_start() == old(self).spec_start(),
            final(self).spec_tokens() == old(self).spec_tokens(),
            r == (old(self).spec_pos() < old(self).spec_input().len() && valid@.contains(
                old(self).spec_input()[old(self).spec_pos()],
            )),
            r ==> final(self).spec_pos() == old(self).spec_pos() + 1,
            !r ==> final(self).spec_pos() == old(self).spec_pos(),
    {
        let c = match self.peek() {
            Option::Some(c) => c,
            Option::None => {
                return false;
            },
        };
        let n = valid.unicode_len();
        let mut i: usize = 0;
        while i < n
            invariant
                self.wf(),
                *self == *old(self),
                n == valid@.len(),
                0 <= i <= n,
                self.spec_pos() < self.spec_input().len(),
                c == self.spec_input()[self.spec_pos()],
                forall|j: int| 0 <= j < i ==> valid@[j] != c,
            decreases n - i,
        {
            if valid.get_char(i) == c {
                let n2 = self.input.len();
                proof {
                    assert(self.pos < n2);
                }
                self.pos = self.pos + 1;
                return true;
            }
            i = i + 1;
        }
        proof {
            if valid@.contains(c) {
                let j = choose|j: int| 0 <= j < valid@.len() && valid@[j] == c;
            }
        }
        false
    }

    /// Consume a maximal run of characters from `valid`; report
    /// whether anything was consumed.
    pub fn accept_run(&mut self, valid: &str) -> (r: bool)
        requires
            old(self).wf(),
        ensures
            final(self).wf(),
            final(self).spec_input() == old(self).spec_input(),
            final(self).spec_start() == old(self).spec_start(),
            final(self).spec_tokens() == old(self).spec_tokens(),
            final(self).spec_pos() >= old(self).spec_pos(),
            r == (final(self).spec_pos() > old(self).spec_pos()),
            forall|i: int|
                old(self).spec_pos() <= i < final(self).spec_pos() ==> valid@.contains(
                    final(self).spec_input()[i],
                ),
            !(final(self).spec_pos() < final(self).spec_input().len() && valid@.contains(
                final(self).spec_input()[final(self).spec_pos()],
            )),
    {
        let mut accepted = false;
        while self.accept(valid)
            invariant
                self.wf(),
                self.spec_input() == old(self).spec_input(),
                self.spec_start() == old(self).spec_start(),
                self.spec_tokens() == old(self).spec_tokens(),
                self.spec_pos() >= old(self).spec_pos(),
                accepted == (self.spec_pos() > old(self).spec_pos()),
                forall|i: int|
                    old(self).spec_pos() <= i < self.spec_pos() ==> valid@.contains(
                        self.spec_input()[i],
                    ),
            decreases self.spec_input().len() - self.spec_pos(),
        {
            accepted = true;
        }
        accepted
    }

    /// Whether the cursor has passed the last character.
    pub fn eof(&self) -> (r: bool)
        ensures
            r == (self.spec_pos() >= self.spec_input().len()),
    {
        self.pos >= self.input.len()
    }

    /// The tokens produced so far, oldest first.
    pub fn tokens(&self) -> (r: &Vec<Token>)
        ensures
            r@ == self.spec_tokens(),
    {
        &self.tokens
    }

    /// Consume the lexer, handing its token list out.
    pub fn into_tokens(self) -> (r: Vec<Token>)
        ensures
            r@ == self.spec_tokens(),
    {
        self.tokens
    }
}

} // verus!
