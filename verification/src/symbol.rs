//! Grammar symbols: the atoms that productions, items and tables are
//! built from.

use vstd::prelude::*;

verus! {

/// A grammar symbol.
///
/// `Terminal` matches an input token whose category equals its name;
/// `NonTerminal` is a rule head or reference; `Epsilon` stands for the
/// empty string and may appear only inside FIRST sets; `EndMarker` is
/// the synthetic input terminator `#`, used as a lookahead and as an
/// ACTION key, never inside a user grammar.
#[derive(Debug)]
pub enum Symbol {
    Terminal(String),
    NonTerminal(String),
    Epsilon,
    EndMarker,
}

/// The mathematical value of a [`Symbol`]: the same four cases, with
/// names as character sequences.
pub enum SpecSymbol {
    Terminal(Seq<char>),
    NonTerminal(Seq<char>),
    Epsilon,
    EndMarker,
}

impl SpecSymbol {
    /// The name carried by a terminal or non-terminal; the empty
    /// sequence for the two name-less cases.
    pub open spec fn name(self) -> Seq<char> {
        match self {
            SpecSymbol::Terminal(n) => n,
            SpecSymbol::NonTerminal(n) => n,
            SpecSymbol::Epsilon => Seq::empty(),
            SpecSymbol::EndMarker => Seq::empty(),
        }
    }
}

impl View for Symbol {
    type V = SpecSymbol;

    open spec fn view(&self) -> SpecSymbol {
        match self {
            Symbol::Terminal(n) => SpecSymbol::Terminal(n@),
            Symbol::NonTerminal(n) => SpecSymbol::NonTerminal(n@),
            Symbol::Epsilon => SpecSymbol::Epsilon,
            Symbol::EndMarker => SpecSymbol::EndMarker,
        }
    }
}

impl Clone for Symbol {
    fn clone(&self) -> (r: Symbol)
        ensures
            r@ == self@,
    {
        match self {
            Symbol::Terminal(n) => Symbol::Terminal(n.clone()),
            Symbol::NonTerminal(n) => Symbol::NonTerminal(n.clone()),
            Symbol::Epsilon => Symbol::Epsilon,
            Symbol::EndMarker => Symbol::EndMarker,
        }
    }
}

impl PartialEq for Symbol {
    fn eq(&self, other: &Symbol) -> (r: bool) {
        match (self, other) {
            (Symbol::Terminal(a), Symbol::Terminal(b)) => *a == *b,
            (Symbol::NonTerminal(a), Symbol::NonTerminal(b)) => *a == *b,
            (Symbol::Epsilon, Symbol::Epsilon) => true,
            (Symbol::EndMarker, Symbol::EndMarker) => true,
            _ => false,
        }
    }
}

impl vstd::std_specs::cmp::PartialEqSpecImpl for Symbol {
    open spec fn obeys_eq_spec() -> bool {
        true
    }

    open spec fn eq_spec(&self, other: &Symbol) -> bool {
        self@ == other@
    }
}

impl Eq for Symbol {}

/// The views of a sequence of symbols.
pub open spec fn views_of(s: Seq<Symbol>) -> Seq<SpecSymbol> {
    s.map_values(|x: Symbol| x@)
}

/// Whether some symbol of `v` has the view `s`.
pub open spec fn seq_has_sym(v: Seq<Symbol>, s: SpecSymbol) -> bool {
    exists|i: int| 0 <= i < v.len() && v[i]@ == s
}

/// Linear membership test against the views of `v`.
pub fn contains_sym(v: &Vec<Symbol>, s: &Symbol) -> (r: bool)
    ensures
        r == seq_has_sym(v@, s@),
{
    let mut i: usize = 0;
    while i < v.len()
        invariant
            0 <= i <= v@.len(),
            forall|j: int| 0 <= j < i ==> v@[j]@ != s@,
        decreases v@.len() - i,
    {
        if &v[i] == s {
            return true;
        }
        i = i + 1;
    }
    false
}

/// Element-wise comparison of two symbol vectors, by view.
pub fn syms_eq(a: &Vec<Symbol>, b: &Vec<Symbol>) -> (r: bool)
    ensures
        r == (views_of(a@) == views_of(b@)),
{
    if a.len() != b.len() {
        assert(views_of(a@).len() != views_of(b@).len());
        return false;
    }
    let mut i: usize = 0;
    while i < a.len()
        invariant
            0 <= i <= a@.len(),
            a@.len() == b@.len(),
            forall|j: int| 0 <= j < i ==> a@[j]@ == b@[j]@,
        decreases a@.len() - i,
    {
        if !(&a[i] == &b[i]) {
            assert(views_of(a@)[i as int] != views_of(b@)[i as int]);
            return false;
        }
        i = i + 1;
    }
    proof {
        assert(views_of(a@) =~= views_of(b@));
    }
    true
}

} // verus!
