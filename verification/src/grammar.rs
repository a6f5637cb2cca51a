//! Grammars: an ordered list of productions together with the derived
//! classification of every symbol as terminal or non-terminal.

use vstd::prelude::*;

use crate::prod::prods_of;
use crate::prod::Production;
use crate::symbol::contains_sym;
use crate::symbol::seq_has_sym;
use crate::symbol::views_of;
use crate::symbol::SpecSymbol;
use crate::symbol::Symbol;

verus! {

/// A context-free grammar: productions in insertion order, the sets of
/// terminals and non-terminals seen so far, and the start symbol.
///
/// The two symbol sets are kept as vectors without duplicate views.
#[derive(Debug)]
pub struct Grammar {
    pub productions: Vec<Production>,
    pub terminals: Vec<Symbol>,
    pub non_terminals: Vec<Symbol>,
    pub start_symbol: Symbol,
}

/// No two symbols of `v` share a view.
pub open spec fn no_dup_syms(v: Seq<Symbol>) -> bool {
    forall|i: int, j: int| 0 <= i < j < v.len() ==> v[i]@ != v[j]@
}

impl Grammar {
    /// Structural invariant: the symbol sets are duplicate-free and of
    /// the right variants, every production head is a registered
    /// non-terminal, and every right-hand-side symbol is a registered
    /// terminal or non-terminal.
    pub open spec fn wf(self) -> bool {
        &&& no_dup_syms(self.terminals@)
        &&& no_dup_syms(self.non_terminals@)
        &&& forall|i: int|
            0 <= i < self.terminals@.len() ==> (#[trigger] self.terminals@[i]@) is Terminal
        &&& forall|i: int|
            0 <= i < self.non_terminals@.len() ==> (#[trigger] self.non_terminals@[i]@)
                is NonTerminal
        &&& forall|i: int|
            0 <= i < self.productions@.len() ==> self.prod_wf(#[trigger] self.productions@[i]@)
    }

    /// A production fits this grammar: non-terminal head registered in
    /// `non_terminals`, every right-hand-side symbol registered in the
    /// set matching its variant.
    pub open spec fn prod_wf(self, p: crate::prod::SpecProd) -> bool {
        &&& p.lhs is NonTerminal
        &&& seq_has_sym(self.non_terminals@, p.lhs)
        &&& forall|j: int|
            0 <= j < p.rhs.len() ==> {
                let s = #[trigger] p.rhs[j];
                (s is Terminal && seq_has_sym(self.terminals@, s)) || (s is NonTerminal
                    && seq_has_sym(self.non_terminals@, s))
            }
    }

    /// An empty grammar with the given start symbol.
    pub fn new(start_symbol: Symbol) -> (g: Grammar)
        ensures
            g.wf(),
            g.productions@.len() == 0,
            g.terminals@.len() == 0,
            g.non_terminals@.len() == 0,
            g.start_symbol@ == start_symbol@,
    {
        Grammar {
            productions: Vec::new(),
            terminals: Vec::new(),
            non_terminals: Vec::new(),
            start_symbol,
        }
    }

    /// Append a production, registering its head as a non-terminal and
    /// every right-hand-side symbol in the set matching its variant.
    pub fn add_production(&mut self, lhs: Symbol, rhs: Vec<Symbol>)
        requires
            old(self).wf(),
            lhs@ is NonTerminal,
            forall|j: int|
                0 <= j < rhs@.len() ==> ((#[trigger] rhs@[j]@) is Terminal || rhs@[j]@
                    is NonTerminal),
        ensures
            final(self).wf(),
            prods_of(final(self).productions@) =~= prods_of(old(self).productions@).push(
                crate::prod::SpecProd { lhs: lhs@, rhs: views_of(rhs@) },
            ),
            final(self).start_symbol@ == old(self).start_symbol@,
            forall|s: SpecSymbol|
                #![trigger seq_has_sym(final(self).terminals@, s)]
                #![trigger seq_has_sym(old(self).terminals@, s)]
                seq_has_sym(final(self).terminals@, s) <==> (seq_has_sym(old(self).terminals@, s)
                    || (s is Terminal && seq_has_sym(rhs@, s))),
            forall|s: SpecSymbol|
                #![trigger seq_has_sym(final(self).non_terminals@, s)]
                #![trigger seq_has_sym(old(self).non_terminals@, s)]
                seq_has_sym(final(self).non_terminals@, s) <==> (seq_has_sym(
                    old(self).non_terminals@,
                    s,
                ) || s == lhs@ || (s is NonTerminal && seq_has_sym(rhs@, s))),
    {
        insert_sym(&mut self.non_terminals, &lhs);
        let mut j: usize = 0;
        while j < rhs.len()
            invariant
                0 <= j <= rhs@.len(),
                no_dup_syms(self.terminals@),
                no_dup_syms(self.non_terminals@),
                forall|i: int|
                    0 <= i < self.terminals@.len() ==> (#[trigger] self.terminals@[i]@)
                        is Terminal,
                forall|i: int|
                    0 <= i < self.non_terminals@.len() ==> (#[trigger] self.non_terminals@[i]@)
                        is NonTerminal,
                forall|i: int|
                    0 <= i < rhs@.len() ==> ((#[trigger] rhs@[i]@) is Terminal || rhs@[i]@
                        is NonTerminal),
                forall|s: SpecSymbol|
                    seq_has_sym(self.terminals@, s) <==> (seq_has_sym(old(self).terminals@, s) || (
                    s is Terminal && exists|i: int| 0 <= i < j && rhs@[i]@ == s)),
                forall|s: SpecSymbol|
                    seq_has_sym(self.non_terminals@, s) <==> (seq_has_sym(
                        old(self).non_terminals@,
                        s,
                    ) || s == lhs@ || (s is NonTerminal && exists|i: int|
                        0 <= i < j && rhs@[i]@ == s)),
                self.productions@ == old(self).productions@,
                self.start_symbol@ == old(self).start_symbol@,
            decreases rhs@.len() - j,
        {
            match &rhs[j] {
                Symbol::Terminal(_) => insert_sym(&mut self.terminals, &rhs[j]),
                Symbol::NonTerminal(_) => insert_sym(&mut self.non_terminals, &rhs[j]),
                Symbol::Epsilon => (),
                Symbol::EndMarker => (),
            }
            j = j + 1;
        }
        let p = Production { lhs, rhs };
        proof {
            assert forall|i: int| 0 <= i < old(self).productions@.len() implies self.prod_wf(
                #[trigger] self.productions@[i]@,
            ) by {
                assert(old(self).prod_wf(old(self).productions@[i]@));
            }
            assert(self.prod_wf(p@));
        }
        self.productions.push(p);
        proof {
            assert(prods_of(self.productions@) =~= prods_of(old(self).productions@).push(
                crate::prod::SpecProd {
                    lhs: self.productions@.last().lhs@,
                    rhs: views_of(self.productions@.last().rhs@),
                },
            ));
        }
    }
}

/// A production given by names alone, before symbols are classified.
#[derive(Debug)]
pub struct ProdShortCut {
    pub lhs: String,
    pub rhs: Vec<String>,
}

/// Whether `n` appears as the head name of some production.
pub open spec fn is_lhs_name(prods: Seq<ProdShortCut>, n: Seq<char>) -> bool {
    exists|i: int| 0 <= i < prods.len() && prods[i].lhs@ == n
}

/// The symbol a name denotes: a non-terminal when the name heads some
/// production, a terminal otherwise.
pub open spec fn classify(prods: Seq<ProdShortCut>, n: Seq<char>) -> SpecSymbol {
    if is_lhs_name(prods, n) {
        SpecSymbol::NonTerminal(n)
    } else {
        SpecSymbol::Terminal(n)
    }
}

/// Whether `sy` is a terminal mentioned by the first `n` productions:
/// a right-hand-side name that heads no production.
pub open spec fn grammar_terminal_upto(prods: Seq<ProdShortCut>, sy: SpecSymbol, n: int) -> bool {
    exists|i: int, j: int|
        0 <= i < n && 0 <= j < prods[i].rhs@.len() && sy == classify(
            prods,
            #[trigger] prods[i].rhs@[j]@,
        ) && sy is Terminal
}

/// Whether `sy` is one of the terminals the productions mention.
pub open spec fn grammar_terminal(prods: Seq<ProdShortCut>, sy: SpecSymbol) -> bool {
    grammar_terminal_upto(prods, sy, prods.len() as int)
}

/// Whether `sy` is a non-terminal mentioned by the first `n`
/// productions: a head name, or a right-hand-side name that heads some
/// production.
pub open spec fn grammar_non_terminal_upto(
    prods: Seq<ProdShortCut>,
    sy: SpecSymbol,
    n: int,
) -> bool {
    ||| exists|i: int| 0 <= i < n && sy == SpecSymbol::NonTerminal((#[trigger] prods[i]).lhs@)
    ||| exists|i: int, j: int|
        0 <= i < n && 0 <= j < prods[i].rhs@.len() && sy == classify(
            prods,
            #[trigger] prods[i].rhs@[j]@,
        ) && sy is NonTerminal
}

/// Whether `sy` is one of the non-terminals the productions mention.
pub open spec fn grammar_non_terminal(prods: Seq<ProdShortCut>, sy: SpecSymbol) -> bool {
    grammar_non_terminal_upto(prods, sy, prods.len() as int)
}

/// Linear scan for `n` among the production head names.
fn name_is_lhs(prods: &Vec<ProdShortCut>, n: &String) -> (r: bool)
    ensures
        r == is_lhs_name(prods@, n@),
{
    let mut i: usize = 0;
    while i < prods.len()
        invariant
            0 <= i <= prods@.len(),
            forall|j: int| 0 <= j < i ==> prods@[j].lhs@ != n@,
        decreases prods@.len() - i,
    {
        if prods[i].lhs == *n {
            return true;
        }
        i = i + 1;
    }
    false
}

/// Build a grammar from a start name and an ordered list of named
/// productions.
///
/// Every name is classified in two passes: a name that appears as some
/// production head becomes a non-terminal, any other name becomes a
/// terminal. The start name always becomes a non-terminal.
pub fn build_grammar(start: String, prods: Vec<ProdShortCut>) -> (g: Grammar)
    ensures
        g.wf(),
        g.start_symbol@ == SpecSymbol::NonTerminal(start@),
        g.productions@.len() == prods@.len(),
        forall|i: int|
            0 <= i < prods@.len() ==> {
                let p = (#[trigger] g.productions@[i])@;
                &&& p.lhs == SpecSymbol::NonTerminal(prods@[i].lhs@)
                &&& p.rhs.len() == prods@[i].rhs@.len()
                &&& forall|j: int|
                    0 <= j < p.rhs.len() ==> p.rhs[j] == classify(prods@, prods@[i].rhs@[j]@)
            },
        forall|sy: SpecSymbol|
            #[trigger] seq_has_sym(g.terminals@, sy) <==> grammar_terminal(prods@, sy),
        forall|sy: SpecSymbol|
            #[trigger] seq_has_sym(g.non_terminals@, sy) <==> grammar_non_terminal(prods@, sy),
{
    let mut g = Grammar::new(Symbol::NonTerminal(start));
    let mut i: usize = 0;
    while i < prods.len()
        invariant
            0 <= i <= prods@.len(),
            g.wf(),
            g.start_symbol@ == SpecSymbol::NonTerminal(start@),
            g.productions@.len() == i,
            forall|k: int|
                0 <= k < i ==> {
                    let p = (#[trigger] g.productions@[k])@;
                    &&& p.lhs == SpecSymbol::NonTerminal(prods@[k].lhs@)
                    &&& p.rhs.len() == prods@[k].rhs@.len()
                    &&& forall|j: int|
                        0 <= j < p.rhs.len() ==> p.rhs[j] == classify(prods@, prods@[k].rhs@[j]@)
                },
            forall|sy: SpecSymbol|
                #[trigger] seq_has_sym(g.terminals@, sy) <==> grammar_terminal_upto(
                    prods@,
                    sy,
                    i as int,
                ),
            forall|sy: SpecSymbol|
                #[trigger] seq_has_sym(g.non_terminals@, sy) <==> grammar_non_terminal_upto(
                    prods@,
                    sy,
                    i as int,
                ),
        decreases prods@.len() - i,
    {
        let lhs = Symbol::NonTerminal(prods[i].lhs.clone());
        let mut rhs: Vec<Symbol> = Vec::new();
        let mut j: usize = 0;
        while j < prods[i].rhs.len()
            invariant
                0 <= i < prods@.len(),
                0 <= j <= prods@[i as int].rhs@.len(),
                rhs@.len() == j,
                forall|k: int|
                    0 <= k < j ==> (#[trigger] rhs@[k])@ == classify(
                        prods@,
                        prods@[i as int].rhs@[k]@,
                    ),
            decreases prods@[i as int].rhs@.len() - j,
        {
            let name = prods[i].rhs[j].clone();
            if name_is_lhs(&prods, &name) {
                rhs.push(Symbol::NonTerminal(name));
            } else {
                rhs.push(Symbol::Terminal(name));
            }
            j = j + 1;
        }
        let ghost g0 = g;
        let ghost lv = lhs@;
        let ghost rv = views_of(rhs@);
        let ghost rhsg = rhs@;
        proof {
            assert(rhsg.len() == prods@[i as int].rhs@.len());
            assert(forall|k: int|
                0 <= k < rhsg.len() ==> (#[trigger] rhsg[k])@ == classify(
                    prods@,
                    prods@[i as int].rhs@[k]@,
                ));
        }
        g.add_production(lhs, rhs);
        proof {
            assert forall|sy: SpecSymbol| #[trigger]
                seq_has_sym(g.terminals@, sy) <==> grammar_terminal_upto(
                prods@,
                sy,
                i + 1,
            ) by {
                if seq_has_sym(g.terminals@, sy) {
                    if seq_has_sym(g0.terminals@, sy) {
                        let (i2, j2) = choose|i2: int, j2: int|
                            0 <= i2 < i && 0 <= j2 < prods@[i2].rhs@.len() && sy == classify(
                                prods@,
                                #[trigger] prods@[i2].rhs@[j2]@,
                            ) && sy is Terminal;
                        assert(0 <= i2 < i + 1 && 0 <= j2 < prods@[i2].rhs@.len() && sy
                            == classify(prods@, prods@[i2].rhs@[j2]@) && sy is Terminal);
                        assert(grammar_terminal_upto(prods@, sy, i + 1));
                    } else {
                        assert(sy is Terminal && seq_has_sym(rhsg, sy));
                        let j2 = choose|j2: int| 0 <= j2 < rhsg.len() && rhsg[j2]@ == sy;
                        assert(rhsg[j2]@ == classify(prods@, prods@[i as int].rhs@[j2]@));
                        assert(0 <= (i as int) < i + 1 && 0 <= j2 < prods@[i as int].rhs@.len()
                            && sy == classify(prods@, prods@[i as int].rhs@[j2]@) && sy
                            is Terminal);
                        assert(grammar_terminal_upto(prods@, sy, i + 1));
                    }
                }
                if grammar_terminal_upto(prods@, sy, i + 1) {
                    let (i2, j2) = choose|i2: int, j2: int|
                        0 <= i2 < i + 1 && 0 <= j2 < prods@[i2].rhs@.len() && sy == classify(
                            prods@,
                            #[trigger] prods@[i2].rhs@[j2]@,
                        ) && sy is Terminal;
                    if i2 == i {
                        assert(rhsg[j2]@ == sy);
                        assert(seq_has_sym(rhsg, sy));
                        assert(seq_has_sym(g.terminals@, sy));
                    } else {
                        assert(grammar_terminal_upto(prods@, sy, i as int));
                        assert(seq_has_sym(g0.terminals@, sy));
                        assert(seq_has_sym(g.terminals@, sy));
                    }
                }
            }
            assert forall|sy: SpecSymbol| #[trigger]
                seq_has_sym(g.non_terminals@, sy) <==> grammar_non_terminal_upto(
                prods@,
                sy,
                i + 1,
            ) by {
                if seq_has_sym(g.non_terminals@, sy) {
                    if seq_has_sym(g0.non_terminals@, sy) {
                        if exists|i2: int|
                            0 <= i2 < i && sy == SpecSymbol::NonTerminal(
                                (#[trigger] prods@[i2]).lhs@,
                            ) {
                            let i2 = choose|i2: int|
                                0 <= i2 < i && sy == SpecSymbol::NonTerminal(
                                    (#[trigger] prods@[i2]).lhs@,
                                );
                            assert(0 <= i2 < i + 1 && sy == SpecSymbol::NonTerminal(
                                prods@[i2].lhs@,
                            ));
                            assert(grammar_non_terminal_upto(prods@, sy, i + 1));
                        } else {
                            let (i2, j2) = choose|i2: int, j2: int|
                                0 <= i2 < i && 0 <= j2 < prods@[i2].rhs@.len() && sy == classify(
                                    prods@,
                                    #[trigger] prods@[i2].rhs@[j2]@,
                                ) && sy is NonTerminal;
                            assert(0 <= i2 < i + 1 && 0 <= j2 < prods@[i2].rhs@.len() && sy
                                == classify(prods@, prods@[i2].rhs@[j2]@) && sy is NonTerminal);
                            assert(grammar_non_terminal_upto(prods@, sy, i + 1));
                        }
                    } else if sy == lv {
                        assert(sy == SpecSymbol::NonTerminal(prods@[i as int].lhs@));
                        assert(0 <= (i as int) < i + 1 && sy == SpecSymbol::NonTerminal(
                            prods@[i as int].lhs@,
                        ));
                        assert(grammar_non_terminal_upto(prods@, sy, i + 1));
                    } else {
                        assert(sy is NonTerminal && seq_has_sym(rhsg, sy));
                        let j2 = choose|j2: int| 0 <= j2 < rhsg.len() && rhsg[j2]@ == sy;
                        assert(rhsg[j2]@ == classify(prods@, prods@[i as int].rhs@[j2]@));
                        assert(0 <= (i as int) < i + 1 && 0 <= j2 < prods@[i as int].rhs@.len()
                            && sy == classify(prods@, prods@[i as int].rhs@[j2]@) && sy
                            is NonTerminal);
                        assert(grammar_non_terminal_upto(prods@, sy, i + 1));
                    }
                }
                if grammar_non_terminal_upto(prods@, sy, i + 1) {
                    if exists|i2: int|
                        0 <= i2 < i + 1 && sy == SpecSymbol::NonTerminal(
                            (#[trigger] prods@[i2]).lhs@,
                        ) {
                        let i2 = choose|i2: int|
                            0 <= i2 < i + 1 && sy == SpecSymbol::NonTerminal(
                                (#[trigger] prods@[i2]).lhs@,
                            );
                        if i2 == i {
                            assert(sy == lv);
                            assert(seq_has_sym(g.non_terminals@, sy));
                        } else {
                            assert(grammar_non_terminal_upto(prods@, sy, i as int));
                            assert(seq_has_sym(g0.non_terminals@, sy));
                            assert(seq_has_sym(g.non_terminals@, sy));
                        }
                    } else {
                        let (i2, j2) = choose|i2: int, j2: int|
                            0 <= i2 < i + 1 && 0 <= j2 < prods@[i2].rhs@.len() && sy == classify(
                                prods@,
                                #[trigger] prods@[i2].rhs@[j2]@,
                            ) && sy is NonTerminal;
                        if i2 == i {
                            assert(rhsg[j2]@ == sy);
                            assert(seq_has_sym(rhsg, sy));
                            assert(seq_has_sym(g.non_terminals@, sy));
                        } else {
                            assert(grammar_non_terminal_upto(prods@, sy, i as int));
                            assert(seq_has_sym(g0.non_terminals@, sy));
                            assert(seq_has_sym(g.non_terminals@, sy));
                        }
                    }
                }
            }
            let pr = prods_of(g.productions@);
            let pr0 = prods_of(g0.productions@);
            assert forall|k: int|
                0 <= k < i + 1 implies {
                let p = (#[trigger] g.productions@[k])@;
                &&& p.lhs == SpecSymbol::NonTerminal(prods@[k].lhs@)
                &&& p.rhs.len() == prods@[k].rhs@.len()
                &&& forall|j2: int|
                    0 <= j2 < p.rhs.len() ==> p.rhs[j2] == classify(prods@, prods@[k].rhs@[j2]@)
            } by {
                assert(pr[k] == g.productions@[k]@);
                if k < i {
                    assert(pr[k] == pr0[k]);
                    assert(pr0[k] == g0.productions@[k]@);
                } else {
                    assert(pr[k] == crate::prod::SpecProd { lhs: lv, rhs: rv });
                    assert forall|j2: int| 0 <= j2 < rv.len() implies rv[j2] == classify(
                        prods@,
                        prods@[k].rhs@[j2]@,
                    ) by {
                        assert(rv[j2] == rhs@[j2]@);
                    }
                }
            }
        }
        i = i + 1;
    }
    g
}

/// Insert a symbol into a duplicate-free vector unless an equal symbol
/// is already present.
fn insert_sym(v: &mut Vec<Symbol>, s: &Symbol)
    requires
        no_dup_syms(old(v)@),
    ensures
        no_dup_syms(final(v)@),
        forall|x: SpecSymbol| seq_has_sym(final(v)@, x) <==> (seq_has_sym(old(v)@, x) || x == s@),
        forall|i: int|
            0 <= i < final(v)@.len() ==> ((#[trigger] final(v)@[i]@) == s@ || seq_has_sym(
                old(v)@,
                final(v)@[i]@,
            )),
        forall|x: SpecSymbol| seq_has_sym(old(v)@, x) ==> seq_has_sym(final(v)@, x),
{
    if !contains_sym(v, s) {
        v.push(s.clone());
        proof {
            let n = v@.len() - 1;
            assert(v@[n]@ == s@);
            assert forall|x: SpecSymbol| seq_has_sym(old(v)@, x) implies seq_has_sym(
                v@,
                x,
            ) by {
                let i = choose|i: int| 0 <= i < old(v)@.len() && old(v)@[i]@ == x;
                assert(v@[i]@ == x);
            }
            assert forall|x: SpecSymbol| seq_has_sym(v@, x) implies (seq_has_sym(old(v)@, x) || x
                == s@) by {
                let i = choose|i: int| 0 <= i < v@.len() && v@[i]@ == x;
                if i < n {
                    assert(old(v)@[i]@ == x);
                }
            }
        }
    }
}

} // verus!
