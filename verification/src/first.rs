//! FIRST sets: for every grammar symbol, the set of terminals that can
//! begin a derivation of it, plus the empty-string marker when the
//! symbol derives the empty string.

use vstd::prelude::*;

use crate::grammar::no_dup_syms;
use crate::grammar::Grammar;
use crate::prod::prods_of;
use crate::prod::SpecProd;
use crate::symbol::contains_sym;
use crate::symbol::seq_has_sym;
use crate::symbol::views_of;
use crate::symbol::SpecSymbol;
use crate::symbol::Symbol;
use vstd::pervasive::VecAdditionalExecFns;

verus! {

// ---------------------------------------------------------------------------
// Derivation predicates: the mathematical definition of FIRST membership.
// ---------------------------------------------------------------------------
/// `s` derives the empty string in a derivation tree of height at most `n`.
pub open spec fn derives_empty_n(prods: Seq<SpecProd>, s: SpecSymbol, n: nat) -> bool
    decreases n, 0int,
{
    match s {
        SpecSymbol::NonTerminal(_) => n > 0 && exists|i: int|
            0 <= i < prods.len() && (#[trigger] prods[i]).lhs == s && all_derive_empty_n(
                prods,
                prods[i].rhs,
                (n - 1) as nat,
            ),
        _ => false,
    }
}

/// Every symbol of `rhs` derives the empty string within height `n`.
pub open spec fn all_derive_empty_n(prods: Seq<SpecProd>, rhs: Seq<SpecSymbol>, n: nat) -> bool
    decreases n, 1int,
{
    forall|j: int| 0 <= j < rhs.len() ==> derives_empty_n(prods, #[trigger] rhs[j], n)
}

/// `s` derives the empty string.
pub open spec fn derives_empty(prods: Seq<SpecProd>, s: SpecSymbol) -> bool {
    exists|n: nat| derives_empty_n(prods, s, n)
}

/// `x` is in FIRST of `s`, witnessed by a derivation of height at most
/// `n`. A terminal begins only itself; for a non-terminal `A`, `x` is
/// obtained through some production `A -> X1 ... Xm`: either `x` is
/// the empty-string marker and every `Xj` derives the empty string, or
/// `x` begins some `Xk` whose preceding siblings all derive the empty
/// string.
pub open spec fn sym_first_n(prods: Seq<SpecProd>, s: SpecSymbol, x: SpecSymbol, n: nat) -> bool
    decreases n, 0int,
{
    match s {
        SpecSymbol::Terminal(_) => x == s,
        SpecSymbol::NonTerminal(_) => n > 0 && exists|i: int|
            0 <= i < prods.len() && (#[trigger] prods[i]).lhs == s && rhs_first_n(
                prods,
                prods[i].rhs,
                x,
                (n - 1) as nat,
            ),
        _ => false,
    }
}

/// `x` is in FIRST of the symbol string `rhs`, witnessed within height `n`.
pub open spec fn rhs_first_n(prods: Seq<SpecProd>, rhs: Seq<SpecSymbol>, x: SpecSymbol, n: nat) -> bool
    decreases n, 1int,
{
    if x == SpecSymbol::Epsilon {
        forall|j: int| 0 <= j < rhs.len() ==> sym_first_n(prods, #[trigger] rhs[j], x, n)
    } else {
        exists|k: int|
            0 <= k < rhs.len() && sym_first_n(prods, #[trigger] rhs[k], x, n) && (forall|j: int|
                0 <= j < k ==> sym_first_n(prods, #[trigger] rhs[j], SpecSymbol::Epsilon, n))
    }
}

/// `x` is in FIRST of `s`.
pub open spec fn in_first(prods: Seq<SpecProd>, s: SpecSymbol, x: SpecSymbol) -> bool {
    exists|n: nat| sym_first_n(prods, s, x, n)
}

/// Larger height bounds admit no fewer FIRST members.
pub proof fn lemma_first_mono(prods: Seq<SpecProd>, s: SpecSymbol, x: SpecSymbol, n: nat, m: nat)
    requires
        sym_first_n(prods, s, x, n),
        n <= m,
    ensures
        sym_first_n(prods, s, x, m),
    decreases n, 0int,
{
    match s {
        SpecSymbol::NonTerminal(_) => {
            let i = choose|i: int|
                0 <= i < prods.len() && (#[trigger] prods[i]).lhs == s && rhs_first_n(
                    prods,
                    prods[i].rhs,
                    x,
                    (n - 1) as nat,
                );
            lemma_rhs_first_mono(prods, prods[i].rhs, x, (n - 1) as nat, (m - 1) as nat);
            assert(prods[i].lhs == s && rhs_first_n(prods, prods[i].rhs, x, (m - 1) as nat));
        },
        _ => (),
    }
}

/// Monotonicity of FIRST of a symbol string in the height bound.
pub proof fn lemma_rhs_first_mono(
    prods: Seq<SpecProd>,
    rhs: Seq<SpecSymbol>,
    x: SpecSymbol,
    n: nat,
    m: nat,
)
    requires
        rhs_first_n(prods, rhs, x, n),
        n <= m,
    ensures
        rhs_first_n(prods, rhs, x, m),
    decreases n, 1int,
{
    if x == SpecSymbol::Epsilon {
        assert forall|j: int| 0 <= j < rhs.len() implies sym_first_n(
            prods,
            #[trigger] rhs[j],
            x,
            m,
        ) by {
            lemma_first_mono(prods, rhs[j], x, n, m);
        }
    } else {
        let k = choose|k: int|
            0 <= k < rhs.len() && sym_first_n(prods, #[trigger] rhs[k], x, n) && (forall|j: int|
                0 <= j < k ==> sym_first_n(prods, #[trigger] rhs[j], SpecSymbol::Epsilon, n));
        lemma_first_mono(prods, rhs[k], x, n, m);
        assert forall|j: int| 0 <= j < k implies sym_first_n(
            prods,
            #[trigger] rhs[j],
            SpecSymbol::Epsilon,
            m,
        ) by {
            lemma_first_mono(prods, rhs[j], SpecSymbol::Epsilon, n, m);
        }
        assert(0 <= k < rhs.len() && sym_first_n(prods, rhs[k], x, m) && (forall|j: int|
            0 <= j < k ==> sym_first_n(prods, rhs[j], SpecSymbol::Epsilon, m)));
    }
}

/// The empty-string marker sits in FIRST of `s` exactly when `s`
/// derives the empty string, height bound for height bound.
pub proof fn lemma_eps_first_is_derives_n(prods: Seq<SpecProd>, s: SpecSymbol, n: nat)
    ensures
        sym_first_n(prods, s, SpecSymbol::Epsilon, n) <==> derives_empty_n(prods, s, n),
    decreases n,
{
    match s {
        SpecSymbol::NonTerminal(_) => {
            if sym_first_n(prods, s, SpecSymbol::Epsilon, n) {
                let i = choose|i: int|
                    0 <= i < prods.len() && (#[trigger] prods[i]).lhs == s && rhs_first_n(
                        prods,
                        prods[i].rhs,
                        SpecSymbol::Epsilon,
                        (n - 1) as nat,
                    );
                assert forall|j: int| 0 <= j < prods[i].rhs.len() implies derives_empty_n(
                    prods,
                    #[trigger] prods[i].rhs[j],
                    (n - 1) as nat,
                ) by {
                    lemma_eps_first_is_derives_n(prods, prods[i].rhs[j], (n - 1) as nat);
                }
                assert(prods[i].lhs == s && all_derive_empty_n(
                    prods,
                    prods[i].rhs,
                    (n - 1) as nat,
                ));
            }
            if derives_empty_n(prods, s, n) {
                let i = choose|i: int|
                    0 <= i < prods.len() && (#[trigger] prods[i]).lhs == s && all_derive_empty_n(
                        prods,
                        prods[i].rhs,
                        (n - 1) as nat,
                    );
                assert forall|j: int| 0 <= j < prods[i].rhs.len() implies sym_first_n(
                    prods,
                    #[trigger] prods[i].rhs[j],
                    SpecSymbol::Epsilon,
                    (n - 1) as nat,
                ) by {
                    lemma_eps_first_is_derives_n(prods, prods[i].rhs[j], (n - 1) as nat);
                }
                assert(prods[i].lhs == s && rhs_first_n(
                    prods,
                    prods[i].rhs,
                    SpecSymbol::Epsilon,
                    (n - 1) as nat,
                ));
            }
        },
        _ => (),
    }
}

/// A single prefix-nullable step through production `i` lands in FIRST
/// of its head.
pub proof fn lemma_first_step(prods: Seq<SpecProd>, i: int, k: int, x: SpecSymbol)
    requires
        0 <= i < prods.len(),
        prods[i].lhs is NonTerminal,
        x == SpecSymbol::Epsilon ==> k == prods[i].rhs.len(),
        x != SpecSymbol::Epsilon ==> 0 <= k < prods[i].rhs.len() && in_first(
            prods,
            prods[i].rhs[k],
            x,
        ),
        forall|j: int| 0 <= j < k ==> in_first(prods, prods[i].rhs[j], SpecSymbol::Epsilon),
    ensures
        in_first(prods, prods[i].lhs, x),
{
    let rhs = prods[i].rhs;
    let nn = lemma_prefix_uniform(prods, rhs, k);
    if x == SpecSymbol::Epsilon {
        assert(rhs_first_n(prods, rhs, x, nn));
        assert(sym_first_n(prods, prods[i].lhs, x, nn + 1)) by {
            assert(0 <= i < prods.len() && prods[i].lhs == prods[i].lhs && rhs_first_n(
                prods,
                prods[i].rhs,
                x,
                (nn + 1 - 1) as nat,
            ));
        }
    } else {
        let nx = choose|n: nat| #[trigger] sym_first_n(prods, rhs[k], x, n);
        let m = if nx > nn {
            nx
        } else {
            nn
        };
        lemma_first_mono(prods, rhs[k], x, nx, m);
        assert forall|j: int| 0 <= j < k implies sym_first_n(
            prods,
            #[trigger] rhs[j],
            SpecSymbol::Epsilon,
            m,
        ) by {
            lemma_first_mono(prods, rhs[j], SpecSymbol::Epsilon, nn, m);
        }
        assert(rhs_first_n(prods, rhs, x, m));
        assert(sym_first_n(prods, prods[i].lhs, x, m + 1)) by {
            assert(0 <= i < prods.len() && prods[i].lhs == prods[i].lhs && rhs_first_n(
                prods,
                prods[i].rhs,
                x,
                (m + 1 - 1) as nat,
            ));
        }
    }
}

/// A single height bound under which every symbol of the prefix
/// `rhs[0..k]` is known to derive the empty string.
pub proof fn lemma_prefix_uniform(prods: Seq<SpecProd>, rhs: Seq<SpecSymbol>, k: int) -> (nn: nat)
    requires
        forall|j: int| 0 <= j < k ==> in_first(prods, #[trigger] rhs[j], SpecSymbol::Epsilon),
        k <= rhs.len(),
    ensures
        forall|j: int| 0 <= j < k ==> sym_first_n(prods, #[trigger] rhs[j], SpecSymbol::Epsilon, nn),
    decreases k,
{
    if k <= 0 {
        0
    } else {
        let n1 = lemma_prefix_uniform(prods, rhs, k - 1);
        let n2 = choose|n: nat| #[trigger] sym_first_n(prods, rhs[k - 1], SpecSymbol::Epsilon, n);
        let m = if n1 > n2 {
            n1
        } else {
            n2
        };
        assert forall|j: int| 0 <= j < k implies sym_first_n(
            prods,
            #[trigger] rhs[j],
            SpecSymbol::Epsilon,
            m,
        ) by {
            if j < k - 1 {
                lemma_first_mono(prods, rhs[j], SpecSymbol::Epsilon, n1, m);
            } else {
                lemma_first_mono(prods, rhs[j], SpecSymbol::Epsilon, n2, m);
            }
        }
        m
    }
}

// ---------------------------------------------------------------------------
// The computed FIRST table.
// ---------------------------------------------------------------------------
/// FIRST sets, one row per grammar symbol: `vals[i]` is the computed
/// FIRST set of `keys[i]`. Keys and rows are duplicate-free vectors.
#[derive(Debug)]
pub struct FirstSets {
    pub keys: Vec<Symbol>,
    pub vals: Vec<Vec<Symbol>>,
}

impl FirstSets {
    /// Rows and keys line up, and neither keys nor any row repeats a view.
    pub open spec fn basic_wf(self) -> bool {
        &&& self.keys@.len() == self.vals@.len()
        &&& no_dup_syms(self.keys@)
        &&& forall|i: int| 0 <= i < self.vals@.len() ==> no_dup_syms((#[trigger] self.vals@[i])@)
    }

    /// Whether `s` has a row.
    pub open spec fn spec_has_key(self, s: SpecSymbol) -> bool {
        seq_has_sym(self.keys@, s)
    }

    /// The row index of `s` (meaningful only when `s` has a row).
    pub open spec fn key_index(self, s: SpecSymbol) -> int {
        choose|i: int| 0 <= i < self.keys@.len() && self.keys@[i]@ == s
    }

    /// Whether `x` is recorded in FIRST of `s`.
    pub open spec fn first_has(self, s: SpecSymbol, x: SpecSymbol) -> bool {
        &&& self.spec_has_key(s)
        &&& seq_has_sym(self.vals@[self.key_index(s)]@, x)
    }

    /// The table has a row for exactly the terminals and non-terminals
    /// of `g`.
    pub open spec fn covers(self, g: Grammar) -> bool {
        forall|s: SpecSymbol| #![auto]
            self.spec_has_key(s) <==> (seq_has_sym(g.terminals@, s) || seq_has_sym(
                g.non_terminals@,
                s,
            ))
    }

    /// Every symbol of `rhs[0..k]` has the empty-string marker in its
    /// recorded FIRST set.
    pub open spec fn prefix_nullable(self, rhs: Seq<SpecSymbol>, k: int) -> bool {
        forall|j: int| 0 <= j < k ==> self.first_has(#[trigger] rhs[j], SpecSymbol::Epsilon)
    }

    /// Position `k` of production `p` contributes nothing new: if the
    /// prefix before `k` is nullable, every non-empty member of FIRST
    /// of `rhs[k]` is already recorded for the head.
    pub open spec fn stable_at(self, p: SpecProd, k: int) -> bool {
        (0 <= k < p.rhs.len() && self.prefix_nullable(p.rhs, k)) ==> forall|x: SpecSymbol|
            #[trigger] self.first_has(p.rhs[k], x) && x != SpecSymbol::Epsilon ==> self.first_has(
                p.lhs,
                x,
            )
    }

    /// One more pass over production `p` would add nothing.
    pub open spec fn prod_stable(self, p: SpecProd) -> bool {
        &&& forall|k: int| #[trigger] self.stable_at(p, k)
        &&& (self.prefix_nullable(p.rhs, p.rhs.len() as int) ==> self.first_has(
            p.lhs,
            SpecSymbol::Epsilon,
        ))
    }

    /// One more pass over the whole grammar would add nothing; this is
    /// the fixpoint condition the computation stops on.
    pub open spec fn stable_for(self, prods: Seq<SpecProd>) -> bool {
        forall|i: int| 0 <= i < prods.len() ==> self.prod_stable(#[trigger] prods[i])
    }

    /// Locate the row of `s`.
    pub fn find(&self, s: &Symbol) -> (r: Option<usize>)
        requires
            self.basic_wf(),
        ensures
            match r {
                Some(i) => i < self.keys@.len() && self.keys@[i as int]@ == s@ && i as int
                    == self.key_index(s@),
                None => !self.spec_has_key(s@),
            },
    {
        let mut i: usize = 0;
        while i < self.keys.len()
            invariant
                self.basic_wf(),
                0 <= i <= self.keys@.len(),
                forall|j: int| 0 <= j < i ==> self.keys@[j]@ != s@,
            decreases self.keys@.len() - i,
        {
            if &self.keys[i] == s {
                proof {
                    let j = self.key_index(s@);
                    assert(0 <= j < self.keys@.len() && self.keys@[j]@ == s@);
                    assert(j == i);
                }
                return Some(i);
            }
            i = i + 1;
        }
        None
    }

    /// Whether row `i` records `x`.
    pub fn val_has(&self, i: usize, x: &Symbol) -> (r: bool)
        requires
            i < self.vals@.len(),
        ensures
            r == seq_has_sym(self.vals@[i as int]@, x@),
    {
        contains_sym(&self.vals[i], x)
    }

    /// Record `x` in row `i` unless already present; reports whether
    /// the row grew.
    pub fn add_val(&mut self, i: usize, x: &Symbol) -> (added: bool)
        requires
            old(self).basic_wf(),
            i < old(self).vals@.len(),
        ensures
            final(self).basic_wf(),
            final(self).keys@ == old(self).keys@,
            final(self).vals@.len() == old(self).vals@.len(),
            added == !seq_has_sym(old(self).vals@[i as int]@, x@),
            !added ==> *final(self) == *old(self),
            added ==> sum_lens(final(self).vals@) == sum_lens(old(self).vals@) + 1,
            forall|s: SpecSymbol, y: SpecSymbol|
                #![trigger final(self).first_has(s, y)]
                final(self).first_has(s, y) <==> (old(self).first_has(s, y) || (added && s == old(
                    self,
                ).keys@[i as int]@ && y == x@)),
    {
        let mut w = self.vals[i].clone();
        proof {
            assert(views_of(w@) =~= views_of(self.vals@[i as int]@));
        }
        if contains_sym(&w, x) {
            return false;
        }
        w.push(x.clone());
        let ghost before = *self;
        self.vals.set(i, w);
        proof {
            lemma_sum_update(before.vals@, i as int, self.vals@[i as int]);
            assert(self.vals@ == before.vals@.update(i as int, self.vals@[i as int]));
            assert(self.vals@[i as int]@.len() == before.vals@[i as int]@.len() + 1);
            assert(no_dup_syms(self.vals@[i as int]@)) by {
                let nv = self.vals@[i as int]@;
                let ov = before.vals@[i as int]@;
                assert(forall|j: int| 0 <= j < ov.len() ==> nv[j]@ == ov[j]@);
                assert(nv[nv.len() - 1]@ == x@);
            }
            assert forall|s: SpecSymbol, y: SpecSymbol|
                #![trigger self.first_has(s, y)]
                self.first_has(s, y) <==> (before.first_has(s, y) || (s == before.keys@[i as int]@
                    && y == x@)) by {
                if self.spec_has_key(s) {
                    let ki = self.key_index(s);
                    assert(0 <= ki < self.keys@.len() && self.keys@[ki]@ == s);
                    if ki == i {
                        let nv = self.vals@[i as int]@;
                        let ov = before.vals@[i as int]@;
                        assert(forall|j: int| 0 <= j < ov.len() ==> nv[j]@ == ov[j]@);
                        assert(nv[nv.len() - 1]@ == x@);
                        if seq_has_sym(nv, y) && y != x@ {
                            let j = choose|j: int| 0 <= j < nv.len() && nv[j]@ == y;
                            assert(j < ov.len());
                            assert(ov[j]@ == y);
                        }
                        if seq_has_sym(ov, y) {
                            let j = choose|j: int| 0 <= j < ov.len() && ov[j]@ == y;
                            assert(nv[j]@ == y);
                        }
                    } else {
                        assert(self.vals@[ki] == before.vals@[ki]);
                    }
                }
            }
        }
        true
    }
}

/// Total length of all rows: the potential that the fixpoint loop
/// strictly increases until it stops.
pub open spec fn sum_lens(vs: Seq<Vec<Symbol>>) -> int
    decreases vs.len(),
{
    if vs.len() == 0 {
        0
    } else {
        sum_lens(vs.drop_last()) + vs.last()@.len()
    }
}

/// Replacing one row changes the total by the difference of lengths.
pub proof fn lemma_sum_update(vs: Seq<Vec<Symbol>>, i: int, w: Vec<Symbol>)
    requires
        0 <= i < vs.len(),
    ensures
        sum_lens(vs.update(i, w)) == sum_lens(vs) - vs[i]@.len() + w@.len(),
    decreases vs.len(),
{
    if i == vs.len() - 1 {
        assert(vs.update(i, w).drop_last() =~= vs.drop_last());
        assert(vs.update(i, w).last() == w);
    } else {
        lemma_sum_update(vs.drop_last(), i, w);
        assert(vs.update(i, w).drop_last() =~= vs.drop_last().update(i, w));
        assert(vs.update(i, w).last() == vs.last());
    }
}

/// A uniform row bound caps the total.
pub proof fn lemma_sum_bound(vs: Seq<Vec<Symbol>>, b: int)
    requires
        forall|i: int| 0 <= i < vs.len() ==> (#[trigger] vs[i])@.len() <= b,
    ensures
        sum_lens(vs) <= b * vs.len(),
        sum_lens(vs) >= 0,
    decreases vs.len(),
{
    if vs.len() > 0 {
        lemma_sum_bound(vs.drop_last(), b);
        assert(b * (vs.len() - 1) + b == b * vs.len()) by (nonlinear_arith);
    }
}

/// A duplicate-free row whose members are the empty-string marker or
/// registered terminals has at most one member per terminal, plus one.
pub proof fn lemma_val_len_bound(v: Seq<Symbol>, terms: Seq<Symbol>)
    requires
        no_dup_syms(v),
        forall|i: int|
            0 <= i < v.len() ==> ((#[trigger] v[i])@ == SpecSymbol::Epsilon || seq_has_sym(
                terms,
                v[i]@,
            )),
    ensures
        v.len() <= terms.len() + 1,
{
    broadcast use vstd::seq_lib::group_seq_properties;
    broadcast use vstd::set_lib::group_set_lib_default;

    let vv = views_of(v);
    assert(vv.no_duplicates()) by {
        assert(forall|i: int, j: int| 0 <= i < j < v.len() ==> vv[i] != vv[j]);
    }
    vv.unique_seq_to_set();
    let tv = views_of(terms);
    tv.lemma_cardinality_of_set();
    let u = tv.to_set().insert(SpecSymbol::Epsilon);
    assert(vv.to_set().subset_of(u)) by {
        assert forall|x: SpecSymbol| vv.to_set().contains(x) implies u.contains(x) by {
            let i = choose|i: int| 0 <= i < vv.len() && vv[i] == x;
            if v[i]@ != SpecSymbol::Epsilon {
                let j = choose|j: int| 0 <= j < terms.len() && terms[j]@ == x;
                assert(tv[j] == x);
                assert(tv.to_set().contains(x));
            }
        }
    }
    assert(u.finite());
    assert(u.len() <= tv.to_set().len() + 1);
    vstd::set_lib::lemma_len_subset(vv.to_set(), u);
}

// ---------------------------------------------------------------------------
// Correctness of the computed table.
// ---------------------------------------------------------------------------
/// The running invariant of the FIRST computation: rows exist for
/// exactly the grammar's symbols, every recorded member is the
/// empty-string marker or a registered terminal, every recorded member
/// really is in FIRST, and every terminal's row holds at least itself.
pub open spec fn first_inv(g: Grammar, fs: FirstSets) -> bool {
    &&& fs.basic_wf()
    &&& fs.covers(g)
    &&& forall|s: SpecSymbol, x: SpecSymbol|
        #[trigger] fs.first_has(s, x) ==> (x == SpecSymbol::Epsilon || (x is Terminal
            && seq_has_sym(g.terminals@, x)))
    &&& forall|s: SpecSymbol, x: SpecSymbol| #[trigger]
        fs.first_has(s, x) ==> in_first(prods_of(g.productions@), s, x)
    &&& forall|t: SpecSymbol|
        #[trigger] fs.spec_has_key(t) && t is Terminal ==> fs.first_has(t, t)
}

/// Recording one justified member in one row preserves the invariant.
proof fn lemma_inv_after_add(g: Grammar, a: FirstSets, b: FirstSets, i: int, x: SpecSymbol)
    requires
        first_inv(g, a),
        b.basic_wf(),
        b.keys@ == a.keys@,
        0 <= i < a.keys@.len(),
        forall|s: SpecSymbol, y: SpecSymbol|
            #![trigger b.first_has(s, y)]
            b.first_has(s, y) <==> (a.first_has(s, y) || (s == a.keys@[i]@ && y == x)),
        x == SpecSymbol::Epsilon || (x is Terminal && seq_has_sym(g.terminals@, x)),
        in_first(prods_of(g.productions@), a.keys@[i]@, x),
    ensures
        first_inv(g, b),
{
    assert forall|s: SpecSymbol| #![auto] b.spec_has_key(s) <==> a.spec_has_key(s) by {}
    assert forall|t: SpecSymbol| #[trigger]
        b.spec_has_key(t) && t is Terminal implies b.first_has(t, t) by {
        assert(a.first_has(t, t));
    }
}

/// Everything in mathematical FIRST is recorded, once the table is
/// stable: completeness of the fixpoint.
proof fn lemma_first_complete(
    g: Grammar,
    fs: FirstSets,
    s: SpecSymbol,
    x: SpecSymbol,
    n: nat,
)
    requires
        g.wf(),
        first_inv(g, fs),
        fs.stable_for(prods_of(g.productions@)),
        sym_first_n(prods_of(g.productions@), s, x, n),
        fs.spec_has_key(s),
    ensures
        fs.first_has(s, x),
    decreases n,
{
    let prods = prods_of(g.productions@);
    match s {
        SpecSymbol::Terminal(_) => {
            assert(x == s);
        },
        SpecSymbol::NonTerminal(_) => {
            let i = choose|i: int|
                0 <= i < prods.len() && (#[trigger] prods[i]).lhs == s && rhs_first_n(
                    prods,
                    prods[i].rhs,
                    x,
                    (n - 1) as nat,
                );
            let rhs = prods[i].rhs;
            assert(prods[i] == g.productions@[i]@);
            assert(g.prod_wf(prods[i]));
            assert forall|j: int| 0 <= j < rhs.len() implies fs.spec_has_key(
                #[trigger] rhs[j],
            ) by {
                assert((rhs[j] is Terminal && seq_has_sym(g.terminals@, rhs[j])) || (rhs[j]
                    is NonTerminal && seq_has_sym(g.non_terminals@, rhs[j])));
            }
            if x == SpecSymbol::Epsilon {
                assert forall|j: int| 0 <= j < rhs.len() implies fs.first_has(
                    #[trigger] rhs[j],
                    SpecSymbol::Epsilon,
                ) by {
                    lemma_first_complete(g, fs, rhs[j], SpecSymbol::Epsilon, (n - 1) as nat);
                }
                assert(fs.prod_stable(prods[i]));
                assert(fs.prefix_nullable(rhs, rhs.len() as int));
            } else {
                let k = choose|k: int|
                    0 <= k < rhs.len() && sym_first_n(prods, #[trigger] rhs[k], x, (n - 1) as nat)
                        && (forall|j: int|
                        0 <= j < k ==> sym_first_n(
                            prods,
                            #[trigger] rhs[j],
                            SpecSymbol::Epsilon,
                            (n - 1) as nat,
                        ));
                assert forall|j: int| 0 <= j < k implies fs.first_has(
                    #[trigger] rhs[j],
                    SpecSymbol::Epsilon,
                ) by {
                    lemma_first_complete(g, fs, rhs[j], SpecSymbol::Epsilon, (n - 1) as nat);
                }
                lemma_first_complete(g, fs, rhs[k], x, (n - 1) as nat);
                assert(fs.prod_stable(prods[i]));
                assert(fs.stable_at(prods[i], k));
                assert(fs.prefix_nullable(rhs, k));
                assert(fs.first_has(rhs[k], x) && x != SpecSymbol::Epsilon);
                assert(fs.first_has(prods[i].lhs, x));
            }
        },
        _ => (),
    }
}

/// Each key is the table's own witness for its row index.
pub proof fn lemma_key_index_of(fs: FirstSets, j: int)
    requires
        fs.basic_wf(),
        0 <= j < fs.keys@.len(),
    ensures
        fs.spec_has_key(fs.keys@[j]@),
        fs.key_index(fs.keys@[j]@) == j,
{
    assert(seq_has_sym(fs.keys@, fs.keys@[j]@));
    let i = fs.key_index(fs.keys@[j]@);
    assert(0 <= i < fs.keys@.len() && fs.keys@[i]@ == fs.keys@[j]@);
}

impl Grammar {
    /// Compute the FIRST sets of every terminal and non-terminal by
    /// fixpoint iteration: a terminal begins only itself; a
    /// non-terminal absorbs, for each of its productions, the
    /// non-empty FIRST members of each right-hand-side symbol whose
    /// preceding siblings all derive the empty string, and the
    /// empty-string marker when the whole right-hand side does.
    ///
    /// The loop stops when one full pass adds nothing, so one more
    /// iteration after return would change no set. The result is
    /// exactly mathematical FIRST: sound, complete, and containing the
    /// empty-string marker precisely for symbols that derive the empty
    /// string.
    #[verifier::rlimit(60)]
    pub fn compute_first(&self) -> (fs: FirstSets)
        requires
            self.wf(),
        ensures
            fs.basic_wf(),
            fs.covers(*self),
            first_inv(*self, fs),
            fs.stable_for(prods_of(self.productions@)),
            forall|s: SpecSymbol, x: SpecSymbol| #[trigger]
                fs.first_has(s, x) ==> in_first(prods_of(self.productions@), s, x),
            forall|s: SpecSymbol, x: SpecSymbol|
                fs.spec_has_key(s) && #[trigger] in_first(prods_of(self.productions@), s, x)
                    ==> fs.first_has(s, x),
            forall|s: SpecSymbol|
                #[trigger] fs.spec_has_key(s) ==> (fs.first_has(s, SpecSymbol::Epsilon)
                    <==> derives_empty(prods_of(self.productions@), s)),
    {
        let ghost prods = prods_of(self.productions@);
        let eps = Symbol::Epsilon;
        let mut fs = FirstSets { keys: Vec::new(), vals: Vec::new() };

        // One row per terminal, holding the terminal itself.
        let mut i: usize = 0;
        while i < self.terminals.len()
            invariant
                self.wf(),
                0 <= i <= self.terminals@.len(),
                fs.keys@.len() == i,
                fs.vals@.len() == i,
                forall|j: int| 0 <= j < i ==> (#[trigger] fs.keys@[j])@ == self.terminals@[j]@,
                forall|j: int|
                    0 <= j < i ==> views_of((#[trigger] fs.vals@[j])@) == seq![
                        self.terminals@[j]@,
                    ],
            decreases self.terminals@.len() - i,
        {
            fs.keys.push(self.terminals[i].clone());
            let mut w: Vec<Symbol> = Vec::new();
            w.push(self.terminals[i].clone());
            proof {
                assert(views_of(w@) =~= seq![self.terminals@[i as int]@]);
            }
            fs.vals.push(w);
            i = i + 1;
        }
        let ghost tcount = self.terminals@.len() as int;

        // One empty row per non-terminal.
        let mut i2: usize = 0;
        while i2 < self.non_terminals.len()
            invariant
                self.wf(),
                tcount == self.terminals@.len(),
                0 <= i2 <= self.non_terminals@.len(),
                fs.keys@.len() == tcount + i2,
                fs.vals@.len() == tcount + i2,
                forall|j: int| 0 <= j < tcount ==> (#[trigger] fs.keys@[j])@ == self.terminals@[j]@,
                forall|j: int|
                    0 <= j < tcount ==> views_of((#[trigger] fs.vals@[j])@) == seq![
                        self.terminals@[j]@,
                    ],
                forall|j: int|
                    tcount <= j < tcount + i2 ==> (#[trigger] fs.keys@[j])@ == self.non_terminals@[
                        j - tcount
                    ]@,
                forall|j: int|
                    tcount <= j < tcount + i2 ==> (#[trigger] fs.vals@[j])@.len() == 0,
            decreases self.non_terminals@.len() - i2,
        {
            let ghost fsb = fs;
            fs.keys.push(self.non_terminals[i2].clone());
            fs.vals.push(Vec::new());
            proof {
                assert(fs.keys@.len() == fsb.keys@.len() + 1);
                assert(fs.vals@.len() == fsb.vals@.len() + 1);
                assert(forall|j: int| 0 <= j < fsb.keys@.len() ==> fs.keys@[j] == fsb.keys@[j]);
                assert(forall|j: int| 0 <= j < fsb.vals@.len() ==> fs.vals@[j] == fsb.vals@[j]);
                assert forall|j: int| tcount <= j < tcount + i2 + 1 implies (
                #[trigger] fs.keys@[j])@ == self.non_terminals@[j - tcount]@ && (
                fs.vals@[j])@.len() == 0 by {
                    if j < tcount + i2 {
                        assert(fs.keys@[j] == fsb.keys@[j]);
                        assert(fs.vals@[j] == fsb.vals@[j]);
                    } else {
                        assert(fs.keys@[j]@ == self.non_terminals@[i2 as int]@);
                        assert(fs.vals@[j]@.len() == 0);
                    }
                }
            }
            i2 = i2 + 1;
        }

        proof {
            let ks = fs.keys@;
            assert forall|a: int, b: int| 0 <= a < b < ks.len() implies ks[a]@ != ks[b]@ by {
                if b < tcount {
                } else if a >= tcount {
                } else {
                    assert(ks[a]@ is Terminal);
                    assert(ks[b]@ is NonTerminal);
                }
            }
            assert(fs.basic_wf());
            assert forall|s: SpecSymbol| #![auto]
                fs.spec_has_key(s) <==> (seq_has_sym(self.terminals@, s) || seq_has_sym(
                    self.non_terminals@,
                    s,
                )) by {
                if fs.spec_has_key(s) {
                    let j = choose|j: int| 0 <= j < ks.len() && ks[j]@ == s;
                    if j < tcount {
                        assert(self.terminals@[j]@ == s);
                    } else {
                        assert(self.non_terminals@[j - tcount]@ == s);
                    }
                }
                if seq_has_sym(self.terminals@, s) {
                    let j = choose|j: int| 0 <= j < self.terminals@.len() && self.terminals@[j]@
                        == s;
                    assert(ks[j]@ == s);
                }
                if seq_has_sym(self.non_terminals@, s) {
                    let j = choose|j: int|
                        0 <= j < self.non_terminals@.len() && self.non_terminals@[j]@ == s;
                    assert(ks[tcount + j]@ == s);
                }
            }
            assert forall|s: SpecSymbol, x: SpecSymbol| #[trigger]
                fs.first_has(s, x) implies (x == SpecSymbol::Epsilon || (x is Terminal
                && seq_has_sym(self.terminals@, x))) && in_first(prods, s, x) by {
                let j = fs.key_index(s);
                assert(0 <= j < ks.len() && ks[j]@ == s);
                if j < tcount {
                    assert(views_of(fs.vals@[j]@) == seq![self.terminals@[j]@]);
                    let q = choose|q: int|
                        0 <= q < fs.vals@[j]@.len() && fs.vals@[j]@[q]@ == x;
                    assert(views_of(fs.vals@[j]@)[q] == x);
                    assert(views_of(fs.vals@[j]@).len() == 1);
                    assert(x == self.terminals@[j]@);
                    assert(x == s);
                    assert(seq_has_sym(self.terminals@, x));
                    assert(sym_first_n(prods, s, x, 0));
                } else {
                    assert(fs.vals@[j]@.len() == 0);
                }
            }
            assert forall|t: SpecSymbol|
                #[trigger] fs.spec_has_key(t) && t is Terminal implies fs.first_has(t, t) by {
                let j = fs.key_index(t);
                assert(0 <= j < ks.len() && ks[j]@ == t);
                assert(j < tcount) by {
                    if j >= tcount {
                        assert(ks[j]@ is NonTerminal);
                    }
                }
                assert(views_of(fs.vals@[j]@) == seq![self.terminals@[j]@]);
                assert(views_of(fs.vals@[j]@)[0] == t);
                assert(fs.vals@[j]@[0]@ == t);
            }
            assert(first_inv(*self, fs));
        }

        // Fixpoint: repeat full passes until one adds nothing.
        loop
            invariant_except_break
                self.wf(),
                first_inv(*self, fs),
                prods == prods_of(self.productions@),
                eps@ == SpecSymbol::Epsilon,
            ensures
                first_inv(*self, fs),
                fs.stable_for(prods),
            decreases (self.terminals@.len() + 1) * fs.keys@.len() - sum_lens(fs.vals@),
        {
            let mut changed = false;
            let ghost fs0 = fs;
            let mut ip: usize = 0;
            while ip < self.productions.len()
                invariant
                    self.wf(),
                    first_inv(*self, fs),
                    prods == prods_of(self.productions@),
                    eps@ == SpecSymbol::Epsilon,
                    0 <= ip <= self.productions@.len(),
                    fs.keys@ == fs0.keys@,
                    !changed ==> fs == fs0,
                    !changed ==> forall|k2: int|
                        0 <= k2 < ip ==> fs.prod_stable(#[trigger] prods[k2]),
                    sum_lens(fs.vals@) >= sum_lens(fs0.vals@),
                    changed ==> sum_lens(fs.vals@) >= sum_lens(fs0.vals@) + 1,
                decreases self.productions@.len() - ip,
            {
                let ghost p = prods[ip as int];
                proof {
                    assert(p == self.productions@[ip as int]@);
                    assert(self.prod_wf(p));
                    assert(fs.covers(*self));
                    assert(seq_has_sym(self.non_terminals@, p.lhs));
                }
                let lhs_idx = fs.find(&self.productions[ip].lhs).unwrap();
                let ghost rhsv = p.rhs;
                proof {
                    assert(rhsv == views_of(self.productions@[ip as int].rhs@));
                }
                let mut all_null = true;
                let mut k: usize = 0;
                let rhs_len = self.productions[ip].rhs.len();
                proof {
                    assert(rhs_len == rhsv.len());
                }
                while k < rhs_len && all_null
                    invariant
                        self.wf(),
                        first_inv(*self, fs),
                        prods == prods_of(self.productions@),
                        eps@ == SpecSymbol::Epsilon,
                        0 <= ip < self.productions@.len(),
                        p == prods[ip as int],
                        p == self.productions@[ip as int]@,
                        rhsv == p.rhs,
                        rhs_len == rhsv.len(),
                        0 <= k <= rhs_len,
                        lhs_idx < fs.keys@.len(),
                        fs.keys@[lhs_idx as int]@ == p.lhs,
                        fs.keys@ == fs0.keys@,
                        !changed ==> fs == fs0,
                        !changed ==> forall|k2: int|
                            0 <= k2 < ip ==> fs.prod_stable(#[trigger] prods[k2]),
                        sum_lens(fs.vals@) >= sum_lens(fs0.vals@),
                        changed ==> sum_lens(fs.vals@) >= sum_lens(fs0.vals@) + 1,
                        all_null ==> fs.prefix_nullable(rhsv, k as int),
                        (!changed && !all_null) ==> !fs.prefix_nullable(rhsv, k as int),
                        !changed ==> forall|k2: int|
                            0 <= k2 < k ==> fs.stable_at(p, k2),
                    decreases rhs_len - k,
                {
                    proof {
                        assert(rhsv[k as int] == self.productions@[ip as int].rhs@[k as int]@);
                        assert((rhsv[k as int] is Terminal && seq_has_sym(
                            self.terminals@,
                            rhsv[k as int],
                        )) || (rhsv[k as int] is NonTerminal && seq_has_sym(
                            self.non_terminals@,
                            rhsv[k as int],
                        )));
                    }
                    let sym_idx = fs.find(&self.productions[ip].rhs[k]).unwrap();
                    let snap = fs.vals[sym_idx].clone();
                    proof {
                        assert(views_of(snap@) =~= views_of(fs.vals@[sym_idx as int]@));
                        lemma_key_index_of(fs, sym_idx as int);
                        assert forall|jx2: int| 0 <= jx2 < snap@.len() implies in_first(
                            prods,
                            rhsv[k as int],
                            (#[trigger] snap@[jx2])@,
                        ) && (snap@[jx2]@ == SpecSymbol::Epsilon || (snap@[jx2]@ is Terminal
                            && seq_has_sym(self.terminals@, snap@[jx2]@))) by {
                            assert(seq_has_sym(fs.vals@[sym_idx as int]@, snap@[jx2]@));
                            assert(fs.first_has(rhsv[k as int], snap@[jx2]@));
                        }
                    }
                    let ghost fsk = fs;
                    let mut jx: usize = 0;
                    while jx < snap.len()
                        invariant
                            self.wf(),
                            first_inv(*self, fs),
                            prods == prods_of(self.productions@),
                            eps@ == SpecSymbol::Epsilon,
                            0 <= ip < self.productions@.len(),
                            p == prods[ip as int],
                            p == self.productions@[ip as int]@,
                            rhsv == p.rhs,
                            rhs_len == rhsv.len(),
                            0 <= k < rhs_len,
                            0 <= jx <= snap@.len(),
                            lhs_idx < fs.keys@.len(),
                            fs.keys@[lhs_idx as int]@ == p.lhs,
                            sym_idx < fs.keys@.len(),
                            fs.keys@[sym_idx as int]@ == rhsv[k as int],
                            fs.keys@ == fs0.keys@,
                            !changed ==> views_of(snap@) == views_of(
                                fs.vals@[sym_idx as int]@,
                            ),
                            forall|jx2: int|
                                0 <= jx2 < snap@.len() ==> ((#[trigger] snap@[jx2])@
                                    == SpecSymbol::Epsilon || (snap@[jx2]@ is Terminal
                                    && seq_has_sym(self.terminals@, snap@[jx2]@))),
                            !changed ==> fs == fs0,
                            !changed ==> forall|k2: int|
                                0 <= k2 < ip ==> fs.prod_stable(#[trigger] prods[k2]),
                            sum_lens(fs.vals@) >= sum_lens(fs0.vals@),
                            changed ==> sum_lens(fs.vals@) >= sum_lens(fs0.vals@) + 1,
                            all_null,
                            fs.prefix_nullable(rhsv, k as int),
                            !changed ==> forall|k2: int|
                                0 <= k2 < k ==> fs.stable_at(p, k2),
                            forall|jx2: int|
                                0 <= jx2 < snap@.len() ==> in_first(
                                    prods,
                                    rhsv[k as int],
                                    (#[trigger] snap@[jx2])@,
                                ),
                            !changed ==> forall|jx2: int|
                                0 <= jx2 < jx ==> ((#[trigger] snap@[jx2])@ != SpecSymbol::Epsilon
                                    ==> fs.first_has(p.lhs, snap@[jx2]@)),
                        decreases snap@.len() - jx,
                    {
                        if !matches!(&snap[jx], Symbol::Epsilon) {
                            proof {
                                assert(snap@[jx as int]@ != SpecSymbol::Epsilon);
                                assert(in_first(prods, rhsv[k as int], snap@[jx as int]@));
                                assert forall|j2: int| 0 <= j2 < k implies in_first(
                                    prods,
                                    #[trigger] p.rhs[j2],
                                    SpecSymbol::Epsilon,
                                ) by {
                                    assert(fs.first_has(rhsv[j2], SpecSymbol::Epsilon));
                                }
                                lemma_first_step(prods, ip as int, k as int, snap@[jx as int]@);
                                lemma_key_index_of(fs, lhs_idx as int);
                            }
                            let ghost fsb = fs;
                            let was_added = fs.add_val(lhs_idx, &snap[jx]);
                            proof {
                                if was_added {
                                    lemma_inv_after_add(
                                        *self,
                                        fsb,
                                        fs,
                                        lhs_idx as int,
                                        snap@[jx as int]@,
                                    );
                                }
                            }
                            if was_added {
                                changed = true;
                            }
                        }
                        jx = jx + 1;
                    }
                    proof {
                        if !changed {
                            lemma_key_index_of(fs, sym_idx as int);
                            assert forall|x: SpecSymbol| #[trigger]
                                fs.first_has(rhsv[k as int], x) && x
                                != SpecSymbol::Epsilon implies fs.first_has(p.lhs, x) by {
                                assert(seq_has_sym(fs.vals@[sym_idx as int]@, x));
                                let j3 = choose|j3: int|
                                    0 <= j3 < fs.vals@[sym_idx as int]@.len() && fs.vals@[
                                        sym_idx as int
                                    ]@[j3]@ == x;
                                assert(views_of(fs.vals@[sym_idx as int]@)[j3] == x);
                                assert(views_of(snap@)[j3] == x);
                                assert(snap@[j3]@ == x);
                            }
                            assert(fs.stable_at(p, k as int));
                        }
                    }
                    let now_null = fs.val_has(sym_idx, &eps);
                    proof {
                        lemma_key_index_of(fs, sym_idx as int);
                        if now_null {
                            assert(fs.first_has(rhsv[k as int], SpecSymbol::Epsilon));
                            if all_null {
                                assert forall|j2: int| 0 <= j2 < k + 1 implies fs.first_has(
                                    #[trigger] rhsv[j2],
                                    SpecSymbol::Epsilon,
                                ) by {}
                            }
                        } else {
                            assert(!fs.first_has(rhsv[k as int], SpecSymbol::Epsilon)) by {
                                if fs.first_has(rhsv[k as int], SpecSymbol::Epsilon) {
                                    assert(seq_has_sym(
                                        fs.vals@[sym_idx as int]@,
                                        SpecSymbol::Epsilon,
                                    ));
                                }
                            }
                            assert(!fs.prefix_nullable(rhsv, (k + 1) as int));
                        }
                    }
                    all_null = now_null;
                    k = k + 1;
                }
                if all_null {
                    proof {
                        assert(k == rhs_len);
                        assert(fs.prefix_nullable(rhsv, rhsv.len() as int));
                        assert forall|j2: int| 0 <= j2 < rhsv.len() implies in_first(
                            prods,
                            #[trigger] p.rhs[j2],
                            SpecSymbol::Epsilon,
                        ) by {
                            assert(fs.first_has(rhsv[j2], SpecSymbol::Epsilon));
                        }
                        lemma_first_step(
                            prods,
                            ip as int,
                            rhsv.len() as int,
                            SpecSymbol::Epsilon,
                        );
                        lemma_key_index_of(fs, lhs_idx as int);
                    }
                    let ghost fsb = fs;
                    let was_added = fs.add_val(lhs_idx, &eps);
                    proof {
                        if was_added {
                            lemma_inv_after_add(*self, fsb, fs, lhs_idx as int, eps@);
                        }
                    }
                    if was_added {
                        changed = true;
                    }
                }
                proof {
                    if !changed {
                        lemma_key_index_of(fs, lhs_idx as int);
                        assert(fs.prod_stable(p)) by {
                            assert forall|k2: int| #[trigger] fs.stable_at(p, k2) by {
                                if 0 <= k2 < rhsv.len() && fs.prefix_nullable(p.rhs, k2) {
                                    if k2 >= k {
                                        assert(!fs.prefix_nullable(rhsv, k as int));
                                        assert(fs.prefix_nullable(rhsv, k2) ==> fs.prefix_nullable(
                                            rhsv,
                                            k as int,
                                        ));
                                        assert(false);
                                    }
                                }
                            }
                            if fs.prefix_nullable(p.rhs, p.rhs.len() as int) {
                                assert(k as int == rhsv.len() && all_null) by {
                                    if !all_null {
                                        assert(!fs.prefix_nullable(rhsv, k as int));
                                    }
                                }
                                assert(fs.first_has(p.lhs, SpecSymbol::Epsilon));
                            }
                        }
                    }
                }
                ip = ip + 1;
            }
            proof {
                let b = self.terminals@.len() as int + 1;
                assert forall|r: int| 0 <= r < fs.vals@.len() implies (
                #[trigger] fs.vals@[r])@.len() <= b by {
                    lemma_key_index_of(fs, r);
                    assert forall|q: int| 0 <= q < fs.vals@[r]@.len() implies ((
                    #[trigger] fs.vals@[r]@[q])@ == SpecSymbol::Epsilon || seq_has_sym(
                        self.terminals@,
                        fs.vals@[r]@[q]@,
                    )) by {
                        assert(fs.first_has(fs.keys@[r]@, fs.vals@[r]@[q]@));
                    }
                    lemma_val_len_bound(fs.vals@[r]@, self.terminals@);
                }
                lemma_sum_bound(fs.vals@, b);
                assert(fs.keys@.len() == fs.vals@.len());
            }
            if !changed {
                break;
            }
        }

        proof {
            assert forall|s: SpecSymbol, x: SpecSymbol|
                fs.spec_has_key(s) && #[trigger] in_first(prods, s, x) implies fs.first_has(
                s,
                x,
            ) by {
                let n = choose|n: nat| sym_first_n(prods, s, x, n);
                lemma_first_complete(*self, fs, s, x, n);
            }
            assert forall|s: SpecSymbol| #[trigger]
                fs.spec_has_key(s) implies (fs.first_has(s, SpecSymbol::Epsilon)
                <==> derives_empty(prods, s)) by {
                if fs.first_has(s, SpecSymbol::Epsilon) {
                    assert(in_first(prods, s, SpecSymbol::Epsilon));
                    let n = choose|n: nat| sym_first_n(prods, s, SpecSymbol::Epsilon, n);
                    lemma_eps_first_is_derives_n(prods, s, n);
                    assert(derives_empty_n(prods, s, n));
                }
                if derives_empty(prods, s) {
                    let n = choose|n: nat| derives_empty_n(prods, s, n);
                    lemma_eps_first_is_derives_n(prods, s, n);
                    assert(sym_first_n(prods, s, SpecSymbol::Epsilon, n));
                    assert(in_first(prods, s, SpecSymbol::Epsilon));
                }
            }
        }
        fs
    }
}

} // verus!
