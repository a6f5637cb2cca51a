//! LR(1) items: a production with a dot position and a single
//! lookahead symbol.

use vstd::prelude::*;

use crate::first::FirstSets;
use crate::grammar::no_dup_syms;
use crate::grammar::Grammar;
use crate::prod::seq_has_prod;
use crate::prod::Production;
use crate::prod::SpecProd;
use crate::symbol::contains_sym;
use crate::symbol::seq_has_sym;
use crate::symbol::views_of;
use crate::symbol::SpecSymbol;
use crate::symbol::Symbol;

verus! {

/// An LR(1) item `[A -> alpha . beta, a]`: the parser has recognized
/// `alpha` and expects `beta` followed by the lookahead `a`.
#[derive(Debug)]
pub struct LR1Item {
    pub production: Production,
    pub dot_position: usize,
    pub lookahead: Symbol,
}

/// The mathematical value of an [`LR1Item`].
pub struct SpecItem {
    pub production: SpecProd,
    pub dot: int,
    pub lookahead: SpecSymbol,
}

impl View for LR1Item {
    type V = SpecItem;

    open spec fn view(&self) -> SpecItem {
        SpecItem {
            production: self.production@,
            dot: self.dot_position as int,
            lookahead: self.lookahead@,
        }
    }
}

impl Clone for LR1Item {
    fn clone(&self) -> (r: LR1Item)
        ensures
            r@ == self@,
    {
        LR1Item {
            production: self.production.clone(),
            dot_position: self.dot_position,
            lookahead: self.lookahead.clone(),
        }
    }
}

impl PartialEq for LR1Item {
    fn eq(&self, other: &LR1Item) -> (r: bool) {
        self.dot_position == other.dot_position && &self.lookahead == &other.lookahead
            && &self.production == &other.production
    }
}

impl vstd::std_specs::cmp::PartialEqSpecImpl for LR1Item {
    open spec fn obeys_eq_spec() -> bool {
        true
    }

    open spec fn eq_spec(&self, other: &LR1Item) -> bool {
        self@ == other@
    }
}

impl Eq for LR1Item {}

/// The views of a sequence of items.
pub open spec fn items_of(s: Seq<LR1Item>) -> Seq<SpecItem> {
    s.map_values(|it: LR1Item| it@)
}

/// Whether some item of `v` has the view `it`.
pub open spec fn seq_has_item(v: Seq<LR1Item>, it: SpecItem) -> bool {
    exists|i: int| 0 <= i < v.len() && v[i]@ == it
}

/// No two items of `v` share a view.
pub open spec fn no_dup_items(v: Seq<LR1Item>) -> bool {
    forall|i: int, j: int| 0 <= i < j < v.len() ==> v[i]@ != v[j]@
}

/// Linear membership test against the views of `v`.
pub fn contains_item(v: &Vec<LR1Item>, it: &LR1Item) -> (r: bool)
    ensures
        r == seq_has_item(v@, it@),
{
    let mut i: usize = 0;
    while i < v.len()
        invariant
            0 <= i <= v@.len(),
            forall|j: int| 0 <= j < i ==> v@[j]@ != it@,
        decreases v@.len() - i,
    {
        if &v[i] == it {
            return true;
        }
        i = i + 1;
    }
    false
}

// ---------------------------------------------------------------------------
// FIRST of a symbol string followed by a lookahead.
// ---------------------------------------------------------------------------
/// Membership in FIRST(`beta` `a`) with the empty-string marker removed:
/// walking `beta` left to right, `x` is a non-empty FIRST member of the
/// first symbols as long as they derive the empty string; if every
/// symbol of `beta` does, `x` may also be `a` itself.
pub open spec fn first_of_seq_has(
    fs: FirstSets,
    beta: Seq<SpecSymbol>,
    a: SpecSymbol,
    x: SpecSymbol,
) -> bool
    decreases beta.len(),
{
    if beta.len() == 0 {
        x == a
    } else {
        (fs.first_has(beta[0], x) && x != SpecSymbol::Epsilon) || (fs.first_has(
            beta[0],
            SpecSymbol::Epsilon,
        ) && first_of_seq_has(fs, beta.drop_first(), a, x))
    }
}

/// The running relation of the FIRST-of-string walk: the members
/// gathered so far in `r`, together with the rest of the walk when the
/// prefix so far is nullable, are exactly FIRST of the whole string.
pub open spec fn fo_walk_inv(
    fs: FirstSets,
    bv: Seq<SpecSymbol>,
    a: SpecSymbol,
    r: Seq<Symbol>,
    open: bool,
    start: int,
    j: int,
) -> bool {
    forall|x: SpecSymbol|
        #![auto]
        first_of_seq_has(fs, bv.skip(start), a, x) <==> (seq_has_sym(r, x) || (open
            && first_of_seq_has(fs, bv.skip(j), a, x)))
}

/// Compute the members of FIRST(`rhs[start..]` `a`), without the
/// empty-string marker, as a duplicate-free vector.
fn first_of_seq_exec(fs: &FirstSets, rhs: &Vec<Symbol>, start: usize, a: &Symbol) -> (r: Vec<
    Symbol,
>)
    requires
        fs.basic_wf(),
        start <= rhs@.len(),
        forall|j: int| start <= j < rhs@.len() ==> fs.spec_has_key((#[trigger] rhs@[j])@),
        a@ != SpecSymbol::Epsilon,
    ensures
        no_dup_syms(r@),
        forall|x: SpecSymbol|
            #![auto]
            seq_has_sym(r@, x) <==> first_of_seq_has(*fs, views_of(rhs@).skip(start as int), a@, x),
{
    let ghost bv = views_of(rhs@);
    let eps = Symbol::Epsilon;
    let mut r: Vec<Symbol> = Vec::new();
    let mut j: usize = start;
    let mut open = true;
    while j < rhs.len() && open
        invariant
            fs.basic_wf(),
            start <= j <= rhs@.len(),
            bv == views_of(rhs@),
            eps@ == SpecSymbol::Epsilon,
            a@ != SpecSymbol::Epsilon,
            forall|j2: int| start <= j2 < rhs@.len() ==> fs.spec_has_key((#[trigger] rhs@[j2])@),
            no_dup_syms(r@),
            forall|i: int| 0 <= i < r@.len() ==> (#[trigger] r@[i])@ != SpecSymbol::Epsilon,
            fo_walk_inv(*fs, bv, a@, r@, open, start as int, j as int),
        decreases rhs@.len() - j,
    {
        let idx = fs.find(&rhs[j]).unwrap();
        let row = fs.vals[idx].clone();
        proof {
            assert(views_of(row@) =~= views_of(fs.vals@[idx as int]@));
            assert(bv.skip(j as int)[0] == bv[j as int]);
            assert(bv.skip(j as int).drop_first() =~= bv.skip(j as int + 1));
            crate::first::lemma_key_index_of(*fs, idx as int);
            assert forall|y: SpecSymbol| views_of(row@).contains(y) implies fs.first_has(
                bv[j as int],
                y,
            ) by {
                let q = choose|q: int| 0 <= q < views_of(row@).len() && views_of(row@)[q] == y;
                assert(fs.vals@[idx as int]@[q]@ == y);
            }
            assert forall|y: SpecSymbol| fs.first_has(bv[j as int], y) implies views_of(
                row@,
            ).contains(y) by {
                let q = choose|q: int|
                    0 <= q < fs.vals@[idx as int]@.len() && fs.vals@[idx as int]@[q]@ == y;
                assert(views_of(row@)[q] == y);
            }
        }
        let ghost r0 = r;
        let mut q: usize = 0;
        while q < row.len()
            invariant
                0 <= q <= row@.len(),
                no_dup_syms(r@),
                forall|i: int| 0 <= i < r@.len() ==> (#[trigger] r@[i])@ != SpecSymbol::Epsilon,
                forall|x: SpecSymbol|
                    #![auto]
                    seq_has_sym(r@, x) <==> (seq_has_sym(r0@, x) || (exists|q2: int|
                        0 <= q2 < q && (#[trigger] row@[q2])@ == x && x != SpecSymbol::Epsilon)),
            decreases row@.len() - q,
        {
            if !matches!(&row[q], Symbol::Epsilon) {
                if !contains_sym(&r, &row[q]) {
                    let ghost rp = r;
                    r.push(row[q].clone());
                    proof {
                        let n = rp@.len() as int;
                        assert(r@[n]@ == row@[q as int]@);
                        assert forall|x: SpecSymbol|
                            #![auto]
                            seq_has_sym(r@, x) <==> (seq_has_sym(r0@, x) || (exists|q2: int|
                                0 <= q2 < q + 1 && (#[trigger] row@[q2])@ == x && x
                                    != SpecSymbol::Epsilon)) by {
                            if seq_has_sym(r@, x) {
                                let i2 = choose|i2: int| 0 <= i2 < r@.len() && r@[i2]@ == x;
                                if i2 < n {
                                    assert(rp@[i2]@ == x);
                                    assert(seq_has_sym(rp@, x));
                                } else {
                                    assert(row@[q as int]@ == x);
                                }
                            }
                            if seq_has_sym(r0@, x) || (exists|q2: int|
                                0 <= q2 < q + 1 && (#[trigger] row@[q2])@ == x && x
                                    != SpecSymbol::Epsilon) {
                                if seq_has_sym(rp@, x) {
                                    let i3 = choose|i3: int| 0 <= i3 < rp@.len() && rp@[i3]@ == x;
                                    assert(r@[i3]@ == x);
                                } else {
                                    assert(r@[n]@ == x);
                                }
                            }
                        }
                    }
                }
            }
            q = q + 1;
        }
        open = fs.val_has(idx, &eps);
        proof {
            if open {
                assert(views_of(row@).contains(SpecSymbol::Epsilon)) by {
                    let q2 = choose|q2: int|
                        0 <= q2 < fs.vals@[idx as int]@.len() && fs.vals@[idx as int]@[q2]@
                            == SpecSymbol::Epsilon;
                    assert(views_of(row@)[q2] == SpecSymbol::Epsilon);
                }
                assert(fs.first_has(bv[j as int], SpecSymbol::Epsilon));
            } else {
                assert(!fs.first_has(bv[j as int], SpecSymbol::Epsilon));
            }
            assert forall|x: SpecSymbol|
                #![auto]
                first_of_seq_has(*fs, bv.skip(start as int), a@, x) <==> (seq_has_sym(r@, x) || (
            open && first_of_seq_has(*fs, bv.skip(j as int + 1), a@, x))) by {
                assert(first_of_seq_has(*fs, bv.skip(j as int), a@, x) == ((fs.first_has(
                    bv[j as int],
                    x,
                ) && x != SpecSymbol::Epsilon) || (fs.first_has(bv[j as int], SpecSymbol::Epsilon)
                    && first_of_seq_has(*fs, bv.skip(j as int + 1), a@, x))));
                if fs.first_has(bv[j as int], x) && x != SpecSymbol::Epsilon {
                    let q2 = choose|q2: int|
                        0 <= q2 < fs.vals@[idx as int]@.len() && fs.vals@[idx as int]@[q2]@ == x;
                    assert(row@[q2]@ == x);
                    assert(seq_has_sym(r@, x));
                }
                if seq_has_sym(r@, x) && !seq_has_sym(r0@, x) {
                    let q2 = choose|q2: int|
                        0 <= q2 < row@.len() && (#[trigger] row@[q2])@ == x && x
                            != SpecSymbol::Epsilon;
                    assert(fs.vals@[idx as int]@[q2]@ == x);
                    assert(fs.first_has(bv[j as int], x));
                }
            }
        }
        proof {
            assert(fo_walk_inv(*fs, bv, a@, r@, open, start as int, j as int + 1));
        }
        j = j + 1;
    }
    if open {
        proof {
            assert(j == rhs@.len());
            assert(bv.skip(j as int).len() == 0);
            assert forall|x: SpecSymbol| #![auto] first_of_seq_has(
                *fs,
                bv.skip(j as int),
                a@,
                x,
            ) <==> (x == a@) by {}
        }
        if !contains_sym(&r, a) {
            let ghost r1 = r;
            r.push(a.clone());
            proof {
                let n = r1@.len() as int;
                assert(r@[n]@ == a@);
                assert forall|x: SpecSymbol|
                    #![auto]
                    seq_has_sym(r@, x) <==> (seq_has_sym(r1@, x) || x == a@) by {
                    if seq_has_sym(r@, x) {
                        let i2 = choose|i2: int| 0 <= i2 < r@.len() && r@[i2]@ == x;
                        if i2 < n {
                            assert(r1@[i2]@ == x);
                        }
                    }
                    if seq_has_sym(r1@, x) {
                        let i3 = choose|i3: int| 0 <= i3 < r1@.len() && r1@[i3]@ == x;
                        assert(r@[i3]@ == x);
                    }
                    if x == a@ {
                        assert(r@[n]@ == x);
                    }
                }
            }
        }
    }
    proof {
        assert(views_of(rhs@).skip(start as int) == bv.skip(start as int));
    }
    r
}

// ---------------------------------------------------------------------------
// Closure of an item set.
// ---------------------------------------------------------------------------
/// The item set at `pi`, dot at the start, with lookahead `b`.
pub open spec fn expansion_of(g: Grammar, pi: int, b: SpecSymbol) -> SpecItem {
    SpecItem { production: g.productions@[pi]@, dot: 0, lookahead: b }
}

/// Item `it` asks for the expansion of production `pi` under lookahead
/// `b`: the dot stands before a non-terminal that heads production
/// `pi`, and `b` is in FIRST of what follows the dot, capped by the
/// item's own lookahead.
pub open spec fn item_expands_to(
    g: Grammar,
    fs: FirstSets,
    it: SpecItem,
    pi: int,
    b: SpecSymbol,
) -> bool {
    &&& 0 <= it.dot < it.production.rhs.len()
    &&& it.production.rhs[it.dot] is NonTerminal
    &&& 0 <= pi < g.productions@.len()
    &&& g.productions@[pi]@.lhs == it.production.rhs[it.dot]
    &&& first_of_seq_has(fs, it.production.rhs.skip(it.dot + 1), it.lookahead, b)
}

/// Every expansion asked for by an item of `c` is already in `c`.
pub open spec fn closure_closed(g: Grammar, fs: FirstSets, c: Seq<LR1Item>) -> bool {
    forall|i: int, pi: int, b: SpecSymbol|
        0 <= i < c.len() && #[trigger] item_expands_to(g, fs, c[i]@, pi, b) ==> seq_has_item(
            c,
            expansion_of(g, pi, b),
        )
}

/// Closure condition on a mathematical set of items.
pub open spec fn set_closed(g: Grammar, fs: FirstSets, s: Set<SpecItem>) -> bool {
    forall|it: SpecItem, pi: int, b: SpecSymbol|
        s.contains(it) && #[trigger] item_expands_to(g, fs, it, pi, b) ==> s.contains(
            expansion_of(g, pi, b),
        )
}

/// `b` is a registered terminal or the lookahead of some seed item.
pub open spec fn la_in_universe(g: Grammar, seed: Seq<LR1Item>, b: SpecSymbol) -> bool {
    seq_has_sym(g.terminals@, b) || exists|j: int|
        0 <= j < seed.len() && (#[trigger] seed[j])@.lookahead == b
}

/// What a closure may contain: a seed item, or a fresh expansion of a
/// grammar production whose lookahead comes from the closure's
/// lookahead universe.
pub open spec fn closure_member_ok(g: Grammar, seed: Seq<LR1Item>, it: SpecItem) -> bool {
    seq_has_item(seed, it) || (it.dot == 0 && seq_has_prod(g.productions@, it.production)
        && la_in_universe(g, seed, it.lookahead))
}

/// The lookaheads of a sequence of items.
pub open spec fn lookaheads_of(s: Seq<LR1Item>) -> Seq<SpecSymbol> {
    s.map_values(|it: LR1Item| it@.lookahead)
}

/// All dot-at-start items of one production over a list of lookaheads.
pub open spec fn row_items(p: SpecProd, las: Seq<SpecSymbol>) -> Seq<SpecItem>
    decreases las.len(),
{
    if las.len() == 0 {
        Seq::empty()
    } else {
        row_items(p, las.drop_last()).push(
            SpecItem { production: p, dot: 0, lookahead: las.last() },
        )
    }
}

/// All dot-at-start items over productions and lookaheads.
pub open spec fn combo_items(ps: Seq<SpecProd>, las: Seq<SpecSymbol>) -> Seq<SpecItem>
    decreases ps.len(),
{
    if ps.len() == 0 {
        Seq::empty()
    } else {
        combo_items(ps.drop_last(), las) + row_items(ps.last(), las)
    }
}

proof fn lemma_row_contains(p: SpecProd, las: Seq<SpecSymbol>, lj: int)
    requires
        0 <= lj < las.len(),
    ensures
        row_items(p, las).contains(SpecItem { production: p, dot: 0, lookahead: las[lj] }),
    decreases las.len(),
{
    let it = SpecItem { production: p, dot: 0, lookahead: las[lj] };
    if lj == las.len() - 1 {
        let r = row_items(p, las);
        assert(r[r.len() - 1] == it);
    } else {
        lemma_row_contains(p, las.drop_last(), lj);
        let r0 = row_items(p, las.drop_last());
        let w = choose|w: int| 0 <= w < r0.len() && r0[w] == it;
        assert(row_items(p, las)[w] == it);
    }
}

proof fn lemma_combo_contains(ps: Seq<SpecProd>, las: Seq<SpecSymbol>, pi: int, lj: int)
    requires
        0 <= pi < ps.len(),
        0 <= lj < las.len(),
    ensures
        combo_items(ps, las).contains(
            SpecItem { production: ps[pi], dot: 0, lookahead: las[lj] },
        ),
    decreases ps.len(),
{
    let it = SpecItem { production: ps[pi], dot: 0, lookahead: las[lj] };
    if pi == ps.len() - 1 {
        lemma_row_contains(ps[pi], las, lj);
        let r = row_items(ps[pi], las);
        let w = choose|w: int| 0 <= w < r.len() && r[w] == it;
        assert(combo_items(ps, las)[combo_items(ps.drop_last(), las).len() + w] == it);
    } else {
        lemma_combo_contains(ps.drop_last(), las, pi, lj);
        let c0 = combo_items(ps.drop_last(), las);
        let w = choose|w: int| 0 <= w < c0.len() && c0[w] == it;
        assert(combo_items(ps, las)[w] == it);
    }
}

/// A duplicate-free item vector drawn from a candidate list is no
/// longer than the list.
proof fn lemma_unique_in_cand(c: Seq<LR1Item>, cand: Seq<SpecItem>)
    requires
        no_dup_items(c),
        forall|i: int| 0 <= i < c.len() ==> cand.contains((#[trigger] c[i])@),
    ensures
        c.len() <= cand.len(),
{
    broadcast use vstd::seq_lib::group_seq_properties;
    broadcast use vstd::set_lib::group_set_lib_default;

    let cv = items_of(c);
    assert(cv.no_duplicates()) by {
        assert(forall|i: int, j: int| 0 <= i < j < c.len() ==> cv[i] != cv[j]);
    }
    cv.unique_seq_to_set();
    cand.lemma_cardinality_of_set();
    assert(cv.to_set().subset_of(cand.to_set())) by {
        assert forall|x: SpecItem| cv.to_set().contains(x) implies cand.to_set().contains(x) by {
            let i = choose|i: int| 0 <= i < cv.len() && cv[i] == x;
            assert(cand.contains(c[i]@));
        }
    }
    vstd::set_lib::lemma_len_subset(cv.to_set(), cand.to_set());
}

/// Whatever FIRST of a string contributes is the trailing lookahead or
/// a registered terminal.
proof fn lemma_first_of_seq_universe(
    g: Grammar,
    fs: FirstSets,
    beta: Seq<SpecSymbol>,
    a: SpecSymbol,
    x: SpecSymbol,
)
    requires
        first_of_seq_has(fs, beta, a, x),
        forall|s: SpecSymbol, y: SpecSymbol|
            #[trigger] fs.first_has(s, y) ==> (y == SpecSymbol::Epsilon || (y is Terminal
                && seq_has_sym(g.terminals@, y))),
    ensures
        x == a || (x is Terminal && seq_has_sym(g.terminals@, x)),
    decreases beta.len(),
{
    if beta.len() > 0 {
        if !(fs.first_has(beta[0], x) && x != SpecSymbol::Epsilon) {
            lemma_first_of_seq_universe(g, fs, beta.drop_first(), a, x);
        }
    }
}

/// An item's right-hand side has a FIRST row for every symbol after
/// the dot's successor position.
pub open spec fn item_keys_ok(fs: FirstSets, it: SpecItem) -> bool {
    forall|j: int|
        it.dot + 1 <= j < it.production.rhs.len() ==> fs.spec_has_key(
            #[trigger] it.production.rhs[j],
        )
}

/// Membership in a sequence survives a push.
proof fn lemma_has_item_push(c: Seq<LR1Item>, e: LR1Item, x: SpecItem)
    requires
        seq_has_item(c, x),
    ensures
        seq_has_item(c.push(e), x),
{
    let i = choose|i: int| 0 <= i < c.len() && c[i]@ == x;
    assert(c.push(e)[i]@ == x);
}

/// Compute the closure of `seed` under the LR(1) expansion rule: for
/// every item whose dot stands before a non-terminal `B`, every
/// production of `B` enters with the dot at the start, once for each
/// lookahead in FIRST of what follows `B` capped by the item's own
/// lookahead; and so on until nothing more can be added. The result is
/// duplicate-free, contains the seed, is closed, and is contained in
/// every closed superset of the seed: the least closed set.
pub fn closure_items(grammar: &Grammar, fs: &FirstSets, seed: &Vec<LR1Item>) -> (c: Vec<LR1Item>)
    requires
        grammar.wf(),
        fs.basic_wf(),
        fs.covers(*grammar),
        forall|s: SpecSymbol, y: SpecSymbol|
            #[trigger] fs.first_has(s, y) ==> (y == SpecSymbol::Epsilon || (y is Terminal
                && seq_has_sym(grammar.terminals@, y))),
        forall|i: int|
            0 <= i < seed@.len() ==> (((#[trigger] seed@[i])@.lookahead is Terminal) || (
            seed@[i]@.lookahead is EndMarker)),
        forall|i: int| 0 <= i < seed@.len() ==> item_keys_ok(*fs, (#[trigger] seed@[i])@),
    ensures
        no_dup_items(c@),
        forall|i: int| 0 <= i < seed@.len() ==> seq_has_item(c@, (#[trigger] seed@[i])@),
        closure_closed(*grammar, *fs, c@),
        forall|i: int|
            0 <= i < c@.len() ==> closure_member_ok(*grammar, seed@, (#[trigger] c@[i])@),
        forall|i: int|
            0 <= i < c@.len() ==> (((#[trigger] c@[i])@.lookahead is Terminal) || (
            c@[i]@.lookahead is EndMarker)),
        forall|s: Set<SpecItem>|
            ((forall|si: int| 0 <= si < seed@.len() ==> s.contains((#[trigger] seed@[si])@))
                && #[trigger] set_closed(*grammar, *fs, s)) ==> (forall|i: int|
                0 <= i < c@.len() ==> s.contains((#[trigger] c@[i])@)),
{
    let ghost ps = crate::prod::prods_of(grammar.productions@);
    let ghost lau = views_of(grammar.terminals@) + lookaheads_of(seed@);
    let ghost cand = items_of(seed@) + combo_items(ps, lau);

    let mut c: Vec<LR1Item> = Vec::new();
    let mut si: usize = 0;
    while si < seed.len()
        invariant
            0 <= si <= seed@.len(),
            no_dup_items(c@),
            forall|i: int| 0 <= i < si ==> seq_has_item(c@, (#[trigger] seed@[i])@),
            forall|i: int| 0 <= i < c@.len() ==> seq_has_item(seed@, (#[trigger] c@[i])@),
        decreases seed@.len() - si,
    {
        if !contains_item(&c, &seed[si]) {
            let ghost c0 = c;
            c.push(seed[si].clone());
            proof {
                let n = c0@.len() as int;
                assert(c@[n]@ == seed@[si as int]@);
                assert forall|i: int| 0 <= i < si + 1 implies seq_has_item(
                    c@,
                    (#[trigger] seed@[i])@,
                ) by {
                    if i < si {
                        lemma_has_item_push(c0@, c@[n], seed@[i]@);
                        assert(c@ == c0@.push(c@[n]));
                    }
                }
                assert forall|i: int| 0 <= i < c@.len() implies seq_has_item(
                    seed@,
                    (#[trigger] c@[i])@,
                ) by {
                    if i < n {
                        assert(c@[i] == c0@[i]);
                    } else {
                        assert(c@[i]@ == seed@[si as int]@);
                    }
                }
            }
        }
        si = si + 1;
    }

    proof {
        assert forall|i: int| 0 <= i < c@.len() implies cand.contains((#[trigger] c@[i])@)
            && closure_member_ok(*grammar, seed@, c@[i]@) && (((c@[i])@.lookahead is Terminal)
            || (c@[i]@.lookahead is EndMarker)) && item_keys_ok(*fs, c@[i]@) by {
            let j = choose|j: int| 0 <= j < seed@.len() && seed@[j]@ == c@[i]@;
            assert(items_of(seed@)[j] == c@[i]@);
            assert(cand[j] == c@[i]@);
        }
        lemma_unique_in_cand(c@, cand);
    }

    let mut i: usize = 0;
    while i < c.len()
        invariant
            grammar.wf(),
            fs.basic_wf(),
            fs.covers(*grammar),
            forall|s: SpecSymbol, y: SpecSymbol|
                #[trigger] fs.first_has(s, y) ==> (y == SpecSymbol::Epsilon || (y is Terminal
                    && seq_has_sym(grammar.terminals@, y))),
            forall|i2: int|
                0 <= i2 < seed@.len() ==> (((#[trigger] seed@[i2])@.lookahead is Terminal) || (
                seed@[i2]@.lookahead is EndMarker)),
            forall|i2: int| 0 <= i2 < seed@.len() ==> item_keys_ok(*fs, (#[trigger] seed@[i2])@),
            ps == crate::prod::prods_of(grammar.productions@),
            lau == views_of(grammar.terminals@) + lookaheads_of(seed@),
            cand == items_of(seed@) + combo_items(ps, lau),
            0 <= i <= c@.len(),
            c@.len() <= cand.len(),
            no_dup_items(c@),
            forall|i2: int| 0 <= i2 < seed@.len() ==> seq_has_item(c@, (#[trigger] seed@[i2])@),
            forall|i2: int| 0 <= i2 < c@.len() ==> cand.contains((#[trigger] c@[i2])@),
            forall|i2: int|
                0 <= i2 < c@.len() ==> closure_member_ok(*grammar, seed@, (#[trigger] c@[i2])@),
            forall|i2: int|
                0 <= i2 < c@.len() ==> (((#[trigger] c@[i2])@.lookahead is Terminal) || (
                c@[i2]@.lookahead is EndMarker)),
            forall|i2: int| 0 <= i2 < c@.len() ==> item_keys_ok(*fs, (#[trigger] c@[i2])@),
            forall|i2: int, pi: int, b: SpecSymbol|
                0 <= i2 < i && #[trigger] item_expands_to(*grammar, *fs, c@[i2]@, pi, b)
                    ==> seq_has_item(c@, expansion_of(*grammar, pi, b)),
            forall|s: Set<SpecItem>|
                ((forall|si2: int| 0 <= si2 < seed@.len() ==> s.contains((#[trigger] seed@[si2])@))
                    && #[trigger] set_closed(*grammar, *fs, s)) ==> (forall|i2: int|
                    0 <= i2 < c@.len() ==> s.contains((#[trigger] c@[i2])@)),
        decreases cand.len() - c@.len(), c@.len() - i,
    {
        let ghost curit = c@[i as int]@;
        let ghost clen0 = c@.len();
        let di = c[i].dot_position;
        let has_next = di < c[i].production.rhs.len();
        if has_next && matches!(&c[i].production.rhs[di], Symbol::NonTerminal(_)) {
            proof {
                assert(curit.production.rhs[di as int] == (c@[i as int].production.rhs@[
                    di as int
                ])@);
                assert(curit.production.rhs[di as int] is NonTerminal);
                assert(item_keys_ok(*fs, curit));
                assert(curit.lookahead != SpecSymbol::Epsilon);
                assert forall|j: int|
                    di + 1 <= j < c@[i as int].production.rhs@.len() implies fs.spec_has_key(
                    (#[trigger] c@[i as int].production.rhs@[j])@,
                ) by {
                    assert(curit.production.rhs[j] == (c@[i as int].production.rhs@[j])@);
                }
            }
            let las = first_of_seq_exec(fs, &c[i].production.rhs, di + 1, &c[i].lookahead);
            let ghost lasv = las@;
            proof {
                assert(views_of(c@[i as int].production.rhs@).skip(di + 1 as int)
                    == curit.production.rhs.skip(curit.dot + 1));
            }
            let mut pi: usize = 0;
            while pi < grammar.productions.len()
                invariant
                    grammar.wf(),
                    fs.basic_wf(),
                    fs.covers(*grammar),
                    forall|s: SpecSymbol, y: SpecSymbol|
                        #[trigger] fs.first_has(s, y) ==> (y == SpecSymbol::Epsilon || (y
                            is Terminal && seq_has_sym(grammar.terminals@, y))),
                    forall|i2: int|
                        0 <= i2 < seed@.len() ==> (((#[trigger] seed@[i2])@.lookahead is Terminal)
                            || (seed@[i2]@.lookahead is EndMarker)),
                    forall|i2: int|
                        0 <= i2 < seed@.len() ==> item_keys_ok(*fs, (#[trigger] seed@[i2])@),
                    ps == crate::prod::prods_of(grammar.productions@),
                    lau == views_of(grammar.terminals@) + lookaheads_of(seed@),
                    cand == items_of(seed@) + combo_items(ps, lau),
                    0 <= i < c@.len(),
                    c@.len() >= clen0,
                    curit == c@[i as int]@,
                    di == curit.dot,
                    0 <= curit.dot < curit.production.rhs.len(),
                    curit.production.rhs[curit.dot] is NonTerminal,
                    curit.lookahead is Terminal || curit.lookahead is EndMarker,
                    closure_member_ok(*grammar, seed@, curit),
                    lasv == las@,
                    no_dup_syms(las@),
                    forall|x: SpecSymbol|
                        #![auto]
                        seq_has_sym(las@, x) <==> first_of_seq_has(
                            *fs,
                            curit.production.rhs.skip(curit.dot + 1),
                            curit.lookahead,
                            x,
                        ),
                    c@.len() <= cand.len(),
                    no_dup_items(c@),
                    forall|i2: int|
                        0 <= i2 < seed@.len() ==> seq_has_item(c@, (#[trigger] seed@[i2])@),
                    forall|i2: int| 0 <= i2 < c@.len() ==> cand.contains((#[trigger] c@[i2])@),
                    forall|i2: int|
                        0 <= i2 < c@.len() ==> closure_member_ok(
                            *grammar,
                            seed@,
                            (#[trigger] c@[i2])@,
                        ),
                    forall|i2: int|
                        0 <= i2 < c@.len() ==> (((#[trigger] c@[i2])@.lookahead is Terminal) || (
                        c@[i2]@.lookahead is EndMarker)),
                    forall|i2: int| 0 <= i2 < c@.len() ==> item_keys_ok(*fs, (#[trigger] c@[i2])@),
                    forall|i2: int, pi2: int, b: SpecSymbol|
                        0 <= i2 < i && #[trigger] item_expands_to(*grammar, *fs, c@[i2]@, pi2, b)
                            ==> seq_has_item(c@, expansion_of(*grammar, pi2, b)),
                    forall|s: Set<SpecItem>|
                        ((forall|si2: int|
                            0 <= si2 < seed@.len() ==> s.contains((#[trigger] seed@[si2])@))
                            && #[trigger] set_closed(*grammar, *fs, s)) ==> (forall|i2: int|
                            0 <= i2 < c@.len() ==> s.contains((#[trigger] c@[i2])@)),
                    0 <= pi <= grammar.productions@.len(),
                    forall|pi2: int, b: SpecSymbol|
                        0 <= pi2 < pi && #[trigger] item_expands_to(*grammar, *fs, curit, pi2, b)
                            ==> seq_has_item(c@, expansion_of(*grammar, pi2, b)),
                decreases grammar.productions@.len() - pi,
            {
                if &grammar.productions[pi].lhs == &c[i].production.rhs[di] {
                    proof {
                        assert(curit.production.rhs[curit.dot] == (c@[i as int].production.rhs@[
                            di as int
                        ])@);
                        assert(grammar.productions@[pi as int]@.lhs == curit.production.rhs[
                            curit.dot
                        ]);
                    }
                    let mut lj: usize = 0;
                    while lj < las.len()
                        invariant
                            grammar.wf(),
                            fs.basic_wf(),
                            fs.covers(*grammar),
                            forall|s: SpecSymbol, y: SpecSymbol|
                                #[trigger] fs.first_has(s, y) ==> (y == SpecSymbol::Epsilon || (y
                                    is Terminal && seq_has_sym(grammar.terminals@, y))),
                            forall|i2: int|
                                0 <= i2 < seed@.len() ==> (((
                                #[trigger] seed@[i2])@.lookahead is Terminal) || (
                                seed@[i2]@.lookahead is EndMarker)),
                            forall|i2: int|
                                0 <= i2 < seed@.len() ==> item_keys_ok(
                                    *fs,
                                    (#[trigger] seed@[i2])@,
                                ),
                            ps == crate::prod::prods_of(grammar.productions@),
                            lau == views_of(grammar.terminals@) + lookaheads_of(seed@),
                            cand == items_of(seed@) + combo_items(ps, lau),
                            0 <= i < c@.len(),
                            c@.len() >= clen0,
                            curit == c@[i as int]@,
                            di == curit.dot,
                            0 <= curit.dot < curit.production.rhs.len(),
                            curit.production.rhs[curit.dot] is NonTerminal,
                            curit.lookahead is Terminal || curit.lookahead is EndMarker,
                            closure_member_ok(*grammar, seed@, curit),
                            lasv == las@,
                            no_dup_syms(las@),
                            forall|x: SpecSymbol|
                                #![auto]
                                seq_has_sym(las@, x) <==> first_of_seq_has(
                                    *fs,
                                    curit.production.rhs.skip(curit.dot + 1),
                                    curit.lookahead,
                                    x,
                                ),
                            c@.len() <= cand.len(),
                            no_dup_items(c@),
                            forall|i2: int|
                                0 <= i2 < seed@.len() ==> seq_has_item(
                                    c@,
                                    (#[trigger] seed@[i2])@,
                                ),
                            forall|i2: int|
                                0 <= i2 < c@.len() ==> cand.contains((#[trigger] c@[i2])@),
                            forall|i2: int|
                                0 <= i2 < c@.len() ==> closure_member_ok(
                                    *grammar,
                                    seed@,
                                    (#[trigger] c@[i2])@,
                                ),
                            forall|i2: int|
                                0 <= i2 < c@.len() ==> (((#[trigger] c@[i2])@.lookahead
                                    is Terminal) || (c@[i2]@.lookahead is EndMarker)),
                            forall|i2: int|
                                0 <= i2 < c@.len() ==> item_keys_ok(*fs, (#[trigger] c@[i2])@),
                            forall|i2: int, pi2: int, b: SpecSymbol|
                                0 <= i2 < i && #[trigger] item_expands_to(
                                    *grammar,
                                    *fs,
                                    c@[i2]@,
                                    pi2,
                                    b,
                                ) ==> seq_has_item(c@, expansion_of(*grammar, pi2, b)),
                            forall|s: Set<SpecItem>|
                                ((forall|si2: int|
                                    0 <= si2 < seed@.len() ==> s.contains(
                                        (#[trigger] seed@[si2])@,
                                    )) && #[trigger] set_closed(*grammar, *fs, s)) ==> (
                                forall|i2: int|
                                    0 <= i2 < c@.len() ==> s.contains((#[trigger] c@[i2])@)),
                            forall|pi2: int, b: SpecSymbol|
                                0 <= pi2 < pi && #[trigger] item_expands_to(
                                    *grammar,
                                    *fs,
                                    curit,
                                    pi2,
                                    b,
                                ) ==> seq_has_item(c@, expansion_of(*grammar, pi2, b)),
                            0 <= pi < grammar.productions@.len(),
                            grammar.productions@[pi as int]@.lhs == curit.production.rhs[
                                curit.dot
                            ],
                            0 <= lj <= las@.len(),
                            forall|lj2: int|
                                0 <= lj2 < lj ==> seq_has_item(
                                    c@,
                                    expansion_of(*grammar, pi as int, (#[trigger] las@[lj2])@),
                                ),
                        decreases las@.len() - lj,
                    {
                        let cand_it = LR1Item {
                            production: grammar.productions[pi].clone(),
                            dot_position: 0,
                            lookahead: las[lj].clone(),
                        };
                        let ghost b = las@[lj as int]@;
                        proof {
                            assert(cand_it@ == expansion_of(*grammar, pi as int, b));
                            assert(seq_has_sym(las@, b));
                            assert(first_of_seq_has(
                                *fs,
                                curit.production.rhs.skip(curit.dot + 1),
                                curit.lookahead,
                                b,
                            ));
                            lemma_first_of_seq_universe(
                                *grammar,
                                *fs,
                                curit.production.rhs.skip(curit.dot + 1),
                                curit.lookahead,
                                b,
                            );
                        }
                        if !contains_item(&c, &cand_it) {
                            proof {
                                // The new item is a legitimate candidate.
                                assert(la_in_universe(*grammar, seed@, b)) by {
                                    if b != curit.lookahead {
                                    } else {
                                        if seq_has_item(seed@, curit) {
                                            let j = choose|j: int|
                                                0 <= j < seed@.len() && seed@[j]@ == curit;
                                            assert(seed@[j]@.lookahead == b);
                                        }
                                    }
                                }
                                assert(cand.contains(cand_it@)) by {
                                    let idx: int = if seq_has_sym(grammar.terminals@, b) {
                                        let ti = choose|ti: int|
                                            0 <= ti < grammar.terminals@.len()
                                                && grammar.terminals@[ti]@ == b;
                                        ti
                                    } else {
                                        let j = choose|j: int|
                                            0 <= j < seed@.len() && (#[trigger] seed@[j])@.lookahead
                                                == b;
                                        views_of(grammar.terminals@).len() + j
                                    };
                                    assert(0 <= idx < lau.len() && lau[idx] == b);
                                    assert(grammar.productions@[pi as int]@ == ps[pi as int]);
                                    lemma_combo_contains(ps, lau, pi as int, idx);
                                    let w = choose|w: int|
                                        0 <= w < combo_items(ps, lau).len() && combo_items(
                                            ps,
                                            lau,
                                        )[w] == cand_it@;
                                    assert(cand[items_of(seed@).len() + w] == cand_it@);
                                }
                                assert(item_keys_ok(*fs, cand_it@)) by {
                                    assert(grammar.prod_wf(grammar.productions@[pi as int]@));
                                    assert forall|j: int|
                                        cand_it@.dot + 1 <= j
                                            < cand_it@.production.rhs.len() implies fs.spec_has_key(
                                        #[trigger] cand_it@.production.rhs[j],
                                    ) by {
                                        assert((cand_it@.production.rhs[j] is Terminal
                                            && seq_has_sym(
                                            grammar.terminals@,
                                            cand_it@.production.rhs[j],
                                        )) || (cand_it@.production.rhs[j] is NonTerminal
                                            && seq_has_sym(
                                            grammar.non_terminals@,
                                            cand_it@.production.rhs[j],
                                        )));
                                    }
                                }
                                assert(item_expands_to(*grammar, *fs, curit, pi as int, b));
                            }
                            let ghost c0 = c;
                            c.push(cand_it);
                            proof {
                                let n = c0@.len() as int;
                                assert(c@[n]@ == expansion_of(*grammar, pi as int, b));
                                assert forall|i2: int|
                                    0 <= i2 < seed@.len() implies seq_has_item(
                                    c@,
                                    (#[trigger] seed@[i2])@,
                                ) by {
                                    lemma_has_item_push(c0@, c@[n], seed@[i2]@);
                                    assert(c@ == c0@.push(c@[n]));
                                }
                                assert forall|i2: int, pi2: int, b2: SpecSymbol|
                                    0 <= i2 < i && #[trigger] item_expands_to(
                                        *grammar,
                                        *fs,
                                        c@[i2]@,
                                        pi2,
                                        b2,
                                    ) implies seq_has_item(
                                    c@,
                                    expansion_of(*grammar, pi2, b2),
                                ) by {
                                    assert(c@[i2] == c0@[i2]);
                                    lemma_has_item_push(
                                        c0@,
                                        c@[n],
                                        expansion_of(*grammar, pi2, b2),
                                    );
                                    assert(c@ == c0@.push(c@[n]));
                                }
                                assert forall|lj2: int| 0 <= lj2 < lj + 1 implies seq_has_item(
                                    c@,
                                    expansion_of(*grammar, pi as int, (#[trigger] las@[lj2])@),
                                ) by {
                                    if lj2 < lj {
                                        lemma_has_item_push(
                                            c0@,
                                            c@[n],
                                            expansion_of(*grammar, pi as int, las@[lj2]@),
                                        );
                                        assert(c@ == c0@.push(c@[n]));
                                    }
                                }
                                assert forall|pi2: int, b2: SpecSymbol|
                                    0 <= pi2 < pi && #[trigger] item_expands_to(
                                        *grammar,
                                        *fs,
                                        curit,
                                        pi2,
                                        b2,
                                    ) implies seq_has_item(
                                    c@,
                                    expansion_of(*grammar, pi2, b2),
                                ) by {
                                    lemma_has_item_push(
                                        c0@,
                                        c@[n],
                                        expansion_of(*grammar, pi2, b2),
                                    );
                                    assert(c@ == c0@.push(c@[n]));
                                }
                                lemma_unique_in_cand(c@, cand);
                                assert forall|s: Set<SpecItem>|
                                    ((forall|si2: int|
                                        0 <= si2 < seed@.len() ==> s.contains(
                                            (#[trigger] seed@[si2])@,
                                        )) && #[trigger] set_closed(
                                        *grammar,
                                        *fs,
                                        s,
                                    )) implies (forall|i2: int|
                                    0 <= i2 < c@.len() ==> s.contains(
                                        (#[trigger] c@[i2])@,
                                    )) by {
                                    assert(s.contains(c0@[i as int]@));
                                    assert(s.contains(curit));
                                    assert(s.contains(expansion_of(*grammar, pi as int, b)));
                                    assert forall|i2: int| 0 <= i2 < c@.len() implies s.contains(
                                        (#[trigger] c@[i2])@,
                                    ) by {
                                        if i2 < n {
                                            assert(c@[i2] == c0@[i2]);
                                        }
                                    }
                                }
                            }
                        } else {
                            proof {
                                assert(seq_has_item(c@, expansion_of(*grammar, pi as int, b)));
                            }
                        }
                        lj = lj + 1;
                    }
                    proof {
                        assert forall|pi2: int, b2: SpecSymbol|
                            0 <= pi2 < pi + 1 && #[trigger] item_expands_to(
                                *grammar,
                                *fs,
                                curit,
                                pi2,
                                b2,
                            ) implies seq_has_item(c@, expansion_of(*grammar, pi2, b2)) by {
                            if pi2 == pi {
                                assert(seq_has_sym(las@, b2));
                                let lj2 = choose|lj2: int|
                                    0 <= lj2 < las@.len() && las@[lj2]@ == b2;
                            }
                        }
                    }
                } else {
                    proof {
                        assert forall|pi2: int, b2: SpecSymbol|
                            0 <= pi2 < pi + 1 && #[trigger] item_expands_to(
                                *grammar,
                                *fs,
                                curit,
                                pi2,
                                b2,
                            ) implies seq_has_item(c@, expansion_of(*grammar, pi2, b2)) by {
                            if pi2 == pi {
                                assert(grammar.productions@[pi as int]@.lhs
                                    == (grammar.productions@[pi as int].lhs)@);
                                assert(false);
                            }
                        }
                    }
                }
                pi = pi + 1;
            }
            proof {
                assert forall|pi2: int, b2: SpecSymbol| #[trigger]
                    item_expands_to(*grammar, *fs, curit, pi2, b2) implies seq_has_item(
                    c@,
                    expansion_of(*grammar, pi2, b2),
                ) by {}
            }
        } else {
            proof {
                assert forall|pi2: int, b2: SpecSymbol| #[trigger]
                    item_expands_to(*grammar, *fs, curit, pi2, b2) implies seq_has_item(
                    c@,
                    expansion_of(*grammar, pi2, b2),
                ) by {
                    if has_next {
                        assert(curit.production.rhs[curit.dot] == (c@[i as int].production.rhs@[
                            di as int
                        ])@);
                        assert(!(curit.production.rhs[curit.dot] is NonTerminal));
                    }
                    assert(false);
                }
            }
        }
        i = i + 1;
    }
    c
}


impl LR1Item {
    /// The closure of this single item over a grammar with its
    /// precomputed FIRST sets: the least set that contains the item
    /// and, for every member with the dot before a non-terminal, every
    /// expansion of that non-terminal's productions under the
    /// lookaheads FIRST allows.
    pub fn closure(&self, grammar: &Grammar, first: &FirstSets) -> (c: Vec<LR1Item>)
        requires
            grammar.wf(),
            first.basic_wf(),
            first.covers(*grammar),
            forall|s: SpecSymbol, y: SpecSymbol|
                #[trigger] first.first_has(s, y) ==> (y == SpecSymbol::Epsilon || (y is Terminal
                    && seq_has_sym(grammar.terminals@, y))),
            self@.lookahead is Terminal || self@.lookahead is EndMarker,
            item_keys_ok(*first, self@),
        ensures
            no_dup_items(c@),
            seq_has_item(c@, self@),
            closure_closed(*grammar, *first, c@),
            forall|i: int|
                0 <= i < c@.len() ==> ((#[trigger] c@[i])@ == self@ || (c@[i]@.dot == 0
                    && seq_has_prod(grammar.productions@, c@[i]@.production) && (seq_has_sym(
                    grammar.terminals@,
                    c@[i]@.lookahead,
                ) || c@[i]@.lookahead == self@.lookahead))),
            forall|s: Set<SpecItem>|
                (s.contains(self@) && #[trigger] set_closed(*grammar, *first, s)) ==> (forall|
                    i: int,
                |
                    0 <= i < c@.len() ==> s.contains((#[trigger] c@[i])@)),
    {
        let mut seedv: Vec<LR1Item> = Vec::new();
        seedv.push(self.clone());
        let c = closure_items(grammar, first, &seedv);
        proof {
            assert(seedv@[0]@ == self@);
            assert(seq_has_item(c@, seedv@[0]@));
            assert forall|i: int|
                0 <= i < c@.len() implies ((#[trigger] c@[i])@ == self@ || (c@[i]@.dot == 0
                && seq_has_prod(grammar.productions@, c@[i]@.production) && (seq_has_sym(
                grammar.terminals@,
                c@[i]@.lookahead,
            ) || c@[i]@.lookahead == self@.lookahead))) by {
                assert(closure_member_ok(*grammar, seedv@, c@[i]@));
                if seq_has_item(seedv@, c@[i]@) {
                    let u = choose|u: int| 0 <= u < seedv@.len() && seedv@[u]@ == c@[i]@;
                    assert(u == 0);
                } else {
                    if !seq_has_sym(grammar.terminals@, c@[i]@.lookahead) {
                        let u = choose|u: int|
                            0 <= u < seedv@.len() && (#[trigger] seedv@[u])@.lookahead
                                == c@[i]@.lookahead;
                        assert(u == 0);
                    }
                }
            }
            assert forall|s: Set<SpecItem>|
                (s.contains(self@) && #[trigger] set_closed(*grammar, *first, s)) implies (forall|
                i: int,
            |
                0 <= i < c@.len() ==> s.contains((#[trigger] c@[i])@)) by {
                assert forall|si: int| 0 <= si < seedv@.len() implies s.contains(
                    (#[trigger] seedv@[si])@,
                ) by {
                    assert(si == 0);
                }
            }
        }
        c
    }
}

} // verus!
