//! The LR(1) table builder and the shift/reduce driver.

use vstd::prelude::*;

use crate::first::FirstSets;
use crate::grammar::Grammar;
use crate::item::closure_items;
use crate::item::contains_item;
use crate::item::closure_closed;
use crate::item::item_keys_ok;
use crate::item::seq_has_item;
use crate::item::set_closed;
use crate::item::LR1Item;
use crate::item::SpecItem;
use crate::prod::seq_has_prod;
use crate::prod::Production;
use crate::prod::SpecProd;
use crate::symbol::contains_sym;
use crate::symbol::seq_has_sym;
use crate::symbol::views_of;
use crate::symbol::SpecSymbol;
use crate::symbol::Symbol;
use crate::table::Action;
use crate::table::ActionTable;
use crate::table::GotoTable;
use crate::table::SpecAction;
use crate::table::State;
use vstd::string::StringExecFns;

verus! {

/// The name of the synthetic start symbol the builder reserves.
pub open spec fn fake_start_name() -> Seq<char> {
    "S'"@
}

/// The reserved start name, as a string.
pub fn fake_start() -> (s: String)
    ensures
        s@ == fake_start_name(),
{
    String::from_str("S'")
}

/// The augmenting production `S' -> S` for the grammar's start symbol.
pub open spec fn aug_prod(g: Grammar) -> SpecProd {
    SpecProd {
        lhs: SpecSymbol::NonTerminal(fake_start_name()),
        rhs: seq![g.start_symbol@],
    }
}

/// The initial item `[S' -> . S, #]`.
pub open spec fn aug_item0(g: Grammar) -> SpecItem {
    SpecItem { production: aug_prod(g), dot: 0, lookahead: SpecSymbol::EndMarker }
}

/// The accepting item `[S' -> S ., #]`.
pub open spec fn aug_done(g: Grammar) -> SpecItem {
    SpecItem { production: aug_prod(g), dot: 1, lookahead: SpecSymbol::EndMarker }
}

/// Whether an item set holds the accepting item.
pub open spec fn has_aug_complete(g: Grammar, items: Seq<LR1Item>) -> bool {
    seq_has_item(items, aug_done(g))
}

/// Whether an item set holds the initial augmented item.
pub open spec fn has_aug_dot0(g: Grammar, items: Seq<LR1Item>) -> bool {
    seq_has_item(items, aug_item0(g))
}

/// Two item vectors carry the same set of items.
pub open spec fn same_item_set(a: Seq<LR1Item>, b: Seq<LR1Item>) -> bool {
    forall|it: SpecItem| #![auto] seq_has_item(a, it) <==> seq_has_item(b, it)
}

/// Whether some item of the set has its dot immediately before `x`.
pub open spec fn has_dot_before(items: Seq<LR1Item>, x: SpecSymbol) -> bool {
    exists|t: int|
        0 <= t < items.len() && {
            let it = (#[trigger] items[t])@;
            it.dot < it.production.rhs.len() && it.production.rhs[it.dot] == x
        }
}

/// No user production is headed by the reserved synthetic start name.
pub open spec fn grammar_reserves_fake_start(g: Grammar) -> bool {
    forall|i: int|
        0 <= i < g.productions@.len() ==> (#[trigger] g.productions@[i])@.lhs
            != SpecSymbol::NonTerminal(fake_start_name())
}

/// What every item inside a state of the canonical collection looks
/// like: a grammar production or the augmenting one, the dot within
/// bounds, a terminal or end-marker lookahead, and the end marker as
/// the only lookahead of augmenting items.
pub open spec fn state_items_wf(g: Grammar, items: Seq<LR1Item>) -> bool {
    &&& crate::item::no_dup_items(items)
    &&& forall|t: int|
        0 <= t < items.len() ==> {
            let it = (#[trigger] items[t])@;
            &&& (seq_has_prod(g.productions@, it.production) || it.production == aug_prod(g))
            &&& 0 <= it.dot <= it.production.rhs.len()
            &&& (it.lookahead is Terminal || it.lookahead is EndMarker)
            &&& (it.lookahead is Terminal ==> seq_has_sym(g.terminals@, it.lookahead))
            &&& (it.production == aug_prod(g) ==> it.lookahead == SpecSymbol::EndMarker)
        }
}

/// Every item of a state has FIRST rows for the symbols past its dot.
pub open spec fn state_keys_ok(fs: FirstSets, items: Seq<LR1Item>) -> bool {
    forall|t: int| 0 <= t < items.len() ==> item_keys_ok(fs, (#[trigger] items[t])@)
}

/// Whether every item of `a` also occurs in `b`.
fn subset_items(a: &Vec<LR1Item>, b: &Vec<LR1Item>) -> (r: bool)
    ensures
        r == forall|t: int| 0 <= t < a@.len() ==> seq_has_item(b@, (#[trigger] a@[t])@),
{
    let mut i: usize = 0;
    while i < a.len()
        invariant
            0 <= i <= a@.len(),
            forall|t: int| 0 <= t < i ==> seq_has_item(b@, (#[trigger] a@[t])@),
        decreases a@.len() - i,
    {
        if !contains_item(b, &a[i]) {
            return false;
        }
        i = i + 1;
    }
    true
}

/// Whether two item vectors carry equal item sets.
fn same_items(a: &Vec<LR1Item>, b: &Vec<LR1Item>) -> (r: bool)
    ensures
        r == same_item_set(a@, b@),
{
    let ab = subset_items(a, b);
    let ba = subset_items(b, a);
    let r = ab && ba;
    proof {
        if r {
            assert forall|it: SpecItem| #![auto] seq_has_item(a@, it) <==> seq_has_item(
                b@,
                it,
            ) by {
                if seq_has_item(a@, it) {
                    let t = choose|t: int| 0 <= t < a@.len() && a@[t]@ == it;
                    assert(seq_has_item(b@, a@[t]@));
                }
                if seq_has_item(b@, it) {
                    let t = choose|t: int| 0 <= t < b@.len() && b@[t]@ == it;
                    assert(seq_has_item(a@, b@[t]@));
                }
            }
        } else {
            if same_item_set(a@, b@) {
                assert forall|t: int| 0 <= t < a@.len() implies seq_has_item(
                    b@,
                    (#[trigger] a@[t])@,
                ) by {
                    assert(seq_has_item(a@, a@[t]@));
                }
                assert forall|t: int| 0 <= t < b@.len() implies seq_has_item(
                    a@,
                    (#[trigger] b@[t])@,
                ) by {
                    assert(seq_has_item(b@, b@[t]@));
                }
            }
        }
    }
    r
}

/// Locate an existing state with the given item set.
fn find_state(states: &Vec<State>, items: &Vec<LR1Item>) -> (r: Option<usize>)
    ensures
        match r {
            Some(k) => k < states@.len() && same_item_set(states@[k as int].items@, items@),
            None => forall|k: int|
                0 <= k < states@.len() ==> !same_item_set(
                    (#[trigger] states@[k]).items@,
                    items@,
                ),
        },
{
    let mut k: usize = 0;
    while k < states.len()
        invariant
            0 <= k <= states@.len(),
            forall|k2: int|
                0 <= k2 < k ==> !same_item_set((#[trigger] states@[k2]).items@, items@),
        decreases states@.len() - k,
    {
        if same_items(&states[k].items, items) {
            return Some(k);
        }
        k = k + 1;
    }
    None
}

/// The per-item part of [`state_items_wf`].
pub open spec fn item_state_wf(g: Grammar, it: SpecItem) -> bool {
    &&& (seq_has_prod(g.productions@, it.production) || it.production == aug_prod(g))
    &&& 0 <= it.dot <= it.production.rhs.len()
    &&& (it.lookahead is Terminal || it.lookahead is EndMarker)
    &&& (it.lookahead is Terminal ==> seq_has_sym(g.terminals@, it.lookahead))
    &&& (it.production == aug_prod(g) ==> it.lookahead == SpecSymbol::EndMarker)
}

/// A closure over well-formed seeds yields well-formed state items.
proof fn lemma_closure_state_wf(g: Grammar, fs: FirstSets, seed: Seq<LR1Item>, items: Seq<LR1Item>)
    requires
        g.wf(),
        first_ok(g, fs),
        grammar_reserves_fake_start(g),
        crate::item::no_dup_items(items),
        forall|t: int|
            0 <= t < items.len() ==> crate::item::closure_member_ok(
                g,
                seed,
                (#[trigger] items[t])@,
            ),
        forall|t: int|
            0 <= t < items.len() ==> (((#[trigger] items[t])@.lookahead is Terminal) || (
            items[t]@.lookahead is EndMarker)),
        forall|u: int| 0 <= u < seed.len() ==> item_state_wf(g, (#[trigger] seed[u])@),
        forall|u: int| 0 <= u < seed.len() ==> item_keys_ok(fs, (#[trigger] seed[u])@),
    ensures
        state_items_wf(g, items),
        state_keys_ok(fs, items),
{
    assert forall|t: int| 0 <= t < items.len() implies item_state_wf(g, (#[trigger] items[t])@)
        && item_keys_ok(fs, items[t]@) by {
        let it = items[t]@;
        if seq_has_item(seed, it) {
            let u = choose|u: int| 0 <= u < seed.len() && seed[u]@ == it;
        } else {
            assert(crate::item::la_in_universe(g, seed, it.lookahead));
            if it.lookahead is Terminal && !seq_has_sym(g.terminals@, it.lookahead) {
                let u2 = choose|u2: int|
                    0 <= u2 < seed.len() && (#[trigger] seed[u2])@.lookahead == it.lookahead;
                assert(item_state_wf(g, seed[u2]@));
                assert(false);
            }
            let pidx = choose|pidx: int|
                0 <= pidx < g.productions@.len() && g.productions@[pidx]@ == it.production;
            assert(g.prod_wf(g.productions@[pidx]@));
            assert(it.production != aug_prod(g)) by {
                assert(g.productions@[pidx]@.lhs != SpecSymbol::NonTerminal(fake_start_name()));
            }
            assert forall|j: int|
                it.dot + 1 <= j < it.production.rhs.len() implies fs.spec_has_key(
                #[trigger] it.production.rhs[j],
            ) by {
                assert((it.production.rhs[j] is Terminal && seq_has_sym(
                    g.terminals@,
                    it.production.rhs[j],
                )) || (it.production.rhs[j] is NonTerminal && seq_has_sym(
                    g.non_terminals@,
                    it.production.rhs[j],
                )));
            }
        }
    }
    assert(state_items_wf(g, items)) by {
        assert forall|t: int| 0 <= t < items.len() implies {
            let it = (#[trigger] items[t])@;
            &&& (seq_has_prod(g.productions@, it.production) || it.production == aug_prod(g))
            &&& 0 <= it.dot <= it.production.rhs.len()
            &&& (it.lookahead is Terminal || it.lookahead is EndMarker)
            &&& (it.production == aug_prod(g) ==> it.lookahead == SpecSymbol::EndMarker)
        } by {
            assert(item_state_wf(g, items[t]@));
        }
    }
}

/// What the advanced seed of a GOTO set satisfies: well-formed items
/// with the dot at least one step in; and it holds the accepting item
/// only when the source state held the initial augmented item and the
/// symbol stepped over is the start symbol.
proof fn lemma_seed_facts(
    g: Grammar,
    fs: FirstSets,
    items: Seq<LR1Item>,
    seedv: Seq<LR1Item>,
    xv: SpecSymbol,
)
    requires
        g.wf(),
        state_items_wf(g, items),
        state_keys_ok(fs, items),
        forall|u: int|
            0 <= u < seedv.len() ==> (exists|t3: int|
                0 <= t3 < items.len() && {
                    let src = (#[trigger] items[t3])@;
                    &&& src.dot < src.production.rhs.len()
                    &&& src.production.rhs[src.dot] == xv
                    &&& (#[trigger] seedv[u])@ == advanced(src)
                }),
    ensures
        forall|u: int| 0 <= u < seedv.len() ==> item_state_wf(g, (#[trigger] seedv[u])@),
        forall|u: int| 0 <= u < seedv.len() ==> item_keys_ok(fs, (#[trigger] seedv[u])@),
        forall|u: int|
            0 <= u < seedv.len() ==> (((#[trigger] seedv[u])@.lookahead is Terminal) || (
            seedv[u]@.lookahead is EndMarker)),
        forall|u: int| 0 <= u < seedv.len() ==> (#[trigger] seedv[u])@.dot >= 1,
        seq_has_item(seedv, aug_done(g)) ==> (seq_has_item(items, aug_item0(g)) && xv
            == g.start_symbol@),
{
    assert forall|u: int| 0 <= u < seedv.len() implies item_state_wf(g, (#[trigger] seedv[u])@)
        && item_keys_ok(fs, seedv[u]@) && ((seedv[u]@.lookahead is Terminal) || (
    seedv[u]@.lookahead is EndMarker)) && seedv[u]@.dot >= 1 by {
        let t3 = choose|t3: int|
            0 <= t3 < items.len() && {
                let src = (#[trigger] items[t3])@;
                &&& src.dot < src.production.rhs.len()
                &&& src.production.rhs[src.dot] == xv
                &&& seedv[u]@ == advanced(src)
            };
        let src = items[t3]@;
        assert(item_keys_ok(fs, src));
        assert forall|j: int|
            seedv[u]@.dot + 1 <= j < seedv[u]@.production.rhs.len() implies fs.spec_has_key(
            #[trigger] seedv[u]@.production.rhs[j],
        ) by {
            assert(src.production.rhs[j] == seedv[u]@.production.rhs[j]);
            assert(fs.spec_has_key(src.production.rhs[j]));
        }
    }
    if seq_has_item(seedv, aug_done(g)) {
        let u = choose|u: int| 0 <= u < seedv.len() && seedv[u]@ == aug_done(g);
        let t3 = choose|t3: int|
            0 <= t3 < items.len() && {
                let src = (#[trigger] items[t3])@;
                &&& src.dot < src.production.rhs.len()
                &&& src.production.rhs[src.dot] == xv
                &&& seedv[u]@ == advanced(src)
            };
        let src = items[t3]@;
        assert(src.production == aug_prod(g) && src.dot == 0 && src.lookahead
            == SpecSymbol::EndMarker);
        assert(src == aug_item0(g));
        assert(seq_has_item(items, aug_item0(g)));
        assert(xv == aug_prod(g).rhs[0]);
    }
}

/// Recording a GOTO entry to an existing state preserves the
/// collection invariant.
proof fn lemma_record_goto(
    g: Grammar,
    states: Seq<State>,
    gt0: GotoTable,
    gt1: GotoTable,
    i: int,
    xv: SpecSymbol,
    j: int,
    items_i: Seq<LR1Item>,
    seedv: Seq<LR1Item>,
    jitems: Seq<LR1Item>,
)
    requires
        coll_inv(g, states, gt0),
        0 <= i < states.len(),
        0 <= j < states.len(),
        items_i == states[i].items@,
        same_item_set(states[j].items@, jitems),
        gt0.spec_get(i, xv) is None,
        gt1.basic_wf(),
        forall|s: int, x: SpecSymbol|
            #[trigger] gt1.spec_get(s, x) == if s == i && x == xv {
                Some(j)
            } else {
                gt0.spec_get(s, x)
            },
        forall|t: int|
            0 <= t < jitems.len() ==> crate::item::closure_member_ok(
                g,
                seedv,
                (#[trigger] jitems[t])@,
            ),
        seq_has_item(seedv, aug_done(g)) ==> (seq_has_item(items_i, aug_item0(g)) && xv
            == g.start_symbol@),
        (i == 0 && xv == g.start_symbol@) ==> seq_has_item(jitems, aug_done(g)),
        !seq_has_item(jitems, aug_item0(g)),
    ensures
        coll_inv(g, states, gt1),
        gt1.spec_get(i, xv) == Some(j),
{
    assert(j >= 1) by {
        if j == 0 {
            assert(has_aug_dot0(g, states[0].items@));
            let t = choose|t: int|
                0 <= t < states[0].items@.len() && states[0].items@[t]@ == aug_item0(g);
            assert(seq_has_item(jitems, states[0].items@[t]@));
        }
    }
    // An accepting item in the target forces the step to be over the
    // start symbol out of state 0.
    assert(has_aug_complete(g, states[j].items@) ==> (i == 0 && xv == g.start_symbol@)) by {
        if has_aug_complete(g, states[j].items@) {
            assert(seq_has_item(jitems, aug_done(g)));
            let t = choose|t: int| 0 <= t < jitems.len() && jitems[t]@ == aug_done(g);
            assert(crate::item::closure_member_ok(g, seedv, aug_done(g)));
            assert(seq_has_item(seedv, aug_done(g))) by {
                if !seq_has_item(seedv, aug_done(g)) {
                    assert(aug_done(g).dot == 0);
                }
            }
            assert(has_aug_dot0(g, states[i].items@));
            assert(i == 0) by {
                if i >= 1 {
                    assert(!has_aug_dot0(g, states[i].items@));
                }
            }
        }
    }
    // Stepping from state 0 over the start symbol cannot reach an
    // existing accepting state, because its GOTO entry would already
    // be recorded.
    assert(!(i == 0 && xv == g.start_symbol@)) by {
        if i == 0 && xv == g.start_symbol@ {
            assert(seq_has_item(jitems, aug_done(g)));
            assert(has_aug_complete(g, states[j].items@));
            assert(gt0.spec_get(0, g.start_symbol@) == Some(j));
        }
    }
    assert forall|s: int, x: SpecSymbol| #[trigger]
        gt1.spec_get(s, x) is Some implies {
        let j2 = gt1.spec_get(s, x)->0;
        0 <= s < states.len() && 1 <= j2 < states.len() && (has_aug_complete(
            g,
            states[j2].items@,
        ) ==> (x == g.start_symbol@ && s == 0))
    } by {
        if !(s == i && x == xv) {
            assert(gt1.spec_get(s, x) == gt0.spec_get(s, x));
        } else {
            if has_aug_complete(g, states[j].items@) {
                assert(i == 0 && xv == g.start_symbol@);
            }
        }
    }
    assert forall|j2: int|
        0 <= j2 < states.len() && has_aug_complete(
            g,
            (#[trigger] states[j2]).items@,
        ) implies gt1.spec_get(0, g.start_symbol@) == Some(j2) by {
        assert(gt0.spec_get(0, g.start_symbol@) == Some(j2));
    }
    if gt1.spec_get(0, g.start_symbol@) is Some {
        assert(gt1.spec_get(0, g.start_symbol@) == gt0.spec_get(0, g.start_symbol@));
    }
}

/// Appending a fresh state and its GOTO entry preserves the collection
/// invariant.
proof fn lemma_append_state(
    g: Grammar,
    fs: FirstSets,
    states0: Seq<State>,
    states1: Seq<State>,
    gt0: GotoTable,
    gt1: GotoTable,
    i: int,
    xv: SpecSymbol,
    items_i: Seq<LR1Item>,
    seedv: Seq<LR1Item>,
)
    requires
        coll_inv(g, states0, gt0),
        g.wf(),
        first_ok(g, fs),
        grammar_reserves_fake_start(g),
        0 <= i < states0.len(),
        items_i == states0[i].items@,
        states1 == states0.push(states1.last()),
        states1.last().index == states0.len(),
        forall|k: int|
            0 <= k < states0.len() ==> !same_item_set(
                (#[trigger] states0[k]).items@,
                states1.last().items@,
            ),
        gt0.spec_get(i, xv) is None,
        gt1.basic_wf(),
        forall|s: int, x: SpecSymbol|
            #[trigger] gt1.spec_get(s, x) == if s == i && x == xv {
                Some(states0.len() as int)
            } else {
                gt0.spec_get(s, x)
            },
        state_items_wf(g, states1.last().items@),
        state_keys_ok(fs, states1.last().items@),
        forall|t: int|
            0 <= t < states1.last().items@.len() ==> crate::item::closure_member_ok(
                g,
                seedv,
                (#[trigger] states1.last().items@[t])@,
            ),
        forall|u: int| 0 <= u < seedv.len() ==> (#[trigger] seedv[u])@.dot >= 1,
        seq_has_item(seedv, aug_done(g)) ==> (seq_has_item(items_i, aug_item0(g)) && xv
            == g.start_symbol@),
        (i == 0 && xv == g.start_symbol@) ==> seq_has_item(states1.last().items@, aug_done(g)),
        forall|k: int|
            0 <= k < states0.len() ==> state_keys_ok(fs, (#[trigger] states0[k]).items@),
    ensures
        coll_inv(g, states1, gt1),
        gt1.spec_get(i, xv) == Some(states0.len() as int),
        forall|k: int| 0 <= k < states1.len() ==> state_keys_ok(fs, (#[trigger] states1[k]).items@),
{
    let n = states0.len() as int;
    let newits = states1.last().items@;
    assert(states1.len() == n + 1);
    assert(forall|k: int| 0 <= k < n ==> states1[k] == states0[k]);
    // The fresh state never holds the initial augmented item.
    assert(!has_aug_dot0(g, newits)) by {
        if seq_has_item(newits, aug_item0(g)) {
            let t = choose|t: int| 0 <= t < newits.len() && newits[t]@ == aug_item0(g);
            assert(crate::item::closure_member_ok(g, seedv, aug_item0(g)));
            if seq_has_item(seedv, aug_item0(g)) {
                let u = choose|u: int| 0 <= u < seedv.len() && seedv[u]@ == aug_item0(g);
                assert(seedv[u]@.dot >= 1);
            } else {
                let pidx = choose|pidx: int|
                    0 <= pidx < g.productions@.len() && g.productions@[pidx]@ == aug_item0(
                        g,
                    ).production;
                assert(g.productions@[pidx]@.lhs != SpecSymbol::NonTerminal(fake_start_name()));
            }
        }
    }
    // An accepting item in the fresh state forces a start-symbol step
    // out of state 0.
    assert(has_aug_complete(g, newits) ==> (i == 0 && xv == g.start_symbol@)) by {
        if seq_has_item(newits, aug_done(g)) {
            let t = choose|t: int| 0 <= t < newits.len() && newits[t]@ == aug_done(g);
            assert(crate::item::closure_member_ok(g, seedv, aug_done(g)));
            assert(seq_has_item(seedv, aug_done(g))) by {
                if !seq_has_item(seedv, aug_done(g)) {
                    assert(aug_done(g).dot == 0);
                }
            }
            assert(has_aug_dot0(g, states0[i].items@));
            assert(i == 0) by {
                if i >= 1 {
                    assert(!has_aug_dot0(g, states0[i].items@));
                }
            }
        }
    }
    // No earlier state holds the accepting item if the step is from
    // (0, start): its entry would already exist.
    assert((i == 0 && xv == g.start_symbol@) ==> (forall|j2: int|
        0 <= j2 < n ==> !has_aug_complete(g, (#[trigger] states0[j2]).items@))) by {
        if i == 0 && xv == g.start_symbol@ {
            assert forall|j2: int| 0 <= j2 < n implies !has_aug_complete(
                g,
                (#[trigger] states0[j2]).items@,
            ) by {
                if has_aug_complete(g, states0[j2].items@) {
                    assert(gt0.spec_get(0, g.start_symbol@) == Some(j2));
                }
            }
        }
    }
    assert forall|k1: int, k2: int| 0 <= k1 < k2 < states1.len() implies !same_item_set(
        (#[trigger] states1[k1]).items@,
        (#[trigger] states1[k2]).items@,
    ) by {
        if k2 == n {
            assert(!same_item_set(states0[k1].items@, newits));
        }
    }
    assert forall|s: int, x: SpecSymbol| #[trigger]
        gt1.spec_get(s, x) is Some implies {
        let j2 = gt1.spec_get(s, x)->0;
        0 <= s < states1.len() && 1 <= j2 < states1.len() && (has_aug_complete(
            g,
            states1[j2].items@,
        ) ==> (x == g.start_symbol@ && s == 0))
    } by {
        let j2 = gt1.spec_get(s, x)->0;
        if !(s == i && x == xv) {
            assert(gt1.spec_get(s, x) == gt0.spec_get(s, x));
            assert(gt0.spec_get(s, x) == Some(j2));
            assert(j2 < n);
            if has_aug_complete(g, states1[j2].items@) {
                assert(states1[j2] == states0[j2]);
            }
        } else {
            assert(j2 == n);
            assert(n >= 1);
            if has_aug_complete(g, states1[j2].items@) {
                assert(i == 0 && xv == g.start_symbol@);
            }
        }
    }
    assert forall|j2: int|
        0 <= j2 < states1.len() && has_aug_complete(
            g,
            (#[trigger] states1[j2]).items@,
        ) implies gt1.spec_get(0, g.start_symbol@) == Some(j2) by {
        if j2 < n {
            assert(states1[j2] == states0[j2]);
            assert(gt0.spec_get(0, g.start_symbol@) == Some(j2));
            assert(!(i == 0 && xv == g.start_symbol@)) by {
                if i == 0 && xv == g.start_symbol@ {
                    assert(!has_aug_complete(g, states0[j2].items@));
                }
            }
        } else {
            assert(i == 0 && xv == g.start_symbol@);
        }
    }
    if gt1.spec_get(0, g.start_symbol@) is Some {
        let j2 = gt1.spec_get(0, g.start_symbol@)->0;
        if i == 0 && xv == g.start_symbol@ {
            assert(j2 == n);
        } else {
            assert(gt1.spec_get(0, g.start_symbol@) == gt0.spec_get(0, g.start_symbol@));
            assert(gt0.spec_get(0, g.start_symbol@) == Some(j2));
            assert(states1[j2] == states0[j2]);
        }
    }
    assert(coll_inv(g, states1, gt1)) by {
        assert(has_aug_dot0(g, states1[0].items@)) by {
            assert(states1[0] == states0[0]);
            let t = choose|t: int|
                0 <= t < states0[0].items@.len() && states0[0].items@[t]@ == aug_item0(g);
        }
        assert(!has_aug_complete(g, states1[0].items@)) by {
            assert(states1[0] == states0[0]);
        }
        assert forall|k: int| 0 <= k < states1.len() implies (#[trigger] states1[k]).index
            == k by {
            if k < n {
                assert(states1[k] == states0[k]);
            }
        }
        assert forall|k: int| 0 <= k < states1.len() implies state_items_wf(
            g,
            (#[trigger] states1[k]).items@,
        ) by {
            if k < n {
                assert(states1[k] == states0[k]);
            }
        }
        assert forall|k: int| 1 <= k < states1.len() implies !has_aug_dot0(
            g,
            (#[trigger] states1[k]).items@,
        ) by {
            if k < n {
                assert(states1[k] == states0[k]);
            }
        }
    }
    assert forall|k: int| 0 <= k < states1.len() implies state_keys_ok(
        fs,
        (#[trigger] states1[k]).items@,
    ) by {
        if k < n {
            assert(states1[k] == states0[k]);
        }
    }
}

/// `items` is exactly the closure of the initial augmented item
/// `[S' -> . S, #]`: it contains it, is closed under expansion, and is
/// least among such sets.
pub open spec fn is_initial_state(g: Grammar, fs: FirstSets, items: Seq<LR1Item>) -> bool {
    &&& seq_has_item(items, aug_item0(g))
    &&& closure_closed(g, fs, items)
    &&& forall|s: Set<SpecItem>|
        (s.contains(aug_item0(g)) && #[trigger] set_closed(g, fs, s)) ==> (forall|u: int|
            0 <= u < items.len() ==> s.contains((#[trigger] items[u])@))
}

/// `dst` is exactly GOTO(`src`, `x`): it holds the advance of every
/// item of `src` whose dot stands before `x`, is closed under
/// expansion, and is least among such sets.
pub open spec fn is_goto_set(
    g: Grammar,
    fs: FirstSets,
    src: Seq<LR1Item>,
    x: SpecSymbol,
    dst: Seq<LR1Item>,
) -> bool {
    &&& forall|t: int|
        0 <= t < src.len() ==> {
            let it = (#[trigger] src[t])@;
            (it.dot < it.production.rhs.len() && it.production.rhs[it.dot] == x) ==> seq_has_item(
                dst,
                advanced(it),
            )
        }
    &&& closure_closed(g, fs, dst)
    &&& forall|s: Set<SpecItem>|
        ((forall|t: int|
            0 <= t < src.len() ==> {
                let it = (#[trigger] src[t])@;
                (it.dot < it.production.rhs.len() && it.production.rhs[it.dot] == x)
                    ==> s.contains(advanced(it))
            }) && #[trigger] set_closed(g, fs, s)) ==> (forall|u: int|
            0 <= u < dst.len() ==> s.contains((#[trigger] dst[u])@))
}

/// Being a GOTO set is a property of the item set alone: it transfers
/// across vectors carrying equal sets.
proof fn lemma_goto_set_same(
    g: Grammar,
    fs: FirstSets,
    src: Seq<LR1Item>,
    x: SpecSymbol,
    a: Seq<LR1Item>,
    b: Seq<LR1Item>,
)
    requires
        is_goto_set(g, fs, src, x, a),
        same_item_set(a, b),
    ensures
        is_goto_set(g, fs, src, x, b),
{
    assert forall|i: int, pi: int, bb: SpecSymbol|
        0 <= i < b.len() && #[trigger] crate::item::item_expands_to(
            g,
            fs,
            b[i]@,
            pi,
            bb,
        ) implies seq_has_item(b, crate::item::expansion_of(g, pi, bb)) by {
        assert(seq_has_item(b, b[i]@));
        assert(seq_has_item(a, b[i]@));
        let j = choose|j: int| 0 <= j < a.len() && a[j]@ == b[i]@;
        assert(crate::item::item_expands_to(g, fs, a[j]@, pi, bb));
        assert(seq_has_item(a, crate::item::expansion_of(g, pi, bb)));
    }
    assert forall|s: Set<SpecItem>|
        ((forall|t: int|
            0 <= t < src.len() ==> {
                let it = (#[trigger] src[t])@;
                (it.dot < it.production.rhs.len() && it.production.rhs[it.dot] == x)
                    ==> s.contains(advanced(it))
            }) && #[trigger] set_closed(g, fs, s)) implies (forall|u: int|
        0 <= u < b.len() ==> s.contains((#[trigger] b[u])@)) by {
        assert forall|u: int| 0 <= u < b.len() implies s.contains((#[trigger] b[u])@) by {
            assert(seq_has_item(b, b[u]@));
            assert(seq_has_item(a, b[u]@));
            let j = choose|j: int| 0 <= j < a.len() && a[j]@ == b[u]@;
            assert(s.contains(a[j]@));
        }
    }
}

/// What one node of the tree stands for on the driver's stack: the
/// terminal of a leaf, the non-terminal of an inner node.
pub open spec fn node_symbol(t: SpecTree) -> SpecSymbol {
    match t {
        SpecTree::Terminal(txt) => SpecSymbol::Terminal(txt),
        SpecTree::NonTerminal(nm, _) => SpecSymbol::NonTerminal(nm),
    }
}

/// Every member of a GOTO set is the advance of a matching source item
/// or a dot-at-start expansion of a grammar production: read off the
/// minimality half of [`is_goto_set`].
proof fn lemma_goto_member(
    g: Grammar,
    fs: FirstSets,
    src: Seq<LR1Item>,
    x: SpecSymbol,
    dst: Seq<LR1Item>,
    it: SpecItem,
)
    requires
        is_goto_set(g, fs, src, x, dst),
        seq_has_item(dst, it),
    ensures
        (exists|t: int|
            0 <= t < src.len() && {
                let s0 = (#[trigger] src[t])@;
                s0.dot < s0.production.rhs.len() && s0.production.rhs[s0.dot] == x && it
                    == advanced(s0)
            }) || (it.dot == 0 && seq_has_prod(g.productions@, it.production)),
{
    let sset = Set::new(
        |it2: SpecItem|
            (exists|t: int|
                0 <= t < src.len() && {
                    let s0 = (#[trigger] src[t])@;
                    s0.dot < s0.production.rhs.len() && s0.production.rhs[s0.dot] == x && it2
                        == advanced(s0)
                }) || (it2.dot == 0 && seq_has_prod(g.productions@, it2.production)),
    );
    assert forall|t: int|
        0 <= t < src.len() implies {
        let s0 = (#[trigger] src[t])@;
        (s0.dot < s0.production.rhs.len() && s0.production.rhs[s0.dot] == x) ==> sset.contains(
            advanced(s0),
        )
    } by {
        let s0 = src[t]@;
        if s0.dot < s0.production.rhs.len() && s0.production.rhs[s0.dot] == x {
            assert({
                let s1 = (src[t])@;
                s1.dot < s1.production.rhs.len() && s1.production.rhs[s1.dot] == x && advanced(s0)
                    == advanced(s1)
            });
        }
    }
    assert(set_closed(g, fs, sset)) by {
        assert forall|it2: SpecItem, pi: int, b: SpecSymbol|
            sset.contains(it2) && #[trigger] crate::item::item_expands_to(
                g,
                fs,
                it2,
                pi,
                b,
            ) implies sset.contains(crate::item::expansion_of(g, pi, b)) by {
            let e = crate::item::expansion_of(g, pi, b);
            assert(e.dot == 0);
            assert(g.productions@[pi]@ == e.production);
            assert(seq_has_prod(g.productions@, e.production));
        }
    }
    let u = choose|u: int| 0 <= u < dst.len() && dst[u]@ == it;
    assert(sset.contains(dst[u]@));
}

/// Walking the GOTO spine backwards from a dotted item: if the item
/// `[p, d, la]` sits in the state at the end of a spine of nodes, the
/// `d` symbols before it are exactly `p`'s first `d` right-hand-side
/// symbols.
proof fn lemma_spine_rhs(
    g: Grammar,
    fs: FirstSets,
    states: Seq<State>,
    gt: GotoTable,
    sti: Seq<int>,
    nsyms: Seq<SpecSymbol>,
    base: int,
    p: SpecProd,
    la: SpecSymbol,
    d: int,
)
    requires
        forall|s: int, x: SpecSymbol|
            #![trigger gt.spec_get(s, x)]
            gt.spec_get(s, x) matches Some(j) ==> is_goto_set(
                g,
                fs,
                states[s].items@,
                x,
                states[j].items@,
            ),
        forall|s: int, x: SpecSymbol|
            #![trigger gt.spec_get(s, x)]
            gt.spec_get(s, x) matches Some(j) ==> (0 <= s < states.len() && 0 <= j
                < states.len()),
        sti.len() == nsyms.len() + 1,
        forall|ii: int|
            0 <= ii < nsyms.len() ==> gt.spec_get(sti[ii], #[trigger] nsyms[ii]) == Some(
                sti[ii + 1],
            ),
        0 <= base,
        0 <= d,
        base + d < sti.len(),
        0 <= sti[base + d] < states.len(),
        seq_has_item(
            states[sti[base + d]].items@,
            SpecItem { production: p, dot: d, lookahead: la },
        ),
        seq_has_prod(g.productions@, p) || p == aug_prod(g),
    ensures
        forall|j: int| 0 <= j < d ==> #[trigger] nsyms[base + j] == p.rhs[j],
    decreases d,
{
    if d > 0 {
        let edge = base + d - 1;
        assert(gt.spec_get(sti[edge], nsyms[edge]) == Some(sti[edge + 1]));
        assert(is_goto_set(
            g,
            fs,
            states[sti[edge]].items@,
            nsyms[edge],
            states[sti[edge + 1]].items@,
        ));
        lemma_goto_member(
            g,
            fs,
            states[sti[edge]].items@,
            nsyms[edge],
            states[sti[edge + 1]].items@,
            SpecItem { production: p, dot: d, lookahead: la },
        );
        let t = choose|t: int|
            0 <= t < states[sti[edge]].items@.len() && {
                let s0 = (#[trigger] states[sti[edge]].items@[t])@;
                s0.dot < s0.production.rhs.len() && s0.production.rhs[s0.dot] == nsyms[edge]
                    && SpecItem { production: p, dot: d, lookahead: la } == advanced(s0)
            };
        let s0 = states[sti[edge]].items@[t]@;
        assert(s0 == SpecItem { production: p, dot: d - 1, lookahead: la });
        assert(p.rhs[d - 1] == nsyms[edge]);
        assert(seq_has_item(
            states[sti[edge]].items@,
            SpecItem { production: p, dot: d - 1, lookahead: la },
        ));
        lemma_spine_rhs(g, fs, states, gt, sti, nsyms, base, p, la, d - 1);
        assert forall|j: int| 0 <= j < d implies #[trigger] nsyms[base + j] == p.rhs[j] by {
            if j == d - 1 {
                assert(nsyms[base + j] == p.rhs[d - 1]);
            }
        }
    }
}

/// The facts `compute_first` establishes that the table builder leans
/// on: a well-formed table covering the grammar's symbols whose
/// members are the empty-string marker or registered terminals.
pub open spec fn first_ok(g: Grammar, fs: FirstSets) -> bool {
    &&& fs.basic_wf()
    &&& fs.covers(g)
    &&& forall|s: SpecSymbol, y: SpecSymbol|
        #[trigger] fs.first_has(s, y) ==> (y == SpecSymbol::Epsilon || (y is Terminal
            && seq_has_sym(g.terminals@, y)))
}

/// The item with the dot moved one symbol to the right.
pub open spec fn advanced(it: SpecItem) -> SpecItem {
    SpecItem { production: it.production, dot: it.dot + 1, lookahead: it.lookahead }
}

/// The standing invariant of the canonical collection: states are
/// numbered by position and pairwise distinct as item sets (state
/// canonicality); their items are well-formed; the initial augmented
/// item lives only in state 0; the accepting item marks exactly the
/// states reached by GOTO on the start symbol from state 0; and every
/// recorded GOTO entry points into the collection.
pub open spec fn coll_inv(g: Grammar, states: Seq<State>, gt: GotoTable) -> bool {
    &&& states.len() >= 1
    &&& forall|k: int| 0 <= k < states.len() ==> (#[trigger] states[k]).index == k
    &&& forall|k: int| 0 <= k < states.len() ==> state_items_wf(g, (#[trigger] states[k]).items@)
    &&& forall|k: int| 1 <= k < states.len() ==> !has_aug_dot0(g, (#[trigger] states[k]).items@)
    &&& has_aug_dot0(g, states[0].items@)
    &&& !has_aug_complete(g, states[0].items@)
    &&& forall|k1: int, k2: int|
        0 <= k1 < k2 < states.len() ==> !same_item_set(
            (#[trigger] states[k1]).items@,
            (#[trigger] states[k2]).items@,
        )
    &&& gt.basic_wf()
    &&& forall|s: int, x: SpecSymbol|
        #![trigger gt.spec_get(s, x)]
        gt.spec_get(s, x) matches Some(j) ==> 0 <= s < states.len() && 0 <= j < states.len()
    &&& forall|s: int, x: SpecSymbol|
        #![trigger gt.spec_get(s, x)]
        (gt.spec_get(s, x) matches Some(j) && has_aug_complete(g, states[j].items@)) ==> (x
            == g.start_symbol@ && s == 0)
    &&& forall|s: int, x: SpecSymbol|
        #![trigger gt.spec_get(s, x)]
        gt.spec_get(s, x) matches Some(j) ==> j >= 1
    &&& forall|j: int|
        0 <= j < states.len() && has_aug_complete(g, (#[trigger] states[j]).items@)
            ==> gt.spec_get(0, g.start_symbol@) == Some(j)
    &&& (gt.spec_get(0, g.start_symbol@) matches Some(j) ==> (0 <= j < states.len()
        && has_aug_complete(g, states[j].items@)))
}

/// The LR(1) parser: the grammar together with its immutable ACTION
/// and GOTO tables.
#[derive(Debug)]
pub struct Parser {
    pub grammar: Grammar,
    pub action_table: ActionTable,
    pub goto_table: GotoTable,
}

impl Parser {
    /// Build the canonical collection of LR(1) item sets, breadth
    /// first from the closure of `[S' -> . S, #]`, recording a GOTO
    /// entry for every state and symbol with a successor. Two states
    /// are merged exactly when their item sets are equal, so indices
    /// are canonical; the accepting item `[S' -> S ., #]` appears in
    /// exactly the state that GOTO reaches from state 0 over the start
    /// symbol.
    pub fn build_canonical_collection(grammar: &Grammar, first: &FirstSets) -> (r: (
        Vec<State>,
        GotoTable,
    ))
        requires
            grammar.wf(),
            grammar.start_symbol@ is NonTerminal,
            first_ok(*grammar, *first),
            grammar_reserves_fake_start(*grammar),
        ensures
            coll_inv(*grammar, r.0@, r.1),
            r.1.spec_get(0, grammar.start_symbol@) is Some,
            is_initial_state(*grammar, *first, r.0@[0].items@),
            forall|s: int, x: SpecSymbol|
                #![trigger r.1.spec_get(s, x)]
                r.1.spec_get(s, x) matches Some(j) ==> is_goto_set(
                    *grammar,
                    *first,
                    r.0@[s].items@,
                    x,
                    r.0@[j].items@,
                ),
            forall|s: int, x: SpecSymbol|
                #![trigger r.1.spec_get(s, x)]
                0 <= s < r.0@.len() && has_dot_before(r.0@[s].items@, x) ==> r.1.spec_get(
                    s,
                    x,
                ) is Some,
    {
        let ghost g = *grammar;
        let aug = Production {
            lhs: Symbol::NonTerminal(fake_start()),
            rhs: vec![grammar.start_symbol.clone()],
        };
        proof {
            assert(views_of(aug.rhs@) =~= seq![g.start_symbol@]);
            assert(aug@ == aug_prod(g));
        }
        let init_item = LR1Item {
            production: aug,
            dot_position: 0,
            lookahead: Symbol::EndMarker,
        };
        proof {
            assert(init_item@ == aug_item0(g));
        }
        let mut seed0: Vec<LR1Item> = Vec::new();
        seed0.push(init_item);
        proof {
            assert(seed0@[0]@ == aug_item0(g));
            assert forall|t: int| 0 <= t < seed0@.len() implies item_keys_ok(
                *first,
                (#[trigger] seed0@[t])@,
            ) by {}
        }
        let items0 = closure_items(grammar, first, &seed0);
        let st0 = State { items: items0, index: 0 };
        let mut states: Vec<State> = Vec::new();
        states.push(st0);
        let mut gt = GotoTable::new();
        proof {
            lemma_closure_state_wf(g, *first, seed0@, states@[0].items@);
            assert(has_aug_dot0(g, states@[0].items@)) by {
                assert(seq_has_item(states@[0].items@, seed0@[0]@));
            }
            assert(!has_aug_complete(g, states@[0].items@)) by {
                if seq_has_item(states@[0].items@, aug_done(g)) {
                    let t = choose|t: int|
                        0 <= t < states@[0].items@.len() && states@[0].items@[t]@ == aug_done(g);
                    assert(crate::item::closure_member_ok(g, seed0@, aug_done(g)));
                    if seq_has_item(seed0@, aug_done(g)) {
                        let u = choose|u: int|
                            0 <= u < seed0@.len() && seed0@[u]@ == aug_done(g);
                        assert(u == 0);
                    } else {
                        assert(aug_done(g).dot == 0);
                    }
                }
            }
            assert(coll_inv(g, states@, gt));
            assert(is_initial_state(g, *first, states@[0].items@)) by {
                assert forall|s: Set<SpecItem>|
                    (s.contains(aug_item0(g)) && #[trigger] set_closed(g, *first, s)) implies (
                forall|u: int|
                    0 <= u < states@[0].items@.len() ==> s.contains(
                        (#[trigger] states@[0].items@[u])@,
                    )) by {
                    assert forall|si: int| 0 <= si < seed0@.len() implies s.contains(
                        (#[trigger] seed0@[si])@,
                    ) by {
                        assert(si == 0);
                    }
                }
            }
        }

        let mut i: usize = 0;
        // The collection is finite but its only a-priori bound is
        // exponential in the grammar, so the loop is measured by a
        // countdown instead. States live in a vector, whose length
        // always fits in usize, so a u128 countdown provably never
        // runs out: every state gets processed.
        let mut fuel: u128 = u128::MAX;
        while i < states.len() && fuel > 0
            invariant
                grammar.wf(),
                g == *grammar,
                first_ok(g, *first),
                grammar_reserves_fake_start(g),
                coll_inv(g, states@, gt),
                is_initial_state(g, *first, states@[0].items@),
                forall|s: int, x: SpecSymbol|
                    #![trigger gt.spec_get(s, x)]
                    gt.spec_get(s, x) matches Some(j) ==> is_goto_set(
                        g,
                        *first,
                        states@[s].items@,
                        x,
                        states@[j].items@,
                    ),
                forall|k: int| 0 <= k < states@.len() ==> state_keys_ok(*first, (#[trigger] states@[k]).items@),
                0 <= i <= states@.len(),
                fuel == u128::MAX - i,
                i >= 1 ==> gt.spec_get(0, g.start_symbol@) is Some,
                forall|s: int, x: SpecSymbol| #[trigger] gt.spec_get(s, x) is Some ==> s < i,
                forall|s: int, x: SpecSymbol|
                    #![trigger gt.spec_get(s, x)]
                    0 <= s < i && has_dot_before(states@[s].items@, x) ==> gt.spec_get(
                        s,
                        x,
                    ) is Some,
            decreases fuel,
        {
            fuel = fuel - 1;

            // The symbols that appear immediately after a dot in this state.
            let mut syms: Vec<Symbol> = Vec::new();
            let mut t: usize = 0;
            let n_items = states[i].items.len();
            while t < n_items
                invariant
                    0 <= i < states@.len(),
                    n_items == states@[i as int].items@.len(),
                    0 <= t <= n_items,
                    crate::grammar::no_dup_syms(syms@),
                    state_items_wf(g, states@[i as int].items@),
                    forall|t2: int|
                        0 <= t2 < t ==> {
                            let it = (#[trigger] states@[i as int].items@[t2])@;
                            it.dot < it.production.rhs.len() ==> seq_has_sym(
                                syms@,
                                it.production.rhs[it.dot],
                            )
                        },
                    forall|w: int|
                        0 <= w < syms@.len() ==> has_dot_before(
                            states@[i as int].items@,
                            (#[trigger] syms@[w])@,
                        ),
                decreases n_items - t,
            {
                let it = &states[i].items[t];
                if it.dot_position < it.production.rhs.len() {
                    proof {
                        assert((states@[i as int].items@[t as int])@.production.rhs[(
                        states@[i as int].items@[t as int])@.dot] == (
                        states@[i as int].items@[t as int].production.rhs@[it.dot_position as int])@);
                    }
                    if !contains_sym(&syms, &it.production.rhs[it.dot_position]) {
                        let ghost syms0 = syms;
                        syms.push(it.production.rhs[it.dot_position].clone());
                        proof {
                            let n = syms0@.len() as int;
                            assert forall|x: SpecSymbol| seq_has_sym(syms0@, x) implies seq_has_sym(
                                syms@,
                                x,
                            ) by {
                                let w = choose|w: int| 0 <= w < syms0@.len() && syms0@[w]@ == x;
                                assert(syms@[w]@ == x);
                            }
                            assert(syms@[n]@ == (
                            states@[i as int].items@[t as int].production.rhs@[it.dot_position as int])@);
                        }
                    }
                }
                t = t + 1;
            }

            // For each such symbol, the GOTO set: advance every item
            // whose dot stands before it, and close.
            let mut sx: usize = 0;
            while sx < syms.len()
                invariant
                    grammar.wf(),
                    g == *grammar,
                    first_ok(g, *first),
                    grammar_reserves_fake_start(g),
                    coll_inv(g, states@, gt),
                    is_initial_state(g, *first, states@[0].items@),
                    forall|s: int, x: SpecSymbol|
                        #![trigger gt.spec_get(s, x)]
                        gt.spec_get(s, x) matches Some(j) ==> is_goto_set(
                            g,
                            *first,
                            states@[s].items@,
                            x,
                            states@[j].items@,
                        ),
                    forall|k: int| 0 <= k < states@.len() ==> state_keys_ok(*first, (#[trigger] states@[k]).items@),
                    0 <= i < states@.len(),
                    crate::grammar::no_dup_syms(syms@),
                    0 <= sx <= syms@.len(),
                    i >= 1 ==> gt.spec_get(0, g.start_symbol@) is Some,
                    forall|s: int, x: SpecSymbol|
                        #[trigger] gt.spec_get(s, x) is Some ==> (s < i || (s == i
                            && exists|sx2: int| 0 <= sx2 < sx && (#[trigger] syms@[sx2])@ == x)),
                    forall|s: int, x: SpecSymbol|
                        #![trigger gt.spec_get(s, x)]
                        0 <= s < i && has_dot_before(states@[s].items@, x) ==> gt.spec_get(
                            s,
                            x,
                        ) is Some,
                    forall|t2: int|
                        0 <= t2 < states@[i as int].items@.len() ==> {
                            let it = (#[trigger] states@[i as int].items@[t2])@;
                            it.dot < it.production.rhs.len() ==> seq_has_sym(
                                syms@,
                                it.production.rhs[it.dot],
                            )
                        },
                    forall|w: int|
                        0 <= w < syms@.len() ==> has_dot_before(
                            states@[i as int].items@,
                            (#[trigger] syms@[w])@,
                        ),
                    forall|w: int|
                        0 <= w < sx ==> gt.spec_get(i as int, (#[trigger] syms@[w])@) is Some,
                decreases syms@.len() - sx,
            {
                let ghost xv = syms@[sx as int]@;
                let mut seedv: Vec<LR1Item> = Vec::new();
                let mut t2: usize = 0;
                let n_items2 = states[i].items.len();
                while t2 < n_items2
                    invariant
                        grammar.wf(),
                        g == *grammar,
                        first_ok(g, *first),
                        0 <= i < states@.len(),
                        state_items_wf(g, states@[i as int].items@),
                        state_keys_ok(*first, states@[i as int].items@),
                        n_items2 == states@[i as int].items@.len(),
                        0 <= t2 <= n_items2,
                        0 <= sx < syms@.len(),
                        xv == syms@[sx as int]@,
                        forall|u: int|
                            0 <= u < seedv@.len() ==> (exists|t3: int|
                                0 <= t3 < states@[i as int].items@.len() && {
                                    let src = (#[trigger] states@[i as int].items@[t3])@;
                                    &&& src.dot < src.production.rhs.len()
                                    &&& src.production.rhs[src.dot] == xv
                                    &&& (#[trigger] seedv@[u])@ == advanced(src)
                                }),
                        forall|t3: int|
                            0 <= t3 < t2 ==> {
                                let src = (#[trigger] states@[i as int].items@[t3])@;
                                (src.dot < src.production.rhs.len() && src.production.rhs[src.dot]
                                    == xv) ==> seq_has_item(seedv@, advanced(src))
                            },
                    decreases n_items2 - t2,
                {
                    let it = &states[i].items[t2];
                    if it.dot_position < it.production.rhs.len() && &it.production.rhs[it.dot_position] == &syms[sx] {
                        let adv = LR1Item {
                            production: it.production.clone(),
                            dot_position: it.dot_position + 1,
                            lookahead: it.lookahead.clone(),
                        };
                        proof {
                            assert((states@[i as int].items@[t2 as int])@.production.rhs[(
                            states@[i as int].items@[t2 as int])@.dot] == (
                            states@[i as int].items@[t2 as int].production.rhs@[it.dot_position as int])@);
                            assert(adv@ == advanced((states@[i as int].items@[t2 as int])@));
                        }
                        let ghost seedv0 = seedv;
                        seedv.push(adv);
                        proof {
                            let n = seedv0@.len() as int;
                            assert forall|t3: int|
                                0 <= t3 < t2 + 1 implies {
                                let src = (#[trigger] states@[i as int].items@[t3])@;
                                (src.dot < src.production.rhs.len() && src.production.rhs[src.dot]
                                    == xv) ==> seq_has_item(seedv@, advanced(src))
                            } by {
                                if t3 < t2 {
                                    let src = (states@[i as int].items@[t3])@;
                                    if src.dot < src.production.rhs.len()
                                        && src.production.rhs[src.dot] == xv {
                                        let w = choose|w: int|
                                            0 <= w < seedv0@.len() && seedv0@[w]@ == advanced(src);
                                        assert(seedv@[w]@ == advanced(src));
                                    }
                                } else {
                                    assert(seedv@[n]@ == advanced(
                                        (states@[i as int].items@[t3])@,
                                    ));
                                }
                            }
                        }
                    } else {
                        proof {
                            if it.dot_position < it.production.rhs.len() {
                                assert((states@[i as int].items@[t2 as int])@.production.rhs[(
                                states@[i as int].items@[t2 as int])@.dot] == (
                                states@[i as int].items@[t2 as int].production.rhs@[it.dot_position as int])@);
                            }
                        }
                    }
                    t2 = t2 + 1;
                }
                if seedv.len() > 0 {
                    proof {
                        lemma_seed_facts(g, *first, states@[i as int].items@, seedv@, xv);
                    }
                    let j_items = closure_items(grammar, first, &seedv);
                    let ghost jv = j_items@;
                    proof {
                        assert(is_goto_set(g, *first, states@[i as int].items@, xv, jv)) by {
                            assert forall|t: int|
                                0 <= t < states@[i as int].items@.len() implies {
                                let it = (#[trigger] states@[i as int].items@[t])@;
                                (it.dot < it.production.rhs.len() && it.production.rhs[it.dot]
                                    == xv) ==> seq_has_item(jv, advanced(it))
                            } by {
                                let it = (states@[i as int].items@[t])@;
                                if it.dot < it.production.rhs.len() && it.production.rhs[it.dot]
                                    == xv {
                                    assert(seq_has_item(seedv@, advanced(it)));
                                    let u = choose|u: int|
                                        0 <= u < seedv@.len() && seedv@[u]@ == advanced(it);
                                    assert(seq_has_item(jv, seedv@[u]@));
                                }
                            }
                            assert forall|sset: Set<SpecItem>|
                                ((forall|t: int|
                                    0 <= t < states@[i as int].items@.len() ==> {
                                        let it = (#[trigger] states@[i as int].items@[t])@;
                                        (it.dot < it.production.rhs.len() && it.production.rhs[
                                            it.dot
                                        ] == xv) ==> sset.contains(advanced(it))
                                    }) && #[trigger] set_closed(g, *first, sset)) implies (forall|
                                u: int,
                            |
                                0 <= u < jv.len() ==> sset.contains((#[trigger] jv[u])@)) by {
                                assert forall|si2: int|
                                    0 <= si2 < seedv@.len() implies sset.contains(
                                    (#[trigger] seedv@[si2])@,
                                ) by {
                                    let t3 = choose|t3: int|
                                        0 <= t3 < states@[i as int].items@.len() && {
                                            let src = (#[trigger] states@[i as int].items@[t3])@;
                                            &&& src.dot < src.production.rhs.len()
                                            &&& src.production.rhs[src.dot] == xv
                                            &&& seedv@[si2]@ == advanced(src)
                                        };
                                    assert(sset.contains(advanced(
                                        (states@[i as int].items@[t3])@,
                                    )));
                                }
                            }
                        }
                    }
                    let found = find_state(&states, &j_items);
                    proof {
                        assert(gt.spec_get(i as int, xv) is None) by {
                            if gt.spec_get(i as int, xv) is Some {
                                let sx2 = choose|sx2: int|
                                    0 <= sx2 < sx && (#[trigger] syms@[sx2])@ == xv;
                                assert(syms@[sx2]@ == syms@[sx as int]@);
                            }
                        }
                        if i == 0 && xv == g.start_symbol@ {
                            let t3 = choose|t3: int|
                                0 <= t3 < states@[0].items@.len() && states@[0].items@[t3]@
                                    == aug_item0(g);
                            assert(seq_has_item(seedv@, advanced(aug_item0(g))));
                            assert(advanced(aug_item0(g)) == aug_done(g));
                            let u = choose|u: int|
                                0 <= u < seedv@.len() && seedv@[u]@ == aug_done(g);
                            assert(seq_has_item(j_items@, seedv@[u]@));
                        }
                        assert(!seq_has_item(j_items@, aug_item0(g))) by {
                            if seq_has_item(j_items@, aug_item0(g)) {
                                let t4 = choose|t4: int|
                                    0 <= t4 < j_items@.len() && j_items@[t4]@ == aug_item0(g);
                                assert(crate::item::closure_member_ok(g, seedv@, aug_item0(g)));
                                if seq_has_item(seedv@, aug_item0(g)) {
                                    let u2 = choose|u2: int|
                                        0 <= u2 < seedv@.len() && seedv@[u2]@ == aug_item0(g);
                                    assert(seedv@[u2]@.dot >= 1);
                                } else {
                                    let pidx = choose|pidx: int|
                                        0 <= pidx < g.productions@.len() && g.productions@[pidx]@
                                            == aug_item0(g).production;
                                    assert(g.productions@[pidx]@.lhs != SpecSymbol::NonTerminal(
                                        fake_start_name(),
                                    ));
                                }
                            }
                        }
                    }
                    match found {
                        Option::Some(j) => {
                            let ghost gt0 = gt;
                            gt.set(i, syms[sx].clone(), j);
                            proof {
                                lemma_record_goto(
                                    g,
                                    states@,
                                    gt0,
                                    gt,
                                    i as int,
                                    xv,
                                    j as int,
                                    states@[i as int].items@,
                                    seedv@,
                                    j_items@,
                                );
                                assert(same_item_set(jv, states@[j as int].items@));
                                lemma_goto_set_same(
                                    g,
                                    *first,
                                    states@[i as int].items@,
                                    xv,
                                    jv,
                                    states@[j as int].items@,
                                );
                                assert forall|s2: int, x2: SpecSymbol|
                                    #![trigger gt.spec_get(s2, x2)]
                                    gt.spec_get(s2, x2) is Some implies is_goto_set(
                                    g,
                                    *first,
                                    states@[s2].items@,
                                    x2,
                                    states@[gt.spec_get(s2, x2)->0].items@,
                                ) by {
                                    if !(s2 == i as int && x2 == xv) {
                                        assert(gt.spec_get(s2, x2) == gt0.spec_get(s2, x2));
                                    }
                                }
                            }
                        },
                        Option::None => {
                            let j = states.len();
                            let ghost states0 = states;
                            states.push(State { items: j_items, index: j });
                            let ghost gt0 = gt;
                            gt.set(i, syms[sx].clone(), j);
                            proof {
                                lemma_closure_state_wf(g, *first, seedv@, states@.last().items@);
                                lemma_append_state(
                                    g,
                                    *first,
                                    states0@,
                                    states@,
                                    gt0,
                                    gt,
                                    i as int,
                                    xv,
                                    states0@[i as int].items@,
                                    seedv@,
                                );
                                assert(states@[j as int].items@ == jv);
                                assert(states@[0] == states0@[0]);
                                assert forall|s2: int, x2: SpecSymbol|
                                    #![trigger gt.spec_get(s2, x2)]
                                    gt.spec_get(s2, x2) is Some implies is_goto_set(
                                    g,
                                    *first,
                                    states@[s2].items@,
                                    x2,
                                    states@[gt.spec_get(s2, x2)->0].items@,
                                ) by {
                                    let j2 = gt.spec_get(s2, x2)->0;
                                    if !(s2 == i as int && x2 == xv) {
                                        assert(gt.spec_get(s2, x2) == gt0.spec_get(s2, x2));
                                        assert(0 <= s2 < states0@.len() && 0 <= j2
                                            < states0@.len());
                                        assert(states@[s2] == states0@[s2]);
                                        assert(states@[j2] == states0@[j2]);
                                    } else {
                                        assert(states@[s2] == states0@[s2]);
                                    }
                                }
                            }
                        },
                    }
                    proof {
                        assert(gt.spec_get(i as int, xv) is Some);
                        assert forall|s: int, x: SpecSymbol| #[trigger]
                            gt.spec_get(s, x) is Some implies (s < i || (s == i
                            && exists|sx2: int|
                                0 <= sx2 < sx + 1 && (#[trigger] syms@[sx2])@ == x)) by {
                            if s == i && x == xv {
                                assert(0 <= sx < sx + 1 && syms@[sx as int]@ == x);
                            }
                        }
                    }
                }
                proof {
                    if seedv@.len() == 0 {
                        assert(has_dot_before(states@[i as int].items@, xv));
                        let t3 = choose|t3: int|
                            0 <= t3 < states@[i as int].items@.len() && {
                                let it = (#[trigger] states@[i as int].items@[t3])@;
                                it.dot < it.production.rhs.len() && it.production.rhs[it.dot]
                                    == xv
                            };
                        assert(seq_has_item(
                            seedv@,
                            advanced((states@[i as int].items@[t3])@),
                        ));
                        assert(false);
                    }
                    assert(gt.spec_get(i as int, xv) is Some);
                    assert forall|w: int| 0 <= w < sx + 1 implies gt.spec_get(
                        i as int,
                        (#[trigger] syms@[w])@,
                    ) is Some by {}
                }
                sx = sx + 1;
            }
            proof {
                if i == 0 {
                    let t3 = choose|t3: int|
                        0 <= t3 < states@[0].items@.len() && states@[0].items@[t3]@ == aug_item0(
                            g,
                        );
                    assert((states@[0].items@[t3])@.dot
                        < (states@[0].items@[t3])@.production.rhs.len());
                    assert((states@[0].items@[t3])@.production.rhs[0] == g.start_symbol@);
                    let w = choose|w: int| 0 <= w < syms@.len() && syms@[w]@ == g.start_symbol@;
                    assert(gt.spec_get(0, g.start_symbol@) is Some);
                }
                assert forall|s: int, x: SpecSymbol|
                    #![trigger gt.spec_get(s, x)]
                    0 <= s < i + 1 && has_dot_before(states@[s].items@, x) implies gt.spec_get(
                    s,
                    x,
                ) is Some by {
                    if s == i {
                        let t3 = choose|t3: int|
                            0 <= t3 < states@[s].items@.len() && {
                                let it = (#[trigger] states@[s].items@[t3])@;
                                it.dot < it.production.rhs.len() && it.production.rhs[it.dot]
                                    == x
                            };
                        assert(seq_has_sym(syms@, x));
                        let w = choose|w: int| 0 <= w < syms@.len() && syms@[w]@ == x;
                        assert(gt.spec_get(i as int, syms@[w]@) is Some);
                    }
                }
            }
            i = i + 1;
        }
        proof {
            assert(i == states@.len()) by {
                if i < states@.len() {
                    assert(fuel == 0);
                    assert(i == u128::MAX);
                }
            }
            assert(i >= 1);
        }
        (states, gt)
    }
}


/// Every ACTION entry is justified by an item of its state, and every
/// item that asks for an entry leaves one at its key: the assembly
/// rules, with conflicting writes resolved last-writer-wins.
pub open spec fn actions_assembled(
    g: Grammar,
    states: Seq<State>,
    at: ActionTable,
    gt: GotoTable,
) -> bool {
    &&& forall|s: int, x: SpecSymbol|
        #![trigger at.spec_get(s, x)]
        at.spec_get(s, x) matches Some(a) ==> (0 <= s < states.len() && match a {
            SpecAction::Shift(j) => exists|t: int|
                0 <= t < states[s].items@.len() && {
                    let it = (#[trigger] states[s].items@[t])@;
                    it.dot < it.production.rhs.len() && it.production.rhs[it.dot] == x
                },
            SpecAction::Reduce(p) => seq_has_item(
                states[s].items@,
                SpecItem { production: p, dot: p.rhs.len() as int, lookahead: x },
            ),
            SpecAction::Accept => has_aug_complete(g, states[s].items@),
            SpecAction::Error => false,
        })
    &&& forall|s: int, t: int|
        0 <= s < states.len() && 0 <= t < states[s].items@.len() ==> {
            let it = (#[trigger] states[s].items@[t])@;
            &&& ((it.dot == it.production.rhs.len() && it.production != aug_prod(g))
                ==> at.spec_get(s, it.lookahead) is Some)
            &&& ((it.dot < it.production.rhs.len() && it.production.rhs[it.dot] is Terminal
                && gt.spec_get(s, it.production.rhs[it.dot]) is Some) ==> at.spec_get(
                s,
                it.production.rhs[it.dot],
            ) is Some)
        }
    &&& forall|s: int|
        0 <= s < states.len() && has_aug_complete(g, (#[trigger] states[s]).items@)
            ==> at.spec_get(s, SpecSymbol::EndMarker) == Some(SpecAction::Accept)
}

/// The two tables arise from a canonical collection for the grammar:
/// state 0 is the closure of the initial augmented item, every GOTO
/// entry's target is the advanced closure of its source, and ACTION is
/// assembled from the states' items.
pub open spec fn tables_from_collection(
    g: Grammar,
    fs: FirstSets,
    states: Seq<State>,
    at: ActionTable,
    gt: GotoTable,
) -> bool {
    &&& coll_inv(g, states, gt)
    &&& is_initial_state(g, fs, states[0].items@)
    &&& forall|s: int, x: SpecSymbol|
        #![trigger gt.spec_get(s, x)]
        gt.spec_get(s, x) matches Some(j) ==> is_goto_set(g, fs, states[s].items@, x, states[j].items@)
    &&& forall|s: int, x: SpecSymbol|
        #![trigger gt.spec_get(s, x)]
        0 <= s < states.len() && has_dot_before(states[s].items@, x) ==> gt.spec_get(s, x) is Some
    &&& actions_assembled(g, states, at, gt)
}

/// The parser's tables arise from a canonical collection over FIRST
/// sets that are exactly mathematical FIRST: what `Parser::new` builds.
pub open spec fn parser_from_grammar(p: Parser) -> bool {
    exists|fs: FirstSets, states: Seq<State>|
        #![auto]
        first_sets_exact(p.grammar, fs) && tables_from_collection(
            p.grammar,
            fs,
            states,
            p.action_table,
            p.goto_table,
        )
}

/// The FIRST table's membership is exactly mathematical FIRST: a
/// function of the grammar alone.
pub open spec fn first_sets_exact(g: Grammar, fs: FirstSets) -> bool {
    &&& fs.basic_wf()
    &&& fs.covers(g)
    &&& forall|s: SpecSymbol, x: SpecSymbol|
        #[trigger] fs.first_has(s, x) <==> (fs.spec_has_key(s) && crate::first::in_first(
            crate::prod::prods_of(g.productions@),
            s,
            x,
        ))
}

/// Well-formedness of the two tables with respect to the grammar: the
/// facts the driver relies on. Every Shift agrees with GOTO and sits
/// on a terminal; every Reduce carries a grammar production and sits
/// on a terminal or the end marker; Accept sits only on the end
/// marker, in at most one state, never state 0; GOTO never targets
/// state 0, and a GOTO into an accepting state departs from state 0
/// over the start symbol.
pub open spec fn tables_wf(g: Grammar, at: ActionTable, gt: GotoTable) -> bool {
    &&& at.basic_wf()
    &&& gt.basic_wf()
    &&& forall|s: int, x: SpecSymbol|
        #![trigger at.spec_get(s, x)]
        at.spec_get(s, x) matches Some(a) ==> match a {
            SpecAction::Shift(s2) => gt.spec_get(s, x) == Some(s2) && x is Terminal
                && seq_has_sym(g.terminals@, x),
            SpecAction::Reduce(p) => seq_has_prod(g.productions@, p) && (x is EndMarker || (x
                is Terminal && seq_has_sym(g.terminals@, x))),
            SpecAction::Accept => x == SpecSymbol::EndMarker && s >= 1,
            SpecAction::Error => false,
        }
    &&& forall|s1: int, s2: int|
        at.spec_get(s1, SpecSymbol::EndMarker) == Some(SpecAction::Accept) && at.spec_get(
            s2,
            SpecSymbol::EndMarker,
        ) == Some(SpecAction::Accept) ==> s1 == s2
    &&& forall|s: int, x: SpecSymbol|
        #![trigger gt.spec_get(s, x)]
        gt.spec_get(s, x) matches Some(j) ==> j >= 1
    &&& forall|s: int, x: SpecSymbol|
        #![trigger gt.spec_get(s, x)]
        (gt.spec_get(s, x) matches Some(j) && at.spec_get(j, SpecSymbol::EndMarker) == Some(
            SpecAction::Accept,
        )) ==> (x == g.start_symbol@ && s == 0)
}

impl Parser {
    /// Structural invariant of a constructed parser.
    pub open spec fn wf(self) -> bool {
        &&& self.grammar.wf()
        &&& self.grammar.start_symbol@ is NonTerminal
        &&& tables_wf(self.grammar, self.action_table, self.goto_table)
    }

    /// Assemble the ACTION and GOTO tables from the canonical
    /// collection. For each state: a Shift entry for every terminal
    /// with a successor; a Reduce entry, keyed by the item lookahead,
    /// for every completed grammar production; and, last, an Accept
    /// entry on the end marker when the state holds the completed
    /// augmenting item. Conflicting entries resolve last-writer-wins.
    /// Exactly one state ends up accepting.
    #[verifier::rlimit(100)]
    pub fn build_parsing_table(grammar: &Grammar, first: &FirstSets) -> (r: (
        ActionTable,
        GotoTable,
    ))
        requires
            grammar.wf(),
            grammar.start_symbol@ is NonTerminal,
            first_ok(*grammar, *first),
            grammar_reserves_fake_start(*grammar),
        ensures
            tables_wf(*grammar, r.0, r.1),
            exists|s: int| #[trigger] r.0.spec_get(s, SpecSymbol::EndMarker) == Some(
                SpecAction::Accept,
            ),
            exists|states: Seq<State>| #[trigger] tables_from_collection(
                *grammar,
                *first,
                states,
                r.0,
                r.1,
            ),
    {
        let ghost g = *grammar;
        let st_gt = Self::build_canonical_collection(grammar, first);
        let states = st_gt.0;
        let gt = st_gt.1;
        let mut at = ActionTable::new();
        let accept_probe = LR1Item {
            production: Production {
                lhs: Symbol::NonTerminal(fake_start()),
                rhs: vec![grammar.start_symbol.clone()],
            },
            dot_position: 1,
            lookahead: Symbol::EndMarker,
        };
        proof {
            assert(views_of(accept_probe.production.rhs@) =~= seq![g.start_symbol@]);
            assert(accept_probe@ == aug_done(g));
        }
        let mut si: usize = 0;
        while si < states.len()
            invariant
                grammar.wf(),
                g == *grammar,
                grammar_reserves_fake_start(g),
                coll_inv(g, states@, gt),
                accept_probe@ == aug_done(g),
                0 <= si <= states@.len(),
                at.basic_wf(),
                forall|s: int, x: SpecSymbol|
                    #![trigger at.spec_get(s, x)]
                    at.spec_get(s, x) matches Some(a) ==> (0 <= s < si && match a {
                        SpecAction::Shift(s2) => gt.spec_get(s, x) == Some(s2) && x is Terminal
                            && (exists|t2: int|
                            0 <= t2 < states@[s].items@.len() && {
                                let it2 = (#[trigger] states@[s].items@[t2])@;
                                it2.dot < it2.production.rhs.len() && it2.production.rhs[it2.dot]
                                    == x
                            }),
                        SpecAction::Reduce(p) => seq_has_prod(g.productions@, p) && (x is Terminal
                            || x is EndMarker) && seq_has_item(
                            states@[s].items@,
                            SpecItem { production: p, dot: p.rhs.len() as int, lookahead: x },
                        ),
                        SpecAction::Accept => x == SpecSymbol::EndMarker && has_aug_complete(
                            g,
                            states@[s].items@,
                        ),
                        SpecAction::Error => false,
                    }),
                forall|s: int|
                    0 <= s < si && has_aug_complete(g, (#[trigger] states@[s]).items@)
                        ==> at.spec_get(s, SpecSymbol::EndMarker) == Some(SpecAction::Accept),
                forall|s: int, t2: int|
                    0 <= s < si && 0 <= t2 < states@[s].items@.len() ==> {
                        let it2 = (#[trigger] states@[s].items@[t2])@;
                        &&& ((it2.dot == it2.production.rhs.len() && it2.production != aug_prod(g))
                            ==> at.spec_get(s, it2.lookahead) is Some)
                        &&& ((it2.dot < it2.production.rhs.len() && it2.production.rhs[it2.dot]
                            is Terminal && gt.spec_get(s, it2.production.rhs[it2.dot]) is Some)
                            ==> at.spec_get(s, it2.production.rhs[it2.dot]) is Some)
                    },
            decreases states@.len() - si,
        {
            let n_items = states[si].items.len();
            let mut t: usize = 0;
            while t < n_items
                invariant
                    grammar.wf(),
                    g == *grammar,
                    grammar_reserves_fake_start(g),
                    coll_inv(g, states@, gt),
                    0 <= si < states@.len(),
                    n_items == states@[si as int].items@.len(),
                    0 <= t <= n_items,
                    at.basic_wf(),
                    forall|s: int, x: SpecSymbol|
                        #![trigger at.spec_get(s, x)]
                        at.spec_get(s, x) matches Some(a) ==> (0 <= s <= si && match a {
                            SpecAction::Shift(s2) => gt.spec_get(s, x) == Some(s2) && x
                                is Terminal && (exists|t2: int|
                                0 <= t2 < states@[s].items@.len() && {
                                    let it2 = (#[trigger] states@[s].items@[t2])@;
                                    it2.dot < it2.production.rhs.len() && it2.production.rhs[
                                        it2.dot
                                    ] == x
                                }),
                            SpecAction::Reduce(p) => seq_has_prod(g.productions@, p) && (x
                                is Terminal || x is EndMarker) && seq_has_item(
                                states@[s].items@,
                                SpecItem { production: p, dot: p.rhs.len() as int, lookahead: x },
                            ),
                            SpecAction::Accept => x == SpecSymbol::EndMarker && s < si
                                && has_aug_complete(g, states@[s].items@),
                            SpecAction::Error => false,
                        }),
                    forall|s: int|
                        0 <= s < si && has_aug_complete(g, (#[trigger] states@[s]).items@)
                            ==> at.spec_get(s, SpecSymbol::EndMarker) == Some(SpecAction::Accept),
                    forall|s: int, t2: int|
                        0 <= s < si && 0 <= t2 < states@[s].items@.len() ==> {
                            let it2 = (#[trigger] states@[s].items@[t2])@;
                            &&& ((it2.dot == it2.production.rhs.len() && it2.production
                                != aug_prod(g)) ==> at.spec_get(s, it2.lookahead) is Some)
                            &&& ((it2.dot < it2.production.rhs.len() && it2.production.rhs[it2.dot]
                                is Terminal && gt.spec_get(s, it2.production.rhs[it2.dot]) is Some)
                                ==> at.spec_get(s, it2.production.rhs[it2.dot]) is Some)
                        },
                    forall|t2: int|
                        0 <= t2 < t ==> {
                            let it2 = (#[trigger] states@[si as int].items@[t2])@;
                            &&& ((it2.dot == it2.production.rhs.len() && it2.production
                                != aug_prod(g)) ==> at.spec_get(si as int, it2.lookahead) is Some)
                            &&& ((it2.dot < it2.production.rhs.len() && it2.production.rhs[it2.dot]
                                is Terminal && gt.spec_get(si as int, it2.production.rhs[it2.dot])
                                is Some) ==> at.spec_get(
                                si as int,
                                it2.production.rhs[it2.dot],
                            ) is Some)
                        },
                decreases n_items - t,
            {
                let it = &states[si].items[t];
                let ghost itv = states@[si as int].items@[t as int]@;
                proof {
                    assert(state_items_wf(g, states@[si as int].items@));
                }
                if it.dot_position < it.production.rhs.len() {
                    proof {
                        assert(itv.production.rhs[itv.dot] == (
                        states@[si as int].items@[t as int].production.rhs@[it.dot_position as int])@);
                    }
                    if matches!(&it.production.rhs[it.dot_position], Symbol::Terminal(_)) {
                        match gt.get(si, &it.production.rhs[it.dot_position]) {
                            Option::Some(ns) => {
                                at.set(
                                    si,
                                    it.production.rhs[it.dot_position].clone(),
                                    Action::Shift(ns),
                                );
                                proof {
                                    assert({
                                        let it2 = (states@[si as int].items@[t as int])@;
                                        it2.dot < it2.production.rhs.len()
                                            && it2.production.rhs[it2.dot] == itv.production.rhs[
                                            itv.dot
                                        ]
                                    });
                                }
                            },
                            Option::None => (),
                        }
                    }
                } else {
                    let is_aug = matches!(&it.production.lhs, Symbol::NonTerminal(nm) if nm.eq(&fake_start()));
                    if !is_aug {
                        proof {
                            assert(seq_has_prod(g.productions@, itv.production)) by {
                                if itv.production == aug_prod(g) {
                                    assert(itv.production.lhs == SpecSymbol::NonTerminal(
                                        fake_start_name(),
                                    ));
                                    assert((states@[si as int].items@[t as int].production.lhs)@
                                        == itv.production.lhs);
                                }
                            }
                        }
                        at.set(si, it.lookahead.clone(), Action::Reduce(it.production.clone()));
                        proof {
                            assert(itv == SpecItem {
                                production: itv.production,
                                dot: itv.production.rhs.len() as int,
                                lookahead: itv.lookahead,
                            });
                            assert(seq_has_item(
                                states@[si as int].items@,
                                SpecItem {
                                    production: itv.production,
                                    dot: itv.production.rhs.len() as int,
                                    lookahead: itv.lookahead,
                                },
                            )) by {
                                assert((states@[si as int].items@[t as int])@ == itv);
                            }
                        }
                    } else {
                        proof {
                            assert(itv.production == aug_prod(g)) by {
                                assert((states@[si as int].items@[t as int].production.lhs)@
                                    == itv.production.lhs);
                                if itv.production != aug_prod(g) {
                                    let pidx = choose|pidx: int|
                                        0 <= pidx < g.productions@.len() && g.productions@[pidx]@
                                            == itv.production;
                                    assert(g.productions@[pidx]@.lhs != SpecSymbol::NonTerminal(
                                        fake_start_name(),
                                    ));
                                }
                            }
                        }
                    }
                }
                t = t + 1;
            }
            if contains_item(&states[si].items, &accept_probe) {
                at.set(si, Symbol::EndMarker, Action::Accept);
                proof {
                    assert(has_aug_complete(g, states@[si as int].items@));
                }
            } else {
                proof {
                    assert(!has_aug_complete(g, states@[si as int].items@));
                }
            }
            si = si + 1;
        }
        proof {
            let jacc = gt.spec_get(0, g.start_symbol@)->0;
            assert(gt.spec_get(0, g.start_symbol@) == Some(jacc));
            assert(has_aug_complete(g, states@[jacc].items@));
            assert(at.spec_get(jacc, SpecSymbol::EndMarker) == Some(SpecAction::Accept));
            assert forall|s1: int, s2: int|
                at.spec_get(s1, SpecSymbol::EndMarker) == Some(SpecAction::Accept) && at.spec_get(
                    s2,
                    SpecSymbol::EndMarker,
                ) == Some(SpecAction::Accept) implies s1 == s2 by {
                assert(has_aug_complete(g, states@[s1].items@));
                assert(has_aug_complete(g, states@[s2].items@));
                assert(gt.spec_get(0, g.start_symbol@) == Some(s1));
                assert(gt.spec_get(0, g.start_symbol@) == Some(s2));
            }
            assert forall|s: int, x: SpecSymbol|
                #![trigger at.spec_get(s, x)]
                at.spec_get(s, x) is Some implies match at.spec_get(s, x)->0 {
                SpecAction::Shift(s2) => gt.spec_get(s, x) == Some(s2) && x is Terminal
                    && seq_has_sym(g.terminals@, x),
                SpecAction::Reduce(p) => seq_has_prod(g.productions@, p) && (x is EndMarker || (x
                    is Terminal && seq_has_sym(g.terminals@, x))),
                SpecAction::Accept => x == SpecSymbol::EndMarker && s >= 1,
                SpecAction::Error => false,
            } by {
                if at.spec_get(s, x) == Some(SpecAction::Accept) {
                    assert(has_aug_complete(g, states@[s].items@));
                    assert(s >= 1) by {
                        if s == 0 {
                            assert(!has_aug_complete(g, states@[0].items@));
                        }
                    }
                }
                match at.spec_get(s, x)->0 {
                    SpecAction::Shift(_) => {
                        assert(seq_has_sym(g.terminals@, x)) by {
                            let t2 = choose|t2: int|
                                0 <= t2 < states@[s].items@.len() && {
                                    let it2 = (#[trigger] states@[s].items@[t2])@;
                                    it2.dot < it2.production.rhs.len() && it2.production.rhs[
                                        it2.dot
                                    ] == x
                                };
                            let it2 = (states@[s].items@[t2])@;
                            assert(state_items_wf(g, states@[s].items@));
                            if it2.production == aug_prod(g) {
                                assert(it2.production.rhs[it2.dot] == g.start_symbol@);
                            } else {
                                let pidx = choose|pidx: int|
                                    0 <= pidx < g.productions@.len() && g.productions@[pidx]@
                                        == it2.production;
                                assert(g.prod_wf(g.productions@[pidx]@));
                            }
                        }
                    },
                    SpecAction::Reduce(p) => {
                        if x is Terminal {
                            assert(seq_has_sym(g.terminals@, x)) by {
                                let t2 = choose|t2: int|
                                    0 <= t2 < states@[s].items@.len() && states@[s].items@[t2]@
                                        == SpecItem {
                                        production: p,
                                        dot: p.rhs.len() as int,
                                        lookahead: x,
                                    };
                                assert(state_items_wf(g, states@[s].items@));
                                assert((states@[s].items@[t2])@.lookahead == x);
                            }
                        }
                    },
                    _ => (),
                }
            }
            assert forall|s: int, x: SpecSymbol|
                #![trigger gt.spec_get(s, x)]
                (gt.spec_get(s, x) is Some && at.spec_get(
                    gt.spec_get(s, x)->0,
                    SpecSymbol::EndMarker,
                ) == Some(SpecAction::Accept)) implies (x == g.start_symbol@ && s == 0) by {
                if gt.spec_get(s, x) is Some {
                    let j = gt.spec_get(s, x)->0;
                    if at.spec_get(j, SpecSymbol::EndMarker) == Some(SpecAction::Accept) {
                        assert(has_aug_complete(g, states@[j].items@));
                    }
                }
            }
            assert(tables_from_collection(g, *first, states@, at, gt));
        }
        (at, gt)
    }

    /// Build a parser for a grammar. The resulting tables are
    /// well-formed, hold exactly one Accept entry, keyed by the end
    /// marker, and arise from a canonical collection over exact FIRST
    /// sets, so their contents are pinned, set for set, by the grammar
    /// alone.
    pub fn new(grammar: Grammar) -> (p: Parser)
        requires
            grammar.wf(),
            grammar.start_symbol@ is NonTerminal,
            grammar_reserves_fake_start(grammar),
        ensures
            p.wf(),
            p.grammar == grammar,
            exists|s: int| #[trigger] p.action_table.spec_get(s, SpecSymbol::EndMarker) == Some(
                SpecAction::Accept,
            ),
            parser_from_grammar(p),
    {
        let first = grammar.compute_first();
        proof {
            assert(first_ok(grammar, first)) by {
                assert(crate::first::first_inv(grammar, first));
            }
            assert(first_sets_exact(grammar, first)) by {
                assert forall|s: SpecSymbol, x: SpecSymbol| #[trigger]
                    first.first_has(s, x) <==> (first.spec_has_key(s) && crate::first::in_first(
                    crate::prod::prods_of(grammar.productions@),
                    s,
                    x,
                )) by {}
            }
        }
        let tables = Self::build_parsing_table(&grammar, &first);
        let p = Parser { grammar, action_table: tables.0, goto_table: tables.1 };
        proof {
            let s0 = choose|s: int| #[trigger]
                tables.0.spec_get(s, SpecSymbol::EndMarker) == Some(SpecAction::Accept);
            assert(p.action_table.spec_get(s0, SpecSymbol::EndMarker) == Some(SpecAction::Accept));
            let stw = choose|states: Seq<State>| #[trigger]
                tables_from_collection(grammar, first, states, tables.0, tables.1);
            assert(first_sets_exact(p.grammar, first) && tables_from_collection(
                p.grammar,
                first,
                stw,
                p.action_table,
                p.goto_table,
            ));
        }
        p
    }
}


// ---------------------------------------------------------------------------
// Concrete syntax trees.
// ---------------------------------------------------------------------------
/// A node of the concrete syntax tree: a terminal leaf carrying the
/// token category text, or a non-terminal with its children in source
/// order.
#[derive(Debug)]
pub enum ASTNode {
    Terminal(String),
    NonTerminal(String, Vec<ASTNode>),
}

/// The mathematical value of an [`ASTNode`].
pub enum SpecTree {
    Terminal(Seq<char>),
    NonTerminal(Seq<char>, Seq<SpecTree>),
}

impl View for ASTNode {
    type V = SpecTree;

    open spec fn view(&self) -> SpecTree
        decreases self,
    {
        match self {
            ASTNode::Terminal(s) => SpecTree::Terminal(s@),
            ASTNode::NonTerminal(n, ch) => SpecTree::NonTerminal(n@, view_forest(ch@)),
        }
    }
}

/// The views of a sequence of tree nodes.
pub open spec fn view_forest(s: Seq<ASTNode>) -> Seq<SpecTree>
    decreases s,
{
    if s.len() == 0 {
        Seq::empty()
    } else {
        view_forest(s.drop_last()).push(s.last()@)
    }
}

/// The leaf names of a tree, left to right.
pub open spec fn tree_yield(t: SpecTree) -> Seq<Seq<char>>
    decreases t,
{
    match t {
        SpecTree::Terminal(s) => seq![s],
        SpecTree::NonTerminal(_, ch) => forest_yield_upto(ch, ch.len() as int),
    }
}

/// The concatenated yields of the first `k` trees of a forest.
pub open spec fn forest_yield_upto(ts: Seq<SpecTree>, k: int) -> Seq<Seq<char>>
    decreases ts, k,
{
    if k <= 0 || k > ts.len() {
        Seq::empty()
    } else {
        forest_yield_upto(ts, k - 1) + tree_yield(ts[k - 1])
    }
}

/// The concatenated yields of a forest.
pub open spec fn forest_yield(ts: Seq<SpecTree>) -> Seq<Seq<char>> {
    forest_yield_upto(ts, ts.len() as int)
}

/// `view_forest` is the pointwise view.
pub proof fn lemma_view_forest(s: Seq<ASTNode>)
    ensures
        view_forest(s).len() == s.len(),
        forall|i: int| 0 <= i < s.len() ==> view_forest(s)[i] == (#[trigger] s[i])@,
    decreases s.len(),
{
    if s.len() > 0 {
        lemma_view_forest(s.drop_last());
        assert(view_forest(s) == view_forest(s.drop_last()).push(s.last()@));
        assert forall|i: int| 0 <= i < s.len() implies view_forest(s)[i] == (
        #[trigger] s[i])@ by {
            if i < s.len() - 1 {
                assert(view_forest(s)[i] == view_forest(s.drop_last())[i]);
                assert(s.drop_last()[i] == s[i]);
            } else {
                assert(view_forest(s)[i] == s.last()@);
            }
        }
    }
}

/// Forest yields look only at the first `k` trees.
proof fn lemma_forest_upto_prefix(a: Seq<SpecTree>, b: Seq<SpecTree>, k: int)
    requires
        0 <= k <= a.len(),
        k <= b.len(),
        forall|i: int| 0 <= i < k ==> a[i] == b[i],
    ensures
        forest_yield_upto(a, k) == forest_yield_upto(b, k),
    decreases k,
{
    if k > 0 {
        lemma_forest_upto_prefix(a, b, k - 1);
    }
}

/// The yield of a forest splits at any point.
proof fn lemma_forest_split(ts: Seq<SpecTree>, k: int)
    requires
        0 <= k <= ts.len(),
    ensures
        forest_yield(ts) == forest_yield_upto(ts, k) + forest_yield(ts.skip(k)),
    decreases ts.len() - k,
{
    let n = ts.len() as int;
    if k == n {
        assert(ts.skip(k).len() == 0);
        assert(forest_yield(ts.skip(k)) == Seq::<Seq<char>>::empty());
        assert(forest_yield(ts) + Seq::<Seq<char>>::empty() =~= forest_yield(ts));
    } else {
        lemma_forest_split(ts, k + 1);
        // forest_yield(ts) == upto(ts, k+1) + yield(skip(k+1))
        // upto(ts, k+1) == upto(ts, k) + tree_yield(ts[k])
        // yield(skip k) == upto(skip k, n-k) and skip(k)[0] == ts[k]
        let tail = ts.skip(k);
        assert(tail.len() == n - k);
        assert forall|i: int| 0 <= i < n - k implies tail[i] == ts[k + i] by {}
        lemma_forest_head(tail);
        assert(tail.skip(1) =~= ts.skip(k + 1));
        assert(forest_yield(tail) == tree_yield(ts[k]) + forest_yield(ts.skip(k + 1)));
        assert(forest_yield(ts) == forest_yield_upto(ts, k) + tree_yield(ts[k]) + forest_yield(
            ts.skip(k + 1),
        ));
        assert(forest_yield_upto(ts, k) + tree_yield(ts[k]) + forest_yield(ts.skip(k + 1))
            =~= forest_yield_upto(ts, k) + (tree_yield(ts[k]) + forest_yield(ts.skip(k + 1))));
    }
}

/// The yield of a nonempty forest starts with its first tree's yield.
proof fn lemma_forest_head(ts: Seq<SpecTree>)
    requires
        ts.len() >= 1,
    ensures
        forest_yield(ts) == tree_yield(ts[0]) + forest_yield(ts.skip(1)),
    decreases ts.len(),
{
    let n = ts.len() as int;
    if n == 1 {
        assert(ts.skip(1).len() == 0);
        assert(forest_yield(ts) == forest_yield_upto(ts, 0) + tree_yield(ts[0]));
        assert(forest_yield_upto(ts, 0) + tree_yield(ts[0]) =~= tree_yield(ts[0]));
        assert(tree_yield(ts[0]) + forest_yield(ts.skip(1)) =~= tree_yield(ts[0]));
    } else {
        let front = ts.take(n - 1);
        lemma_forest_head(front);
        lemma_forest_upto_prefix(front, ts, n - 1);
        assert(forest_yield(front) == forest_yield_upto(ts, n - 1));
        assert(front[0] == ts[0]);
        assert(front.skip(1) =~= ts.skip(1).take(n - 2));
        lemma_forest_upto_prefix(ts.skip(1).take(n - 2), ts.skip(1), n - 2);
        assert(forest_yield(front.skip(1)) == forest_yield_upto(ts.skip(1), n - 2));
        assert(forest_yield(ts) == forest_yield_upto(ts, n - 1) + tree_yield(ts[n - 1]));
        assert(forest_yield(ts.skip(1)) == forest_yield_upto(ts.skip(1), n - 2) + tree_yield(
            ts.skip(1)[n - 2],
        ));
        assert(ts.skip(1)[n - 2] == ts[n - 1]);
        assert(tree_yield(ts[0]) + (forest_yield_upto(ts.skip(1), n - 2) + tree_yield(ts[n - 1]))
            =~= (tree_yield(ts[0]) + forest_yield_upto(ts.skip(1), n - 2)) + tree_yield(
            ts[n - 1],
        ));
    }
}

/// The names of a token sequence.
pub open spec fn token_names(ts: Seq<Symbol>) -> Seq<Seq<char>> {
    Seq::new(ts.len(), |i: int| ts[i]@.name())
}

/// Every internal node of the tree instantiates a grammar production:
/// its name is the production's head name, and child for child the
/// subtrees stand for the production's right-hand-side symbols — a
/// terminal leaf with the symbol's name, or a non-terminal node named
/// by it. A tree satisfying this with the right root is a derivation.
pub open spec fn tree_nodes_ok(g: Grammar, t: SpecTree) -> bool
    decreases t, 0int,
{
    match t {
        SpecTree::Terminal(_) => true,
        SpecTree::NonTerminal(nm, ch) => {
            &&& exists|p: SpecProd|
                #![auto]
                seq_has_prod(g.productions@, p) && p.lhs == SpecSymbol::NonTerminal(nm)
                    && p.rhs.len() == ch.len() && (forall|j: int|
                    0 <= j < ch.len() ==> node_symbol(#[trigger] ch[j]) == p.rhs[j])
            &&& forest_nodes_ok_upto(g, ch, ch.len() as int)
        },
    }
}

/// The node condition over the first `k` trees of a forest.
pub open spec fn forest_nodes_ok_upto(g: Grammar, ts: Seq<SpecTree>, k: int) -> bool
    decreases ts, k,
{
    if k <= 0 || k > ts.len() {
        true
    } else {
        forest_nodes_ok_upto(g, ts, k - 1) && tree_nodes_ok(g, ts[k - 1])
    }
}

/// A forest whose trees each satisfy the node condition satisfies it
/// up to any bound.
proof fn lemma_forest_nodes_ok(g: Grammar, ts: Seq<SpecTree>, k: int)
    requires
        k <= ts.len(),
        forall|i: int| 0 <= i < k ==> tree_nodes_ok(g, #[trigger] ts[i]),
    ensures
        forest_nodes_ok_upto(g, ts, k),
    decreases k,
{
    if k > 0 {
        lemma_forest_nodes_ok(g, ts, k - 1);
    }
}

/// A parse failure: a syntax error at an input position, or an
/// internal table inconsistency met during a reduction.
#[derive(Debug)]
pub enum ParseError {
    Syntax { pos: usize, state: usize, symbol: Symbol },
    InvalidTransition { state: usize },
}

impl ParseError {
    /// A one-line diagnostic. Relies on std's formatting machinery.
    #[verifier::external_body]
    pub fn message(&self) -> String {
        match self {
            ParseError::Syntax { pos, state, symbol } => {
                format!("Syntax error at position {}, state: {:?}, symbol: {:?}", pos, state, symbol)
            },
            ParseError::InvalidTransition { state } => {
                format!("Invalid state transition at state {:?}", state)
            },
        }
    }
}



/// An invalid-transition report names a genuine gap: the tables hold a
/// Reduce entry that is either in the reported state itself, or whose
/// reduced head has no GOTO successor from the reported state.
pub open spec fn reduce_gap(pr: Parser, reported: int) -> bool {
    exists|s: int, x: SpecSymbol, p: SpecProd|
        #![auto]
        pr.action_table.spec_get(s, x) == Some(SpecAction::Reduce(p)) && (s == reported
            || pr.goto_table.spec_get(reported, p.lhs) is None)
}

/// Exhibit the gap behind an invalid-transition report.
proof fn reduce_witness(pr: Parser, s: int, x: SpecSymbol, p: SpecProd, reported: int)
    requires
        pr.action_table.spec_get(s, x) == Some(SpecAction::Reduce(p)),
        s == reported || pr.goto_table.spec_get(reported, p.lhs) is None,
    ensures
        reduce_gap(pr, reported),
{
    assert(pr.action_table.spec_get(s, x) == Some(SpecAction::Reduce(p)) && (s == reported
        || pr.goto_table.spec_get(reported, p.lhs) is None));
}

/// One move of the driver, as a function of the tables alone: the
/// outcome of consulting ACTION at the top state and current symbol on
/// a configuration of cursor and state stack.
pub enum SpecStep {
    Next(int, Seq<int>),
    Accepted,
    Rejected,
}

/// The table-driven transition function the driver follows.
pub open spec fn cfg_step(p: Parser, tokens: Seq<Symbol>, pos: int, stack: Seq<int>) -> SpecStep {
    if stack.len() == 0 {
        SpecStep::Rejected
    } else {
        let st = stack.last();
        let x = if pos < tokens.len() {
            tokens[pos]@
        } else {
            SpecSymbol::EndMarker
        };
        match p.action_table.spec_get(st, x) {
            Some(a) => match a {
                SpecAction::Shift(j) => SpecStep::Next(pos + 1, stack.push(j)),
                SpecAction::Reduce(pr) => if stack.len() > pr.rhs.len() {
                    let stack2 = stack.take(stack.len() - pr.rhs.len());
                    match p.goto_table.spec_get(stack2.last(), pr.lhs) {
                        Some(j) => SpecStep::Next(pos, stack2.push(j)),
                        None => SpecStep::Rejected,
                    }
                } else {
                    SpecStep::Rejected
                },
                SpecAction::Accept => SpecStep::Accepted,
                SpecAction::Error => SpecStep::Rejected,
            },
            None => SpecStep::Rejected,
        }
    }
}

/// The run reaches the second configuration from the first in exactly
/// `k` moves.
pub open spec fn runs_to(
    p: Parser,
    tokens: Seq<Symbol>,
    pos: int,
    stack: Seq<int>,
    k: nat,
    pos2: int,
    stack2: Seq<int>,
) -> bool
    decreases k,
{
    if k == 0 {
        pos2 == pos && stack2 == stack
    } else {
        cfg_step(p, tokens, pos, stack) matches SpecStep::Next(pm, sm) && runs_to(
            p,
            tokens,
            pm,
            sm,
            (k - 1) as nat,
            pos2,
            stack2,
        )
    }
}

/// The table-driven run from the initial configuration accepts.
pub open spec fn table_run_accepts(p: Parser, tokens: Seq<Symbol>) -> bool {
    exists|k: nat, pos2: int, stack2: Seq<int>|
        #![auto]
        runs_to(p, tokens, 0, seq![0int], k, pos2, stack2) && cfg_step(p, tokens, pos2, stack2)
            == SpecStep::Accepted
}

/// The table-driven run accepts in fewer than `n` moves.
pub open spec fn table_run_accepts_within(p: Parser, tokens: Seq<Symbol>, n: nat) -> bool {
    exists|k: nat, pos2: int, stack2: Seq<int>|
        #![auto]
        k < n && runs_to(p, tokens, 0, seq![0int], k, pos2, stack2) && cfg_step(
            p,
            tokens,
            pos2,
            stack2,
        ) == SpecStep::Accepted
}

/// A run extends by one move at its end.
proof fn lemma_runs_to_snoc(
    p: Parser,
    tokens: Seq<Symbol>,
    pos: int,
    stack: Seq<int>,
    k: nat,
    pos2: int,
    stack2: Seq<int>,
    pos3: int,
    stack3: Seq<int>,
)
    requires
        runs_to(p, tokens, pos, stack, k, pos2, stack2),
        cfg_step(p, tokens, pos2, stack2) == SpecStep::Next(pos3, stack3),
    ensures
        runs_to(p, tokens, pos, stack, (k + 1) as nat, pos3, stack3),
    decreases k,
{
    if k == 0 {
        assert(pos2 == pos && stack2 == stack);
        assert(cfg_step(p, tokens, pos, stack) == SpecStep::Next(pos3, stack3));
        assert(runs_to(p, tokens, pos3, stack3, 0, pos3, stack3));
        assert(runs_to(p, tokens, pos, stack, 1, pos3, stack3));
    } else {
        let st = cfg_step(p, tokens, pos, stack);
        assert(st matches SpecStep::Next(pm, sm) && runs_to(
            p,
            tokens,
            pm,
            sm,
            (k - 1) as nat,
            pos2,
            stack2,
        ));
        let pm = st->Next_0;
        let sm = st->Next_1;
        lemma_runs_to_snoc(p, tokens, pm, sm, (k - 1) as nat, pos2, stack2, pos3, stack3);
        assert(runs_to(p, tokens, pm, sm, k, pos3, stack3));
        assert(runs_to(p, tokens, pos, stack, (k + 1) as nat, pos3, stack3));
    }
}

/// Two runs from one configuration agree on their common prefix: the
/// transition function is deterministic.
proof fn lemma_run_prefix(
    p: Parser,
    tokens: Seq<Symbol>,
    pos: int,
    stack: Seq<int>,
    k1: nat,
    k2: nat,
    pos1: int,
    stack1: Seq<int>,
    pos2: int,
    stack2: Seq<int>,
)
    requires
        runs_to(p, tokens, pos, stack, k1, pos1, stack1),
        runs_to(p, tokens, pos, stack, k2, pos2, stack2),
        k1 <= k2,
    ensures
        runs_to(p, tokens, pos1, stack1, (k2 - k1) as nat, pos2, stack2),
    decreases k1,
{
    if k1 == 0 {
    } else {
        let st = cfg_step(p, tokens, pos, stack);
        let pm = st->Next_0;
        let sm = st->Next_1;
        lemma_run_prefix(p, tokens, pm, sm, (k1 - 1) as nat, (k2 - 1) as nat, pos1, stack1, pos2, stack2);
    }
}

/// A run that reaches a rejecting configuration never accepts.
proof fn lemma_rejected_run(
    p: Parser,
    tokens: Seq<Symbol>,
    steps: nat,
    pos2: int,
    stack2: Seq<int>,
)
    requires
        runs_to(p, tokens, 0, seq![0int], steps, pos2, stack2),
        cfg_step(p, tokens, pos2, stack2) == SpecStep::Rejected,
    ensures
        !table_run_accepts(p, tokens),
        forall|n: nat| !table_run_accepts_within(p, tokens, n),
{
    if table_run_accepts(p, tokens) {
        let (k, pa, sa) = choose|k: nat, pa: int, sa: Seq<int>|
            #![auto]
            runs_to(p, tokens, 0, seq![0int], k, pa, sa) && cfg_step(p, tokens, pa, sa)
                == SpecStep::Accepted;
        if k <= steps {
            lemma_run_prefix(p, tokens, 0, seq![0int], k, steps, pa, sa, pos2, stack2);
            assert((steps - k) as nat == 0 ==> (pa == pos2 && sa == stack2));
        } else {
            lemma_run_prefix(p, tokens, 0, seq![0int], steps, k, pos2, stack2, pa, sa);
        }
    }
    assert forall|n: nat| !table_run_accepts_within(p, tokens, n) by {
        if table_run_accepts_within(p, tokens, n) {
            let (k, pa, sa) = choose|k: nat, pa: int, sa: Seq<int>|
                #![auto]
                k < n && runs_to(p, tokens, 0, seq![0int], k, pa, sa) && cfg_step(
                    p,
                    tokens,
                    pa,
                    sa,
                ) == SpecStep::Accepted;
            assert(table_run_accepts(p, tokens));
        }
    }
}

/// A run still going after `steps` moves accepted nowhere earlier.
proof fn lemma_no_accept_before(
    p: Parser,
    tokens: Seq<Symbol>,
    steps: nat,
    pos2: int,
    stack2: Seq<int>,
    n: nat,
)
    requires
        runs_to(p, tokens, 0, seq![0int], steps, pos2, stack2),
        n <= steps,
    ensures
        !table_run_accepts_within(p, tokens, n),
{
    if table_run_accepts_within(p, tokens, n) {
        let (k, pa, sa) = choose|k: nat, pa: int, sa: Seq<int>|
            #![auto]
            k < n && runs_to(p, tokens, 0, seq![0int], k, pa, sa) && cfg_step(p, tokens, pa, sa)
                == SpecStep::Accepted;
        lemma_run_prefix(p, tokens, 0, seq![0int], k, steps, pa, sa, pos2, stack2);
    }
}

/// The integer values of a state stack.
pub open spec fn stack_ints(s: Seq<usize>) -> Seq<int> {
    s.map_values(|u: usize| u as int)
}

/// At a reduce, the nodes about to be folded stand, symbol for symbol,
/// for the production's right-hand side: the completed item in the top
/// state is walked back along the stack's GOTO spine.
proof fn lemma_children_match(
    p: Parser,
    fsg: FirstSets,
    stg: Seq<State>,
    sti: Seq<int>,
    nodes0: Seq<ASTNode>,
    cut: int,
    pr: SpecProd,
    la: SpecSymbol,
)
    requires
        forall|s: int, x: SpecSymbol|
            #![trigger p.action_table.spec_get(s, x)]
            p.action_table.spec_get(s, x) matches Some(a) ==> (a matches SpecAction::Reduce(pr2)
                ==> (0 <= s < stg.len() && seq_has_item(
                stg[s].items@,
                SpecItem { production: pr2, dot: pr2.rhs.len() as int, lookahead: x },
            ))),
        forall|s: int, x: SpecSymbol|
            #![trigger p.goto_table.spec_get(s, x)]
            p.goto_table.spec_get(s, x) matches Some(j) ==> is_goto_set(
                p.grammar,
                fsg,
                stg[s].items@,
                x,
                stg[j].items@,
            ),
        forall|s: int, x: SpecSymbol|
            #![trigger p.goto_table.spec_get(s, x)]
            p.goto_table.spec_get(s, x) matches Some(j) ==> (0 <= s < stg.len() && 0 <= j
                < stg.len()),
        sti.len() == nodes0.len() + 1,
        p.action_table.spec_get(sti.last(), la) == Some(SpecAction::Reduce(pr)),
        seq_has_prod(p.grammar.productions@, pr),
        cut == nodes0.len() - pr.rhs.len(),
        cut >= 0,
        forall|ii: int|
            0 <= ii < nodes0.len() ==> p.goto_table.spec_get(
                sti[ii],
                node_symbol((#[trigger] nodes0[ii])@),
            ) == Some(sti[ii + 1]),
    ensures
        forall|j: int|
            0 <= j < pr.rhs.len() ==> node_symbol((#[trigger] nodes0[cut + j])@) == pr.rhs[j],
{
    let nsyms = Seq::new(nodes0.len(), |ii: int| node_symbol(nodes0[ii]@));
    let stt = sti.last();
    assert(seq_has_item(
        stg[stt].items@,
        SpecItem { production: pr, dot: pr.rhs.len() as int, lookahead: la },
    ));
    assert forall|ii: int| 0 <= ii < nsyms.len() implies p.goto_table.spec_get(
        sti[ii],
        #[trigger] nsyms[ii],
    ) == Some(sti[ii + 1]) by {
        assert(nsyms[ii] == node_symbol(nodes0[ii]@));
    }
    assert(sti[cut + pr.rhs.len()] == stt);
    lemma_spine_rhs(
        p.grammar,
        fsg,
        stg,
        p.goto_table,
        sti,
        nsyms,
        cut,
        pr,
        la,
        pr.rhs.len() as int,
    );
    assert forall|j: int| 0 <= j < pr.rhs.len() implies node_symbol(
        (#[trigger] nodes0[cut + j])@,
    ) == pr.rhs[j] by {
        assert(nsyms[cut + j] == pr.rhs[j]);
        assert(nsyms[cut + j] == node_symbol(nodes0[cut + j]@));
    }
}

/// Appending a tree appends its yield.
proof fn lemma_forest_push(ts: Seq<SpecTree>, t: SpecTree)
    ensures
        forest_yield(ts.push(t)) == forest_yield(ts) + tree_yield(t),
{
    lemma_forest_upto_prefix(ts, ts.push(t), ts.len() as int);
    assert(ts.push(t)[ts.len() as int] == t);
}

impl Parser {
    /// Run the shift/reduce driver over a terminal sequence, with the
    /// end marker assumed after the input. On `Shift` the input symbol
    /// becomes a leaf; on `Reduce` the production's children are
    /// folded into one node; `Accept` returns the finished tree, whose
    /// yield is exactly the input, whose root carries the start
    /// symbol's name, and whose inner nodes each instantiate a grammar
    /// production; a missing entry reports a syntax error at the
    /// current position. A reduction that finds no GOTO entry, or a
    /// run that exhausts the driver's step budget, reports an invalid
    /// state transition pointing at a genuine gap in the tables.
    ///
    /// The driver follows the table-driven transition relation
    /// [`cfg_step`] exactly: it succeeds precisely when the run of the
    /// tables accepts the input within the step budget.
    #[verifier::rlimit(100)]
    #[verifier::spinoff_prover]
    pub fn parse(&self, tokens: Vec<Symbol>) -> (r: Result<ASTNode, ParseError>)
        requires
            self.wf(),
            parser_from_grammar(*self),
            forall|i: int| 0 <= i < tokens@.len() ==> !((#[trigger] tokens@[i])@ is EndMarker),
        ensures
            match r {
                Ok(t) => t@ matches SpecTree::NonTerminal(nm, ch) && nm
                    == self.grammar.start_symbol@.name() && tree_yield(t@) == token_names(tokens@)
                    && tree_nodes_ok(self.grammar, t@) && table_run_accepts(*self, tokens@) && (
                forall|i: int| 0 <= i < tokens@.len() ==> (#[trigger] tokens@[i])@ is Terminal),
                Err(e) => {
                    &&& !table_run_accepts_within(*self, tokens@, u64::MAX as nat)
                    &&& (e matches ParseError::Syntax { pos, state, symbol } ==> (pos
                        <= tokens@.len() && self.action_table.spec_get(state as int, symbol@)
                        is None && symbol@ == if (pos as int) < tokens@.len() {
                        tokens@[pos as int]@
                    } else {
                        SpecSymbol::EndMarker
                    }))
                    &&& (e matches ParseError::InvalidTransition { state } ==> reduce_gap(
                        *self,
                        state as int,
                    ))
                },
            },
    {
        let end = Symbol::EndMarker;
        let mut pos: usize = 0;
        let mut stack: Vec<usize> = Vec::new();
        stack.push(0);
        let mut nodes: Vec<ASTNode> = Vec::new();
        // Tables with reduction cycles could drive the loop forever;
        // an explicit step budget keeps it measurable, and a run that
        // exhausts it reports the same internal inconsistency a
        // missing GOTO entry does.
        let mut fuel: u64 = u64::MAX;
        let ghost mut steps: nat = 0nat;
        let ghost (fsg, stg) = choose|fsg: FirstSets, stg: Seq<State>|
            #![auto]
            first_sets_exact(self.grammar, fsg) && tables_from_collection(
                self.grammar,
                fsg,
                stg,
                self.action_table,
                self.goto_table,
            );
        proof {
            assert(token_names(tokens@.take(0)) =~= forest_yield(view_forest(nodes@)));
            assert(stack_ints(stack@) =~= seq![0int]);
            assert(stack_ints(stack@)[0] == 0);
            assert(stg.len() >= 1);
        }
        loop
            invariant
                self.wf(),
                end@ == SpecSymbol::EndMarker,
                forall|i: int| 0 <= i < tokens@.len() ==> !((#[trigger] tokens@[i])@ is EndMarker),
                0 <= pos <= tokens@.len(),
                stack@.len() >= 1,
                stack@[0] == 0,
                forall|p: int| 1 <= p < stack@.len() ==> (#[trigger] stack@[p]) >= 1,
                nodes@.len() == stack@.len() - 1,
                forall|p: int|
                    1 <= p < stack@.len() ==> (self.action_table.spec_get(
                        (#[trigger] stack@[p]) as int,
                        SpecSymbol::EndMarker,
                    ) == Some(SpecAction::Accept) ==> p == 1),
                (stack@.len() >= 2 && self.action_table.spec_get(
                    stack@.last() as int,
                    SpecSymbol::EndMarker,
                ) == Some(SpecAction::Accept)) ==> (nodes@.last()@ matches SpecTree::NonTerminal(
                    nm,
                    ch,
                ) && nm == self.grammar.start_symbol@.name()),
                forest_yield(view_forest(nodes@)) == token_names(tokens@.take(pos as int)),
                forall|i: int| 0 <= i < pos ==> (#[trigger] tokens@[i])@ is Terminal,
                forall|i: int|
                    0 <= i < nodes@.len() ==> tree_nodes_ok(
                        self.grammar,
                        (#[trigger] nodes@[i])@,
                    ),
                runs_to(*self, tokens@, 0, seq![0int], steps, pos as int, stack_ints(stack@)),
                steps >= u64::MAX - fuel,
                forall|s: int, x: SpecSymbol|
                    #![trigger self.action_table.spec_get(s, x)]
                    self.action_table.spec_get(s, x) matches Some(a) ==> (a
                        matches SpecAction::Reduce(pr2) ==> (0 <= s < stg.len() && seq_has_item(
                        stg[s].items@,
                        SpecItem { production: pr2, dot: pr2.rhs.len() as int, lookahead: x },
                    ))),
                forall|s: int, x: SpecSymbol|
                    #![trigger self.goto_table.spec_get(s, x)]
                    self.goto_table.spec_get(s, x) matches Some(j) ==> is_goto_set(
                        self.grammar,
                        fsg,
                        stg[s].items@,
                        x,
                        stg[j].items@,
                    ),
                forall|s: int, x: SpecSymbol|
                    #![trigger self.goto_table.spec_get(s, x)]
                    self.goto_table.spec_get(s, x) matches Some(j) ==> (0 <= s < stg.len() && 0
                        <= j < stg.len()),
                forall|ii: int|
                    0 <= ii < stack@.len() ==> 0 <= #[trigger] stack_ints(stack@)[ii]
                        < stg.len(),
                forall|ii: int|
                    0 <= ii < nodes@.len() ==> self.goto_table.spec_get(
                        stack_ints(stack@)[ii],
                        node_symbol((#[trigger] nodes@[ii])@),
                    ) == Some(stack_ints(stack@)[ii + 1]),
            decreases tokens@.len() - pos, fuel,
        {
            let st = stack[stack.len() - 1];
            let ghost pos_g = pos as int;
            let ghost sti = stack_ints(stack@);
            proof {
                assert(sti.len() == stack@.len());
                assert(sti.last() == st as int);
            }
            let symbol = if pos < tokens.len() {
                &tokens[pos]
            } else {
                &end
            };
            match self.action_table.get(st, symbol) {
                Option::Some(act) => {
                    match act {
                        Action::Shift(ns0) => {
                            let ns = *ns0;
                            proof {
                                assert(symbol@ is Terminal);
                                assert(pos < tokens@.len()) by {
                                    if pos >= tokens@.len() {
                                        assert(symbol@ == SpecSymbol::EndMarker);
                                    }
                                }
                                assert(ns >= 1) by {
                                    assert(self.goto_table.spec_get(st as int, symbol@) == Some(
                                        ns as int,
                                    ));
                                }
                                assert(self.action_table.spec_get(
                                    ns as int,
                                    SpecSymbol::EndMarker,
                                ) != Some(SpecAction::Accept)) by {
                                    if self.action_table.spec_get(ns as int, SpecSymbol::EndMarker)
                                        == Some(SpecAction::Accept) {
                                        assert(self.goto_table.spec_get(st as int, symbol@)
                                            == Some(ns as int));
                                        assert(symbol@ == self.grammar.start_symbol@);
                                    }
                                }
                            }
                            let ghost nodes0 = nodes;
                            stack.push(ns);
                            match &tokens[pos] {
                                Symbol::Terminal(nm) => {
                                    nodes.push(ASTNode::Terminal(nm.clone()));
                                    proof {
                                        let nv = nodes@.last()@;
                                        assert(nv == SpecTree::Terminal(tokens@[pos as int]@.name()));
                                        assert(view_forest(nodes@) == view_forest(nodes0@).push(
                                            nv,
                                        )) by {
                                            assert(nodes@.drop_last() =~= nodes0@);
                                        }
                                        lemma_forest_push(view_forest(nodes0@), nv);
                                        assert(tree_yield(nv) =~= seq![
                                            tokens@[pos as int]@.name(),
                                        ]);
                                        assert(token_names(tokens@.take(pos + 1 as int))
                                            =~= token_names(tokens@.take(pos as int)).push(
                                            tokens@[pos as int]@.name(),
                                        ));
                                        assert(forest_yield(view_forest(nodes@)) =~= token_names(
                                            tokens@.take(pos + 1 as int),
                                        ));
                                        assert forall|i2: int|
                                            0 <= i2 < nodes@.len() implies tree_nodes_ok(
                                            self.grammar,
                                            (#[trigger] nodes@[i2])@,
                                        ) by {
                                            if i2 < nodes@.len() - 1 {
                                                assert(nodes@[i2] == nodes0@[i2]);
                                            }
                                        }
                                    }
                                },
                                _ => {
                                    proof {
                                        assert(false);
                                    }
                                },
                            }
                            pos = pos + 1;
                            proof {
                                assert(cfg_step(*self, tokens@, pos_g, sti) == SpecStep::Next(
                                    pos_g + 1,
                                    sti.push(ns as int),
                                ));
                                assert(stack_ints(stack@) =~= sti.push(ns as int));
                                lemma_runs_to_snoc(
                                    *self,
                                    tokens@,
                                    0,
                                    seq![0int],
                                    steps,
                                    pos_g,
                                    sti,
                                    pos_g + 1,
                                    sti.push(ns as int),
                                );
                                steps = steps + 1;
                                assert(0 <= (ns as int) < stg.len()) by {
                                    assert(self.goto_table.spec_get(st as int, symbol@) == Some(
                                        ns as int,
                                    ));
                                }
                                assert forall|ii: int|
                                    0 <= ii < stack@.len() implies 0 <= #[trigger] stack_ints(
                                    stack@,
                                )[ii] < stg.len() by {
                                    if ii < stack@.len() - 1 {
                                        assert(stack_ints(stack@)[ii] == sti[ii]);
                                    } else {
                                        assert(stack_ints(stack@)[ii] == ns as int);
                                    }
                                }
                                assert forall|ii: int|
                                    0 <= ii < nodes@.len() implies self.goto_table.spec_get(
                                    stack_ints(stack@)[ii],
                                    node_symbol((#[trigger] nodes@[ii])@),
                                ) == Some(stack_ints(stack@)[ii + 1]) by {
                                    if ii < nodes@.len() - 1 {
                                        assert(nodes@[ii] == nodes0@[ii]);
                                        assert(stack_ints(stack@)[ii] == sti[ii]);
                                        assert(stack_ints(stack@)[ii + 1] == sti[ii + 1]);
                                    } else {
                                        assert(node_symbol(nodes@[ii]@) == tokens@[pos_g]@);
                                        assert(stack_ints(stack@)[ii] == sti.last());
                                        assert(stack_ints(stack@)[ii + 1] == ns as int);
                                        assert(self.goto_table.spec_get(st as int, symbol@)
                                            == Some(ns as int));
                                    }
                                }
                            }
                        },
                        Action::Reduce(p0) => {
                            proof {
                                assert(self.action_table.spec_get(st as int, symbol@) == Some(
                                    SpecAction::Reduce(p0@),
                                ));
                            }
                            if fuel == 0 {
                                proof {
                                    reduce_witness(*self, st as int, symbol@, p0@, st as int);
                                    lemma_no_accept_before(
                                        *self,
                                        tokens@,
                                        steps,
                                        pos_g,
                                        sti,
                                        u64::MAX as nat,
                                    );
                                }
                                return Result::Err(ParseError::InvalidTransition { state: st });
                            }
                            fuel = fuel - 1;
                            let k = p0.rhs.len();
                            if stack.len() <= k {
                                proof {
                                    reduce_witness(*self, st as int, symbol@, p0@, st as int);
                                    assert(cfg_step(*self, tokens@, pos_g, sti)
                                        == SpecStep::Rejected);
                                    lemma_rejected_run(*self, tokens@, steps, pos_g, sti);
                                }
                                return Result::Err(ParseError::InvalidTransition { state: st });
                            }
                            let prod = p0.clone();
                            let ghost stack0 = stack;
                            let ghost nodes0 = nodes;
                            stack.truncate(stack.len() - k);
                            let prev = stack[stack.len() - 1];
                            match self.goto_table.get(prev, &prod.lhs) {
                                Option::Some(ns) => {
                                    proof {
                                        assert(ns >= 1);
                                        assert(seq_has_prod(
                                            self.grammar.productions@,
                                            prod@,
                                        ));
                                        assert(prod@.lhs is NonTerminal) by {
                                            let pidx = choose|pidx: int|
                                                0 <= pidx < self.grammar.productions@.len()
                                                    && self.grammar.productions@[pidx]@ == prod@;
                                            assert(self.grammar.prod_wf(
                                                self.grammar.productions@[pidx]@,
                                            ));
                                        }
                                    }
                                    stack.push(ns);
                                    let children = nodes.split_off(nodes.len() - k);
                                    let name = match &prod.lhs {
                                        Symbol::NonTerminal(nm) => nm.clone(),
                                        _ => {
                                            proof {
                                                assert(false);
                                            }
                                            String::new()
                                        },
                                    };
                                    let ghost nodes1 = nodes;
                                    nodes.push(ASTNode::NonTerminal(name, children));
                                    proof {
                                        let nlen0 = nodes0@.len() as int;
                                        let cut = nlen0 - k;
                                        let nv = nodes@.last()@;
                                        // stack shape facts
                                        assert(stack@ =~= stack0@.subrange(
                                            0,
                                            stack0@.len() - k,
                                        ).push(ns));
                                        assert(stack@[0] == 0);
                                        assert forall|p: int|
                                            1 <= p < stack@.len() implies (#[trigger] stack@[p])
                                            >= 1 by {
                                            if p < stack@.len() - 1 {
                                                assert(stack@[p] == stack0@[p]);
                                            }
                                        }
                                        // accept position facts
                                        assert forall|p: int|
                                            1 <= p < stack@.len() implies (
                                        self.action_table.spec_get(
                                            (#[trigger] stack@[p]) as int,
                                            SpecSymbol::EndMarker,
                                        ) == Some(SpecAction::Accept) ==> p == 1) by {
                                            if p < stack@.len() - 1 {
                                                assert(stack@[p] == stack0@[p]);
                                            } else {
                                                if self.action_table.spec_get(
                                                    ns as int,
                                                    SpecSymbol::EndMarker,
                                                ) == Some(SpecAction::Accept) {
                                                    assert(self.goto_table.spec_get(
                                                        prev as int,
                                                        prod@.lhs,
                                                    ) == Some(ns as int));
                                                    assert(prev == 0);
                                                    assert(stack@.len() - 2 == 0) by {
                                                        if stack@.len() - 2 >= 1 {
                                                            assert(stack@[stack@.len() - 2]
                                                                == stack0@[stack@.len() - 2]);
                                                        }
                                                    }
                                                }
                                            }
                                        }
                                        // the new top node names the reduced head
                                        if self.action_table.spec_get(
                                            ns as int,
                                            SpecSymbol::EndMarker,
                                        ) == Some(SpecAction::Accept) {
                                            assert(self.goto_table.spec_get(
                                                prev as int,
                                                prod@.lhs,
                                            ) == Some(ns as int));
                                            assert(prod@.lhs == self.grammar.start_symbol@);
                                            assert(nv matches SpecTree::NonTerminal(nm, ch)
                                                && nm == self.grammar.start_symbol@.name());
                                        }
                                        // yield bookkeeping
                                        lemma_view_forest(nodes0@);
                                        lemma_view_forest(nodes1@);
                                        lemma_view_forest(children@);
                                        lemma_forest_split(view_forest(nodes0@), cut);
                                        assert forall|i2: int| 0 <= i2 < cut implies view_forest(
                                            nodes1@,
                                        )[i2] == view_forest(nodes0@).subrange(0, cut)[i2] by {
                                            assert(view_forest(nodes1@)[i2] == nodes1@[i2]@);
                                            assert(nodes1@[i2] == nodes0@[i2]);
                                            assert(view_forest(nodes0@)[i2] == nodes0@[i2]@);
                                        }
                                        assert(view_forest(nodes1@) =~= view_forest(
                                            nodes0@,
                                        ).subrange(0, cut));
                                        lemma_forest_upto_prefix(
                                            view_forest(nodes1@),
                                            view_forest(nodes0@),
                                            cut,
                                        );
                                        assert forall|i2: int|
                                            0 <= i2 < nlen0 - cut implies view_forest(
                                            nodes0@,
                                        ).skip(cut)[i2] == view_forest(children@)[i2] by {
                                            assert(view_forest(nodes0@)[cut + i2] == nodes0@[
                                                cut + i2
                                            ]@);
                                            assert(children@[i2] == nodes0@[cut + i2]);
                                            assert(view_forest(children@)[i2] == children@[i2]@);
                                        }
                                        assert(view_forest(nodes0@).skip(cut) =~= view_forest(
                                            children@,
                                        ));
                                        assert(forest_yield(view_forest(nodes0@))
                                            == forest_yield(view_forest(nodes1@)) + forest_yield(
                                            view_forest(children@),
                                        )) by {
                                            assert(forest_yield_upto(view_forest(nodes0@), cut)
                                                == forest_yield_upto(
                                                view_forest(nodes1@),
                                                cut,
                                            ));
                                            assert(forest_yield_upto(view_forest(nodes1@), cut)
                                                == forest_yield(view_forest(nodes1@)));
                                        }
                                        assert(nv == SpecTree::NonTerminal(
                                            name@,
                                            view_forest(children@),
                                        ));
                                        assert(tree_yield(nv) == forest_yield(view_forest(
                                            children@,
                                        )));
                                        assert(view_forest(nodes@) == view_forest(nodes1@).push(
                                            nv,
                                        )) by {
                                            assert(nodes@.drop_last() =~= nodes1@);
                                        }
                                        lemma_forest_push(view_forest(nodes1@), nv);
                                        assert(forest_yield(view_forest(nodes@)) == token_names(
                                            tokens@.take(pos as int),
                                        ));
                                        // the popped children stand for the
                                        // production's right-hand side, read off
                                        // the GOTO spine of the stack
                                        assert(self.action_table.spec_get(sti.last(), symbol@)
                                            == Some(SpecAction::Reduce(p0@)));
                                        lemma_children_match(
                                            *self,
                                            fsg,
                                            stg,
                                            sti,
                                            nodes0@,
                                            cut,
                                            p0@,
                                            symbol@,
                                        );
                                        assert forall|j: int|
                                            0 <= j < view_forest(children@).len() implies node_symbol(
                                            #[trigger] view_forest(children@)[j],
                                        ) == prod@.rhs[j] by {
                                            assert(view_forest(children@)[j] == children@[j]@);
                                            assert(children@[j] == nodes0@[cut + j]);
                                            assert(node_symbol(nodes0@[cut + j]@) == p0@.rhs[j]);
                                        }
                                        assert(tree_nodes_ok(self.grammar, nv)) by {
                                            assert(seq_has_prod(
                                                self.grammar.productions@,
                                                prod@,
                                            ) && prod@.lhs == SpecSymbol::NonTerminal(name@)
                                                && prod@.rhs.len() == view_forest(
                                                children@,
                                            ).len() && (forall|j: int|
                                                0 <= j < view_forest(children@).len()
                                                    ==> node_symbol(
                                                    #[trigger] view_forest(children@)[j],
                                                ) == prod@.rhs[j]));
                                            assert forall|i2: int|
                                                0 <= i2 < view_forest(
                                                    children@,
                                                ).len() implies tree_nodes_ok(
                                                self.grammar,
                                                #[trigger] view_forest(children@)[i2],
                                            ) by {
                                                assert(view_forest(children@)[i2] == children@[
                                                    i2
                                                ]@);
                                                assert(children@[i2] == nodes0@[cut + i2]);
                                                assert(tree_nodes_ok(
                                                    self.grammar,
                                                    nodes0@[cut + i2]@,
                                                ));
                                            }
                                            lemma_forest_nodes_ok(
                                                self.grammar,
                                                view_forest(children@),
                                                view_forest(children@).len() as int,
                                            );
                                        }
                                        assert forall|i2: int|
                                            0 <= i2 < nodes@.len() implies tree_nodes_ok(
                                            self.grammar,
                                            (#[trigger] nodes@[i2])@,
                                        ) by {
                                            if i2 < nodes@.len() - 1 {
                                                assert(nodes@[i2] == nodes1@[i2]);
                                                assert(nodes1@[i2] == nodes0@[i2]);
                                            } else {
                                                assert(nodes@[i2]@ == nv);
                                            }
                                        }
                                        // one table-driven reduce move
                                        assert(sti.take(sti.len() - k).last() == prev as int) by {
                                            assert(stack0@.subrange(
                                                0,
                                                stack0@.len() - k,
                                            ).last() == prev);
                                            assert(sti.take(sti.len() - k) =~= stack_ints(
                                                stack0@.subrange(0, stack0@.len() - k),
                                            ));
                                        }
                                        assert(cfg_step(*self, tokens@, pos_g, sti)
                                            == SpecStep::Next(
                                            pos_g,
                                            sti.take(sti.len() - k).push(ns as int),
                                        ));
                                        assert(stack_ints(stack@) =~= sti.take(
                                            sti.len() - k,
                                        ).push(ns as int));
                                        lemma_runs_to_snoc(
                                            *self,
                                            tokens@,
                                            0,
                                            seq![0int],
                                            steps,
                                            pos_g,
                                            sti,
                                            pos_g,
                                            sti.take(sti.len() - k).push(ns as int),
                                        );
                                        steps = steps + 1;
                                        assert(0 <= (ns as int) < stg.len()) by {
                                            assert(self.goto_table.spec_get(
                                                prev as int,
                                                prod@.lhs,
                                            ) == Some(ns as int));
                                        }
                                        assert forall|ii: int|
                                            0 <= ii < stack@.len() implies 0 <= #[trigger] stack_ints(
                                            stack@,
                                        )[ii] < stg.len() by {
                                            if ii < stack@.len() - 1 {
                                                assert(stack_ints(stack@)[ii] == sti.take(
                                                    sti.len() - k,
                                                )[ii]);
                                                assert(stack_ints(stack@)[ii] == sti[ii]);
                                            } else {
                                                assert(stack_ints(stack@)[ii] == ns as int);
                                            }
                                        }
                                        assert forall|ii: int|
                                            0 <= ii < nodes@.len() implies self.goto_table.spec_get(
                                            stack_ints(stack@)[ii],
                                            node_symbol((#[trigger] nodes@[ii])@),
                                        ) == Some(stack_ints(stack@)[ii + 1]) by {
                                            if ii < nodes@.len() - 1 {
                                                assert(nodes@[ii] == nodes1@[ii]);
                                                assert(nodes1@[ii] == nodes0@[ii]);
                                                assert(stack_ints(stack@)[ii] == sti[ii]);
                                                assert(stack_ints(stack@)[ii + 1] == sti[ii + 1]);
                                            } else {
                                                assert(nodes@[ii]@ == nv);
                                                assert(node_symbol(nv) == prod@.lhs);
                                                assert(stack_ints(stack@)[ii] == prev as int);
                                                assert(stack_ints(stack@)[ii + 1] == ns as int);
                                                assert(self.goto_table.spec_get(
                                                    prev as int,
                                                    prod@.lhs,
                                                ) == Some(ns as int));
                                            }
                                        }
                                    }
                                },
                                Option::None => {
                                    proof {
                                        assert(prod@ == p0@);
                                        reduce_witness(*self, st as int, symbol@, p0@, prev as int);
                                        assert(stack_ints(stack@) =~= sti.take(
                                            sti.len() - k,
                                        ));
                                        assert(sti.take(sti.len() - k).last() == prev as int);
                                        assert(cfg_step(*self, tokens@, pos_g, sti)
                                            == SpecStep::Rejected);
                                        lemma_rejected_run(*self, tokens@, steps, pos_g, sti);
                                    }
                                    return Result::Err(
                                        ParseError::InvalidTransition { state: prev },
                                    );
                                },
                            }
                        },
                        Action::Accept => {
                            proof {
                                assert(cfg_step(*self, tokens@, pos_g, sti)
                                    == SpecStep::Accepted);
                                assert(runs_to(*self, tokens@, 0, seq![0int], steps, pos_g, sti)
                                    && cfg_step(*self, tokens@, pos_g, sti)
                                    == SpecStep::Accepted);
                                assert(table_run_accepts(*self, tokens@));
                                assert(symbol@ == SpecSymbol::EndMarker);
                                assert(pos == tokens@.len()) by {
                                    if pos < tokens@.len() {
                                        assert(!(tokens@[pos as int]@ is EndMarker));
                                    }
                                }
                                assert(tokens@.take(pos as int) =~= tokens@);
                                assert(st >= 1);
                                assert(stack@.len() >= 2) by {
                                    if stack@.len() == 1 {
                                        assert(st == stack@[0]);
                                    }
                                }
                                assert(stack@.last() == st);
                                assert(stack@.len() == 2) by {
                                    assert(stack@[stack@.len() - 1] == st);
                                }
                                assert(nodes@.len() == 1);
                            }
                            let ghost nodes_a = nodes@;
                            let t = nodes.pop().unwrap();
                            proof {
                                assert(t == nodes_a.last());
                                assert(nodes_a.drop_last() =~= Seq::<ASTNode>::empty());
                                assert(view_forest(nodes_a) == view_forest(
                                    nodes_a.drop_last(),
                                ).push(t@));
                                lemma_forest_push(view_forest(nodes_a.drop_last()), t@);
                                assert(forest_yield(view_forest(nodes_a.drop_last()))
                                    =~= Seq::<Seq<char>>::empty());
                                assert(forest_yield(view_forest(nodes_a)) =~= tree_yield(t@));
                                assert(tree_yield(t@) == token_names(tokens@));
                            }
                            return Result::Ok(t);
                        },
                        Action::Error => {
                            proof {
                                assert(false);
                            }
                            return Result::Err(
                                ParseError::Syntax { pos, state: st, symbol: symbol.clone() },
                            );
                        },
                    }
                },
                Option::None => {
                    proof {
                        assert(cfg_step(*self, tokens@, pos_g, sti) == SpecStep::Rejected);
                        lemma_rejected_run(*self, tokens@, steps, pos_g, sti);
                    }
                    return Result::Err(
                        ParseError::Syntax { pos, state: st, symbol: symbol.clone() },
                    );
                },
            }
        }
    }
}



/// Shift target agreement: wherever ACTION holds `Shift(s2)`, GOTO
/// holds `s2` at the same state and symbol.
pub proof fn lemma_shift_target_agreement(p: Parser, s: int, x: SpecSymbol, s2: int)
    requires
        p.wf(),
        p.action_table.spec_get(s, x) == Some(SpecAction::Shift(s2)),
    ensures
        p.goto_table.spec_get(s, x) == Some(s2),
{
}

/// Accept uniqueness: at most one state accepts, and only on the end
/// marker.
pub proof fn lemma_accept_unique(p: Parser, s1: int, x1: SpecSymbol, s2: int, x2: SpecSymbol)
    requires
        p.wf(),
        p.action_table.spec_get(s1, x1) == Some(SpecAction::Accept),
        p.action_table.spec_get(s2, x2) == Some(SpecAction::Accept),
    ensures
        s1 == s2,
        x1 == SpecSymbol::EndMarker,
        x2 == SpecSymbol::EndMarker,
{
}

} // verus!
