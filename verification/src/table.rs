//! Parser actions and the ACTION and GOTO tables, kept as vectors of
//! entries with duplicate-free `(state, symbol)` keys.

use vstd::prelude::*;

use crate::prod::Production;
use crate::prod::SpecProd;
use crate::symbol::SpecSymbol;
use crate::symbol::Symbol;

verus! {

/// A parser move: shift to a state, reduce by a production, accept the
/// input, or reject it. `Error` is normally expressed by the absence
/// of an entry.
#[derive(Debug)]
pub enum Action {
    Shift(usize),
    Reduce(Production),
    Accept,
    Error,
}

/// The mathematical value of an [`Action`].
pub enum SpecAction {
    Shift(int),
    Reduce(SpecProd),
    Accept,
    Error,
}

impl View for Action {
    type V = SpecAction;

    open spec fn view(&self) -> SpecAction {
        match self {
            Action::Shift(s) => SpecAction::Shift(*s as int),
            Action::Reduce(p) => SpecAction::Reduce(p@),
            Action::Accept => SpecAction::Accept,
            Action::Error => SpecAction::Error,
        }
    }
}

impl Clone for Action {
    fn clone(&self) -> (r: Action)
        ensures
            r@ == self@,
    {
        match self {
            Action::Shift(s) => Action::Shift(*s),
            Action::Reduce(p) => Action::Reduce(p.clone()),
            Action::Accept => Action::Accept,
            Action::Error => Action::Error,
        }
    }
}

/// One ACTION entry.
#[derive(Debug)]
pub struct ActionEntry {
    pub state: usize,
    pub sym: Symbol,
    pub action: Action,
}

/// The ACTION table: what the driver does in a state on a terminal or
/// the end marker.
#[derive(Debug)]
pub struct ActionTable {
    pub entries: Vec<ActionEntry>,
}

impl ActionTable {
    /// Keys repeat nowhere.
    pub open spec fn basic_wf(self) -> bool {
        forall|i: int, j: int|
            0 <= i < j < self.entries@.len() ==> !(self.entries@[i].state == self.entries@[j].state
                && self.entries@[i].sym@ == self.entries@[j].sym@)
    }

    /// Whether the key `(s, x)` has an entry.
    pub open spec fn has_key(self, s: int, x: SpecSymbol) -> bool {
        exists|i: int|
            0 <= i < self.entries@.len() && (#[trigger] self.entries@[i]).state == s
                && self.entries@[i].sym@ == x
    }

    /// The index of the key `(s, x)`.
    pub open spec fn key_index(self, s: int, x: SpecSymbol) -> int {
        choose|i: int|
            0 <= i < self.entries@.len() && (#[trigger] self.entries@[i]).state == s
                && self.entries@[i].sym@ == x
    }

    /// The recorded action at `(s, x)`, absence meaning `Error`.
    pub open spec fn spec_get(self, s: int, x: SpecSymbol) -> Option<SpecAction> {
        if self.has_key(s, x) {
            Some(self.entries@[self.key_index(s, x)].action@)
        } else {
            None
        }
    }

    /// An empty table.
    pub fn new() -> (r: ActionTable)
        ensures
            r.basic_wf(),
            r.entries@.len() == 0,
            forall|s: int, x: SpecSymbol| #[trigger] r.spec_get(s, x) == Option::<SpecAction>::None,
    {
        ActionTable { entries: Vec::new() }
    }

    /// Look up the action for `(state, sym)`.
    pub fn get(&self, state: usize, sym: &Symbol) -> (r: Option<&Action>)
        requires
            self.basic_wf(),
        ensures
            match r {
                Some(a) => self.spec_get(state as int, sym@) == Some(a@),
                None => self.spec_get(state as int, sym@) is None,
            },
    {
        let mut i: usize = 0;
        while i < self.entries.len()
            invariant
                self.basic_wf(),
                0 <= i <= self.entries@.len(),
                forall|j: int|
                    0 <= j < i ==> !((#[trigger] self.entries@[j]).state == state
                        && self.entries@[j].sym@ == sym@),
            decreases self.entries@.len() - i,
        {
            if self.entries[i].state == state && &self.entries[i].sym == sym {
                proof {
                    let k = self.key_index(state as int, sym@);
                    assert(0 <= k < self.entries@.len() && self.entries@[k].state == state as int
                        && self.entries@[k].sym@ == sym@);
                    assert(k == i);
                }
                return Some(&self.entries[i].action);
            }
            i = i + 1;
        }
        None
    }

    /// Record `action` at `(state, sym)`, replacing any earlier entry:
    /// the last writer wins.
    pub fn set(&mut self, state: usize, sym: Symbol, action: Action)
        requires
            old(self).basic_wf(),
        ensures
            final(self).basic_wf(),
            forall|s: int, x: SpecSymbol|
                #[trigger] final(self).spec_get(s, x) == if s == state as int && x == sym@ {
                    Some(action@)
                } else {
                    old(self).spec_get(s, x)
                },
    {
        let ghost sv = sym@;
        let ghost av = action@;
        let mut i: usize = 0;
        let n = self.entries.len();
        while i < n
            invariant
                self.basic_wf(),
                n == self.entries@.len(),
                0 <= i <= n,
                sv == sym@,
                av == action@,
                *self == *old(self),
                forall|j: int|
                    0 <= j < i ==> !((#[trigger] self.entries@[j]).state == state
                        && self.entries@[j].sym@ == sv),
            decreases n - i,
        {
            if self.entries[i].state == state && &self.entries[i].sym == &sym {
                let ghost before = *self;
                let e = ActionEntry { state, sym, action };
                let ghost ee = e;
                self.entries.set(i, e);
                proof {
                    assert(self.entries@ == before.entries@.update(i as int, ee));
                    assert(self.entries@[i as int] == ee);
                    assert(ee.state == state && ee.sym@ == sv && ee.action@ == av);
                    lemma_action_table_update(before, *self, i as int, state as int, sv, av);
                }
                return ;
            }
            i = i + 1;
        }
        let ghost before = *self;
        self.entries.push(ActionEntry { state, sym, action });
        proof {
            lemma_action_table_append(before, *self, state as int, sv, av);
        }
    }
}

/// Replacing the entry at an existing key rewrites exactly that key.
proof fn lemma_action_table_update(a: ActionTable, b: ActionTable, i: int, s: int, x: SpecSymbol, v: SpecAction)
    requires
        a.basic_wf(),
        0 <= i < a.entries@.len(),
        a.entries@[i].state == s,
        a.entries@[i].sym@ == x,
        b.entries@ == a.entries@.update(i, b.entries@[i]),
        b.entries@[i].state == s,
        b.entries@[i].sym@ == x,
        b.entries@[i].action@ == v,
    ensures
        b.basic_wf(),
        forall|s2: int, x2: SpecSymbol|
            #[trigger] b.spec_get(s2, x2) == if s2 == s && x2 == x {
                Some(v)
            } else {
                a.spec_get(s2, x2)
            },
{
    assert forall|s2: int, x2: SpecSymbol| #[trigger]
        b.spec_get(s2, x2) == (if s2 == s && x2 == x {
            Some(v)
        } else {
            a.spec_get(s2, x2)
        }) by {
        if s2 == s && x2 == x {
            assert(b.has_key(s2, x2));
            let k = b.key_index(s2, x2);
            assert(0 <= k < b.entries@.len() && b.entries@[k].state == s2 && b.entries@[k].sym@
                == x2);
            assert(k == i);
        } else {
            if b.has_key(s2, x2) {
                let k = b.key_index(s2, x2);
                assert(k != i);
                assert(a.entries@[k].state == s2 && a.entries@[k].sym@ == x2);
                assert(a.has_key(s2, x2));
                let k2 = a.key_index(s2, x2);
                assert(k2 == k);
            }
            if a.has_key(s2, x2) {
                let k2 = a.key_index(s2, x2);
                assert(k2 != i);
                assert(b.entries@[k2].state == s2 && b.entries@[k2].sym@ == x2);
                assert(b.has_key(s2, x2));
            }
        }
    }
}

/// Appending a fresh key adds exactly that key.
proof fn lemma_action_table_append(a: ActionTable, b: ActionTable, s: int, x: SpecSymbol, v: SpecAction)
    requires
        a.basic_wf(),
        !a.has_key(s, x),
        b.entries@ == a.entries@.push(b.entries@.last()),
        b.entries@.last().state == s,
        b.entries@.last().sym@ == x,
        b.entries@.last().action@ == v,
    ensures
        b.basic_wf(),
        forall|s2: int, x2: SpecSymbol|
            #[trigger] b.spec_get(s2, x2) == if s2 == s && x2 == x {
                Some(v)
            } else {
                a.spec_get(s2, x2)
            },
{
    let n = a.entries@.len() as int;
    assert forall|i: int, j: int| 0 <= i < j < b.entries@.len() implies !(b.entries@[i].state
        == b.entries@[j].state && b.entries@[i].sym@ == b.entries@[j].sym@) by {
        if j < n {
            assert(a.entries@[i] == b.entries@[i]);
            assert(a.entries@[j] == b.entries@[j]);
        } else {
            assert(a.entries@[i] == b.entries@[i]);
            if b.entries@[i].state == s && b.entries@[i].sym@ == x {
                assert(a.has_key(s, x));
            }
        }
    }
    assert forall|s2: int, x2: SpecSymbol| #[trigger]
        b.spec_get(s2, x2) == (if s2 == s && x2 == x {
            Some(v)
        } else {
            a.spec_get(s2, x2)
        }) by {
        if s2 == s && x2 == x {
            assert(b.entries@[n].state == s2 && b.entries@[n].sym@ == x2);
            assert(b.has_key(s2, x2));
            let k = b.key_index(s2, x2);
            assert(k == n) by {
                if k < n {
                    assert(a.entries@[k].state == s2 && a.entries@[k].sym@ == x2);
                    assert(a.has_key(s, x));
                }
            }
        } else {
            if b.has_key(s2, x2) {
                let k = b.key_index(s2, x2);
                assert(k != n);
                assert(a.entries@[k].state == s2 && a.entries@[k].sym@ == x2);
                assert(a.has_key(s2, x2));
                let k2 = a.key_index(s2, x2);
                assert(k2 == k);
            }
            if a.has_key(s2, x2) {
                let k2 = a.key_index(s2, x2);
                assert(b.entries@[k2].state == s2 && b.entries@[k2].sym@ == x2);
                assert(b.has_key(s2, x2));
            }
        }
    }
}

/// One GOTO entry.
#[derive(Debug)]
pub struct GotoEntry {
    pub state: usize,
    pub sym: Symbol,
    pub target: usize,
}

/// The GOTO table: the state entered after a symbol is recognized in a
/// state.
#[derive(Debug)]
pub struct GotoTable {
    pub entries: Vec<GotoEntry>,
}

impl GotoTable {
    /// Keys repeat nowhere.
    pub open spec fn basic_wf(self) -> bool {
        forall|i: int, j: int|
            0 <= i < j < self.entries@.len() ==> !(self.entries@[i].state == self.entries@[j].state
                && self.entries@[i].sym@ == self.entries@[j].sym@)
    }

    /// Whether the key `(s, x)` has an entry.
    pub open spec fn has_key(self, s: int, x: SpecSymbol) -> bool {
        exists|i: int|
            0 <= i < self.entries@.len() && (#[trigger] self.entries@[i]).state == s
                && self.entries@[i].sym@ == x
    }

    /// The index of the key `(s, x)`.
    pub open spec fn key_index(self, s: int, x: SpecSymbol) -> int {
        choose|i: int|
            0 <= i < self.entries@.len() && (#[trigger] self.entries@[i]).state == s
                && self.entries@[i].sym@ == x
    }

    /// The recorded target state at `(s, x)`.
    pub open spec fn spec_get(self, s: int, x: SpecSymbol) -> Option<int> {
        if self.has_key(s, x) {
            Some(self.entries@[self.key_index(s, x)].target as int)
        } else {
            None
        }
    }

    /// An empty table.
    pub fn new() -> (r: GotoTable)
        ensures
            r.basic_wf(),
            r.entries@.len() == 0,
            forall|s: int, x: SpecSymbol| #[trigger] r.spec_get(s, x) == Option::<int>::None,
    {
        GotoTable { entries: Vec::new() }
    }

    /// Look up the target for `(state, sym)`.
    pub fn get(&self, state: usize, sym: &Symbol) -> (r: Option<usize>)
        requires
            self.basic_wf(),
        ensures
            match r {
                Some(t) => self.spec_get(state as int, sym@) == Some(t as int),
                None => self.spec_get(state as int, sym@) is None,
            },
    {
        let mut i: usize = 0;
        while i < self.entries.len()
            invariant
                self.basic_wf(),
                0 <= i <= self.entries@.len(),
                forall|j: int|
                    0 <= j < i ==> !((#[trigger] self.entries@[j]).state == state
                        && self.entries@[j].sym@ == sym@),
            decreases self.entries@.len() - i,
        {
            if self.entries[i].state == state && &self.entries[i].sym == sym {
                proof {
                    let k = self.key_index(state as int, sym@);
                    assert(0 <= k < self.entries@.len() && self.entries@[k].state == state as int
                        && self.entries@[k].sym@ == sym@);
                    assert(k == i);
                }
                return Some(self.entries[i].target);
            }
            i = i + 1;
        }
        None
    }

    /// Record `target` at `(state, sym)`, replacing any earlier entry.
    pub fn set(&mut self, state: usize, sym: Symbol, target: usize)
        requires
            old(self).basic_wf(),
        ensures
            final(self).basic_wf(),
            forall|s: int, x: SpecSymbol|
                #[trigger] final(self).spec_get(s, x) == if s == state as int && x == sym@ {
                    Some(target as int)
                } else {
                    old(self).spec_get(s, x)
                },
    {
        let ghost sv = sym@;
        let mut i: usize = 0;
        let n = self.entries.len();
        while i < n
            invariant
                self.basic_wf(),
                n == self.entries@.len(),
                0 <= i <= n,
                sv == sym@,
                *self == *old(self),
                forall|j: int|
                    0 <= j < i ==> !((#[trigger] self.entries@[j]).state == state
                        && self.entries@[j].sym@ == sv),
            decreases n - i,
        {
            if self.entries[i].state == state && &self.entries[i].sym == &sym {
                let ghost before = *self;
                let e = GotoEntry { state, sym, target };
                let ghost ee = e;
                self.entries.set(i, e);
                proof {
                    assert(self.entries@ == before.entries@.update(i as int, ee));
                    assert(self.entries@[i as int] == ee);
                    lemma_goto_table_update(before, *self, i as int, state as int, sv, target as int);
                }
                return ;
            }
            i = i + 1;
        }
        let ghost before = *self;
        self.entries.push(GotoEntry { state, sym, target });
        proof {
            lemma_goto_table_append(before, *self, state as int, sv, target as int);
        }
    }
}

/// Replacing the entry at an existing key rewrites exactly that key.
proof fn lemma_goto_table_update(a: GotoTable, b: GotoTable, i: int, s: int, x: SpecSymbol, v: int)
    requires
        a.basic_wf(),
        0 <= i < a.entries@.len(),
        a.entries@[i].state == s,
        a.entries@[i].sym@ == x,
        b.entries@ == a.entries@.update(i, b.entries@[i]),
        b.entries@[i].state == s,
        b.entries@[i].sym@ == x,
        b.entries@[i].target == v,
    ensures
        b.basic_wf(),
        forall|s2: int, x2: SpecSymbol|
            #[trigger] b.spec_get(s2, x2) == if s2 == s && x2 == x {
                Some(v)
            } else {
                a.spec_get(s2, x2)
            },
{
    assert forall|s2: int, x2: SpecSymbol| #[trigger]
        b.spec_get(s2, x2) == (if s2 == s && x2 == x {
            Some(v)
        } else {
            a.spec_get(s2, x2)
        }) by {
        if s2 == s && x2 == x {
            assert(b.has_key(s2, x2));
            let k = b.key_index(s2, x2);
            assert(0 <= k < b.entries@.len() && b.entries@[k].state == s2 && b.entries@[k].sym@
                == x2);
            assert(k == i);
        } else {
            if b.has_key(s2, x2) {
                let k = b.key_index(s2, x2);
                assert(k != i);
                assert(a.entries@[k].state == s2 && a.entries@[k].sym@ == x2);
                assert(a.has_key(s2, x2));
                let k2 = a.key_index(s2, x2);
                assert(k2 == k);
            }
            if a.has_key(s2, x2) {
                let k2 = a.key_index(s2, x2);
                assert(k2 != i);
                assert(b.entries@[k2].state == s2 && b.entries@[k2].sym@ == x2);
                assert(b.has_key(s2, x2));
            }
        }
    }
}

/// Appending a fresh key adds exactly that key.
proof fn lemma_goto_table_append(a: GotoTable, b: GotoTable, s: int, x: SpecSymbol, v: int)
    requires
        a.basic_wf(),
        !a.has_key(s, x),
        b.entries@ == a.entries@.push(b.entries@.last()),
        b.entries@.last().state == s,
        b.entries@.last().sym@ == x,
        b.entries@.last().target == v,
    ensures
        b.basic_wf(),
        forall|s2: int, x2: SpecSymbol|
            #[trigger] b.spec_get(s2, x2) == if s2 == s && x2 == x {
                Some(v)
            } else {
                a.spec_get(s2, x2)
            },
{
    let n = a.entries@.len() as int;
    assert forall|i: int, j: int| 0 <= i < j < b.entries@.len() implies !(b.entries@[i].state
        == b.entries@[j].state && b.entries@[i].sym@ == b.entries@[j].sym@) by {
        if j < n {
            assert(a.entries@[i] == b.entries@[i]);
            assert(a.entries@[j] == b.entries@[j]);
        } else {
            assert(a.entries@[i] == b.entries@[i]);
            if b.entries@[i].state == s && b.entries@[i].sym@ == x {
                assert(a.has_key(s, x));
            }
        }
    }
    assert forall|s2: int, x2: SpecSymbol| #[trigger]
        b.spec_get(s2, x2) == (if s2 == s && x2 == x {
            Some(v)
        } else {
            a.spec_get(s2, x2)
        }) by {
        if s2 == s && x2 == x {
            assert(b.entries@[n].state == s2 && b.entries@[n].sym@ == x2);
            assert(b.has_key(s2, x2));
            let k = b.key_index(s2, x2);
            assert(k == n) by {
                if k < n {
                    assert(a.entries@[k].state == s2 && a.entries@[k].sym@ == x2);
                    assert(a.has_key(s, x));
                }
            }
        } else {
            if b.has_key(s2, x2) {
                let k = b.key_index(s2, x2);
                assert(k != n);
                assert(a.entries@[k].state == s2 && a.entries@[k].sym@ == x2);
                assert(a.has_key(s2, x2));
                let k2 = a.key_index(s2, x2);
                assert(k2 == k);
            }
            if a.has_key(s2, x2) {
                let k2 = a.key_index(s2, x2);
                assert(b.entries@[k2].state == s2 && b.entries@[k2].sym@ == x2);
                assert(b.has_key(s2, x2));
            }
        }
    }
}

/// One state of the canonical collection: its item set and its index
/// in the collection.
#[derive(Debug)]
pub struct State {
    pub items: Vec<crate::item::LR1Item>,
    pub index: usize,
}

} // verus!
