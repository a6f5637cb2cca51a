//! Production rules: a non-terminal head rewritten to a sequence of
//! symbols. An empty right-hand side denotes the empty string.

use vstd::prelude::*;

use crate::symbol::views_of;
use crate::symbol::SpecSymbol;
use crate::symbol::Symbol;
use crate::symbol::syms_eq;

verus! {

/// A rewrite rule `lhs -> rhs[0] rhs[1] ...`.
///
/// The head is a non-terminal; the right-hand side holds only
/// terminals and non-terminals, and an empty right-hand side encodes
/// the empty string.
#[derive(Debug)]
pub struct Production {
    pub lhs: Symbol,
    pub rhs: Vec<Symbol>,
}

/// The mathematical value of a [`Production`].
pub struct SpecProd {
    pub lhs: SpecSymbol,
    pub rhs: Seq<SpecSymbol>,
}

impl View for Production {
    type V = SpecProd;

    open spec fn view(&self) -> SpecProd {
        SpecProd { lhs: self.lhs@, rhs: views_of(self.rhs@) }
    }
}

impl Clone for Production {
    fn clone(&self) -> (r: Production)
        ensures
            r@ == self@,
    {
        let r = Production { lhs: self.lhs.clone(), rhs: self.rhs.clone() };
        proof {
            assert(views_of(r.rhs@) =~= views_of(self.rhs@));
        }
        r
    }
}

impl PartialEq for Production {
    fn eq(&self, other: &Production) -> (r: bool) {
        &self.lhs == &other.lhs && syms_eq(&self.rhs, &other.rhs)
    }
}

impl vstd::std_specs::cmp::PartialEqSpecImpl for Production {
    open spec fn obeys_eq_spec() -> bool {
        true
    }

    open spec fn eq_spec(&self, other: &Production) -> bool {
        self@ == other@
    }
}

impl Eq for Production {}

/// The views of a sequence of productions.
pub open spec fn prods_of(s: Seq<Production>) -> Seq<SpecProd> {
    s.map_values(|p: Production| p@)
}

/// Whether some production of `v` has the view `p`.
pub open spec fn seq_has_prod(v: Seq<Production>, p: SpecProd) -> bool {
    exists|i: int| 0 <= i < v.len() && v[i]@ == p
}

} // verus!
