use crate::proposition::{Formula, Proposition};
use vstd::prelude::*;
use vstd::std_specs::cmp::PartialEqSpecImpl;

verus! {

/// A biconditional between two propositions.
#[derive(Debug)]
pub struct BiImplication {
    pub left: Box<Proposition>,
    pub right: Box<Proposition>,
}

impl View for BiImplication {
    type V = Formula;

    /// The formula `left <-> right`.
    open spec fn view(&self) -> Formula {
        self.left@.iff(self.right@)
    }
}

impl BiImplication {
    /// Renders the operands in parentheses with `<->` between them.
    pub fn to_text(&self) -> (text: String)
        ensures
            text@ == self@.render(),
    {
        Proposition::bi_implication((*self.left).clone(), (*self.right).clone()).to_text()
    }
}

impl Clone for BiImplication {
    fn clone(&self) -> (copy: Self)
        ensures
            copy@ == self@,
    {
        BiImplication { left: Box::new((*self.left).clone()), right: Box::new((*self.right).clone()) }
    }
}

impl PartialEq for BiImplication {
    fn eq(&self, other: &Self) -> (equal: bool) {
        self.left.same(&other.left) && self.right.same(&other.right)
    }
}

impl Eq for BiImplication {

}

impl PartialEqSpecImpl for BiImplication {
    open spec fn obeys_eq_spec() -> bool {
        true
    }

    /// `==` compares the formulas.
    open spec fn eq_spec(&self, other: &Self) -> bool {
        self@ == other@
    }
}

impl Default for BiImplication {
    /// The placeholder on both sides.
    fn default() -> (empty: Self)
        ensures
            empty.left@ == Formula::Void,
            empty.right@ == Formula::Void,
    {
        BiImplication { left: Box::new(Proposition::Void), right: Box::new(Proposition::Void) }
    }
}

} // verus!
