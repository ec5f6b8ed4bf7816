use crate::proposition::{Formula, Proposition};
use vstd::prelude::*;
use vstd::std_specs::cmp::PartialEqSpecImpl;

verus! {

/// An implication: the left proposition is the antecedent, the right one the consequent.
#[derive(Debug)]
pub struct Implication {
    pub left: Box<Proposition>,
    pub right: Box<Proposition>,
}

impl View for Implication {
    type V = Formula;

    /// The formula `left -> right`.
    open spec fn view(&self) -> Formula {
        self.left@.implies(self.right@)
    }
}

impl Implication {
    /// Renders the operands in parentheses with `->` between them.
    pub fn to_text(&self) -> (text: String)
        ensures
            text@ == self@.render(),
    {
        Proposition::implication((*self.left).clone(), (*self.right).clone()).to_text()
    }
}

impl Clone for Implication {
    fn clone(&self) -> (copy: Self)
        ensures
            copy@ == self@,
    {
        Implication { left: Box::new((*self.left).clone()), right: Box::new((*self.right).clone()) }
    }
}

impl PartialEq for Implication {
    fn eq(&self, other: &Self) -> (equal: bool) {
        self.left.same(&other.left) && self.right.same(&other.right)
    }
}

impl Eq for Implication {

}

impl PartialEqSpecImpl for Implication {
    open spec fn obeys_eq_spec() -> bool {
        true
    }

    /// `==` compares the formulas.
    open spec fn eq_spec(&self, other: &Self) -> bool {
        self@ == other@
    }
}

impl Default for Implication {
    /// The placeholder on both sides.
    fn default() -> (empty: Self)
        ensures
            empty.left@ == Formula::Void,
            empty.right@ == Formula::Void,
    {
        Implication { left: Box::new(Proposition::Void), right: Box::new(Proposition::Void) }
    }
}

} // verus!
