use crate::proposition::{Formula, Proposition};
use vstd::prelude::*;
use vstd::std_specs::cmp::PartialEqSpecImpl;

verus! {

/// The disjunction of two propositions.
#[derive(Debug)]
pub struct Disjunction {
    pub left: Box<Proposition>,
    pub right: Box<Proposition>,
}

impl View for Disjunction {
    type V = Formula;

    /// The formula `left | right`.
    open spec fn view(&self) -> Formula {
        self.left@.or(self.right@)
    }
}

impl Disjunction {
    /// Renders the operands in parentheses with `|` between them.
    pub fn to_text(&self) -> (text: String)
        ensures
            text@ == self@.render(),
    {
        Proposition::disjunction((*self.left).clone(), (*self.right).clone()).to_text()
    }
}

impl Clone for Disjunction {
    fn clone(&self) -> (copy: Self)
        ensures
            copy@ == self@,
    {
        Disjunction { left: Box::new((*self.left).clone()), right: Box::new((*self.right).clone()) }
    }
}

impl PartialEq for Disjunction {
    fn eq(&self, other: &Self) -> (equal: bool) {
        self.left.same(&other.left) && self.right.same(&other.right)
    }
}

impl Eq for Disjunction {

}

impl PartialEqSpecImpl for Disjunction {
    open spec fn obeys_eq_spec() -> bool {
        true
    }

    /// `==` compares the formulas.
    open spec fn eq_spec(&self, other: &Self) -> bool {
        self@ == other@
    }
}

impl Default for Disjunction {
    /// The placeholder on both sides.
    fn default() -> (empty: Self)
        ensures
            empty.left@ == Formula::Void,
            empty.right@ == Formula::Void,
    {
        Disjunction { left: Box::new(Proposition::Void), right: Box::new(Proposition::Void) }
    }
}

} // verus!
