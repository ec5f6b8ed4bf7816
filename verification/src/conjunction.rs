use crate::proposition::{Formula, Proposition};
use vstd::prelude::*;
use vstd::std_specs::cmp::PartialEqSpecImpl;

verus! {

/// The conjunction of two propositions.
#[derive(Debug)]
pub struct Conjunction {
    pub left: Box<Proposition>,
    pub right: Box<Proposition>,
}

impl View for Conjunction {
    type V = Formula;

    /// The formula `left & right`.
    open spec fn view(&self) -> Formula {
        self.left@.and(self.right@)
    }
}

impl Conjunction {
    /// Renders the operands in parentheses with `&` between them.
    pub fn to_text(&self) -> (text: String)
        ensures
            text@ == self@.render(),
    {
        Proposition::conjunction((*self.left).clone(), (*self.right).clone()).to_text()
    }
}

impl Clone for Conjunction {
    fn clone(&self) -> (copy: Self)
        ensures
            copy@ == self@,
    {
        Conjunction { left: Box::new((*self.left).clone()), right: Box::new((*self.right).clone()) }
    }
}

impl PartialEq for Conjunction {
    fn eq(&self, other: &Self) -> (equal: bool) {
        self.left.same(&other.left) && self.right.same(&other.right)
    }
}

impl Eq for Conjunction {

}

impl PartialEqSpecImpl for Conjunction {
    open spec fn obeys_eq_spec() -> bool {
        true
    }

    /// `==` compares the formulas.
    open spec fn eq_spec(&self, other: &Self) -> bool {
        self@ == other@
    }
}

impl Default for Conjunction {
    /// The placeholder on both sides.
    fn default() -> (empty: Self)
        ensures
            empty.left@ == Formula::Void,
            empty.right@ == Formula::Void,
    {
        Conjunction { left: Box::new(Proposition::Void), right: Box::new(Proposition::Void) }
    }
}

} // verus!
