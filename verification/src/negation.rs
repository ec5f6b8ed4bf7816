use crate::proposition::{Formula, Proposition};
use vstd::prelude::*;
use vstd::std_specs::cmp::PartialEqSpecImpl;

verus! {

/// A negated proposition.
#[derive(Debug)]
pub struct Negation {
    pub inner: Box<Proposition>,
}

impl View for Negation {
    type V = Formula;

    /// The formula `!inner`.
    open spec fn view(&self) -> Formula {
        self.inner@.not()
    }
}

impl Negation {
    /// Renders the negation as `!` followed by the operand.
    pub fn to_text(&self) -> (text: String)
        ensures
            text@ == self@.render(),
    {
        String::from_str("!").concat(self.inner.to_text().as_str())
    }
}

impl Clone for Negation {
    fn clone(&self) -> (copy: Self)
        ensures
            copy@ == self@,
    {
        Negation { inner: Box::new((*self.inner).clone()) }
    }
}

impl PartialEq for Negation {
    fn eq(&self, other: &Self) -> (equal: bool) {
        self.inner.same(&other.inner)
    }
}

impl Eq for Negation {

}

impl PartialEqSpecImpl for Negation {
    open spec fn obeys_eq_spec() -> bool {
        true
    }

    /// `==` compares the formulas.
    open spec fn eq_spec(&self, other: &Self) -> bool {
        self@ == other@
    }
}

impl Default for Negation {
    /// The negation of the placeholder.
    fn default() -> (empty: Self)
        ensures
            empty.inner@ == Formula::Void,
    {
        Negation { inner: Box::new(Proposition::Void) }
    }
}

} // verus!
