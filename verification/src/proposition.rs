use crate::bi_implication::BiImplication;
use crate::conjunction::Conjunction;
use crate::disjunction::Disjunction;
use crate::implication::Implication;
use crate::negation::Negation;
use vstd::prelude::*;

verus! {

/// The mathematical model of a proposition: a finite tree over atoms and the
/// five connectives. Contracts speak of this type.
pub enum Formula {
    /// The placeholder that stands where no proposition was given.
    Void,
    /// A propositional variable, by its name.
    Atom(Seq<char>),
    Negation(Box<Formula>),
    Implication(Box<Formula>, Box<Formula>),
    BiImplication(Box<Formula>, Box<Formula>),
    Disjunction(Box<Formula>, Box<Formula>),
    Conjunction(Box<Formula>, Box<Formula>),
}

impl Formula {
    /// The formula `!self`.
    pub open spec fn not(self) -> Formula {
        Formula::Negation(Box::new(self))
    }

    /// The formula `self & other`.
    pub open spec fn and(self, other: Formula) -> Formula {
        Formula::Conjunction(Box::new(self), Box::new(other))
    }

    /// The formula `self | other`.
    pub open spec fn or(self, other: Formula) -> Formula {
        Formula::Disjunction(Box::new(self), Box::new(other))
    }

    /// The formula `self -> other`.
    pub open spec fn implies(self, other: Formula) -> Formula {
        Formula::Implication(Box::new(self), Box::new(other))
    }

    /// The formula `self <-> other`.
    pub open spec fn iff(self, other: Formula) -> Formula {
        Formula::BiImplication(Box::new(self), Box::new(other))
    }

    /// The text of a formula: an atom is its name, a negation is `!` before
    /// its operand, and a binary connective stands between its operands,
    /// in parentheses.
    pub open spec fn render(self) -> Seq<char>
        decreases self,
    {
        match self {
            Formula::Void => "()"@,
            Formula::Atom(name) => name,
            Formula::Negation(inner) => "!"@ + inner.render(),
            Formula::Implication(left, right) => "("@ + left.render() + " -> "@ + right.render()
                + ")"@,
            Formula::BiImplication(left, right) => "("@ + left.render() + " <-> "@
                + right.render() + ")"@,
            Formula::Disjunction(left, right) => "("@ + left.render() + " | "@ + right.render()
                + ")"@,
            Formula::Conjunction(left, right) => "("@ + left.render() + " & "@ + right.render()
                + ")"@,
        }
    }

    /// Whether the placeholder occurs nowhere in the formula.
    pub open spec fn void_free(self) -> bool
        decreases self,
    {
        match self {
            Formula::Void => false,
            Formula::Atom(_) => true,
            Formula::Negation(inner) => inner.void_free(),
            Formula::Implication(left, right) => left.void_free() && right.void_free(),
            Formula::BiImplication(left, right) => left.void_free() && right.void_free(),
            Formula::Disjunction(left, right) => left.void_free() && right.void_free(),
            Formula::Conjunction(left, right) => left.void_free() && right.void_free(),
        }
    }
}

/// A proposition of propositional calculus.
#[derive(Debug)]
pub enum Proposition {
    /// The placeholder that stands where no proposition was given.
    Void,
    /// A propositional variable.
    Atom(String),
    Negation(Negation),
    Implication(Implication),
    BiImplication(BiImplication),
    Disjunction(Disjunction),
    Conjunction(Conjunction),
}

impl View for Proposition {
    type V = Formula;

    open spec fn view(&self) -> Formula {
        self.formula()
    }
}

impl Proposition {
    /// The formula that this proposition denotes; `@` is short for it.
    pub open spec fn formula(&self) -> Formula
        decreases self,
    {
        match self {
            Proposition::Void => Formula::Void,
            Proposition::Atom(name) => Formula::Atom(name@),
            Proposition::Negation(n) => n.inner.formula().not(),
            Proposition::Implication(i) => i.left.formula().implies(i.right.formula()),
            Proposition::BiImplication(b) => b.left.formula().iff(b.right.formula()),
            Proposition::Disjunction(d) => d.left.formula().or(d.right.formula()),
            Proposition::Conjunction(c) => c.left.formula().and(c.right.formula()),
        }
    }

    /// The variable with the given name.
    pub fn atom(name: &str) -> (p: Proposition)
        ensures
            p@ == Formula::Atom(name@),
    {
        Proposition::Atom(String::from_str(name))
    }

    /// The negation of `inner`.
    pub fn negation(inner: Proposition) -> (p: Proposition)
        ensures
            p@ == inner@.not(),
    {
        Proposition::Negation(Negation { inner: Box::new(inner) })
    }

    /// The conjunction of `left` and `right`.
    pub fn conjunction(left: Proposition, right: Proposition) -> (p: Proposition)
        ensures
            p@ == left@.and(right@),
    {
        Proposition::Conjunction(Conjunction { left: Box::new(left), right: Box::new(right) })
    }

    /// The disjunction of `left` and `right`.
    pub fn disjunction(left: Proposition, right: Proposition) -> (p: Proposition)
        ensures
            p@ == left@.or(right@),
    {
        Proposition::Disjunction(Disjunction { left: Box::new(left), right: Box::new(right) })
    }

    /// The implication from `left` to `right`.
    pub fn implication(left: Proposition, right: Proposition) -> (p: Proposition)
        ensures
            p@ == left@.implies(right@),
    {
        Proposition::Implication(Implication { left: Box::new(left), right: Box::new(right) })
    }

    /// The biconditional between `left` and `right`.
    pub fn bi_implication(left: Proposition, right: Proposition) -> (p: Proposition)
        ensures
            p@ == left@.iff(right@),
    {
        Proposition::BiImplication(
            BiImplication { left: Box::new(left), right: Box::new(right) },
        )
    }

    /// Renders the proposition as text, fully parenthesised.
    pub fn to_text(&self) -> (text: String)
        ensures
            text@ == self@.render(),
        decreases self,
    {
        match self {
            Proposition::Void => String::from_str("()"),
            Proposition::Atom(name) => name.clone(),
            Proposition::Negation(n) => String::from_str("!").concat(n.inner.to_text().as_str()),
            Proposition::Implication(i) => Self::infix(i.left.to_text(), " -> ", i.right.to_text()),
            Proposition::BiImplication(b) => Self::infix(b.left.to_text(), " <-> ", b.right.to_text()),
            Proposition::Disjunction(d) => Self::infix(d.left.to_text(), " | ", d.right.to_text()),
            Proposition::Conjunction(c) => Self::infix(c.left.to_text(), " & ", c.right.to_text()),
        }
    }

    fn infix(left: String, operator: &str, right: String) -> (text: String)
        ensures
            text@ == "("@ + left@ + operator@ + right@ + ")"@,
    {
        String::from_str("(").concat(left.as_str()).concat(operator).concat(right.as_str()).concat(
            ")",
        )
    }

    /// Structural equality: the two propositions are the same formula.
    pub fn same(&self, other: &Proposition) -> (equal: bool)
        ensures
            equal == (self@ == other@),
        decreases self,
    {
        match (self, other) {
            (Proposition::Void, Proposition::Void) => true,
            (Proposition::Atom(a), Proposition::Atom(b)) => {
                proof {
                    if a@ == b@ {
                        assert(self@ == other@);
                    }
                }
                *a == *b
            },
            (Proposition::Negation(a), Proposition::Negation(b)) => a.inner.same(&b.inner),
            (Proposition::Implication(a), Proposition::Implication(b)) => a.left.same(&b.left)
                && a.right.same(&b.right),
            (Proposition::BiImplication(a), Proposition::BiImplication(b)) => a.left.same(&b.left)
                && a.right.same(&b.right),
            (Proposition::Disjunction(a), Proposition::Disjunction(b)) => a.left.same(&b.left)
                && a.right.same(&b.right),
            (Proposition::Conjunction(a), Proposition::Conjunction(b)) => a.left.same(&b.left)
                && a.right.same(&b.right),
            _ => false,
        }
    }
}

impl Clone for Proposition {
    fn clone(&self) -> (copy: Self)
        ensures
            copy@ == self@,
        decreases self,
    {
        match self {
            Proposition::Void => Proposition::Void,
            Proposition::Atom(name) => Proposition::Atom(name.clone()),
            Proposition::Negation(n) => Proposition::negation((*n.inner).clone()),
            Proposition::Implication(i) => Proposition::implication(
                (*i.left).clone(),
                (*i.right).clone(),
            ),
            Proposition::BiImplication(b) => Proposition::bi_implication(
                (*b.left).clone(),
                (*b.right).clone(),
            ),
            Proposition::Disjunction(d) => Proposition::disjunction(
                (*d.left).clone(),
                (*d.right).clone(),
            ),
            Proposition::Conjunction(c) => Proposition::conjunction(
                (*c.left).clone(),
                (*c.right).clone(),
            ),
        }
    }
}

impl PartialEq for Proposition {
    fn eq(&self, other: &Self) -> (equal: bool) {
        self.same(other)
    }
}

impl Eq for Proposition {

}

impl vstd::std_specs::cmp::PartialEqSpecImpl for Proposition {
    open spec fn obeys_eq_spec() -> bool {
        true
    }

    /// `==` compares the formulas.
    open spec fn eq_spec(&self, other: &Self) -> bool {
        self@ == other@
    }
}

impl<'a> From<&'a str> for Proposition {
    /// The variable with the given name.
    fn from(value: &'a str) -> (p: Self)
        ensures
            p@ == Formula::Atom(value@),
    {
        Proposition::atom(value)
    }
}

impl<'a> vstd::std_specs::convert::FromSpecImpl<&'a str> for Proposition {
    /// The conversion is stated by what `from` ensures: a string cannot be
    /// written down in a formula of the model.
    open spec fn obeys_from_spec() -> bool {
        false
    }

    open spec fn from_spec(value: &'a str) -> Self {
        Proposition::Void
    }
}

impl Default for Proposition {
    /// The placeholder.
    fn default() -> (p: Self)
        ensures
            p@ == Formula::Void,
    {
        Proposition::Void
    }
}

} // verus!
