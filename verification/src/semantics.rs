use crate::proposition::Formula;
use vstd::prelude::*;

verus! {

/// A valuation is the set of the atomic formulas that it makes true. The
/// placeholder counts as one more atomic formula of its own.
pub type Valuation = Set<Formula>;

/// The outcome of the decomposition of a formula: what is appended to a
/// branch, and what is appended to a second branch that forks off beside it.
pub struct Decomposition {
    pub left: Seq<Formula>,
    pub right: Seq<Formula>,
}

impl Formula {
    /// The truth value of the formula under a valuation.
    pub open spec fn eval(self, valuation: Valuation) -> bool
        decreases self,
    {
        match self {
            Formula::Void => valuation.contains(self),
            Formula::Atom(_) => valuation.contains(self),
            Formula::Negation(inner) => !inner.eval(valuation),
            Formula::Implication(left, right) => left.eval(valuation) ==> right.eval(valuation),
            Formula::BiImplication(left, right) => left.eval(valuation) == right.eval(valuation),
            Formula::Disjunction(left, right) => left.eval(valuation) || right.eval(valuation),
            Formula::Conjunction(left, right) => left.eval(valuation) && right.eval(valuation),
        }
    }

    /// A tautology is true under every valuation.
    pub open spec fn is_tautology(self) -> bool {
        forall|valuation: Valuation| self.eval(valuation)
    }

    /// A contradiction is false under every valuation.
    pub open spec fn is_contradiction(self) -> bool {
        forall|valuation: Valuation| !self.eval(valuation)
    }

    /// The one-step expansion of the tableau method.
    ///
    /// | formula      | left       | right      |
    /// |--------------|------------|------------|
    /// | `!!A`        | `A`        |            |
    /// | `!(A <-> B)` | `A`, `!B`  | `!A`, `B`  |
    /// | `!(A -> B)`  | `A`, `!B`  |            |
    /// | `!(A \| B)`  | `!A`, `!B` |            |
    /// | `!(A & B)`   | `!A`       | `!B`       |
    /// | `A -> B`     | `!A`       | `B`        |
    /// | `A <-> B`    | `A`, `B`   | `!A`, `!B` |
    /// | `A \| B`     | `A`        | `B`        |
    /// | `A & B`      | `A`, `B`   |            |
    ///
    /// Every other formula (an atom, a negated atom, the placeholder and its
    /// negation) is not expanded.
    pub open spec fn decompose(self) -> Decomposition {
        match self {
            Formula::Negation(inner) => match *inner {
                Formula::Negation(a) => Decomposition { left: seq![*a], right: seq![] },
                Formula::BiImplication(a, b) => Decomposition {
                    left: seq![*a, b.not()],
                    right: seq![a.not(), *b],
                },
                Formula::Implication(a, b) => Decomposition {
                    left: seq![*a, b.not()],
                    right: seq![],
                },
                Formula::Disjunction(a, b) => Decomposition {
                    left: seq![a.not(), b.not()],
                    right: seq![],
                },
                Formula::Conjunction(a, b) => Decomposition {
                    left: seq![a.not()],
                    right: seq![b.not()],
                },
                _ => Decomposition { left: seq![], right: seq![] },
            },
            Formula::Implication(a, b) => Decomposition { left: seq![a.not()], right: seq![*b] },
            Formula::BiImplication(a, b) => Decomposition {
                left: seq![*a, *b],
                right: seq![a.not(), b.not()],
            },
            Formula::Disjunction(a, b) => Decomposition { left: seq![*a], right: seq![*b] },
            Formula::Conjunction(a, b) => Decomposition { left: seq![*a, *b], right: seq![] },
            _ => Decomposition { left: seq![], right: seq![] },
        }
    }

    /// A size that every decomposition lowers: each of the two lists that a
    /// formula decomposes into weighs less than the formula.
    pub open spec fn weight(self) -> nat
        decreases self,
    {
        match self {
            Formula::Void => 1,
            Formula::Atom(_) => 1,
            Formula::Negation(inner) => inner.weight() + 1,
            Formula::Implication(left, right) => left.weight() + right.weight() + 3,
            Formula::BiImplication(left, right) => left.weight() + right.weight() + 3,
            Formula::Disjunction(left, right) => left.weight() + right.weight() + 3,
            Formula::Conjunction(left, right) => left.weight() + right.weight() + 3,
        }
    }

    /// No formula is its own negation.
    pub proof fn lemma_not_own_negation(self)
        ensures
            self != self.not(),
    {
        if self == self.not() {
            assert(self.not().weight() == self.weight() + 1);
        }
    }
}

/// Whether every formula of the list is true under the valuation.
pub open spec fn all_true(formulas: Seq<Formula>, valuation: Valuation) -> bool {
    forall|i: int| 0 <= i < formulas.len() ==> (#[trigger] formulas[i]).eval(valuation)
}

/// Whether every formula of the list is in the set.
pub open spec fn all_in(formulas: Seq<Formula>, set: Set<Formula>) -> bool {
    forall|i: int| 0 <= i < formulas.len() ==> set.contains(#[trigger] formulas[i])
}

/// The weights of the formulas of a list, added up.
pub open spec fn total_weight(formulas: Seq<Formula>) -> nat
    decreases formulas.len(),
{
    if formulas.len() == 0 {
        0
    } else {
        total_weight(formulas.drop_last()) + formulas.last().weight()
    }
}

impl Decomposition {
    /// Whether one of the two lists is true throughout. The right list
    /// counts only where there is a fork.
    pub open spec fn satisfied_by(self, valuation: Valuation) -> bool {
        all_true(self.left, valuation) || (self.right.len() > 0 && all_true(self.right, valuation))
    }

    /// Whether one of the two lists lies in the set. The right list counts
    /// only where there is a fork.
    pub open spec fn present_in(self, set: Set<Formula>) -> bool {
        all_in(self.left, set) || (self.right.len() > 0 && all_in(self.right, set))
    }
}

/// A formula that is true makes one of the two lists of its decomposition
/// true.
pub proof fn lemma_decompose_sound(formula: Formula, valuation: Valuation)
    requires
        formula.eval(valuation),
    ensures
        formula.decompose().satisfied_by(valuation),
{
    reveal_with_fuel(Formula::eval, 3);
    let d = formula.decompose();
    match formula {
        Formula::Negation(inner) => match *inner {
            Formula::Negation(a) => {},
            Formula::BiImplication(a, b) => {
                assert(b.not().eval(valuation) == !b.eval(valuation));
                assert(a.not().eval(valuation) == !a.eval(valuation));
            },
            Formula::Implication(a, b) => {
                assert(b.not().eval(valuation) == !b.eval(valuation));
            },
            Formula::Disjunction(a, b) => {
                assert(b.not().eval(valuation) == !b.eval(valuation));
                assert(a.not().eval(valuation) == !a.eval(valuation));
            },
            Formula::Conjunction(a, b) => {
                assert(b.not().eval(valuation) == !b.eval(valuation));
                assert(a.not().eval(valuation) == !a.eval(valuation));
            },
            _ => {},
        },
        Formula::Implication(a, b) => {
            assert(a.not().eval(valuation) == !a.eval(valuation));
        },
        Formula::BiImplication(a, b) => {
            assert(b.not().eval(valuation) == !b.eval(valuation));
            assert(a.not().eval(valuation) == !a.eval(valuation));
        },
        Formula::Disjunction(a, b) => {},
        Formula::Conjunction(a, b) => {},
        _ => {},
    }
}

/// The lists of a decomposition have at most two formulas, there is no fork
/// without a left list, and each list weighs less than the formula.
pub proof fn lemma_decompose_shape(formula: Formula)
    ensures
        formula.decompose().left.len() <= 2,
        formula.decompose().right.len() <= 2,
        formula.decompose().left.len() == 0 ==> formula.decompose().right.len() == 0,
        total_weight(formula.decompose().left) < formula.weight(),
        total_weight(formula.decompose().right) < formula.weight(),
{
    reveal_with_fuel(Formula::weight, 3);
    let d = formula.decompose();
    lemma_total_weight_short(d.left);
    lemma_total_weight_short(d.right);
    match formula {
        Formula::Negation(inner) => match *inner {
            Formula::Negation(a) => {},
            Formula::BiImplication(a, b) => {
                assert(b.not().weight() == b.weight() + 1);
                assert(a.not().weight() == a.weight() + 1);
            },
            Formula::Implication(a, b) => {
                assert(b.not().weight() == b.weight() + 1);
            },
            Formula::Disjunction(a, b) => {
                assert(b.not().weight() == b.weight() + 1);
                assert(a.not().weight() == a.weight() + 1);
            },
            Formula::Conjunction(a, b) => {
                assert(b.not().weight() == b.weight() + 1);
                assert(a.not().weight() == a.weight() + 1);
            },
            _ => {},
        },
        Formula::Implication(a, b) => {
            assert(a.not().weight() == a.weight() + 1);
        },
        Formula::BiImplication(a, b) => {
            assert(b.not().weight() == b.weight() + 1);
            assert(a.not().weight() == a.weight() + 1);
        },
        Formula::Disjunction(a, b) => {},
        Formula::Conjunction(a, b) => {},
        _ => {},
    }
}

/// The total weight of a list of at most two formulas, written out.
pub proof fn lemma_total_weight_short(formulas: Seq<Formula>)
    requires
        formulas.len() <= 2,
    ensures
        formulas.len() == 0 ==> total_weight(formulas) == 0,
        formulas.len() == 1 ==> total_weight(formulas) == formulas[0].weight(),
        formulas.len() == 2 ==> total_weight(formulas) == formulas[0].weight()
            + formulas[1].weight(),
{
    if formulas.len() == 1 {
        assert(total_weight(formulas.drop_last()) == 0);
    } else if formulas.len() == 2 {
        let front = formulas.drop_last();
        assert(total_weight(front.drop_last()) == 0);
        assert(front.last() == formulas[0]);
        assert(total_weight(front) == total_weight(front.drop_last()) + front.last().weight());
        assert(total_weight(formulas) == total_weight(front) + formulas.last().weight());
    }
}

/// The placeholder enters no decomposition of a formula that is free of it.
pub proof fn lemma_decompose_void_free(formula: Formula)
    requires
        formula.void_free(),
    ensures
        forall|i: int|
            0 <= i < formula.decompose().left.len() ==> (#[trigger] formula.decompose().left[i]).void_free(),
        forall|i: int|
            0 <= i < formula.decompose().right.len() ==> (#[trigger] formula.decompose().right[i]).void_free(),
{
    reveal_with_fuel(Formula::void_free, 3);
    match formula {
        Formula::Negation(inner) => match *inner {
            Formula::Negation(a) => {},
            Formula::BiImplication(a, b) => {
                assert(b.not().void_free() == b.void_free());
                assert(a.not().void_free() == a.void_free());
            },
            Formula::Implication(a, b) => {
                assert(b.not().void_free() == b.void_free());
            },
            Formula::Disjunction(a, b) => {
                assert(b.not().void_free() == b.void_free());
                assert(a.not().void_free() == a.void_free());
            },
            Formula::Conjunction(a, b) => {
                assert(b.not().void_free() == b.void_free());
                assert(a.not().void_free() == a.void_free());
            },
            _ => {},
        },
        Formula::Implication(a, b) => {
            assert(a.not().void_free() == a.void_free());
        },
        Formula::BiImplication(a, b) => {
            assert(b.not().void_free() == b.void_free());
            assert(a.not().void_free() == a.void_free());
        },
        Formula::Disjunction(a, b) => {},
        Formula::Conjunction(a, b) => {},
        _ => {},
    }
}

/// A set of formulas is saturated when it holds, for each of its formulas,
/// one of the two lists that the formula decomposes into.
pub open spec fn saturated(set: Set<Formula>) -> bool {
    forall|formula: Formula| #[trigger]
        set.contains(formula) ==> formula.decompose().present_in(set)
}

/// A set of formulas is consistent when it holds no formula together with
/// its negation.
pub open spec fn consistent(set: Set<Formula>) -> bool {
    forall|formula: Formula| !(#[trigger] set.contains(formula) && set.contains(formula.not()))
}

/// A saturated and consistent set of formulas, read as a valuation, makes
/// each of its formulas true.
pub proof fn lemma_saturated_set_is_model(set: Set<Formula>, formula: Formula)
    requires
        saturated(set),
        consistent(set),
        set.contains(formula),
    ensures
        formula.eval(set),
    decreases formula.weight(),
{
    reveal_with_fuel(Formula::eval, 3);
    let d = formula.decompose();
    lemma_decompose_shape(formula);
    lemma_total_weight_short(d.left);
    lemma_total_weight_short(d.right);
    assert(d.present_in(set));
    if all_in(d.left, set) {
        if d.left.len() >= 1 {
            assert(set.contains(d.left[0]));
            lemma_saturated_set_is_model(set, d.left[0]);
        }
        if d.left.len() >= 2 {
            assert(set.contains(d.left[1]));
            lemma_saturated_set_is_model(set, d.left[1]);
        }
    } else {
        if d.right.len() >= 1 {
            assert(set.contains(d.right[0]));
            lemma_saturated_set_is_model(set, d.right[0]);
        }
        if d.right.len() >= 2 {
            assert(set.contains(d.right[1]));
            lemma_saturated_set_is_model(set, d.right[1]);
        }
    }
    match formula {
        Formula::Negation(inner) => match *inner {
            Formula::Negation(a) => {},
            Formula::BiImplication(a, b) => {
                assert(b.not().eval(set) == !b.eval(set));
                assert(a.not().eval(set) == !a.eval(set));
            },
            Formula::Implication(a, b) => {
                assert(b.not().eval(set) == !b.eval(set));
            },
            Formula::Disjunction(a, b) => {
                assert(b.not().eval(set) == !b.eval(set));
                assert(a.not().eval(set) == !a.eval(set));
            },
            Formula::Conjunction(a, b) => {
                assert(b.not().eval(set) == !b.eval(set));
                assert(a.not().eval(set) == !a.eval(set));
            },
            Formula::Atom(_) => {
                assert(!(set.contains(*inner) && set.contains(inner.not())));
            },
            Formula::Void => {
                assert(!(set.contains(*inner) && set.contains(inner.not())));
            },
        },
        Formula::Implication(a, b) => {
            assert(a.not().eval(set) == !a.eval(set));
        },
        Formula::BiImplication(a, b) => {
            assert(b.not().eval(set) == !b.eval(set));
            assert(a.not().eval(set) == !a.eval(set));
        },
        Formula::Disjunction(a, b) => {},
        Formula::Conjunction(a, b) => {},
        _ => {},
    }
}

} // verus!
