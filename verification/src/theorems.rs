use crate::errors::RaaError;
use crate::proposition::Formula;
use crate::prover::{is_decision, verdict, ProveResult};
use crate::cross_check::{
    lemma_eval_depends_on_atoms, lemma_line_agrees, lemma_line_covers, lemma_line_number_bound,
    lemma_value_is_eval, line_number, valuation_of,
};
use crate::semantics::Valuation;
use crate::table_generator::{is_truth_table, line_assignment, table_line, Fault};
use crate::truth_table::TruthTable;
use vstd::arithmetic::power2::lemma_pow2_pos;
use vstd::prelude::*;

verus! {

/// The conjunction of a formula with its negation is falsified.
pub proof fn theorem_contradiction_is_falsified(
    formula: Formula,
    result: Result<ProveResult, RaaError>,
)
    requires
        formula.void_free(),
        is_decision(formula.and(formula.not()), result),
    ensures
        result == Ok::<ProveResult, RaaError>(ProveResult::Falsified),
{
    let both = formula.and(formula.not());
    reveal_with_fuel(Formula::eval, 3);
    reveal_with_fuel(Formula::void_free, 3);
    assert forall|valuation: Valuation| !both.eval(valuation) by {}
    assert(!both.eval(Set::<Formula>::empty()));
    assert(both.void_free());
}

/// The disjunction of a formula with its negation is proven.
pub proof fn theorem_excluded_middle_is_proven(
    formula: Formula,
    result: Result<ProveResult, RaaError>,
)
    requires
        formula.void_free(),
        is_decision(formula.or(formula.not()), result),
    ensures
        result == Ok::<ProveResult, RaaError>(ProveResult::Proven),
{
    let either = formula.or(formula.not());
    reveal_with_fuel(Formula::eval, 3);
    reveal_with_fuel(Formula::void_free, 3);
    assert forall|valuation: Valuation| either.eval(valuation) by {}
    assert(either.void_free());
}

/// That a formula implies itself is proven.
pub proof fn theorem_self_implication_is_proven(
    formula: Formula,
    result: Result<ProveResult, RaaError>,
)
    requires
        formula.void_free(),
        is_decision(formula.implies(formula), result),
    ensures
        result == Ok::<ProveResult, RaaError>(ProveResult::Proven),
{
    let implication = formula.implies(formula);
    reveal_with_fuel(Formula::eval, 2);
    reveal_with_fuel(Formula::void_free, 2);
    assert forall|valuation: Valuation| implication.eval(valuation) by {}
    assert(implication.void_free());
}

/// A formula and its double negation are decided alike.
pub proof fn theorem_double_negation_is_transparent(
    formula: Formula,
    plain: Result<ProveResult, RaaError>,
    doubled: Result<ProveResult, RaaError>,
)
    requires
        formula.void_free(),
        is_decision(formula, plain),
        is_decision(formula.not().not(), doubled),
    ensures
        plain == doubled,
{
    let twice = formula.not().not();
    reveal_with_fuel(Formula::eval, 3);
    reveal_with_fuel(Formula::void_free, 3);
    assert(twice.void_free());
    assert forall|valuation: Valuation| twice.eval(valuation) == formula.eval(valuation) by {}
    if formula.is_tautology() {
        assert forall|valuation: Valuation| twice.eval(valuation) by {
            assert(formula.eval(valuation));
        }
    }
    if twice.is_tautology() {
        assert forall|valuation: Valuation| formula.eval(valuation) by {
            assert(twice.eval(valuation));
        }
    }
    if formula.is_contradiction() {
        assert forall|valuation: Valuation| !twice.eval(valuation) by {
            assert(!formula.eval(valuation));
        }
    }
    if twice.is_contradiction() {
        assert forall|valuation: Valuation| !formula.eval(valuation) by {
            assert(!twice.eval(valuation));
        }
    }
    assert(verdict(twice) == verdict(formula));
}

/// For every valuation the truth table of a formula without the
/// placeholder has a line in which the formula has the truth value that it
/// has under the valuation.
pub proof fn lemma_line_of_valuation(formula: Formula, table: TruthTable, valuation: Valuation) -> (line:
    int)
    requires
        formula.void_free(),
        is_truth_table(table, formula),
    ensures
        0 <= line < table.lines.len(),
        table.lines[line]@.last() == formula.eval(valuation),
{
    let list = formula.variable_list();
    let count = list.len();
    let line = line_number(valuation, list, count);
    lemma_line_number_bound(valuation, list, count);
    lemma_line_agrees(formula, list, valuation);
    lemma_eval_depends_on_atoms(formula, valuation_of(line_assignment(list, line)), valuation);
    lemma_value_is_eval(formula, line_assignment(list, line));
    let at: int = line as int;
    assert(0 <= at < table.lines.len());
    assert(at as nat == line);
    assert(table_line(formula, formula.variable_list(), at as nat) == Ok::<Seq<bool>, Fault>(
        table.lines[at]@,
    ));
    at
}

/// The prover and the truth table agree on a formula without the
/// placeholder: it is proven exactly if it is true in every line of its
/// truth table, falsified exactly if it is false in every line, and
/// contingent exactly if it is true in one line and false in another.
pub proof fn theorem_truth_table_agrees(formula: Formula, table: TruthTable)
    requires
        formula.void_free(),
        is_truth_table(table, formula),
    ensures
        verdict(formula) == ProveResult::Proven <==> forall|line: int|
            0 <= line < table.lines.len() ==> (#[trigger] table.lines[line])@.last(),
        verdict(formula) == ProveResult::Falsified <==> forall|line: int|
            0 <= line < table.lines.len() ==> !(#[trigger] table.lines[line])@.last(),
        verdict(formula) == ProveResult::Contingent <==> (exists|line: int|
            0 <= line < table.lines.len() && (#[trigger] table.lines[line])@.last()) && (exists|
            line: int,
        |
            0 <= line < table.lines.len() && !(#[trigger] table.lines[line])@.last()),
{
    let list = formula.variable_list();
    let count = list.len();
    assert forall|line: int| 0 <= line < table.lines.len() implies (#[trigger] table.lines[line])@.last()
        == formula.eval(valuation_of(line_assignment(list, line as nat))) by {
        lemma_line_covers(formula, list, line as nat);
        lemma_value_is_eval(formula, line_assignment(list, line as nat));
        assert(table_line(formula, list, line as nat) == Ok::<Seq<bool>, Fault>(
            table.lines[line]@,
        ));
    }
    let none = Set::<Formula>::empty();
    assert(formula.is_tautology() ==> formula.eval(none));
    assert(formula.is_contradiction() ==> !formula.eval(none));
    if forall|line: int| 0 <= line < table.lines.len() ==> (#[trigger] table.lines[line])@.last() {
        assert forall|valuation: Valuation| formula.eval(valuation) by {
            let line = lemma_line_of_valuation(formula, table, valuation);
        }
    }
    if forall|line: int| 0 <= line < table.lines.len() ==> !(#[trigger] table.lines[line])@.last() {
        assert forall|valuation: Valuation| !formula.eval(valuation) by {
            let line = lemma_line_of_valuation(formula, table, valuation);
        }
    }
    lemma_pow2_pos(count);
    if formula.is_tautology() {
        assert forall|line: int| 0 <= line < table.lines.len() implies (#[trigger] table.lines[line])@.last() by {
            assert(formula.eval(valuation_of(line_assignment(list, line as nat))));
        }
        assert(table.lines[0]@.last());
    }
    if formula.is_contradiction() {
        assert forall|line: int| 0 <= line < table.lines.len() implies !(#[trigger] table.lines[line])@.last() by {
            assert(!formula.eval(valuation_of(line_assignment(list, line as nat))));
        }
        assert(!table.lines[0]@.last());
    }
}

} // verus!
