use crate::proposition::Formula;
use crate::semantics::Valuation;
use crate::table_generator::{bit, line_assignment, lookup, Fault};
use crate::variables::{ascending, lemma_precedes_irreflexive, lists};
use vstd::arithmetic::div_mod::lemma_div_denominator;
use vstd::arithmetic::power2::{lemma_pow2_pos, lemma_pow2_unfold, pow2};
use vstd::prelude::*;

verus! {

/// The valuation that an assignment stands for: the atoms that it gives the
/// value true.
pub open spec fn valuation_of(vars: Seq<(Seq<char>, bool)>) -> Valuation {
    Set::new(
        |formula: Formula|
            match formula {
                Formula::Atom(name) => lookup(vars, name) == Some(true),
                _ => false,
            },
    )
}

/// Whether the assignment gives a value to every atom of the formula.
pub open spec fn covers(vars: Seq<(Seq<char>, bool)>, formula: Formula) -> bool {
    forall|name: Seq<char>| #[trigger] formula.atoms().contains(name) ==> lookup(vars, name) is Some
}

/// Under an assignment that covers it, a formula without the placeholder
/// has the value that it has under the valuation that the assignment stands
/// for.
pub proof fn lemma_value_is_eval(formula: Formula, vars: Seq<(Seq<char>, bool)>)
    requires
        formula.void_free(),
        covers(vars, formula),
    ensures
        formula.value(vars) == Ok::<bool, Fault>(formula.eval(valuation_of(vars))),
    decreases formula,
{
    match formula {
        Formula::Void => {},
        Formula::Atom(name) => {
            assert(formula.atoms().contains(name));
        },
        Formula::Negation(inner) => {
            assert(formula.atoms() == inner.atoms());
            lemma_value_is_eval(*inner, vars);
        },
        Formula::Implication(left, right) => {
            assert(formula.atoms() == left.atoms().union(right.atoms()));
            lemma_covers_parts(vars, *left, *right);
            lemma_value_is_eval(*left, vars);
            lemma_value_is_eval(*right, vars);
        },
        Formula::BiImplication(left, right) => {
            assert(formula.atoms() == left.atoms().union(right.atoms()));
            lemma_covers_parts(vars, *left, *right);
            lemma_value_is_eval(*left, vars);
            lemma_value_is_eval(*right, vars);
        },
        Formula::Disjunction(left, right) => {
            assert(formula.atoms() == left.atoms().union(right.atoms()));
            lemma_covers_parts(vars, *left, *right);
            lemma_value_is_eval(*left, vars);
            lemma_value_is_eval(*right, vars);
        },
        Formula::Conjunction(left, right) => {
            assert(formula.atoms() == left.atoms().union(right.atoms()));
            lemma_covers_parts(vars, *left, *right);
            lemma_value_is_eval(*left, vars);
            lemma_value_is_eval(*right, vars);
        },
    }
}

/// An assignment that gives a value to the atoms of two formulas together
/// gives one to the atoms of each.
pub proof fn lemma_covers_parts(vars: Seq<(Seq<char>, bool)>, left: Formula, right: Formula)
    requires
        forall|name: Seq<char>| #[trigger]
            left.atoms().union(right.atoms()).contains(name) ==> lookup(vars, name) is Some,
    ensures
        covers(vars, left),
        covers(vars, right),
{
    assert forall|name: Seq<char>| #[trigger] left.atoms().contains(name) implies lookup(
        vars,
        name,
    ) is Some by {
        assert(left.atoms().union(right.atoms()).contains(name));
    }
    assert forall|name: Seq<char>| #[trigger] right.atoms().contains(name) implies lookup(
        vars,
        name,
    ) is Some by {
        assert(left.atoms().union(right.atoms()).contains(name));
    }
}

/// Whether two valuations agree on the atoms of a formula.
pub open spec fn agree_on(first: Valuation, second: Valuation, formula: Formula) -> bool {
    forall|name: Seq<char>| #[trigger]
        formula.atoms().contains(name) ==> first.contains(Formula::Atom(name)) == second.contains(
            Formula::Atom(name),
        )
}

/// The truth value of a formula without the placeholder depends only on
/// the truth values of its atoms.
pub proof fn lemma_eval_depends_on_atoms(formula: Formula, first: Valuation, second: Valuation)
    requires
        formula.void_free(),
        agree_on(first, second, formula),
    ensures
        formula.eval(first) == formula.eval(second),
    decreases formula,
{
    match formula {
        Formula::Void => {},
        Formula::Atom(name) => {
            assert(formula.atoms().contains(name));
        },
        Formula::Negation(inner) => {
            assert(formula.atoms() == inner.atoms());
            lemma_eval_depends_on_atoms(*inner, first, second);
        },
        Formula::Implication(left, right) => {
            assert(formula.atoms() == left.atoms().union(right.atoms()));
            lemma_agree_parts(first, second, *left, *right);
            lemma_eval_depends_on_atoms(*left, first, second);
            lemma_eval_depends_on_atoms(*right, first, second);
        },
        Formula::BiImplication(left, right) => {
            assert(formula.atoms() == left.atoms().union(right.atoms()));
            lemma_agree_parts(first, second, *left, *right);
            lemma_eval_depends_on_atoms(*left, first, second);
            lemma_eval_depends_on_atoms(*right, first, second);
        },
        Formula::Disjunction(left, right) => {
            assert(formula.atoms() == left.atoms().union(right.atoms()));
            lemma_agree_parts(first, second, *left, *right);
            lemma_eval_depends_on_atoms(*left, first, second);
            lemma_eval_depends_on_atoms(*right, first, second);
        },
        Formula::Conjunction(left, right) => {
            assert(formula.atoms() == left.atoms().union(right.atoms()));
            lemma_agree_parts(first, second, *left, *right);
            lemma_eval_depends_on_atoms(*left, first, second);
            lemma_eval_depends_on_atoms(*right, first, second);
        },
    }
}

/// Valuations that agree on the atoms of two formulas together agree on
/// the atoms of each.
pub proof fn lemma_agree_parts(first: Valuation, second: Valuation, left: Formula, right: Formula)
    requires
        forall|name: Seq<char>| #[trigger]
            left.atoms().union(right.atoms()).contains(name) ==> first.contains(
                Formula::Atom(name),
            ) == second.contains(Formula::Atom(name)),
    ensures
        agree_on(first, second, left),
        agree_on(first, second, right),
{
    assert forall|name: Seq<char>| #[trigger] left.atoms().contains(name) implies first.contains(
        Formula::Atom(name),
    ) == second.contains(Formula::Atom(name)) by {
        assert(left.atoms().union(right.atoms()).contains(name));
    }
    assert forall|name: Seq<char>| #[trigger] right.atoms().contains(name) implies first.contains(
        Formula::Atom(name),
    ) == second.contains(Formula::Atom(name)) by {
        assert(left.atoms().union(right.atoms()).contains(name));
    }
}

/// In the assignment of a line, a variable has the value of its bit.
pub proof fn lemma_lookup_line(variables: Seq<Seq<char>>, line: nat, i: int)
    requires
        ascending(variables),
        0 <= i < variables.len(),
    ensures
        lookup(line_assignment(variables, line), variables[i]) == Some(
            bit(line, variables.len(), i),
        ),
{
    lemma_lookup_from(variables, line, i, 0);
    assert(line_assignment(variables, line).skip(0) =~= line_assignment(variables, line));
}

/// The search for a variable finds it wherever it starts before it.
pub proof fn lemma_lookup_from(variables: Seq<Seq<char>>, line: nat, i: int, from: int)
    requires
        ascending(variables),
        0 <= from <= i < variables.len(),
    ensures
        lookup(line_assignment(variables, line).skip(from), variables[i]) == Some(
            bit(line, variables.len(), i),
        ),
    decreases i - from,
{
    let all = line_assignment(variables, line);
    let rest = all.skip(from);
    assert(rest[0] == all[from]);
    if from < i {
        assert(precedes_pair(variables, from, i));
        lemma_precedes_irreflexive(variables[i]);
        assert(rest.drop_first() =~= all.skip(from + 1));
        lemma_lookup_from(variables, line, i, from + 1);
    }
}

/// The order of two places of an ascending list.
pub open spec fn precedes_pair(variables: Seq<Seq<char>>, i: int, j: int) -> bool {
    crate::variables::precedes(variables[i], variables[j])
}

/// The number of the line in which the first `count` variables have the
/// truth values that a valuation gives them.
pub open spec fn line_number(valuation: Valuation, variables: Seq<Seq<char>>, count: nat) -> nat
    decreases count,
{
    if count == 0 {
        0
    } else {
        2 * line_number(valuation, variables, (count - 1) as nat) + if valuation.contains(
            Formula::Atom(variables[count - 1]),
        ) {
            1nat
        } else {
            0nat
        }
    }
}

/// The number of a line is below two to the power of the number of
/// variables.
pub proof fn lemma_line_number_bound(valuation: Valuation, variables: Seq<Seq<char>>, count: nat)
    ensures
        line_number(valuation, variables, count) < pow2(count),
    decreases count,
{
    if count == 0 {
        lemma_pow2_pos(0);
    } else {
        lemma_line_number_bound(valuation, variables, (count - 1) as nat);
        lemma_pow2_unfold(count);
    }
}

/// Half of twice a number and a bit is the number.
pub proof fn lemma_drop_bit(number: nat, low: nat, divisor: nat)
    requires
        low < 2,
        divisor > 0,
    ensures
        (2 * number + low) / (2 * divisor) == number / divisor,
{
    lemma_div_denominator((2 * number + low) as int, 2, divisor as int);
    assert((2 * number + low) / 2 == number);
}

/// Without its last bits, the number of a line is the number of the line
/// for the variables before them.
pub proof fn lemma_line_number_prefix(
    valuation: Valuation,
    variables: Seq<Seq<char>>,
    count: nat,
    kept: nat,
)
    requires
        kept <= count,
    ensures
        line_number(valuation, variables, count) / pow2((count - kept) as nat) == line_number(
            valuation,
            variables,
            kept,
        ),
    decreases count,
{
    if kept == count {
        assert(pow2(0) == 1) by {
            vstd::arithmetic::power2::lemma2_to64();
        }
        assert((count - kept) as nat == 0);
        assert(line_number(valuation, variables, count) / 1 == line_number(
            valuation,
            variables,
            count,
        ));
    } else {
        let before = line_number(valuation, variables, (count - 1) as nat);
        let low: nat = if valuation.contains(Formula::Atom(variables[count - 1])) {
            1
        } else {
            0
        };
        lemma_line_number_prefix(valuation, variables, (count - 1) as nat, kept);
        let small = pow2((count - 1 - kept) as nat);
        assert(((count - 1) as nat - kept) as nat == (count - 1 - kept) as nat);
        assert(before / small == line_number(valuation, variables, kept));
        lemma_pow2_unfold((count - kept) as nat);
        assert(((count - kept) as nat - 1) as nat == (count - 1 - kept) as nat);
        assert(pow2((count - kept) as nat) == 2 * small);
        lemma_pow2_pos((count - 1 - kept) as nat);
        lemma_drop_bit(before, low, small);
        assert(line_number(valuation, variables, count) == 2 * before + low);
        assert((2 * before + low) / (2 * small) == before / small);
        assert(line_number(valuation, variables, count) / pow2((count - kept) as nat) == before
            / small);
    }
}

/// In the line with its number, each variable has the truth value that the
/// valuation gives it.
pub proof fn lemma_line_number_bit(
    valuation: Valuation,
    variables: Seq<Seq<char>>,
    count: nat,
    i: int,
)
    requires
        0 <= i < count,
    ensures
        bit(line_number(valuation, variables, count), count, i) == valuation.contains(
            Formula::Atom(variables[i]),
        ),
{
    lemma_line_number_prefix(valuation, variables, count, (i + 1) as nat);
    assert((count - (i + 1)) as nat == (count - 1 - i) as nat);
}

/// The valuation that a line stands for agrees with the valuation whose
/// line it is on the atoms of a formula whose variables are listed.
pub proof fn lemma_line_agrees(formula: Formula, variables: Seq<Seq<char>>, valuation: Valuation)
    requires
        ascending(variables),
        lists(variables, formula.atoms()),
    ensures
        agree_on(
            valuation_of(
                line_assignment(variables, line_number(valuation, variables, variables.len())),
            ),
            valuation,
            formula,
        ),
        covers(
            line_assignment(variables, line_number(valuation, variables, variables.len())),
            formula,
        ),
{
    let line = line_number(valuation, variables, variables.len());
    let vars = line_assignment(variables, line);
    assert forall|name: Seq<char>| #[trigger] formula.atoms().contains(name) implies valuation_of(
        vars,
    ).contains(Formula::Atom(name)) == valuation.contains(Formula::Atom(name)) && lookup(
        vars,
        name,
    ) is Some by {
        assert(variables.contains(name));
        let i = choose|i: int| 0 <= i < variables.len() && variables[i] == name;
        lemma_lookup_line(variables, line, i);
        lemma_line_number_bit(valuation, variables, variables.len(), i);
    }
}

/// The assignment of any line gives a value to every atom of a formula
/// whose variables are listed.
pub proof fn lemma_line_covers(formula: Formula, variables: Seq<Seq<char>>, line: nat)
    requires
        ascending(variables),
        lists(variables, formula.atoms()),
    ensures
        covers(line_assignment(variables, line), formula),
{
    let vars = line_assignment(variables, line);
    assert forall|name: Seq<char>| #[trigger] formula.atoms().contains(name) implies lookup(
        vars,
        name,
    ) is Some by {
        assert(variables.contains(name));
        let i = choose|i: int| 0 <= i < variables.len() && variables[i] == name;
        lemma_lookup_line(variables, line, i);
    }
}

} // verus!
