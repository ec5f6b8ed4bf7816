use crate::errors::RaaError;
use crate::proposition::{Formula, Proposition};
use crate::truth_table::TruthTable;
use crate::cross_check::{lemma_line_covers, lemma_value_is_eval};
use crate::variables::{ascending, lists, names};
use vstd::arithmetic::power2::{lemma2_to64, lemma_pow2_pos, lemma_pow2_unfold, pow2};
use vstd::prelude::*;

verus! {

/// Why a proposition has no value under an assignment.
pub enum Fault {
    /// The placeholder was met.
    VoidExpression,
    /// The variable of this name has no value.
    UndefinedVariable(Seq<char>),
}

/// Whether the error tells of the fault.
pub open spec fn reports(error: RaaError, fault: Fault) -> bool {
    match fault {
        Fault::VoidExpression => error is VoidExpression,
        Fault::UndefinedVariable(variable) => match error {
            RaaError::UndefinedVariable { name } => name@ == variable,
            _ => false,
        },
    }
}

/// The value that an assignment gives to a name: that of the first entry
/// with the name.
pub open spec fn lookup(vars: Seq<(Seq<char>, bool)>, name: Seq<char>) -> Option<bool>
    decreases vars.len(),
{
    if vars.len() == 0 {
        None
    } else if vars[0].0 == name {
        Some(vars[0].1)
    } else {
        lookup(vars.drop_first(), name)
    }
}

/// An assignment as names with their values.
pub open spec fn assignment(vars: Seq<(String, bool)>) -> Seq<(Seq<char>, bool)> {
    Seq::new(vars.len(), |i: int| (vars[i].0@, vars[i].1))
}

impl Formula {
    /// The value of the formula under an assignment, as it is calculated:
    /// from left to right, and the right operand of `->`, `|` and `&` only
    /// where the left one does not settle the value. The first fault that
    /// is met ends the calculation.
    pub open spec fn value(self, vars: Seq<(Seq<char>, bool)>) -> Result<bool, Fault>
        decreases self,
    {
        match self {
            Formula::Void => Err(Fault::VoidExpression),
            Formula::Atom(name) => match lookup(vars, name) {
                Some(value) => Ok(value),
                None => Err(Fault::UndefinedVariable(name)),
            },
            Formula::Negation(inner) => match inner.value(vars) {
                Ok(value) => Ok(!value),
                Err(fault) => Err(fault),
            },
            Formula::Implication(left, right) => match left.value(vars) {
                Ok(true) => right.value(vars),
                Ok(false) => Ok(true),
                Err(fault) => Err(fault),
            },
            Formula::BiImplication(left, right) => match left.value(vars) {
                Ok(first) => match right.value(vars) {
                    Ok(second) => Ok(first == second),
                    Err(fault) => Err(fault),
                },
                Err(fault) => Err(fault),
            },
            Formula::Disjunction(left, right) => match left.value(vars) {
                Ok(true) => Ok(true),
                Ok(false) => right.value(vars),
                Err(fault) => Err(fault),
            },
            Formula::Conjunction(left, right) => match left.value(vars) {
                Ok(true) => right.value(vars),
                Ok(false) => Ok(false),
                Err(fault) => Err(fault),
            },
        }
    }
}

/// Whether a calculation came to what the model says.
pub open spec fn is_value(
    result: Result<bool, RaaError>,
    formula: Formula,
    vars: Seq<(Seq<char>, bool)>,
) -> bool {
    match result {
        Ok(value) => formula.value(vars) == Ok::<bool, Fault>(value),
        Err(error) => match formula.value(vars) {
            Ok(_) => false,
            Err(fault) => reports(error, fault),
        },
    }
}

/// Looks a name up in an assignment.
pub fn find_value(vars: &Vec<(String, bool)>, name: &String) -> (found: Option<bool>)
    ensures
        found == lookup(assignment(vars@), name@),
{
    let ghost all = assignment(vars@);
    let mut i: usize = 0;
    proof {
        assert(all.skip(0) =~= all);
    }
    while i < vars.len()
        invariant
            i <= vars.len(),
            all == assignment(vars@),
            lookup(all, name@) == lookup(all.skip(i as int), name@),
        decreases vars.len() - i,
    {
        proof {
            assert(all.skip(i as int)[0] == all[i as int]);
            assert(all[i as int].0 == vars@[i as int].0@);
            assert(all.skip(i as int).drop_first() =~= all.skip(i + 1));
        }
        if vars[i].0 == *name {
            return Some(vars[i].1);
        }
        i += 1;
    }
    None
}

impl Proposition {
    /// Calculates the value of the proposition under an assignment. The
    /// placeholder has no value, and a variable has none unless the
    /// assignment gives it one.
    pub fn calculate_value(&self, vars: &Vec<(String, bool)>) -> (result: Result<bool, RaaError>)
        ensures
            is_value(result, self@, assignment(vars@)),
        decreases self,
    {
        match self {
            Proposition::Void => Err(RaaError::VoidExpression),
            Proposition::Atom(a) => match find_value(vars, a) {
                Some(value) => Ok(value),
                None => Err(RaaError::UndefinedVariable { name: a.clone() }),
            },
            Proposition::Negation(n) => match n.inner.calculate_value(vars) {
                Ok(value) => Ok(!value),
                Err(error) => Err(error),
            },
            Proposition::Implication(i) => match i.left.calculate_value(vars) {
                Ok(true) => i.right.calculate_value(vars),
                Ok(false) => Ok(true),
                Err(error) => Err(error),
            },
            Proposition::BiImplication(b) => match b.left.calculate_value(vars) {
                Ok(first) => match b.right.calculate_value(vars) {
                    Ok(second) => Ok(first == second),
                    Err(error) => Err(error),
                },
                Err(error) => Err(error),
            },
            Proposition::Disjunction(d) => match d.left.calculate_value(vars) {
                Ok(true) => Ok(true),
                Ok(false) => d.right.calculate_value(vars),
                Err(error) => Err(error),
            },
            Proposition::Conjunction(c) => match c.left.calculate_value(vars) {
                Ok(true) => c.right.calculate_value(vars),
                Ok(false) => Ok(false),
                Err(error) => Err(error),
            },
        }
    }
}

/// The value of the variable at place `i` of `count` variables in the line
/// with the number `line`: the bits of the number are the values, the most
/// significant of them that of the first variable.
pub open spec fn bit(line: nat, count: nat, i: int) -> bool {
    (line / pow2((count - 1 - i) as nat)) % 2 == 1
}

/// The values of `count` variables in the line with the number `line`.
pub open spec fn bits(line: nat, count: nat) -> Seq<bool> {
    Seq::new(count, |i: int| bit(line, count, i))
}

/// The assignment of the line with the number `line`.
pub open spec fn line_assignment(variables: Seq<Seq<char>>, line: nat) -> Seq<(Seq<char>, bool)> {
    Seq::new(variables.len(), |i: int| (variables[i], bit(line, variables.len(), i)))
}

/// The line with the number `line` of the truth table of a formula: the
/// values of the variables, then the value of the formula.
pub open spec fn table_line(formula: Formula, variables: Seq<Seq<char>>, line: nat) -> Result<
    Seq<bool>,
    Fault,
> {
    match formula.value(line_assignment(variables, line)) {
        Ok(value) => Ok(bits(line, variables.len()).push(value)),
        Err(fault) => Err(fault),
    }
}

/// The most variables that a truth table may have.
pub const MAX_VARIABLES: usize = 16;

/// Generates truth tables.
#[derive(Debug)]
pub struct TableGenerator {}

impl Default for TableGenerator {
    fn default() -> (generator: Self) {
        TableGenerator {  }
    }
}

impl TableGenerator {
    /// A table generator.
    pub fn new() -> (generator: Self) {
        TableGenerator {  }
    }

    /// The number of variables.
    pub fn number_of_vars(&self, vars: &Vec<String>) -> (count: u32)
        requires
            vars.len() <= MAX_VARIABLES,
        ensures
            count == vars.len(),
    {
        vars.len() as u32
    }

    /// The header of a truth table: the names of the variables, then the
    /// text of the proposition.
    pub fn generate_table_header(&self, vars: &Vec<String>, proposition: &Proposition) -> (header:
        Vec<String>)
        ensures
            names(header@) == names(vars@).push(proposition@.render()),
    {
        let mut header: Vec<String> = Vec::new();
        let mut i: usize = 0;
        while i < vars.len()
            invariant
                i <= vars.len(),
                names(header@) == names(vars@).take(i as int),
            decreases vars.len() - i,
        {
            let ghost before = names(header@);
            let name = vars[i].clone();
            assert(name@ == vars@[i as int]@);
            header.push(name);
            proof {
                assert(names(header@) =~= before.push(vars@[i as int]@));
                assert(names(vars@).take(i + 1) =~= names(vars@).take(i as int).push(
                    vars@[i as int]@,
                ));
            }
            i += 1;
        }
        let ghost before = names(header@);
        header.push(proposition.to_text());
        proof {
            assert(names(vars@).take(vars.len() as int) =~= names(vars@));
            assert(names(header@) =~= before.push(proposition@.render()));
        }
        header
    }

    /// One line of a truth table: the values of the variables as the bits
    /// of `v`, then the value of the proposition under them.
    pub fn generate_table_line(&self, v: usize, proposition: &Proposition, vars: &Vec<String>) -> (result:
        Result<Vec<bool>, RaaError>)
        requires
            vars.len() <= MAX_VARIABLES,
        ensures
            match result {
                Ok(line) => table_line(proposition@, names(vars@), v as nat) == Ok::<
                    Seq<bool>,
                    Fault,
                >(line@),
                Err(error) => match table_line(proposition@, names(vars@), v as nat) {
                    Ok(_) => false,
                    Err(fault) => reports(error, fault),
                },
            },
    {
        let n = self.number_of_vars(vars);
        let ghost count = vars.len() as nat;
        let mut mask: usize = if n == 0 {
            0
        } else {
            two_to_the(n - 1)
        };
        let mut values: Vec<(String, bool)> = Vec::new();
        let mut line: Vec<bool> = Vec::new();
        let mut i: usize = 0;
        while i < vars.len()
            invariant
                i <= vars.len(),
                count == vars.len(),
                count <= MAX_VARIABLES,
                i < count ==> mask == pow2((count - 1 - i) as nat),
                assignment(values@) == line_assignment(names(vars@), v as nat).take(i as int),
                line@ == bits(v as nat, count).take(i as int),
            decreases vars.len() - i,
        {
            proof {
                lemma_pow2_pos((count - 1 - i) as nat);
                if i + 1 < count {
                    lemma_pow2_unfold((count - 1 - i) as nat);
                }
            }
            let b = (v / mask) % 2 == 1;
            let ghost before = assignment(values@);
            let ghost whole = line_assignment(names(vars@), v as nat);
            let name = vars[i].clone();
            assert(name@ == vars@[i as int]@);
            values.push((name, b));
            line.push(b);
            mask = mask / 2;
            proof {
                assert(b == bit(v as nat, count, i as int));
                assert(whole[i as int] == (vars@[i as int]@, b));
                assert(assignment(values@) =~= before.push((vars@[i as int]@, b)));
                assert(whole.take(i + 1) =~= whole.take(i as int).push(whole[i as int]));
                assert(line@ =~= bits(v as nat, count).take(i + 1));
            }
            i += 1;
        }
        proof {
            assert(assignment(values@) =~= line_assignment(names(vars@), v as nat));
            assert(line@ =~= bits(v as nat, count));
        }
        match proposition.calculate_value(&values) {
            Ok(b) => {
                line.push(b);
                Ok(line)
            },
            Err(error) => Err(error),
        }
    }

    /// The truth table of a proposition: a line for each assignment of
    /// truth values to its variables, in the order of the numbers whose
    /// bits the values are. A proposition with more than 16 variables is
    /// refused.
    pub fn generate_truth_table(&self, proposition: &Proposition) -> (result: Result<
        TruthTable,
        RaaError,
    >)
        ensures
            match result {
                Ok(table) => is_truth_table(table, proposition@),
                Err(error) => if proposition@.variable_list().len() > MAX_VARIABLES {
                    error is TooManyVariables
                } else {
                    !proposition@.void_free() && exists|line: nat|
                        fails_first_at(proposition@, line) && match #[trigger] table_line(
                            proposition@,
                            proposition@.variable_list(),
                            line,
                        ) {
                            Ok(_) => false,
                            Err(fault) => reports(error, fault),
                        }
                },
            },
    {
        let vars = proposition.get_variables();
        if vars.len() > MAX_VARIABLES {
            return Err(RaaError::TooManyVariables);
        }
        let header = self.generate_table_header(&vars, proposition);
        let line_count = two_to_the(self.number_of_vars(&vars));
        let mut lines: Vec<Vec<bool>> = Vec::new();
        let mut v: usize = 0;
        while v < line_count
            invariant
                v <= line_count,
                line_count == pow2(vars.len() as nat),
                vars.len() <= MAX_VARIABLES,
                names(vars@) == proposition@.variable_list(),
                ascending(proposition@.variable_list()),
                lists(proposition@.variable_list(), proposition@.atoms()),
                lines.len() == v,
                forall|u: nat|
                    u < v ==> #[trigger] table_line(
                        proposition@,
                        proposition@.variable_list(),
                        u,
                    ) == Ok::<Seq<bool>, Fault>(lines[u as int]@),
            decreases line_count - v,
        {
            match self.generate_table_line(v, proposition, &vars) {
                Ok(line) => {
                    lines.push(line);
                },
                Err(error) => {
                    proof {
                        assert(fails_first_at(proposition@, v as nat));
                        if proposition@.void_free() {
                            let list = proposition@.variable_list();
                            lemma_line_covers(proposition@, list, v as nat);
                            lemma_value_is_eval(proposition@, line_assignment(list, v as nat));
                        }
                    }
                    return Err(error);
                },
            }
            v += 1;
        }
        let table = TruthTable { header, lines };
        proof {
            assert(names(table.header@).len() == table.header.len());
            assert forall|i: int| 0 <= i < table.lines.len() implies (#[trigger] table.lines[i]).len()
                == table.header.len() by {
                assert(table_line(proposition@, proposition@.variable_list(), i as nat) == Ok::<
                    Seq<bool>,
                    Fault,
                >(table.lines[i as nat as int]@));
            }
            assert forall|line: int| 0 <= line < table.lines.len() implies #[trigger] table_line(
                proposition@,
                proposition@.variable_list(),
                line as nat,
            ) == Ok::<Seq<bool>, Fault>(table.lines[line]@) by {
                assert(table.lines[line as nat as int] == table.lines[line]);
            }
        }
        Ok(table)
    }
}

/// Whether the line with the number `line` is the first line of the truth
/// table of the formula that has no value.
pub open spec fn fails_first_at(formula: Formula, line: nat) -> bool {
    &&& line < pow2(formula.variable_list().len())
    &&& table_line(formula, formula.variable_list(), line) is Err
    &&& forall|earlier: nat|
        earlier < line ==> #[trigger] table_line(formula, formula.variable_list(), earlier) is Ok
}

/// Whether the table is the truth table of the formula: the header names
/// the variables in ascending order and then the formula, and there is a
/// line for each of the numbers below two to the power of the number of
/// variables.
pub open spec fn is_truth_table(table: TruthTable, formula: Formula) -> bool {
    &&& table.wf()
    &&& ascending(formula.variable_list())
    &&& lists(formula.variable_list(), formula.atoms())
    &&& formula.variable_list().len() <= MAX_VARIABLES
    &&& names(table.header@) == formula.variable_list().push(formula.render())
    &&& table.lines.len() == pow2(formula.variable_list().len())
    &&& forall|line: int|
        0 <= line < table.lines.len() ==> #[trigger] table_line(
            formula,
            formula.variable_list(),
            line as nat,
        ) == Ok::<Seq<bool>, Fault>(table.lines[line]@)
}

/// Two to the power of an exponent up to 16.
pub fn two_to_the(exponent: u32) -> (power: usize)
    requires
        exponent <= MAX_VARIABLES,
    ensures
        power == pow2(exponent as nat),
{
    let mut power: usize = 1;
    let mut i: u32 = 0;
    proof {
        lemma2_to64();
    }
    while i < exponent
        invariant
            i <= exponent,
            exponent <= MAX_VARIABLES,
            power == pow2(i as nat),
            power <= 65536,
        decreases exponent - i,
    {
        proof {
            lemma_pow2_unfold((i + 1) as nat);
            lemma2_to64();
            vstd::arithmetic::power2::lemma_pow2_strictly_increases(i as nat, 17);
        }
        power = power * 2;
        i += 1;
    }
    power
}

} // verus!
