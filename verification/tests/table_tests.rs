use raa_tt::errors::RaaError;
use raa_tt::proposition::Proposition;
use raa_tt::prover::{ProveResult, Prover};
use raa_tt::table_generator::{find_value, two_to_the, TableGenerator};
use raa_tt::truth_table::TruthTable;
use raa_tt::variables::{insert_name, name_precedes};

fn p(name: &str) -> Proposition {
    Proposition::atom(name)
}

fn not(inner: Proposition) -> Proposition {
    Proposition::negation(inner)
}

fn conjunction_of(names: &[&str]) -> Proposition {
    let mut all = p(names[0]);
    for name in &names[1..] {
        all = Proposition::conjunction(all, p(name));
    }
    all
}

fn assignment(pairs: &[(&str, bool)]) -> Vec<(String, bool)> {
    pairs.iter().map(|(name, value)| (name.to_string(), *value)).collect()
}

const T: bool = true;
const F: bool = false;

#[test]
fn names_are_ordered_by_their_characters() {
    assert!(name_precedes("a", "b"));
    assert!(!name_precedes("b", "a"));
    assert!(!name_precedes("a", "a"));
    assert!(name_precedes("a", "ab"));
    assert!(!name_precedes("ab", "a"));
    assert!(name_precedes("", "a"));
    assert!(!name_precedes("", ""));
    assert!(name_precedes("Z", "a"));
    assert!(name_precedes("a9", "a_"));
    assert!(name_precedes("abc", "abd"));
    assert!(name_precedes("z", "\u{e9}"));
}

#[test]
fn names_are_inserted_at_their_place() {
    let mut list: Vec<String> = Vec::new();
    for name in ["m", "a", "z", "m", "ab", "a"] {
        insert_name(&mut list, &name.to_string());
    }
    assert_eq!(vec!["a", "ab", "m", "z"], list);
}

#[test]
fn variables_are_listed_once_and_in_order() {
    let proposition = Proposition::implication(
        Proposition::conjunction(p("q"), not(p("p"))),
        Proposition::bi_implication(
            Proposition::disjunction(p("r"), p("q")),
            Proposition::disjunction(p("ab"), Proposition::Void),
        ),
    );
    assert_eq!(vec!["ab", "p", "q", "r"], proposition.get_variables());
    assert!(Proposition::Void.get_variables().is_empty());
    assert_eq!(vec!["x"], p("x").get_variables());
}

#[test]
fn inner_get_variables_adds_to_the_list() {
    let mut list = vec!["b".to_string(), "d".to_string()];
    Proposition::conjunction(p("c"), p("a")).inner_get_variables(&mut list);
    assert_eq!(vec!["a", "b", "c", "d"], list);
}

#[test]
fn the_first_entry_of_a_name_gives_its_value() {
    let vars = assignment(&[("p", T), ("q", F), ("p", F)]);
    assert_eq!(Some(T), find_value(&vars, &"p".to_string()));
    assert_eq!(Some(F), find_value(&vars, &"q".to_string()));
    assert_eq!(None, find_value(&vars, &"r".to_string()));
}

#[test]
fn values_of_the_connectives() {
    for (a, b) in [(F, F), (F, T), (T, F), (T, T)] {
        let vars = assignment(&[("a", a), ("b", b)]);
        let value = |proposition: Proposition| proposition.calculate_value(&vars).unwrap();
        assert_eq!(a, value(p("a")));
        assert_eq!(!a, value(not(p("a"))));
        assert_eq!(a && b, value(Proposition::conjunction(p("a"), p("b"))));
        assert_eq!(a || b, value(Proposition::disjunction(p("a"), p("b"))));
        assert_eq!(!a || b, value(Proposition::implication(p("a"), p("b"))));
        assert_eq!(a == b, value(Proposition::bi_implication(p("a"), p("b"))));
    }
}

#[test]
fn the_placeholder_has_no_value() {
    let vars = assignment(&[("p", T)]);
    assert!(matches!(
        Proposition::Void.calculate_value(&vars),
        Err(RaaError::VoidExpression)
    ));
    assert!(matches!(
        Proposition::conjunction(p("p"), Proposition::Void).calculate_value(&vars),
        Err(RaaError::VoidExpression)
    ));
}

#[test]
fn a_variable_without_a_value_is_reported() {
    let vars = assignment(&[("p", T)]);
    match Proposition::conjunction(p("p"), p("q")).calculate_value(&vars) {
        Err(RaaError::UndefinedVariable { name }) => assert_eq!("q", name),
        other => panic!("unexpected: {other:?}"),
    }
    match Proposition::bi_implication(p("r"), Proposition::Void).calculate_value(&vars) {
        Err(RaaError::UndefinedVariable { name }) => assert_eq!("r", name),
        other => panic!("unexpected: {other:?}"),
    }
}

#[test]
fn the_right_operand_is_calculated_only_where_it_matters() {
    let yes = assignment(&[("p", T)]);
    let no = assignment(&[("p", F)]);
    assert_eq!(T, Proposition::disjunction(p("p"), p("q")).calculate_value(&yes).unwrap());
    assert_eq!(F, Proposition::conjunction(p("p"), p("q")).calculate_value(&no).unwrap());
    assert_eq!(T, Proposition::implication(p("p"), Proposition::Void).calculate_value(&no).unwrap());
    assert!(Proposition::disjunction(p("p"), p("q")).calculate_value(&no).is_err());
    assert!(Proposition::conjunction(p("p"), p("q")).calculate_value(&yes).is_err());
    assert!(Proposition::implication(p("p"), Proposition::Void).calculate_value(&yes).is_err());
    assert!(Proposition::bi_implication(p("p"), p("q")).calculate_value(&yes).is_err());
}

#[test]
fn powers_of_two() {
    assert_eq!(1, two_to_the(0));
    assert_eq!(2, two_to_the(1));
    assert_eq!(1024, two_to_the(10));
    assert_eq!(65536, two_to_the(16));
}

#[test]
fn header_names_the_variables_and_the_proposition() {
    let proposition = Proposition::implication(p("q"), p("p"));
    let vars = proposition.get_variables();
    let generator = TableGenerator::new();
    assert_eq!(2, generator.number_of_vars(&vars));
    assert_eq!(
        vec!["p", "q", "(q -> p)"],
        generator.generate_table_header(&vars, &proposition)
    );
}

#[test]
fn a_line_holds_the_bits_and_the_value() {
    let proposition = Proposition::conjunction(p("a"), Proposition::disjunction(p("b"), p("c")));
    let vars = proposition.get_variables();
    let generator = TableGenerator::default();
    let line = |v: usize| generator.generate_table_line(v, &proposition, &vars).unwrap();
    assert_eq!(vec![F, F, F, F], line(0));
    assert_eq!(vec![F, F, T, F], line(1));
    assert_eq!(vec![F, T, T, F], line(3));
    assert_eq!(vec![T, F, F, F], line(4));
    assert_eq!(vec![T, F, T, T], line(5));
    assert_eq!(vec![T, T, F, T], line(6));
    assert_eq!(vec![T, T, T, T], line(7));
    // Bits beyond those of the variables do not count.
    assert_eq!(vec![F, F, T, F], line(9));
}

#[test]
fn truth_table_of_an_implication() {
    let proposition = Proposition::implication(p("p"), p("q"));
    let table = TableGenerator::new().generate_truth_table(&proposition).unwrap();
    assert_eq!(vec!["p", "q", "(p -> q)"], table.header);
    assert_eq!(
        vec![
            vec![F, F, T],
            vec![F, T, T],
            vec![T, F, F],
            vec![T, T, T],
        ],
        table.lines
    );
}

#[test]
fn truth_table_without_variables() {
    let table = TableGenerator::new()
        .generate_truth_table(&Proposition::implication(p("p"), p("p")))
        .unwrap();
    assert_eq!(vec![vec![F, T], vec![T, T]], table.lines);
}

#[test]
fn truth_table_as_text() {
    let proposition = Proposition::implication(p("p"), p("q1"));
    let table = TableGenerator::new().generate_truth_table(&proposition).unwrap();
    let expected = "p | q1 | (p -> q1) | \n\
                    ---------------------\n\
                    F | F  | T         | \n\
                    F | T  | T         | \n\
                    T | F  | F         | \n\
                    T | T  | T         | \n";
    assert_eq!(expected, table.to_text());
}

#[test]
fn text_of_an_empty_table() {
    let table = TruthTable { header: Vec::new(), lines: vec![Vec::new()] };
    assert_eq!("\n\n\n", table.to_text());
    let wide = TruthTable { header: vec![String::new()], lines: vec![vec![T]] };
    assert_eq!(" | \n---\nT | \n", wide.to_text());
}

#[test]
fn sixteen_variables_are_the_most() {
    let names = [
        "a", "b", "c", "d", "e", "f", "g", "h", "i", "j", "k", "l", "m", "n", "o", "p", "q",
    ];
    let seventeen = conjunction_of(&names);
    assert!(matches!(
        TableGenerator::new().generate_truth_table(&seventeen),
        Err(RaaError::TooManyVariables)
    ));
    let sixteen = conjunction_of(&names[..16]);
    let table = TableGenerator::new().generate_truth_table(&sixteen).unwrap();
    assert_eq!(17, table.header.len());
    assert_eq!(65536, table.lines.len());
    assert_eq!(vec![F; 17], table.lines[0]);
    assert_eq!(vec![T; 17], table.lines[65535]);
    assert!(!table.lines[65534][16]);
}

#[test]
fn a_placeholder_that_is_met_ends_the_table() {
    let met = Proposition::disjunction(p("p"), Proposition::Void);
    assert!(matches!(
        TableGenerator::new().generate_truth_table(&met),
        Err(RaaError::VoidExpression)
    ));
    let never_met = Proposition::conjunction(
        Proposition::conjunction(p("p"), not(p("p"))),
        Proposition::Void,
    );
    let table = TableGenerator::new().generate_truth_table(&never_met).unwrap();
    assert_eq!(vec![vec![F, F], vec![T, F]], table.lines);
}

#[test]
fn prover_and_truth_table_agree() {
    let a = || p("a");
    let b = || p("b");
    let c = || p("c");
    let propositions = vec![
        Proposition::implication(Proposition::conjunction(a(), Proposition::implication(a(), b())), b()),
        Proposition::conjunction(a(), not(a())),
        Proposition::bi_implication(a(), Proposition::disjunction(b(), not(c()))),
        Proposition::bi_implication(
            Proposition::conjunction(a(), b()),
            Proposition::disjunction(not(Proposition::conjunction(a(), b())), not(b())),
        ),
        not(Proposition::implication(
            Proposition::implication(a(), Proposition::implication(b(), c())),
            Proposition::implication(
                Proposition::implication(a(), b()),
                Proposition::implication(a(), c()),
            ),
        )),
        Proposition::disjunction(Proposition::implication(a(), b()), Proposition::implication(b(), a())),
    ];
    for proposition in propositions {
        let table = TableGenerator::new().generate_truth_table(&proposition).unwrap();
        let all_true = table.lines.iter().all(|line| *line.last().unwrap());
        let all_false = table.lines.iter().all(|line| !*line.last().unwrap());
        let expected = if all_true {
            ProveResult::Proven
        } else if all_false {
            ProveResult::Falsified
        } else {
            ProveResult::Contingent
        };
        assert_eq!(expected, Prover::new().prove(&proposition).unwrap());
    }
}
