use raa_tt::proposition::Proposition;
use raa_tt::prover::{ProveResult, Prover};
use raa_tt::raa_tt_grammar::RaaTtGrammar;
use raa_tt::raa_tt_parser::parse;

pub const PROPOSITIONS: &[(&str, ProveResult)] = &[
    ("(p -> (!p & r))", ProveResult::Contingent),
    ("!p -> q", ProveResult::Contingent),
    ("p | q | !p", ProveResult::Proven),
    ("a -> b -> c -> d", ProveResult::Contingent),
    ("((p & q) -> p)", ProveResult::Proven),
    ("((p | q) -> (r -> p))", ProveResult::Contingent),
    ("p -> (q -> r | p)", ProveResult::Proven),
    ("p & q -> p", ProveResult::Proven),
    ("(p -> q) -> ((q -> r) -> (p -> r))", ProveResult::Proven),
    (
        "!((!p | !q) & (p <-> !r) -> !(q & r))",
        ProveResult::Contingent,
    ),
    ("p & q <-> !(p & q) | !q", ProveResult::Falsified),
    ("p & !p", ProveResult::Falsified),
    ("p | !p", ProveResult::Proven),
    (
        "(!p | !q) & (p <-> !r) -> !(q & r)",
        ProveResult::Contingent,
    ),
    ("!(p & q <-> !(p & q) | !q)", ProveResult::Proven),
    ("q & (p -> q) -> p", ProveResult::Contingent),
    ("p -> q -> (p & r -> p)", ProveResult::Proven),
    ("p & (!q -> !p) -> q", ProveResult::Proven),
    ("p & (p -> q) -> q", ProveResult::Proven),
    ("!q & (p -> q) -> !p", ProveResult::Proven),
    ("(p | q) & !p -> q", ProveResult::Proven),
    ("(p | q) & !q -> p", ProveResult::Proven),
    ("p -> (p | q)", ProveResult::Proven),
    ("p -> (q | p)", ProveResult::Proven),
    ("p & q -> p", ProveResult::Proven),
    ("p & q -> q", ProveResult::Proven),
    ("!!p -> p", ProveResult::Proven),
    ("((p -> q) & (q -> r)) -> (p -> r)", ProveResult::Proven),
    (
        "(p -> (q -> r)) -> ((p -> q) -> (p -> r))",
        ProveResult::Proven,
    ),
    (
        "((p -> q) & (r -> s) & (p | r)) -> q | s",
        ProveResult::Proven,
    ),
    (
        "(p -> q) & (r -> s) & (!q | !s) -> !p | !r",
        ProveResult::Proven,
    ),
    ("p -> p", ProveResult::Proven),
    ("!p -> (p -> q)", ProveResult::Proven),
    ("q -> (p -> q)", ProveResult::Proven),
    ("p & !p -> q", ProveResult::Proven),
    ("p -> (q | !q)", ProveResult::Proven),
];

fn decide(text: &str) -> ProveResult {
    let mut raa_tt_grammar = RaaTtGrammar::new();
    parse(text, "scenario", &mut raa_tt_grammar).unwrap();
    let read = raa_tt_grammar.raa_tt.unwrap();
    assert_eq!(1, read.raa_tt_list.len());
    Prover::new().prove(&read.raa_tt_list[0]).unwrap()
}

#[test]
fn compile_and_prove() {
    for (i, (p, r)) in PROPOSITIONS.iter().enumerate() {
        let mut raa_tt_grammar = RaaTtGrammar::new();
        let file_name = format!("example_{i}");
        parse(p, &file_name, &mut raa_tt_grammar).unwrap();
        assert_eq!(1, raa_tt_grammar.raa_tt.as_ref().unwrap().raa_tt_list.len());
        let proposition: Proposition =
            raa_tt_grammar.raa_tt.as_ref().unwrap().raa_tt_list[0].clone();
        let solver = Prover::new();
        let solve_result = solver.prove(&proposition).unwrap();
        assert_eq!(*r, solve_result);
    }
}

#[test]
fn scenario_self_implication() {
    assert_eq!(ProveResult::Proven, decide("p -> p"));
}

#[test]
fn scenario_contradiction() {
    assert_eq!(ProveResult::Falsified, decide("p & !p"));
}

#[test]
fn scenario_contingent_implication() {
    assert_eq!(ProveResult::Contingent, decide("(p -> (!p & r))"));
}

#[test]
fn scenario_disjunction_chain() {
    assert_eq!(ProveResult::Proven, decide("p | q | !p"));
}

#[test]
fn scenario_falsified_biconditional() {
    assert_eq!(ProveResult::Falsified, decide("p & q <-> !(p & q) | !q"));
}

#[test]
fn scenario_contingent_negation() {
    assert_eq!(
        ProveResult::Contingent,
        decide("!((!p | !q) & (p <-> !r) -> !(q & r))")
    );
}

#[test]
fn double_negation_is_decided_as_the_proposition() {
    for text in ["p", "p | !p", "p & !p", "p -> q", "(p <-> q) & r"] {
        let doubled = format!("!!({text})");
        assert_eq!(decide(text), decide(&doubled));
    }
}

#[test]
fn contradiction_excluded_middle_and_self_implication_of_composites() {
    for text in ["p", "p -> q", "!(a & b) <-> c", "x | (y & !z)"] {
        assert_eq!(
            ProveResult::Falsified,
            decide(&format!("({text}) & !({text})"))
        );
        assert_eq!(ProveResult::Proven, decide(&format!("({text}) | !({text})")));
        assert_eq!(ProveResult::Proven, decide(&format!("({text}) -> ({text})")));
    }
}

#[test]
fn deeply_nested_propositions_are_decided() {
    // Twelve negations around an atom, and a chain of twelve implications.
    let mut nested = Proposition::atom("p");
    for _ in 0..12 {
        nested = Proposition::negation(nested);
    }
    assert_eq!(ProveResult::Contingent, Prover::new().prove(&nested).unwrap());
    let mut chain = Proposition::atom("p");
    for _ in 0..12 {
        chain = Proposition::implication(Proposition::atom("p"), chain);
    }
    assert_eq!(ProveResult::Proven, Prover::new().prove(&chain).unwrap());
    let mut deep = String::from("p");
    for _ in 0..10 {
        deep = format!("(!({deep}) | q)");
    }
    let verdict = decide(&deep);
    assert!(matches!(
        verdict,
        ProveResult::Proven | ProveResult::Contingent | ProveResult::Falsified
    ));
}
