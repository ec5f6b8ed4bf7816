use raa_tt::bi_implication::BiImplication;
use raa_tt::conjunction::Conjunction;
use raa_tt::disjunction::Disjunction;
use raa_tt::errors::RaaError;
use raa_tt::implication::Implication;
use raa_tt::negation::Negation;
use raa_tt::proof_tree::TransformationState;
use raa_tt::proposition::Proposition;
use raa_tt::prover::{is_complementary, transform, ProveResult, Prover};

fn p(name: &str) -> Proposition {
    Proposition::atom(name)
}

fn not(inner: Proposition) -> Proposition {
    Proposition::negation(inner)
}

fn lists(proposition: &Proposition) -> (Vec<Proposition>, Vec<Proposition>) {
    transform(proposition).unwrap()
}

#[test]
fn propositions_are_built_from_the_structs() {
    let by_hand = Proposition::Implication(Implication {
        left: Box::new(Proposition::Conjunction(Conjunction {
            left: Box::new(Proposition::Atom("p".to_owned())),
            right: Box::new(Proposition::Negation(Negation {
                inner: Box::new(Proposition::Atom("q".to_owned())),
            })),
        })),
        right: Box::new(Proposition::BiImplication(BiImplication {
            left: Box::new(Proposition::Atom("r".to_owned())),
            right: Box::new(Proposition::Disjunction(Disjunction {
                left: Box::new(Proposition::Atom("s".to_owned())),
                right: Box::new(Proposition::Void),
            })),
        })),
    });
    let built = Proposition::implication(
        Proposition::conjunction(p("p"), not(p("q"))),
        Proposition::bi_implication(p("r"), Proposition::disjunction(p("s"), Proposition::Void)),
    );
    assert_eq!(by_hand, built);
    assert!(by_hand.same(&built));
}

#[test]
fn equality_is_structural() {
    assert_eq!(p("p"), p("p"));
    assert_ne!(p("p"), p("q"));
    assert_ne!(p("p"), not(p("p")));
    assert_ne!(
        Proposition::conjunction(p("a"), p("b")),
        Proposition::conjunction(p("b"), p("a"))
    );
    assert_ne!(
        Proposition::conjunction(p("a"), p("b")),
        Proposition::disjunction(p("a"), p("b"))
    );
    assert_ne!(Proposition::Void, p(""));
    assert_eq!(Proposition::Void, Proposition::default());
}

#[test]
fn structs_compare_and_have_defaults() {
    let a = || Box::new(p("a"));
    let b = || Box::new(p("b"));
    assert_eq!(Negation { inner: a() }, Negation { inner: a() });
    assert_ne!(Negation { inner: a() }, Negation { inner: b() });
    assert_eq!(
        Conjunction { left: a(), right: b() },
        Conjunction { left: a(), right: b() }.clone()
    );
    assert_ne!(
        Disjunction { left: a(), right: b() },
        Disjunction { left: b(), right: a() }
    );
    assert_eq!(
        Implication { left: a(), right: b() },
        Implication { left: a(), right: b() }
    );
    assert_ne!(
        BiImplication { left: a(), right: b() },
        BiImplication { left: a(), right: a() }
    );
    assert_eq!(Proposition::Void, *Negation::default().inner);
    assert_eq!(Proposition::Void, *Conjunction::default().left);
    assert_eq!(Proposition::Void, *Disjunction::default().right);
    assert_eq!(Proposition::Void, *Implication::default().left);
    assert_eq!(Proposition::Void, *BiImplication::default().right);
}

#[test]
fn marks_of_the_states() {
    assert_eq!("?", TransformationState::Unprocessed.to_text());
    assert_eq!("\u{2713}", TransformationState::Transformed.to_text());
    assert_eq!("\u{2716}", TransformationState::Closed.to_text());
}

#[test]
fn clones_are_equal() {
    let first = Proposition::bi_implication(not(p("a")), Proposition::implication(p("b"), p("c")));
    assert_eq!(first, first.clone());
}

#[test]
fn rendering_of_each_connective() {
    assert_eq!("p", p("p").to_text());
    assert_eq!("()", Proposition::Void.to_text());
    assert_eq!("!p", not(p("p")).to_text());
    assert_eq!("(p & q)", Proposition::conjunction(p("p"), p("q")).to_text());
    assert_eq!("(p | q)", Proposition::disjunction(p("p"), p("q")).to_text());
    assert_eq!("(p -> q)", Proposition::implication(p("p"), p("q")).to_text());
    assert_eq!("(p <-> q)", Proposition::bi_implication(p("p"), p("q")).to_text());
    assert_eq!(
        "!((p & !q) -> (r <-> s))",
        not(Proposition::implication(
            Proposition::conjunction(p("p"), not(p("q"))),
            Proposition::bi_implication(p("r"), p("s"))
        ))
        .to_text()
    );
}

#[test]
fn rendering_of_the_structs() {
    let a = || Box::new(p("a"));
    let b = || Box::new(p("b"));
    assert_eq!("!a", Negation { inner: a() }.to_text());
    assert_eq!("(a & b)", Conjunction { left: a(), right: b() }.to_text());
    assert_eq!("(a | b)", Disjunction { left: a(), right: b() }.to_text());
    assert_eq!("(a -> b)", Implication { left: a(), right: b() }.to_text());
    assert_eq!("(a <-> b)", BiImplication { left: a(), right: b() }.to_text());
}

#[test]
fn atoms_are_not_decomposed() {
    let (left, right) = lists(&p("p"));
    assert!(left.is_empty() && right.is_empty());
    let (left, right) = lists(&not(p("p")));
    assert!(left.is_empty() && right.is_empty());
    let (left, right) = lists(&not(Proposition::Void));
    assert!(left.is_empty() && right.is_empty());
}

#[test]
fn the_placeholder_cannot_be_decomposed() {
    assert!(matches!(
        transform(&Proposition::Void),
        Err(RaaError::VoidExpression)
    ));
}

#[test]
fn decomposition_of_negated_connectives() {
    let a = || p("a");
    let b = || p("b");
    assert_eq!((vec![a()], vec![]), lists(&not(not(a()))));
    assert_eq!(
        (vec![a(), not(b())], vec![not(a()), b()]),
        lists(&not(Proposition::bi_implication(a(), b())))
    );
    assert_eq!(
        (vec![a(), not(b())], vec![]),
        lists(&not(Proposition::implication(a(), b())))
    );
    assert_eq!(
        (vec![not(a()), not(b())], vec![]),
        lists(&not(Proposition::disjunction(a(), b())))
    );
    assert_eq!(
        (vec![not(a())], vec![not(b())]),
        lists(&not(Proposition::conjunction(a(), b())))
    );
}

#[test]
fn decomposition_of_connectives() {
    let a = || p("a");
    let b = || p("b");
    assert_eq!(
        (vec![not(a())], vec![b()]),
        lists(&Proposition::implication(a(), b()))
    );
    assert_eq!(
        (vec![a(), b()], vec![not(a()), not(b())]),
        lists(&Proposition::bi_implication(a(), b()))
    );
    assert_eq!(
        (vec![a()], vec![b()]),
        lists(&Proposition::disjunction(a(), b()))
    );
    assert_eq!(
        (vec![a(), b()], vec![]),
        lists(&Proposition::conjunction(a(), b()))
    );
}

#[test]
fn complementary_pairs_are_found_in_either_order() {
    let a = Proposition::conjunction(p("a"), p("b"));
    let negated = not(a.clone());
    assert!(is_complementary(&a, &negated));
    assert!(is_complementary(&negated, &a));
    assert!(is_complementary(&negated, &not(negated.clone())));
    assert!(!is_complementary(&a, &a));
    assert!(!is_complementary(&a, &not(p("a"))));
    assert!(!is_complementary(&not(p("a")), &not(p("a"))));
}

#[test]
fn defaults() {
    assert_eq!(ProveResult::Undefined, ProveResult::default());
    assert_eq!(TransformationState::Unprocessed, TransformationState::default());
}

#[test]
fn outcomes_in_words() {
    assert_eq!("Undefined", ProveResult::Undefined.to_text());
    assert_eq!("Processing", ProveResult::Processing.to_text());
    assert_eq!("Logically True", ProveResult::Proven.to_text());
    assert_eq!("Contingent", ProveResult::Contingent.to_text());
    assert_eq!("Logically False", ProveResult::Falsified.to_text());
}

#[test]
fn error_messages() {
    assert_eq!(
        "Tried to use a void expression (internal error)",
        RaaError::VoidExpression.message()
    );
    assert_eq!(
        "Too many variables for truth table generation",
        RaaError::TooManyVariables.message()
    );
    assert_eq!(
        "Variable x1 not defined",
        RaaError::UndefinedVariable { name: "x1".to_owned() }.message()
    );
}

#[test]
fn a_placeholder_below_the_root_is_an_error_when_it_is_met() {
    // p & () is decomposed into p and (), and () cannot be decomposed.
    let with_void = Proposition::conjunction(p("p"), Proposition::Void);
    assert!(matches!(
        Prover::new().prove(&with_void),
        Err(RaaError::VoidExpression)
    ));
}
