use raa_tt::conjunction::Conjunction;
use raa_tt::implication::Implication;
use raa_tt::proposition::Proposition;
use raa_tt::prover::{pairwise, ProveResult, Prover};

fn atom(name: &str) -> Proposition {
    Proposition::atom(name)
}

#[test]
fn prover_test_pairwise() {
    let v = vec!['i', 'j', 'k', 'l'];
    let pairs = pairwise(&v);
    assert_eq!(
        vec![
            (&'i', &'j'),
            (&'i', &'k'),
            (&'i', &'l'),
            (&'j', &'k'),
            (&'j', &'l'),
            (&'k', &'l')
        ],
        pairs
    );
}

#[test]
fn solver_test_pairwise() {
    let v = vec!['i', 'j', 'k', 'l'];
    let pairs = pairwise(&v);
    assert_eq!(
        vec![
            (&'i', &'j'),
            (&'i', &'k'),
            (&'i', &'l'),
            (&'j', &'k'),
            (&'j', &'l'),
            (&'k', &'l')
        ],
        pairs
    );
}

#[test]
fn test_solve() {
    // Logically True - Modus Ponens
    // p & (p -> q) -> q
    let proposition = Proposition::Implication(Implication {
        left: Box::new(Proposition::Conjunction(Conjunction {
            left: Box::new("p".into()),
            right: Box::new(Proposition::Implication(Implication {
                left: Box::new("p".into()),
                right: Box::new("q".into()),
            })),
        })),
        right: Box::new("q".into()),
    });
    assert_eq!(
        ProveResult::Proven,
        Prover::new().prove(&proposition).unwrap()
    );
}

#[test]
fn a_name_converts_into_its_atom() {
    let converted: Proposition = "p1".into();
    assert_eq!(Proposition::Atom("p1".to_owned()), converted);
    assert_eq!(atom("p1"), Proposition::from("p1"));
}

#[test]
fn pairwise_of_short_slices_is_empty() {
    let none: Vec<u8> = Vec::new();
    assert!(pairwise(&none).is_empty());
    let one = vec![7u8];
    assert!(pairwise(&one).is_empty());
}

#[test]
fn excluded_middle_is_proven() {
    let p = Proposition::disjunction(atom("p"), Proposition::negation(atom("p")));
    assert_eq!(ProveResult::Proven, Prover::new().prove(&p).unwrap());
}

#[test]
fn contradiction_is_falsified() {
    let p = Proposition::conjunction(atom("p"), Proposition::negation(atom("p")));
    assert_eq!(ProveResult::Falsified, Prover::new().prove(&p).unwrap());
}

#[test]
fn atom_is_contingent() {
    assert_eq!(ProveResult::Contingent, Prover::new().prove(&atom("p")).unwrap());
}

#[test]
fn void_is_refused() {
    assert!(Prover::new().prove(&Proposition::Void).is_err());
    assert!(Prover::new().prove(&Proposition::default()).is_err());
}
