use raa_tt::errors::RaaError;
use raa_tt::proof_tree::{ProofTree, TransformationState};
use raa_tt::proposition::Proposition;
use raa_tt::prover::{
    append_chain, branch_is_contradictory, leaf_nodes, unclosed_leaf_nodes_of, ProveResult, Prover,
};

fn p(name: &str) -> Proposition {
    Proposition::atom(name)
}

fn not(inner: Proposition) -> Proposition {
    Proposition::negation(inner)
}

fn tree_of(proposition: &Proposition, negate: bool) -> ProofTree {
    Prover::new().init_proposition_tree(proposition, negate).unwrap()
}

fn states(tree: &ProofTree) -> Vec<TransformationState> {
    (0..tree.node_count()).map(|node| tree.state(node)).collect()
}

fn texts(tree: &ProofTree) -> Vec<String> {
    (0..tree.node_count()).map(|node| tree.proposition(node).to_text()).collect()
}

#[test]
fn a_fresh_tree_is_its_root() {
    let proposition = Proposition::implication(p("p"), p("q"));
    let plain = tree_of(&proposition, false);
    assert_eq!(0, plain.root);
    assert_eq!(1, plain.node_count());
    assert_eq!(proposition, *plain.proposition(0));
    assert_eq!(TransformationState::Unprocessed, plain.state(0));
    assert!(plain.is_leaf(0));
    let negated = tree_of(&proposition, true);
    assert_eq!(not(proposition), *negated.proposition(0));
}

#[test]
fn the_placeholder_makes_no_tree() {
    assert!(matches!(
        Prover::new().init_proposition_tree(&Proposition::Void, true),
        Err(RaaError::VoidExpression)
    ));
    assert!(matches!(
        Prover::new().init_proposition_tree(&Proposition::Void, false),
        Err(RaaError::VoidExpression)
    ));
}

#[test]
fn chains_hang_below_their_parent() {
    let mut tree = tree_of(&p("r"), false);
    append_chain(&mut tree, 0, &vec![p("a"), p("b")]);
    append_chain(&mut tree, 0, &vec![p("c")]);
    append_chain(&mut tree, 2, &vec![]);
    assert_eq!(vec!["r", "a", "b", "c"], texts(&tree));
    assert_eq!(vec![2, 3], leaf_nodes(&tree));
    let prover = Prover::new();
    assert_eq!(vec![0], prover.ancestors(&tree, 0));
    assert_eq!(vec![0, 1], prover.ancestors(&tree, 1));
    assert_eq!(vec![0, 1, 2], prover.ancestors(&tree, 2));
    assert_eq!(vec![0, 3], prover.ancestors(&tree, 3));
    assert!(!tree.is_leaf(0) && !tree.is_leaf(1) && tree.is_leaf(2) && tree.is_leaf(3));
}

#[test]
fn open_leaves_below_a_node() {
    let mut tree = tree_of(&p("r"), false);
    append_chain(&mut tree, 0, &vec![p("a"), not(p("a"))]);
    append_chain(&mut tree, 0, &vec![p("c")]);
    append_chain(&mut tree, 3, &vec![p("d")]);
    append_chain(&mut tree, 3, &vec![p("e")]);
    let mut below_root = unclosed_leaf_nodes_of(&tree, 0);
    below_root.sort();
    assert_eq!(vec![2, 4, 5], below_root);
    let mut below_c = unclosed_leaf_nodes_of(&tree, 3);
    below_c.sort();
    assert_eq!(vec![4, 5], below_c);
    assert_eq!(vec![4], unclosed_leaf_nodes_of(&tree, 4));
    Prover::new().update_branches_closed_state(&mut tree);
    assert_eq!(TransformationState::Closed, tree.state(2));
    let mut open = unclosed_leaf_nodes_of(&tree, 0);
    open.sort();
    assert_eq!(vec![4, 5], open);
    assert!(unclosed_leaf_nodes_of(&tree, 1).is_empty());
}

#[test]
fn a_branch_is_contradictory_wherever_the_pair_stands() {
    let mut tree = tree_of(&not(p("a")), false);
    append_chain(&mut tree, 0, &vec![p("b"), p("c"), p("a")]);
    append_chain(&mut tree, 1, &vec![not(not(p("a")))]);
    append_chain(&mut tree, 1, &vec![p("d")]);
    let prover = Prover::new();
    let closes = |leaf: usize| branch_is_contradictory(&tree, &prover.ancestors(&tree, leaf), leaf);
    assert!(closes(3));
    assert!(closes(4));
    assert!(!closes(5));
    assert!(!closes(0));
}

#[test]
fn only_leaves_are_closed() {
    let mut tree = tree_of(&p("a"), false);
    append_chain(&mut tree, 0, &vec![not(p("a")), p("b")]);
    append_chain(&mut tree, 0, &vec![p("c")]);
    let prover = Prover::new();
    prover.update_branches_closed_state(&mut tree);
    assert_eq!(
        vec![
            TransformationState::Unprocessed,
            TransformationState::Unprocessed,
            TransformationState::Closed,
            TransformationState::Unprocessed,
        ],
        states(&tree)
    );
    assert_eq!(ProveResult::Processing, prover.check_all_branches_closed(&tree, true, true));
    assert_eq!(ProveResult::Contingent, prover.check_all_branches_closed(&tree, false, true));
}

#[test]
fn closed_trees_are_read_by_the_polarity() {
    let mut tree = tree_of(&p("a"), false);
    append_chain(&mut tree, 0, &vec![not(p("a"))]);
    let prover = Prover::new();
    prover.update_branches_closed_state(&mut tree);
    assert_eq!(ProveResult::Proven, prover.check_all_branches_closed(&tree, true, true));
    assert_eq!(ProveResult::Falsified, prover.check_all_branches_closed(&tree, true, false));
    assert_eq!(ProveResult::Falsified, prover.check_all_branches_closed(&tree, false, false));
}

#[test]
fn the_node_created_first_is_processed_first() {
    let prover = Prover::new();
    let mut tree = tree_of(&Proposition::conjunction(p("a"), Proposition::disjunction(p("b"), p("c"))), false);
    assert_eq!(Some(0), prover.find_unprocessed_node(&tree));
    assert_eq!(ProveResult::Processing, prover.inner_prove(&mut tree, false).unwrap());
    assert_eq!(vec!["(a & (b | c))", "a", "(b | c)"], texts(&tree));
    assert_eq!(TransformationState::Transformed, tree.state(0));
    assert_eq!(Some(1), prover.find_unprocessed_node(&tree));
    assert_eq!(ProveResult::Processing, prover.inner_prove(&mut tree, false).unwrap());
    assert_eq!(3, tree.node_count());
    assert_eq!(Some(2), prover.find_unprocessed_node(&tree));
    assert_eq!(ProveResult::Processing, prover.inner_prove(&mut tree, false).unwrap());
    assert_eq!(vec!["(a & (b | c))", "a", "(b | c)", "b", "c"], texts(&tree));
    assert_eq!(vec![0, 1, 2], prover.ancestors(&tree, 2));
    assert_eq!(vec![0, 1, 2, 3], prover.ancestors(&tree, 3));
    assert_eq!(vec![0, 1, 2, 4], prover.ancestors(&tree, 4));
    assert_eq!(ProveResult::Processing, prover.inner_prove(&mut tree, false).unwrap());
    assert_eq!(ProveResult::Processing, prover.inner_prove(&mut tree, false).unwrap());
    assert_eq!(None, prover.find_unprocessed_node(&tree));
    assert_eq!(ProveResult::Contingent, prover.inner_prove(&mut tree, false).unwrap());
    assert_eq!(5, tree.node_count());
}

#[test]
fn a_decomposition_goes_below_every_open_leaf() {
    let prover = Prover::new();
    // (a | b) & (c | d): the second disjunction is appended below both
    // branches of the first.
    let proposition = Proposition::conjunction(
        Proposition::disjunction(p("a"), p("b")),
        Proposition::disjunction(p("c"), p("d")),
    );
    let mut tree = tree_of(&proposition, false);
    for _ in 0..3 {
        assert_eq!(ProveResult::Processing, prover.inner_prove(&mut tree, false).unwrap());
    }
    assert_eq!(9, tree.node_count());
    let mut leaves: Vec<String> = leaf_nodes(&tree)
        .iter()
        .map(|leaf| {
            prover
                .ancestors(&tree, *leaf)
                .iter()
                .skip(3)
                .map(|node| tree.proposition(*node).to_text())
                .collect::<Vec<String>>()
                .join(",")
        })
        .collect();
    leaves.sort();
    assert_eq!(vec!["a,c", "a,d", "b,c", "b,d"], leaves);
}

#[test]
fn one_run_tells_refuted_from_not_refuted() {
    let prover = Prover::new();
    let tautology = Proposition::disjunction(p("p"), not(p("p")));
    assert_eq!(ProveResult::Proven, prover.try_prove(&tautology, true).unwrap());
    assert_eq!(ProveResult::Contingent, prover.try_prove(&tautology, false).unwrap());
    let contradiction = Proposition::conjunction(p("p"), not(p("p")));
    assert_eq!(ProveResult::Contingent, prover.try_prove(&contradiction, true).unwrap());
    assert_eq!(ProveResult::Falsified, prover.try_prove(&contradiction, false).unwrap());
    assert!(prover.try_prove(&Proposition::Void, true).is_err());
}

#[test]
fn a_placeholder_that_is_never_met_is_no_error() {
    // The negation is not refuted, and the proposition is refuted before
    // the placeholder is decomposed.
    let proposition = Proposition::conjunction(
        Proposition::conjunction(p("p"), not(p("p"))),
        Proposition::Void,
    );
    assert_eq!(ProveResult::Falsified, Prover::new().prove(&proposition).unwrap());
}
