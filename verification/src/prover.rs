use crate::errors::RaaError;
use crate::proof_tree::{
    add_edge, add_node, indices, is_simple_path, new_graph, post_order_from, set_node_state,
    simple_paths, ProofTree, TransformationState,
};
use crate::proposition::{Formula, Proposition};
use crate::semantics::{lemma_decompose_shape, total_weight, Valuation};
use crate::tableau::Tableau;
use vstd::prelude::*;

verus! {

/// The outcome of the decision procedure for a proposition.
#[derive(Debug, Clone, Copy, PartialEq, Eq, Structural)]
pub enum ProveResult {
    /// No outcome; the default.
    Undefined,
    /// The procedure has not come to an end yet.
    Processing,
    /// A tautology: true whatever the values of its variables.
    Proven,
    /// True under some values of its variables and false under others.
    Contingent,
    /// A contradiction: false whatever the values of its variables.
    Falsified,
}

impl Default for ProveResult {
    fn default() -> (result: Self)
        ensures
            result == ProveResult::Undefined,
    {
        ProveResult::Undefined
    }
}

impl ProveResult {
    /// The outcome in words.
    pub fn to_text(&self) -> (text: String)
        ensures
            text@ == self.spec_text(),
    {
        match self {
            ProveResult::Undefined => String::from_str("Undefined"),
            ProveResult::Processing => String::from_str("Processing"),
            ProveResult::Proven => String::from_str("Logically True"),
            ProveResult::Contingent => String::from_str("Contingent"),
            ProveResult::Falsified => String::from_str("Logically False"),
        }
    }

    /// The text of [`ProveResult::to_text`].
    pub open spec fn spec_text(&self) -> Seq<char> {
        match self {
            ProveResult::Undefined => "Undefined"@,
            ProveResult::Processing => "Processing"@,
            ProveResult::Proven => "Logically True"@,
            ProveResult::Contingent => "Contingent"@,
            ProveResult::Falsified => "Logically False"@,
        }
    }
}

/// The formulas of a list of propositions.
pub open spec fn formulas(propositions: Seq<Proposition>) -> Seq<Formula> {
    Seq::new(propositions.len(), |i: int| propositions[i]@)
}

/// All pairs of elements of a sequence in which the first stands before the
/// second, starting with the row `from`: row by row, each row in the order
/// of the second element.
pub open spec fn pairs_from<T>(s: Seq<T>, from: int) -> Seq<(T, T)>
    decreases s.len() - from,
{
    if 0 <= from < s.len() {
        pair_row(s, from) + pairs_from(s, from + 1)
    } else {
        Seq::empty()
    }
}

/// The pairs of the element at `row` with each element behind it.
pub open spec fn pair_row<T>(s: Seq<T>, row: int) -> Seq<(T, T)> {
    Seq::new((s.len() - row - 1) as nat, |k: int| (s[row], s[row + 1 + k]))
}

/// All pairs of elements of a sequence in which the first stands before the
/// second.
pub open spec fn pairs<T>(s: Seq<T>) -> Seq<(T, T)> {
    pairs_from(s, 0)
}

/// The pairs that a vector of pairs of references refers to.
pub open spec fn referents<T>(pairs: Seq<(&T, &T)>) -> Seq<(T, T)> {
    Seq::new(pairs.len(), |k: int| (*pairs[k].0, *pairs[k].1))
}

/// Whether the pair joins an element of the sequence, at `from` or behind
/// it, with a later element.
pub open spec fn joins_later<T>(s: Seq<T>, from: int, pair: (T, T)) -> bool {
    exists|i: int, j: int| from <= i < j < s.len() && pair == (#[trigger] s[i], #[trigger] s[j])
}

/// Every pair of `pairs_from` joins an element with a later one, and every
/// such join from row `from` on is among them.
pub proof fn lemma_pairs_from<T>(s: Seq<T>, from: int)
    requires
        0 <= from,
    ensures
        forall|k: int|
            0 <= k < pairs_from(s, from).len() ==> joins_later(
                s,
                from,
                #[trigger] pairs_from(s, from)[k],
            ),
        forall|i: int, j: int|
            from <= i < j < s.len() ==> pairs_from(s, from).contains((#[trigger] s[i], #[trigger] s[j])),
    decreases s.len() - from,
{
    if from < s.len() {
        lemma_pairs_from(s, from + 1);
        let row = pair_row(s, from);
        let rest = pairs_from(s, from + 1);
        let all = pairs_from(s, from);
        assert(all == row + rest);
        assert forall|k: int| 0 <= k < all.len() implies joins_later(s, from, #[trigger] all[k]) by {
            if k < row.len() {
                assert(all[k] == (s[from], s[from + 1 + k]));
            } else {
                assert(all[k] == rest[k - row.len()]);
                assert(joins_later(s, from + 1, rest[k - row.len()]));
                let (i, j) = choose|i: int, j: int|
                    from + 1 <= i < j < s.len() && rest[k - row.len()] == (
                        #[trigger] s[i],
                        #[trigger] s[j],
                    );
                assert(all[k] == (s[i], s[j]));
            }
        }
        assert forall|i: int, j: int| from <= i < j < s.len() implies all.contains(
            (#[trigger] s[i], #[trigger] s[j]),
        ) by {
            if i == from {
                assert(all[j - from - 1] == (s[i], s[j]));
            } else {
                assert(rest.contains((s[i], s[j])));
                let k = choose|k: int| 0 <= k < rest.len() && rest[k] == (s[i], s[j]);
                assert(all[row.len() + k] == (s[i], s[j]));
            }
        }
    }
}

/// Generates the pairs of elements of a slice in which the first stands
/// before the second.
pub fn pairwise<T>(v: &[T]) -> (result: Vec<(&T, &T)>)
    ensures
        referents(result@) == pairs(v@),
{
    let mut result: Vec<(&T, &T)> = Vec::with_capacity(v.len());
    let n: usize = v.len();
    let mut i: usize = 0;
    while i < n
        invariant
            i <= n,
            n == v@.len(),
            referents(result@) + pairs_from(v@, i as int) == pairs(v@),
        decreases n - i,
    {
        let ghost before = referents(result@);
        let mut j: usize = i + 1;
        while j < n
            invariant
                i < j <= n,
                n == v@.len(),
                referents(result@) == before + pair_row(v@, i as int).take(j - i - 1),
            decreases n - j,
        {
            let ghost previous = referents(result@);
            result.push((&v[i], &v[j]));
            proof {
                let row = pair_row(v@, i as int);
                assert(referents(result@) =~= previous.push((v@[i as int], v@[j as int])));
                assert(row.take(j - i) =~= row.take(j - i - 1).push(row[j - i - 1]));
                assert(referents(result@) =~= before + row.take(j - i));
            }
            j += 1;
        }
        proof {
            let row = pair_row(v@, i as int);
            assert(row.take(row.len() as int) =~= row);
            assert((before + row) + pairs_from(v@, i + 1) =~= before + (row + pairs_from(
                v@,
                i + 1,
            )));
        }
        i += 1;
    }
    proof {
        assert(referents(result@) + Seq::<(T, T)>::empty() =~= referents(result@));
    }
    result
}

/// Whether one of the two formulas is the negation of the other.
pub open spec fn complementary(a: Formula, b: Formula) -> bool {
    a == b.not() || b == a.not()
}

/// Decides whether one of the two propositions is the negation of the other.
pub fn is_complementary(a: &Proposition, b: &Proposition) -> (complement: bool)
    ensures
        complement == complementary(a@, b@),
{
    let first = match a {
        Proposition::Negation(n) => n.inner.same(b),
        _ => false,
    };
    let second = match b {
        Proposition::Negation(n) => n.inner.same(a),
        _ => false,
    };
    first || second
}

/// The decomposition rules of the tableau method: what a proposition adds
/// to a branch (first list) and to a second branch that forks off (second
/// list). The placeholder cannot be decomposed.
pub fn transform(proposition: &Proposition) -> (result: Result<
    (Vec<Proposition>, Vec<Proposition>),
    RaaError,
>)
    ensures
        match result {
            Ok(lists) => !(proposition@ is Void) && formulas(lists.0@)
                == proposition@.decompose().left && formulas(lists.1@)
                == proposition@.decompose().right,
            Err(error) => proposition@ is Void && error is VoidExpression,
        },
{
    let (left, right): (Vec<Proposition>, Vec<Proposition>) = match proposition {
        Proposition::Void => { return Err(RaaError::VoidExpression); },
        Proposition::Atom(_) => (Vec::new(), Vec::new()),
        Proposition::Negation(n) => match &*n.inner {
            Proposition::Negation(m) => (vec![(*m.inner).clone()], Vec::new()),
            Proposition::BiImplication(b) => (
                vec![(*b.left).clone(), Proposition::negation((*b.right).clone())],
                vec![Proposition::negation((*b.left).clone()), (*b.right).clone()],
            ),
            Proposition::Implication(i) => (
                vec![(*i.left).clone(), Proposition::negation((*i.right).clone())],
                Vec::new(),
            ),
            Proposition::Disjunction(d) => (
                vec![
                    Proposition::negation((*d.left).clone()),
                    Proposition::negation((*d.right).clone()),
                ],
                Vec::new(),
            ),
            Proposition::Conjunction(c) => (
                vec![Proposition::negation((*c.left).clone())],
                vec![Proposition::negation((*c.right).clone())],
            ),
            _ => (Vec::new(), Vec::new()),
        },
        Proposition::Implication(i) => (
            vec![Proposition::negation((*i.left).clone())],
            vec![(*i.right).clone()],
        ),
        Proposition::BiImplication(b) => (
            vec![(*b.left).clone(), (*b.right).clone()],
            vec![
                Proposition::negation((*b.left).clone()),
                Proposition::negation((*b.right).clone()),
            ],
        ),
        Proposition::Disjunction(d) => (vec![(*d.left).clone()], vec![(*d.right).clone()]),
        Proposition::Conjunction(c) => (vec![(*c.left).clone(), (*c.right).clone()], Vec::new()),
    };
    proof {
        reveal_with_fuel(Proposition::formula, 3);
        assert(formulas(left@) =~= proposition@.decompose().left);
        assert(formulas(right@) =~= proposition@.decompose().right);
    }
    Ok((left, right))
}

/// The nodes below which nothing was appended, in the order of their
/// creation.
pub fn leaf_nodes(tree: &ProofTree) -> (leaves: Vec<usize>)
    ensures
        forall|i: int, j: int| 0 <= i < j < leaves.len() ==> leaves[i] < leaves[j],
        forall|node: usize|
            #[trigger] leaves@.contains(node) <==> tree@.has(node as int) && tree@.is_leaf(node as int),
{
    let count = tree.node_count();
    let mut leaves: Vec<usize> = Vec::new();
    let mut node: usize = 0;
    while node < count
        invariant
            node <= count,
            count == tree@.nodes.len(),
            forall|i: int, j: int| 0 <= i < j < leaves.len() ==> leaves[i] < leaves[j],
            forall|i: int| 0 <= i < leaves.len() ==> leaves[i] < node,
            forall|other: usize|
                #[trigger] leaves@.contains(other) <==> other < node && tree@.is_leaf(other as int),
        decreases count - node,
    {
        if tree.is_leaf(node) {
            let ghost before = leaves@;
            leaves.push(node);
            proof {
                assert(leaves@[leaves.len() - 1] == node);
                assert forall|other: usize|
                    leaves@.contains(other) <==> other < node + 1 && tree@.is_leaf(
                        other as int,
                    ) by {
                    if before.contains(other) {
                        let i = choose|i: int| 0 <= i < before.len() && before[i] == other;
                        assert(leaves@[i] == other);
                    }
                    if leaves@.contains(other) {
                        let i = choose|i: int| 0 <= i < leaves@.len() && leaves@[i] == other;
                        if i < before.len() {
                            assert(before[i] == other);
                        }
                    }
                }
            }
        }
        node += 1;
    }
    leaves
}

/// The leaves below `start` (`start` itself, if it is a leaf) that are
/// not closed, each once.
pub fn unclosed_leaf_nodes_of(tree: &ProofTree, start: usize) -> (leaves: Vec<usize>)
    requires
        tree.wf(),
        tree@.has(start as int),
    ensures
        leaves@.no_duplicates(),
        forall|node: usize|
            #[trigger] leaves@.contains(node) <==> tree@.has(node as int) && tree@.is_leaf(node as int)
                && tree@.state(node as int) != TransformationState::Closed && tree@.on_branch(
                start as int,
                node as int,
            ),
{
    let order = post_order_from(&tree.graph, start);
    let mut leaves: Vec<usize> = Vec::new();
    proof {
        assert forall|node: usize| order@.contains(node) <==> tree@.has(node as int)
            && tree@.on_branch(start as int, node as int) by {
            if order@.contains(node) {
                tree@.lemma_reachable_has(start as int, node as int);
            }
            if tree@.has(node as int) {
                tree@.lemma_reachable(start as int, node as int);
            }
        }
    }
    let mut i: usize = 0;
    while i < order.len()
        invariant
            i <= order.len(),
            tree.wf(),
            order@.no_duplicates(),
            forall|node: usize|
                #[trigger] order@.contains(node) <==> tree@.has(node as int) && tree@.on_branch(
                    start as int,
                    node as int,
                ),
            leaves@.no_duplicates(),
            forall|node: usize|
                #[trigger] leaves@.contains(node) <==> order@.take(i as int).contains(node) && tree@.is_leaf(
                    node as int,
                ) && tree@.state(node as int) != TransformationState::Closed,
        decreases order.len() - i,
    {
        let node = order[i];
        assert(order@.contains(node));
        let ghost before = leaves@;
        let ghost seen = order@.take(i as int);
        let ghost seen_after = order@.take(i + 1);
        proof {
            assert(seen_after =~= seen.push(node));
            assert(!seen.contains(node)) by {
                if seen.contains(node) {
                    let k = choose|k: int| 0 <= k < seen.len() && seen[k] == node;
                    assert(order@[k] == node);
                }
            }
            assert forall|other: usize| #[trigger] seen_after.contains(other) <==> seen.contains(other)
                || other == node by {
                if seen.contains(other) {
                    let k = choose|k: int| 0 <= k < seen.len() && seen[k] == other;
                    assert(seen_after[k] == other);
                }
                if seen_after.contains(other) {
                    let k = choose|k: int| 0 <= k < seen_after.len() && seen_after[k] == other;
                    if k < seen.len() {
                        assert(seen[k] == other);
                    }
                }
                assert(seen_after[i as int] == node);
            }
        }
        if tree.state(node) != TransformationState::Closed && tree.is_leaf(node) {
            leaves.push(node);
            proof {
                assert(leaves@ == before.push(node));
                assert(!before.contains(node));
                assert(leaves@[leaves.len() - 1] == node);
                assert forall|other: usize|
                    #[trigger] leaves@.contains(other) <==> before.contains(other) || other == node by {
                    if before.contains(other) {
                        let k = choose|k: int| 0 <= k < before.len() && before[k] == other;
                        assert(leaves@[k] == other);
                    }
                    if leaves@.contains(other) {
                        let k = choose|k: int| 0 <= k < leaves@.len() && leaves@[k] == other;
                        if k < before.len() {
                            assert(before[k] == other);
                        }
                    }
                }
            }
        }
        proof {
            assert forall|other: usize| #[trigger]
                leaves@.contains(other) <==> seen_after.contains(other) && tree@.is_leaf(
                    other as int,
                ) && tree@.state(other as int) != TransformationState::Closed by {
                assert(before.contains(other) <==> seen.contains(other) && tree@.is_leaf(
                    other as int,
                ) && tree@.state(other as int) != TransformationState::Closed);
                assert(seen_after.contains(other) <==> seen.contains(other) || other == node);
            }
        }
        i += 1;
    }
    proof {
        assert(order@.take(order.len() as int) =~= order@);
    }
    leaves
}

/// Whether every leaf of the tree is closed.
pub open spec fn all_leaves_closed(tree: Tableau) -> bool {
    forall|leaf: int|
        tree.has(leaf) && tree.is_leaf(leaf) ==> #[trigger] tree.state(leaf)
            == TransformationState::Closed
}

/// What a run has come to, read off its tree: the root is refuted where
/// every leaf is closed, which proves the proposition if its negation was
/// the root and falsifies it otherwise; else the run goes on if the tree
/// has just changed, and ends without a refutation if it has not.
pub open spec fn read_off(tree: Tableau, changed: bool, negated: bool) -> ProveResult {
    if all_leaves_closed(tree) {
        if negated {
            ProveResult::Proven
        } else {
            ProveResult::Falsified
        }
    } else if changed {
        ProveResult::Processing
    } else {
        ProveResult::Contingent
    }
}

/// Appends the propositions of `chain` below `parent`: the first below
/// `parent`, each other below the one before it.
pub fn append_chain(tree: &mut ProofTree, parent: usize, chain: &Vec<Proposition>)
    requires
        old(tree).wf(),
        old(tree)@.has(parent as int),
    ensures
        final(tree).wf(),
        final(tree)@ == old(tree)@.grow(parent as int, formulas(chain@)),
{
    let ghost start = tree@;
    let ghost base = start.nodes.len() as int;
    let ghost list = formulas(chain@);
    let mut last: usize = parent;
    let mut i: usize = 0;
    while i < chain.len()
        invariant
            i <= chain.len(),
            tree.root == 0,
            start.wf(),
            start.has(parent as int),
            base == start.nodes.len(),
            list == formulas(chain@),
            tree@.nodes == start.nodes + Seq::new(
                i as nat,
                |k: int| (list[k], TransformationState::Unprocessed),
            ),
            tree@.edges == start.edges + Seq::new(
                i as nat,
                |k: int|
                    (
                        if k == 0 {
                            parent as int
                        } else {
                            base + k - 1
                        },
                        base + k,
                    ),
            ),
            last as int == if i == 0 {
                parent as int
            } else {
                base + i - 1
            },
        decreases chain.len() - i,
    {
        let ghost before = tree@;
        let node = add_node(&mut tree.graph, chain[i].clone(), TransformationState::Unprocessed);
        add_edge(&mut tree.graph, last, node);
        proof {
            assert(tree@.nodes =~= start.nodes + Seq::new(
                (i + 1) as nat,
                |k: int| (list[k], TransformationState::Unprocessed),
            ));
            assert(tree@.edges =~= start.edges + Seq::new(
                (i + 1) as nat,
                |k: int|
                    (
                        if k == 0 {
                            parent as int
                        } else {
                            base + k - 1
                        },
                        base + k,
                    ),
            ));
        }
        last = node;
        i += 1;
    }
    proof {
        start.lemma_grow(parent as int, list);
        let grown = start.grow(parent as int, list);
        assert(tree@.nodes =~= grown.nodes);
        assert(tree@.edges =~= grown.edges);
    }
}

/// Decides whether the path to a leaf, given by its nodes, holds a
/// proposition together with its negation: every pair of nodes on the path
/// is compared.
pub fn branch_is_contradictory(tree: &ProofTree, path: &Vec<usize>, leaf: usize) -> (found:
    bool)
    requires
        tree.wf(),
        tree@.has(leaf as int),
        indices(path@) == tree@.branch(leaf as int),
    ensures
        found == tree@.contradictory(leaf as int),
{
    let couples = pairwise(path.as_slice());
    proof {
        lemma_pairs_from(path@, 0);
        tree@.lemma_branch_shape(leaf as int);
        assert forall|i: int| 0 <= i < path@.len() implies tree@.has(
            (#[trigger] path@[i]) as int,
        ) && tree@.on_branch(path@[i] as int, leaf as int) by {
            assert(indices(path@)[i] == path@[i] as int);
            assert(tree@.branch(leaf as int)[i] == path@[i] as int);
        }
    }
    let mut k: usize = 0;
    while k < couples.len()
        invariant
            k <= couples.len(),
            tree.wf(),
            tree@.has(leaf as int),
            indices(path@) == tree@.branch(leaf as int),
            referents(couples@) == pairs(path@),
            forall|i: int| 0 <= i < path@.len() ==> tree@.has((#[trigger] path@[i]) as int),
            forall|k: int|
                0 <= k < pairs_from(path@, 0).len() ==> joins_later(
                    path@,
                    0,
                    #[trigger] pairs_from(path@, 0)[k],
                ),
            forall|e: int|
                0 <= e < k ==> !complementary(
                    tree@.formula((#[trigger] referents(couples@)[e]).0 as int),
                    tree@.formula(referents(couples@)[e].1 as int),
                ),
        decreases couples.len() - k,
    {
        let (a, b) = couples[k];
        proof {
            assert(referents(couples@)[k as int] == (*a, *b));
            assert(pairs_from(path@, 0)[k as int] == (*a, *b));
        }
        if is_complementary(tree.proposition(*a), tree.proposition(*b)) {
            proof {
                assert(joins_later(path@, 0, pairs_from(path@, 0)[k as int]));
                let (i, j) = choose|i: int, j: int|
                    0 <= i < j < path@.len() && pairs_from(path@, 0)[k as int] == (
                        #[trigger] path@[i],
                        #[trigger] path@[j],
                    );
                assert(indices(path@)[i] == *a as int);
                assert(indices(path@)[j] == *b as int);
                assert(tree@.branch(leaf as int)[i] == *a as int);
                assert(tree@.branch(leaf as int)[j] == *b as int);
                assert(tree@.on_branch(*a as int, leaf as int));
                assert(tree@.on_branch(*b as int, leaf as int));
            }
            return true;
        }
        k += 1;
    }
    proof {
        if tree@.contradictory(leaf as int) {
            let (a, b) = choose|a: int, b: int|
                #[trigger] tree@.on_branch(a, leaf as int) && #[trigger] tree@.on_branch(b, leaf as int)
                    && tree@.formula(a) == tree@.formula(b).not();
            let branch = tree@.branch(leaf as int);
            let i = choose|i: int| 0 <= i < branch.len() && branch[i] == a;
            let j = choose|j: int| 0 <= j < branch.len() && branch[j] == b;
            tree@.formula(b).lemma_not_own_negation();
            assert(indices(path@)[i] == path@[i] as int);
            assert(indices(path@)[j] == path@[j] as int);
            let (lo, hi) = if i < j {
                (i, j)
            } else {
                (j, i)
            };
            assert(pairs_from(path@, 0).contains((path@[lo], path@[hi])));
            let e = choose|e: int|
                0 <= e < pairs_from(path@, 0).len() && pairs_from(path@, 0)[e] == (
                    path@[lo],
                    path@[hi],
                );
            assert(!complementary(
                tree@.formula(referents(couples@)[e].0 as int),
                tree@.formula(referents(couples@)[e].1 as int),
            ));
        }
    }
    false
}

/// Decides propositions by the tableau method.
#[derive(Debug)]
pub struct Prover {}

impl Default for Prover {
    fn default() -> (prover: Self) {
        Prover {  }
    }
}

impl Prover {
    /// A prover.
    pub fn new() -> (prover: Self) {
        Prover {  }
    }

    /// A proof tree that consists of its root: the proposition, or its
    /// negation where `negate` is set, not yet processed. The placeholder
    /// is refused.
    pub fn init_proposition_tree(&self, proposition: &Proposition, negate: bool) -> (result:
        Result<ProofTree, RaaError>)
        ensures
            match result {
                Ok(tree) => !(proposition@ is Void) && tree.wf() && tree@.inv()
                    && tree@.open_branches_consistent() && tree@.edges.len() == 0
                    && tree@.nodes == seq![
                    (
                        if negate {
                            proposition@.not()
                        } else {
                            proposition@
                        },
                        TransformationState::Unprocessed,
                    ),
                ],
                Err(error) => proposition@ is Void && error is VoidExpression,
            },
    {
        match proposition {
            Proposition::Void => Err(RaaError::VoidExpression),
            _ => {
                let mut graph = new_graph();
                let root = add_node(
                    &mut graph,
                    if negate {
                        Proposition::negation(proposition.clone())
                    } else {
                        proposition.clone()
                    },
                    TransformationState::Unprocessed,
                );
                let tree = ProofTree { graph, root };
                proof {
                    assert(tree@.nodes =~= seq![
                        (
                            if negate {
                                proposition@.not()
                            } else {
                                proposition@
                            },
                            TransformationState::Unprocessed,
                        ),
                    ]);
                    tree@.lemma_initial_inv();
                }
                Ok(tree)
            },
        }
    }

    /// The node that was created first among those not yet processed.
    pub fn find_unprocessed_node(&self, tree: &ProofTree) -> (found: Option<usize>)
        ensures
            match found {
                Some(node) => tree@.has(node as int) && tree@.state(node as int)
                    == TransformationState::Unprocessed && forall|earlier: int|
                    0 <= earlier < node ==> tree@.state(earlier)
                        != TransformationState::Unprocessed,
                None => forall|node: int|
                    tree@.has(node) ==> tree@.state(node) != TransformationState::Unprocessed,
            },
    {
        let count = tree.node_count();
        let mut node: usize = 0;
        while node < count
            invariant
                node <= count,
                count == tree@.nodes.len(),
                forall|earlier: int|
                    0 <= earlier < node ==> tree@.state(earlier)
                        != TransformationState::Unprocessed,
            decreases count - node,
        {
            if tree.state(node) == TransformationState::Unprocessed {
                return Some(node);
            }
            node += 1;
        }
        None
    }

    /// The nodes from the root down to `node`.
    pub fn ancestors(&self, tree: &ProofTree, node: usize) -> (path: Vec<usize>)
        requires
            tree.wf(),
            tree@.has(node as int),
        ensures
            indices(path@) == tree@.branch(node as int),
    {
        if node == tree.root {
            let path = vec![tree.root];
            proof {
                assert(indices(path@) =~= tree@.branch(node as int));
            }
            path
        } else {
            let mut paths = simple_paths(&tree.graph, tree.root, node);
            proof {
                let branch = tree@.branch(node as int);
                tree@.lemma_branch_shape(node as int);
                let witness = Seq::new(branch.len(), |i: int| branch[i] as usize);
                assert(indices(witness) =~= branch);
                assert(is_simple_path(tree@.edges, 0, node as int, indices(witness)));
                let k = choose|k: int| 0 <= k < paths.len() && (#[trigger] paths[k])@ == witness;
                assert(is_simple_path(tree@.edges, 0, node as int, indices(paths[0]@)));
                tree@.lemma_unique_path(node as int, indices(paths[0]@));
            }
            paths.remove(0)
        }
    }

    /// Closes every leaf whose path holds a proposition together with its
    /// negation.
    pub fn update_branches_closed_state(&self, tree: &mut ProofTree)
        requires
            old(tree).wf(),
        ensures
            final(tree).wf(),
            final(tree)@ == old(tree)@.close_branches(),
    {
        let ghost start = tree@;
        let ghost target = start.close_branches();
        let count = tree.node_count();
        let leaf_node_ids = leaf_nodes(tree);
        let mut i: usize = 0;
        while i < leaf_node_ids.len()
            invariant
                i <= leaf_node_ids.len(),
                tree.wf(),
                start.wf(),
                count == start.nodes.len(),
                forall|a: int, b: int|
                    0 <= a < b < leaf_node_ids.len() ==> leaf_node_ids[a] < leaf_node_ids[b],
                target == start.close_branches(),
                tree@.edges == start.edges,
                tree@.nodes.len() == start.nodes.len(),
                forall|node: usize|
                    #[trigger] leaf_node_ids@.contains(node) <==> start.has(node as int) && start.is_leaf(
                        node as int,
                    ),
                forall|node: int|
                    start.has(node) ==> #[trigger] tree@.nodes[node] == if leaf_node_ids@.take(
                        i as int,
                    ).contains(node as usize) {
                        target.nodes[node]
                    } else {
                        start.nodes[node]
                    },
            decreases leaf_node_ids.len() - i,
        {
            let leaf = leaf_node_ids[i];
            let ghost before = tree@;
            let ghost seen = leaf_node_ids@.take(i as int);
            let ghost seen_after = leaf_node_ids@.take(i + 1);
            proof {
                assert(leaf_node_ids@.contains(leaf));
                assert(seen_after =~= seen.push(leaf));
                assert(seen_after[i as int] == leaf);
                assert forall|other: usize| #[trigger] seen_after.contains(other) <==> seen.contains(other)
                    || other == leaf by {
                    if seen.contains(other) {
                        let k = choose|k: int| 0 <= k < seen.len() && seen[k] == other;
                        assert(seen_after[k] == other);
                    }
                    if seen_after.contains(other) {
                        let k = choose|k: int| 0 <= k < seen_after.len() && seen_after[k] == other;
                        if k < seen.len() {
                            assert(seen[k] == other);
                        }
                    }
                }
                assert(!seen.contains(leaf)) by {
                    if seen.contains(leaf) {
                        let k = choose|k: int| 0 <= k < seen.len() && seen[k] == leaf;
                        assert(leaf_node_ids[k] < leaf_node_ids[i as int]);
                    }
                }
                assert(before.nodes[leaf as int] == start.nodes[leaf as int]);
                assert(start.same_shape(before));
                start.lemma_same_shape(before);
            }
            if tree.state(leaf) != TransformationState::Closed {
                let path = self.ancestors(tree, leaf);
                if branch_is_contradictory(tree, &path, leaf) {
                    set_node_state(&mut tree.graph, leaf, TransformationState::Closed);
                }
            }
            proof {
                assert(tree@.nodes[leaf as int] == target.nodes[leaf as int]);
                assert forall|node: int| start.has(node) implies #[trigger] tree@.nodes[node]
                    == if seen_after.contains(node as usize) {
                    target.nodes[node]
                } else {
                    start.nodes[node]
                } by {
                    if node != leaf as int {
                        assert(tree@.nodes[node] == before.nodes[node]);
                        assert(seen_after.contains(node as usize) == seen.contains(node as usize));
                    }
                }
            }
            i += 1;
        }
        proof {
            assert(leaf_node_ids@.take(leaf_node_ids.len() as int) =~= leaf_node_ids@);
            assert forall|node: int| start.has(node) implies tree@.nodes[node]
                == target.nodes[node] by {
                if !leaf_node_ids@.contains(node as usize) {
                    assert(!start.is_leaf(node));
                }
            }
            assert(tree@.nodes =~= target.nodes);
        }
    }

    /// What a run has come to: where every leaf is closed, the root is
    /// refuted, which proves the proposition if its negation was the root
    /// and falsifies it otherwise; else the run goes on while the tree still
    /// changes, and ends without a refutation when it does not.
    pub fn check_all_branches_closed(&self, tree: &ProofTree, changed: bool, negated: bool) -> (result:
        ProveResult)
        ensures
            result == read_off(tree@, changed, negated),
    {
        let count = tree.node_count();
        let leaf_node_ids = leaf_nodes(tree);
        let mut all_closed = true;
        let mut i: usize = 0;
        while i < leaf_node_ids.len()
            invariant
                i <= leaf_node_ids.len(),
                count == tree@.nodes.len(),
                forall|node: usize|
                    #[trigger] leaf_node_ids@.contains(node) <==> tree@.has(node as int) && tree@.is_leaf(
                        node as int,
                    ),
                all_closed <==> forall|k: int|
                    0 <= k < i ==> tree@.state((#[trigger] leaf_node_ids[k]) as int)
                        == TransformationState::Closed,
            decreases leaf_node_ids.len() - i,
        {
            assert(leaf_node_ids@.contains(leaf_node_ids[i as int]));
            if tree.state(leaf_node_ids[i]) != TransformationState::Closed {
                all_closed = false;
            }
            i += 1;
        }
        proof {
            if all_closed {
                assert forall|leaf: int| tree@.has(leaf) && tree@.is_leaf(leaf) implies #[trigger] tree@.state(
                    leaf,
                ) == TransformationState::Closed by {
                    assert(leaf_node_ids@.contains(leaf as usize));
                    let k = choose|k: int|
                        0 <= k < leaf_node_ids.len() && leaf_node_ids[k] == leaf as usize;
                    assert(tree@.state(leaf_node_ids[k] as int) == TransformationState::Closed);
                }
            } else {
                let k = choose|k: int|
                    0 <= k < leaf_node_ids.len() && tree@.state(
                        (#[trigger] leaf_node_ids[k]) as int,
                    ) != TransformationState::Closed;
                assert(leaf_node_ids@.contains(leaf_node_ids[k]));
            }
        }
        if all_closed {
            if negated {
                ProveResult::Proven
            } else {
                ProveResult::Falsified
            }
        } else if changed {
            ProveResult::Processing
        } else {
            ProveResult::Contingent
        }
    }

    /// One step of a run. If a node is left to process, the one created
    /// first is taken: its proposition is decomposed, the outcome is appended
    /// below every open leaf under the node, the node is marked as
    /// transformed and the contradictory branches are closed. Then the state
    /// of the run is read off the tree.
    pub fn inner_prove(&self, tree: &mut ProofTree, negated: bool) -> (result: Result<
        ProveResult,
        RaaError,
    >)
        requires
            old(tree).wf(),
            old(tree)@.inv(),
            old(tree)@.open_branches_consistent(),
        ensures
            final(tree).wf(),
            final(tree)@.inv(),
            final(tree)@.open_branches_consistent(),
            final(tree)@.formula(0) == old(tree)@.formula(0),
            old(tree)@.is_settled() ==> final(tree)@ == old(tree)@ && result == Ok::<
                ProveResult,
                RaaError,
            >(read_off(old(tree)@, false, negated)),
            forall|node: int|
                old(tree)@.is_next(node) && !(old(tree)@.formula(node) is Void) ==> result == Ok::<
                    ProveResult,
                    RaaError,
                >(read_off(final(tree)@, true, negated)) && exists|leaves: Seq<usize>|
                    old(tree)@.lists_open_leaves(node, leaves) && final(tree)@ == #[trigger] old(
                        tree,
                    )@.step(node, leaves),
            forall|node: int|
                old(tree)@.is_next(node) && old(tree)@.formula(node) is Void ==> result is Err,
            match result {
                Ok(ProveResult::Processing) => final(tree)@.measure() < old(tree)@.measure(),
                Ok(ProveResult::Proven) => negated && all_leaves_closed(final(tree)@),
                Ok(ProveResult::Falsified) => !negated && all_leaves_closed(final(tree)@),
                Ok(ProveResult::Contingent) => !all_leaves_closed(final(tree)@)
                    && final(tree)@.is_settled(),
                Ok(ProveResult::Undefined) => false,
                Err(error) => error is VoidExpression && !old(tree)@.formula(0).void_free()
                    && final(tree)@ == old(tree)@,
            },
    {
        let ghost start = tree@;
        let count = tree.node_count();
        match self.find_unprocessed_node(tree) {
            Some(unprocessed_node) => {
                let (to_add_left, to_add_right) = match transform(
                    tree.proposition(unprocessed_node),
                ) {
                    Ok(lists) => lists,
                    Err(error) => {
                        proof {
                            assert(start.nodes[unprocessed_node as int].0 is Void);
                            reveal_with_fuel(Formula::void_free, 1);
                        }
                        return Err(error);
                    },
                };
                let leafs_to_append = unclosed_leaf_nodes_of(tree, unprocessed_node);
                let ghost pending = unprocessed_node as int;
                let ghost d = start.formula(pending).decompose();
                let ghost bonus = start.formula(pending).weight();
                proof {
                    lemma_decompose_shape(start.formula(pending));
                    let todo = remaining(leafs_to_append@, 0);
                    assert forall|leaf: int|
                        start.open_leaf(leaf) && #[trigger] start.on_branch(
                            pending,
                            leaf,
                        ) implies start.expanded_on(pending, leaf) || todo.contains(leaf) by {
                        assert(0 <= leaf < count);
                        assert((leaf as usize) as int == leaf);
                        assert(leafs_to_append@.contains(leaf as usize));
                        let k = choose|k: int|
                            0 <= k < leafs_to_append@.len() && leafs_to_append@[k]
                                == leaf as usize;
                        assert(leafs_to_append@[k] as int == leaf);
                    }
                    assert forall|x: int| todo.contains(x) implies start.has(x) && start.on_branch(
                        pending,
                        x,
                    ) by {
                        let k = choose|k: int|
                            0 <= k < leafs_to_append@.len() && leafs_to_append@[k] as int == x;
                        assert(leafs_to_append@.contains(leafs_to_append@[k]));
                    }
                    assert forall|k: int| 0 <= k < leafs_to_append@.len() implies start.open_leaf(
                        (#[trigger] leafs_to_append@[k]) as int,
                    ) && start.on_branch(pending, leafs_to_append@[k] as int) by {
                        assert(leafs_to_append@.contains(leafs_to_append@[k]));
                    }
                    start.lemma_mark_potential(pending, todo);
                }
                let mut i: usize = 0;
                while i < leafs_to_append.len()
                    invariant
                        i <= leafs_to_append.len(),
                        tree.wf(),
                        start.wf(),
                        tree@.closures_justified(),
                        tree@.sound(),
                        tree@.branches_saturated(),
                        tree@.void_only_from_root(),
                        pending == unprocessed_node as int,
                        start.has(pending),
                        tree@.has(pending),
                        tree@.nodes[pending] == start.nodes[pending],
                        tree@.state(pending) == TransformationState::Unprocessed,
                        tree@.formula(0) == start.formula(0),
                        d == start.formula(pending).decompose(),
                        bonus == start.formula(pending).weight(),
                        formulas(to_add_left@) == d.left,
                        formulas(to_add_right@) == d.right,
                        d.left.len() == 0 ==> d.right.len() == 0,
                        total_weight(d.left) < bonus,
                        total_weight(d.right) < bonus,
                        leafs_to_append@.no_duplicates(),
                        forall|k: int|
                            i <= k < leafs_to_append@.len() ==> tree@.open_leaf(
                                (#[trigger] leafs_to_append@[k]) as int,
                            ) && tree@.on_branch(pending, leafs_to_append@[k] as int),
                        tree@.expanding(pending, remaining(leafs_to_append@, i as int)),
                        tree@ == start.extend_all(leafs_to_append@.take(i as int), d),
                        tree@.with_state(pending, TransformationState::Transformed).potential(
                            bonus,
                            remaining(leafs_to_append@, i as int),
                            tree@.nodes.len() as int,
                        ) <= start.measure(),
                        i > 0 ==> tree@.with_state(
                            pending,
                            TransformationState::Transformed,
                        ).potential(
                            bonus,
                            remaining(leafs_to_append@, i as int),
                            tree@.nodes.len() as int,
                        ) < start.measure(),
                    decreases leafs_to_append.len() - i,
                {
                    let leaf_node_id = leafs_to_append[i];
                    let ghost before = tree@;
                    let ghost leaf = leaf_node_id as int;
                    let ghost todo = remaining(leafs_to_append@, i as int);
                    let ghost rest = remaining(leafs_to_append@, i + 1);
                    proof {
                        assert(before.open_leaf(leafs_to_append@[i as int] as int));
                        assert(before.can_extend(pending, leaf));
                        before.lemma_grow(leaf, d.left);
                    }
                    append_chain(tree, leaf_node_id, &to_add_left);
                    append_chain(tree, leaf_node_id, &to_add_right);
                    proof {
                        let after = before.expand_at(pending, leaf);
                        assert(tree@ == after);
                        assert(leafs_to_append@.take(i + 1).drop_last() =~= leafs_to_append@.take(
                            i as int,
                        ));
                        assert(leafs_to_append@.take(i + 1).last() == leaf_node_id);
                        before.lemma_extend(leaf, d);
                        before.lemma_extend_closures(pending, leaf);
                        before.lemma_extend_sound(pending, leaf);
                        before.lemma_extend_saturated(pending, leaf);
                        before.lemma_extend_expanding(pending, leaf, todo);
                        before.lemma_extend_void(pending, leaf);
                        assert(after.nodes[0] == before.nodes[0]);
                        assert(after.nodes[pending] == before.nodes[pending]);
                        assert(todo.contains(leaf)) by {
                            assert(leafs_to_append@[i as int] as int == leaf);
                        }
                        assert(rest =~= todo.remove(leaf)) by {
                            assert forall|x: int| rest.contains(x) == todo.remove(leaf).contains(
                                x,
                            ) by {
                                if rest.contains(x) {
                                    let k = choose|k: int|
                                        i + 1 <= k < leafs_to_append@.len()
                                            && leafs_to_append@[k] as int == x;
                                    assert(leafs_to_append@[k] != leafs_to_append@[i as int]);
                                }
                                if todo.remove(leaf).contains(x) {
                                    let k = choose|k: int|
                                        i <= k < leafs_to_append@.len() && leafs_to_append@[k] as int
                                            == x;
                                    assert(k != i);
                                }
                            }
                        }
                        assert forall|k: int|
                            i + 1 <= k < leafs_to_append@.len() implies after.open_leaf(
                            (#[trigger] leafs_to_append@[k]) as int,
                        ) && after.on_branch(pending, leafs_to_append@[k] as int) by {
                            let other = leafs_to_append@[k] as int;
                            assert(leafs_to_append@[k] != leafs_to_append@[i as int]);
                            assert(before.open_leaf(other));
                            assert(after.nodes[other] == before.nodes[other]);
                            assert(after.branch(other) == before.branch(other));
                            assert(after.is_leaf(other));
                        }
                        let marked = before.with_state(pending, TransformationState::Transformed);
                        assert(before.same_shape(marked));
                        before.lemma_same_shape(marked);
                        before.lemma_mark_commutes(
                            pending,
                            TransformationState::Transformed,
                            leaf,
                            d,
                        );
                        assert forall|x: int| todo.contains(x) implies marked.has(x) by {
                            let k = choose|k: int|
                                i <= k < leafs_to_append@.len() && leafs_to_append@[k] as int == x;
                            assert(before.open_leaf(leafs_to_append@[k] as int));
                        }
                        marked.lemma_extend_potential(leaf, d, bonus, todo);
                    }
                    i += 1;
                }
                let ghost grown = tree@;
                proof {
                    assert(leafs_to_append@.take(i as int) =~= leafs_to_append@);
                    assert(start.lists_open_leaves(pending, leafs_to_append@));
                    assert(remaining(leafs_to_append@, i as int) =~= Set::<int>::empty());
                    grown.lemma_mark_inv(pending);
                    let marked = grown.with_state(pending, TransformationState::Transformed);
                    marked.lemma_potential_without_bonus(bonus);
                    if leafs_to_append.len() == 0 {
                        let spare = start.lemma_leaf_below(pending);
                        assert(remaining(leafs_to_append@, 0) =~= Set::<int>::empty());
                        start.lemma_mark_potential(pending, Set::<int>::empty());
                    }
                    assert(marked.measure() < start.measure());
                    marked.lemma_close_inv();
                    marked.lemma_close_measure();
                    assert(marked.close_branches().nodes[0].0 == start.nodes[0].0);
                }
                set_node_state(
                    &mut tree.graph,
                    unprocessed_node,
                    TransformationState::Transformed,
                );
                self.update_branches_closed_state(tree);
                proof {
                    assert(tree@ == start.step(pending, leafs_to_append@));
                }
                Ok(self.check_all_branches_closed(tree, true, negated))
            },
            None => Ok(self.check_all_branches_closed(tree, false, negated)),
        }
    }
}

/// The leaves that a step has still to extend: those of the list from
/// position `from` on.
pub open spec fn remaining(leaves: Seq<usize>, from: int) -> Set<int> {
    Set::new(|x: int| exists|k: int| from <= k < leaves.len() && #[trigger] leaves[k] as int == x)
}

/// The verdict that belongs to a formula: proven if it is a tautology,
/// falsified if it is a contradiction, contingent otherwise.
pub open spec fn verdict(formula: Formula) -> ProveResult {
    if formula.is_tautology() {
        ProveResult::Proven
    } else if formula.is_contradiction() {
        ProveResult::Falsified
    } else {
        ProveResult::Contingent
    }
}

/// What the prover answers for a formula. An outcome is the verdict of the
/// formula. The only error is that the placeholder was met; it comes for the
/// placeholder itself, and never for a formula that is free of it.
pub open spec fn is_decision(formula: Formula, result: Result<ProveResult, RaaError>) -> bool {
    &&& match result {
        Ok(outcome) => outcome == verdict(formula),
        Err(error) => error is VoidExpression && !formula.void_free(),
    }
    &&& formula is Void ==> result is Err
}

/// The outcome of one run on a root: the root is refuted exactly if it is a
/// contradiction, and the refutation proves the proposition where the root
/// is its negation and falsifies it where the root is the proposition.
pub open spec fn run_outcome(root: Formula, negated: bool) -> ProveResult {
    if root.is_contradiction() {
        if negated {
            ProveResult::Proven
        } else {
            ProveResult::Falsified
        }
    } else {
        ProveResult::Contingent
    }
}

/// A formula is a tautology exactly if its negation is a contradiction.
pub proof fn lemma_negation_refuted(formula: Formula)
    ensures
        formula.not().is_contradiction() <==> formula.is_tautology(),
{
    reveal_with_fuel(Formula::eval, 2);
    if formula.is_tautology() {
        assert forall|valuation: Valuation| !formula.not().eval(valuation) by {
            assert(formula.eval(valuation));
        }
    }
    if formula.not().is_contradiction() {
        assert forall|valuation: Valuation| formula.eval(valuation) by {
            assert(!formula.not().eval(valuation));
        }
    }
}

impl Prover {
    /// One run of the tableau method: on the negation of the proposition
    /// where `negated` is set, else on the proposition itself. The tree is
    /// grown step by step until every branch is closed or nothing is left to
    /// process.
    pub fn try_prove(&self, proposition: &Proposition, negated: bool) -> (result: Result<
        ProveResult,
        RaaError,
    >)
        ensures
            match result {
                Ok(outcome) => outcome == run_outcome(
                    if negated {
                        proposition@.not()
                    } else {
                        proposition@
                    },
                    negated,
                ),
                Err(error) => error is VoidExpression && !proposition@.void_free(),
            },
            proposition@ is Void ==> result is Err,
    {
        let ghost root = if negated {
            proposition@.not()
        } else {
            proposition@
        };
        let mut tree = match self.init_proposition_tree(proposition, negated) {
            Ok(tree) => tree,
            Err(error) => {
                proof {
                    reveal_with_fuel(Formula::void_free, 1);
                }
                return Err(error);
            },
        };
        proof {
            tree@.lemma_initial_inv();
            reveal_with_fuel(Formula::void_free, 2);
            assert(root.void_free() == proposition@.void_free());
        }
        loop
            invariant
                tree.wf(),
                tree@.inv(),
                tree@.open_branches_consistent(),
                tree@.formula(0) == root,
                root.void_free() == proposition@.void_free(),
                !(proposition@ is Void),
                root == if negated {
                    proposition@.not()
                } else {
                    proposition@
                },
            decreases tree@.measure(),
        {
            let prove_result = match self.inner_prove(&mut tree, negated) {
                Ok(prove_result) => prove_result,
                Err(error) => { return Err(error); },
            };
            match prove_result {
                ProveResult::Processing => {},
                ProveResult::Contingent => {
                    proof {
                        let leaf = choose|leaf: int|
                            tree@.has(leaf) && tree@.is_leaf(leaf) && #[trigger] tree@.state(leaf)
                                != TransformationState::Closed;
                        tree@.lemma_open_branch_is_model(leaf);
                    }
                    return Ok(prove_result);
                },
                _ => {
                    proof {
                        tree@.lemma_all_closed();
                    }
                    return Ok(prove_result);
                },
            }
        }
    }

    /// Decides a proposition. The negation is tried first: if it is
    /// refuted, the proposition is proven. Only if it is not, the
    /// proposition itself is tried: if it is refuted, it is falsified, else
    /// it is contingent. The placeholder is refused.
    pub fn prove(&self, proposition: &Proposition) -> (result: Result<ProveResult, RaaError>)
        ensures
            is_decision(proposition@, result),
    {
        proof {
            lemma_negation_refuted(proposition@);
            if proposition@.is_tautology() && proposition@.is_contradiction() {
                let valuation = Set::<Formula>::empty();
                assert(proposition@.eval(valuation));
                assert(!proposition@.eval(valuation));
            }
        }
        let prove_result = match self.try_prove(proposition, true) {
            Ok(prove_result) => prove_result,
            Err(error) => { return Err(error); },
        };
        if prove_result == ProveResult::Contingent {
            self.try_prove(proposition, false)
        } else {
            Ok(prove_result)
        }
    }
}

} // verus!
