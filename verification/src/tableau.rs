use crate::proof_tree::{is_simple_path, is_walk, reachable, TransformationState};
use crate::proposition::Formula;
use crate::semantics::Decomposition;
use vstd::prelude::*;

verus! {

/// The mathematical model of a proof tree: the nodes in the order of their
/// creation, each a formula with its state, and the edges in the order of
/// their creation, each from a node to a node appended below it.
pub struct Tableau {
    pub nodes: Seq<(Formula, TransformationState)>,
    pub edges: Seq<(int, int)>,
}

impl Tableau {
    /// The formula at a node.
    pub open spec fn formula(self, node: int) -> Formula {
        self.nodes[node].0
    }

    /// The state of a node.
    pub open spec fn state(self, node: int) -> TransformationState {
        self.nodes[node].1
    }

    /// Whether `node` is a node of the tree.
    pub open spec fn has(self, node: int) -> bool {
        0 <= node < self.nodes.len()
    }

    /// The tree shape: node 0 is the root, and every other node was given one
    /// edge when it was created, from an older node to it. So every node has
    /// exactly one path from the root.
    pub open spec fn wf(self) -> bool {
        &&& self.nodes.len() == self.edges.len() + 1
        &&& forall|k: int|
            0 <= k < self.edges.len() ==> (#[trigger] self.edges[k]).1 == k + 1 && 0
                <= self.edges[k].0 <= k
    }

    /// The node below which `node` was appended (for a node other than the root).
    pub open spec fn parent(self, node: int) -> int {
        self.edges[node - 1].0
    }

    /// Whether nothing was appended below `node`.
    pub open spec fn is_leaf(self, node: int) -> bool {
        forall|k: int| 0 <= k < self.edges.len() ==> (#[trigger] self.edges[k]).0 != node
    }

    /// The nodes from the root down to `node`, both included.
    pub open spec fn branch(self, node: int) -> Seq<int>
        decreases node,
    {
        if 0 < node <= self.edges.len() && 0 <= self.parent(node) < node {
            self.branch(self.parent(node)).push(node)
        } else {
            seq![node]
        }
    }

    /// Whether `ancestor` lies on the path from the root to `node`.
    pub open spec fn on_branch(self, ancestor: int, node: int) -> bool {
        self.branch(node).contains(ancestor)
    }

    /// Whether `formula` stands at some node on the path from the root to `node`.
    pub open spec fn carries(self, node: int, formula: Formula) -> bool {
        exists|a: int| #[trigger] self.on_branch(a, node) && self.formula(a) == formula
    }

    /// Whether the path from the root to `node` holds a formula together
    /// with its negation.
    pub open spec fn contradictory(self, node: int) -> bool {
        exists|a: int, b: int|
            #[trigger] self.on_branch(a, node) && #[trigger] self.on_branch(b, node)
                && self.formula(a) == self.formula(b).not()
    }

    /// Whether the two trees have the same nodes up to `node` and the same
    /// edges into them.
    pub open spec fn agrees_up_to(self, other: Tableau, node: int) -> bool {
        &&& node < self.nodes.len()
        &&& node < other.nodes.len()
        &&& node <= self.edges.len()
        &&& node <= other.edges.len()
        &&& forall|k: int| 0 <= k < node ==> #[trigger] self.edges[k] == other.edges[k]
    }

    /// The path to a node depends only on the edges into the nodes up to it.
    pub proof fn lemma_branch_frame(self, other: Tableau, node: int)
        requires
            self.agrees_up_to(other, node),
        ensures
            self.branch(node) == other.branch(node),
        decreases node,
    {
        if 0 < node <= self.edges.len() && 0 <= self.parent(node) < node {
            assert(self.edges[node - 1] == other.edges[node - 1]);
            self.lemma_branch_frame(other, self.parent(node));
        } else if 0 < node {
            assert(self.edges[node - 1] == other.edges[node - 1]);
        }
    }

    /// The shape of a path: it starts at the root, ends at the node, climbs
    /// strictly and follows the edges.
    pub proof fn lemma_branch_shape(self, node: int)
        requires
            self.wf(),
            self.has(node),
        ensures
            self.branch(node).len() > 0,
            self.branch(node).first() == 0,
            self.branch(node).last() == node,
            forall|i: int| 0 <= i < self.branch(node).len() ==> 0 <= #[trigger] self.branch(node)[i] <= node,
            forall|i: int, j: int|
                0 <= i < j < self.branch(node).len() ==> self.branch(node)[i] < self.branch(
                    node,
                )[j],
            is_simple_path(self.edges, 0, node, self.branch(node)),
            node > 0 ==> self.branch(node) == self.branch(self.parent(node)).push(node),
            node > 0 ==> 0 <= self.parent(node) < node,
        decreases node,
    {
        if node > 0 {
            let p = self.parent(node);
            assert(self.edges[node - 1].1 == node);
            self.lemma_branch_shape(p);
            let up = self.branch(p);
            let here = self.branch(node);
            assert(here == up.push(node));
            assert(self.edges.contains((p, node))) by {
                assert(self.edges[node - 1] == (p, node));
            }
            assert forall|i: int, j: int| 0 <= i && j == i + 1 && j < here.len() implies self.edges.contains(
                (#[trigger] here[i], #[trigger] here[j]),
            ) by {
                if j < up.len() {
                    assert(self.edges.contains((up[i], up[j])));
                }
            }
            assert forall|i: int, j: int| 0 <= i < j < here.len() implies here[i] < here[j] by {
                if j < up.len() {
                    assert(up[i] < up[j]);
                } else {
                    assert(up[i] <= p);
                }
            }
        } else {
            assert(self.branch(node) == seq![node]);
        }
    }

    /// A node lies on its own path, and so does the root.
    pub proof fn lemma_branch_ends(self, node: int)
        requires
            self.wf(),
            self.has(node),
        ensures
            self.on_branch(node, node),
            self.on_branch(0, node),
    {
        self.lemma_branch_shape(node);
        let b = self.branch(node);
        assert(b[b.len() - 1] == node);
        assert(b[0] == 0);
    }

    /// The nodes on the path to a node are the node itself and those on the
    /// path to its parent.
    pub proof fn lemma_on_branch_step(self, ancestor: int, node: int)
        requires
            self.wf(),
            self.has(node),
        ensures
            self.on_branch(ancestor, node) <==> (ancestor == node || (node > 0 && self.on_branch(
                ancestor,
                self.parent(node),
            ))),
            self.on_branch(ancestor, node) ==> 0 <= ancestor <= node,
    {
        self.lemma_branch_shape(node);
        let here = self.branch(node);
        if node > 0 {
            let up = self.branch(self.parent(node));
            assert(here == up.push(node));
            if self.on_branch(ancestor, node) {
                let i = choose|i: int| 0 <= i < here.len() && here[i] == ancestor;
                if i < up.len() {
                    assert(up[i] == ancestor);
                }
            }
            if self.on_branch(ancestor, self.parent(node)) {
                let i = choose|i: int| 0 <= i < up.len() && up[i] == ancestor;
                assert(here[i] == ancestor);
            }
            if ancestor == node {
                assert(here[here.len() - 1] == node);
            }
        } else {
            assert(here == seq![node]);
            assert(here[0] == node);
        }
    }

    /// Being on a path is transitive.
    pub proof fn lemma_on_branch_trans(self, a: int, b: int, node: int)
        requires
            self.wf(),
            self.has(node),
            self.on_branch(a, b),
            self.on_branch(b, node),
        ensures
            self.on_branch(a, node),
        decreases node,
    {
        self.lemma_on_branch_step(b, node);
        self.lemma_on_branch_step(a, node);
        if b != node {
            self.lemma_branch_shape(node);
            self.lemma_on_branch_trans(a, b, self.parent(node));
        }
    }

    /// A node with a node below it on some path is no leaf.
    pub proof fn lemma_inner_node(self, ancestor: int, node: int)
        requires
            self.wf(),
            self.has(node),
            self.on_branch(ancestor, node),
            ancestor != node,
        ensures
            !self.is_leaf(ancestor),
        decreases node,
    {
        self.lemma_on_branch_step(ancestor, node);
        self.lemma_branch_shape(node);
        let p = self.parent(node);
        if ancestor == p {
            assert(self.edges[node - 1].0 == ancestor);
        } else {
            self.lemma_inner_node(ancestor, p);
        }
    }

    /// In a tree, whatever walk leads from one node to another stays on the
    /// path from the root to the second.
    pub proof fn lemma_walk_on_branch(self, walk: Seq<int>)
        requires
            self.wf(),
            is_walk(self.edges, walk),
            self.has(walk.last()),
        ensures
            self.on_branch(walk.first(), walk.last()),
        decreases walk.len(),
    {
        let node = walk.last();
        if walk.len() == 1 {
            self.lemma_branch_ends(node);
        } else {
            let before = walk[walk.len() - 2];
            assert(self.edges.contains((walk[walk.len() - 2], walk[walk.len() - 1])));
            let k = choose|k: int| 0 <= k < self.edges.len() && self.edges[k] == (before, node);
            assert(self.edges[k].1 == k + 1);
            assert(before == self.parent(node));
            let shorter = walk.drop_last();
            assert forall|i: int, j: int| 0 <= i && j == i + 1 && j < shorter.len() implies self.edges.contains(
                (#[trigger] shorter[i], #[trigger] shorter[j]),
            ) by {
                assert(self.edges.contains((walk[i], walk[j])));
            }
            self.lemma_walk_on_branch(shorter);
            self.lemma_on_branch_step(walk.first(), node);
        }
    }

    /// A node reaches exactly the nodes on whose path it lies.
    pub proof fn lemma_reachable(self, from: int, to: int)
        requires
            self.wf(),
            self.has(to),
        ensures
            reachable(self.edges, from, to) <==> self.on_branch(from, to),
    {
        if reachable(self.edges, from, to) {
            let walk = choose|walk: Seq<int>| #[trigger]
                is_walk(self.edges, walk) && walk.first() == from && walk.last() == to;
            self.lemma_walk_on_branch(walk);
        }
        if self.on_branch(from, to) {
            self.lemma_branch_shape(to);
            let b = self.branch(to);
            let i = choose|i: int| 0 <= i < b.len() && b[i] == from;
            let walk = b.subrange(i, b.len() as int);
            assert forall|k: int, l: int| 0 <= k && l == k + 1 && l < walk.len() implies self.edges.contains(
                (#[trigger] walk[k], #[trigger] walk[l]),
            ) by {
                assert(self.edges.contains((b[i + k], b[i + l])));
            }
            assert(is_walk(self.edges, walk) && walk.first() == from && walk.last() == to);
        }
    }

    /// The only simple path from the root to a node is the node's path.
    pub proof fn lemma_unique_path(self, node: int, path: Seq<int>)
        requires
            self.wf(),
            self.has(node),
            is_simple_path(self.edges, 0, node, path),
        ensures
            path == self.branch(node),
        decreases path.len(),
    {
        self.lemma_branch_shape(node);
        if path.len() == 1 {
            assert(self.branch(0) == seq![0int]);
            assert(path =~= seq![0int]);
        } else {
            let before = path[path.len() - 2];
            assert(self.edges.contains((path[path.len() - 2], path[path.len() - 1])));
            let k = choose|k: int| 0 <= k < self.edges.len() && self.edges[k] == (before, node);
            assert(self.edges[k].1 == k + 1);
            assert(before == self.parent(node));
            let shorter = path.drop_last();
            assert forall|i: int, j: int| 0 <= i && j == i + 1 && j < shorter.len() implies self.edges.contains(
                (#[trigger] shorter[i], #[trigger] shorter[j]),
            ) by {
                assert(self.edges.contains((path[i], path[j])));
            }
            assert(shorter.no_duplicates());
            self.lemma_unique_path(before, shorter);
            assert(path =~= shorter.push(node));
        }
    }

    /// Edges lead only to nodes of the tree.
    pub proof fn lemma_reachable_has(self, from: int, to: int)
        requires
            self.wf(),
            self.has(from),
            reachable(self.edges, from, to),
        ensures
            self.has(to),
    {
        let walk = choose|walk: Seq<int>| #[trigger]
            is_walk(self.edges, walk) && walk.first() == from && walk.last() == to;
        if walk.len() > 1 {
            assert(self.edges.contains((walk[walk.len() - 2], walk[walk.len() - 1])));
            let k = choose|k: int|
                0 <= k < self.edges.len() && self.edges[k] == (walk[walk.len() - 2], to);
            assert(self.edges[k].1 == k + 1);
        }
    }

    /// The tree after the formulas of `chain` were appended below `under`,
    /// the first below `under` and each other below the one before it, all
    /// of them not yet processed.
    pub open spec fn grow(self, under: int, chain: Seq<Formula>) -> Tableau {
        Tableau {
            nodes: self.nodes + Seq::new(
                chain.len(),
                |i: int| (chain[i], TransformationState::Unprocessed),
            ),
            edges: self.edges + Seq::new(
                chain.len(),
                |i: int|
                    (
                        if i == 0 {
                            under
                        } else {
                            self.nodes.len() + i - 1
                        },
                        self.nodes.len() + i,
                    ),
            ),
        }
    }

    /// The tree after both lists of a decomposition were appended below
    /// `leaf`, each as a chain of its own.
    pub open spec fn extend(self, leaf: int, decomposition: Decomposition) -> Tableau {
        self.grow(leaf, decomposition.left).grow(leaf, decomposition.right)
    }

    /// The tree after both lists of a decomposition were appended below
    /// each of the leaves, one leaf after the other.
    pub open spec fn extend_all(self, leaves: Seq<usize>, decomposition: Decomposition) -> Tableau
        decreases leaves.len(),
    {
        if leaves.len() == 0 {
            self
        } else {
            self.extend_all(leaves.drop_last(), decomposition).extend(
                leaves.last() as int,
                decomposition,
            )
        }
    }

    /// The tree after one step of the tableau method on `node`: the
    /// formula at the node is decomposed below each of the leaves, the node
    /// is marked as transformed, and the contradictory branches are closed.
    pub open spec fn step(self, node: int, leaves: Seq<usize>) -> Tableau {
        self.extend_all(leaves, self.formula(node).decompose()).with_state(
            node,
            TransformationState::Transformed,
        ).close_branches()
    }

    /// Whether the list holds, each once, the leaves below `node` that
    /// are not closed.
    pub open spec fn lists_open_leaves(self, node: int, leaves: Seq<usize>) -> bool {
        &&& leaves.no_duplicates()
        &&& forall|leaf: usize| #[trigger]
            leaves.contains(leaf) <==> self.has(leaf as int) && self.is_leaf(leaf as int)
                && self.state(leaf as int) != TransformationState::Closed && self.on_branch(
                node,
                leaf as int,
            )
    }

    /// Whether `node` is the node created first among those not yet
    /// processed.
    pub open spec fn is_next(self, node: int) -> bool {
        &&& self.has(node)
        &&& self.state(node) == TransformationState::Unprocessed
        &&& forall|earlier: int|
            0 <= earlier < node ==> self.state(earlier) != TransformationState::Unprocessed
    }

    /// Whether no node is left to process.
    pub open spec fn is_settled(self) -> bool {
        forall|node: int| self.has(node) ==> self.state(node) != TransformationState::Unprocessed
    }

    /// The tree with the state of one node replaced.
    pub open spec fn with_state(self, node: int, state: TransformationState) -> Tableau {
        Tableau { nodes: self.nodes.update(node, (self.formula(node), state)), edges: self.edges }
    }

    /// The tree after every leaf whose path holds a formula together with its
    /// negation was closed.
    pub open spec fn close_branches(self) -> Tableau {
        Tableau {
            nodes: Seq::new(
                self.nodes.len(),
                |node: int|
                    (
                        self.formula(node),
                        if self.is_leaf(node) && self.contradictory(node) {
                            TransformationState::Closed
                        } else {
                            self.state(node)
                        },
                    ),
            ),
            edges: self.edges,
        }
    }

    /// Whether the two trees differ in the states of their nodes at most.
    pub open spec fn same_shape(self, other: Tableau) -> bool {
        &&& self.edges == other.edges
        &&& self.nodes.len() == other.nodes.len()
        &&& forall|node: int|
            0 <= node < self.nodes.len() ==> (#[trigger] self.nodes[node]).0 == other.nodes[node].0
    }

    /// Trees of the same shape have the same paths, leaves and formulas.
    pub proof fn lemma_same_shape(self, other: Tableau)
        requires
            self.wf(),
            self.same_shape(other),
        ensures
            other.wf(),
            forall|node: int| self.has(node) ==> #[trigger] other.branch(node) == self.branch(node),
            forall|node: int| #[trigger] other.is_leaf(node) == self.is_leaf(node),
            forall|node: int, formula: Formula|
                self.has(node) ==> #[trigger] other.carries(node, formula) == self.carries(
                    node,
                    formula,
                ),
            forall|node: int| self.has(node) ==> #[trigger] other.contradictory(node) == self.contradictory(node),
    {
        assert forall|node: int| self.has(node) implies #[trigger] other.branch(node)
            == self.branch(node) by {
            other.lemma_branch_frame(self, node);
        }
        assert forall|node: int, formula: Formula| self.has(node) implies #[trigger] other.carries(
            node,
            formula,
        ) == self.carries(node, formula) by {
            self.lemma_carries_frame(other, node, formula);
        }
        assert forall|node: int| self.has(node) implies #[trigger] other.contradictory(node)
            == self.contradictory(node) by {
            self.lemma_contradictory_frame(other, node);
        }
    }

    /// Whether the two trees have the same path to `node`, with the same
    /// formulas on it.
    pub open spec fn same_branch(self, other: Tableau, node: int) -> bool {
        &&& self.wf()
        &&& self.has(node)
        &&& other.has(node)
        &&& self.branch(node) == other.branch(node)
        &&& forall|a: int| 0 <= a <= node ==> (#[trigger] self.nodes[a]).0 == other.nodes[a].0
    }

    /// Where two trees have the same path to a node, with the same formulas
    /// on it, the path carries the same formulas in both.
    pub proof fn lemma_carries_frame(self, other: Tableau, node: int, formula: Formula)
        requires
            self.same_branch(other, node),
        ensures
            self.carries(node, formula) == other.carries(node, formula),
    {
        if self.carries(node, formula) {
            let a = choose|a: int| #[trigger] self.on_branch(a, node) && self.formula(a) == formula;
            self.lemma_on_branch_step(a, node);
            assert(other.on_branch(a, node) && other.formula(a) == formula);
        }
        if other.carries(node, formula) {
            let a = choose|a: int| #[trigger]
                other.on_branch(a, node) && other.formula(a) == formula;
            self.lemma_on_branch_step(a, node);
            assert(self.on_branch(a, node) && self.formula(a) == formula);
        }
    }

    /// Where two trees have the same path to a node, with the same formulas
    /// on it, the path is contradictory in both or in neither.
    pub proof fn lemma_contradictory_frame(self, other: Tableau, node: int)
        requires
            self.same_branch(other, node),
        ensures
            self.contradictory(node) == other.contradictory(node),
    {
        if self.contradictory(node) {
            let (a, b) = choose|a: int, b: int|
                #[trigger] self.on_branch(a, node) && #[trigger] self.on_branch(b, node)
                    && self.formula(a) == self.formula(b).not();
            self.lemma_on_branch_step(a, node);
            self.lemma_on_branch_step(b, node);
            assert(other.on_branch(a, node) && other.on_branch(b, node) && other.formula(a)
                == other.formula(b).not());
        }
        if other.contradictory(node) {
            let (a, b) = choose|a: int, b: int|
                #[trigger] other.on_branch(a, node) && #[trigger] other.on_branch(b, node)
                    && other.formula(a) == other.formula(b).not();
            self.lemma_on_branch_step(a, node);
            self.lemma_on_branch_step(b, node);
            assert(self.on_branch(a, node) && self.on_branch(b, node) && self.formula(a)
                == self.formula(b).not());
        }
    }

    /// What a tree looks like after a chain was appended: the old nodes
    /// keep their formulas, states and paths; of the old nodes only `under`
    /// may cease to be a leaf; of the new ones only the last is a leaf, and
    /// the path to a new node is the path to `under` and the new nodes up to
    /// it.
    pub proof fn lemma_grow(self, under: int, chain: Seq<Formula>)
        requires
            self.wf(),
            self.has(under),
        ensures
            self.grow(under, chain).wf(),
            self.grow(under, chain).nodes.len() == self.nodes.len() + chain.len(),
            forall|node: int|
                self.has(node) ==> #[trigger] self.grow(under, chain).nodes[node]
                    == self.nodes[node],
            forall|node: int|
                self.has(node) ==> #[trigger] self.grow(under, chain).branch(node) == self.branch(
                    node,
                ),
            forall|node: int|
                self.has(node) ==> (#[trigger] self.grow(under, chain).is_leaf(node)
                    <==> self.is_leaf(node) && (node != under || chain.len() == 0)),
            forall|node: int|
                self.nodes.len() <= node < self.nodes.len() + chain.len() ==> #[trigger] self.grow(
                    under,
                    chain,
                ).nodes[node] == (chain[node - self.nodes.len()], TransformationState::Unprocessed),
            forall|node: int|
                self.nodes.len() <= node < self.nodes.len() + chain.len() ==> (#[trigger] self.grow(
                    under,
                    chain,
                ).is_leaf(node) <==> node == self.nodes.len() + chain.len() - 1),
            forall|node: int|
                self.nodes.len() <= node < self.nodes.len() + chain.len() ==> #[trigger] self.grow(
                    under,
                    chain,
                ).parent(node) == if node == self.nodes.len() {
                    under
                } else {
                    node - 1
                },
    {
        let grown = self.grow(under, chain);
        let base = self.nodes.len() as int;
        assert forall|k: int| 0 <= k < grown.edges.len() implies (#[trigger] grown.edges[k]).1 == k
            + 1 && 0 <= grown.edges[k].0 <= k by {
            if k < self.edges.len() {
                assert(grown.edges[k] == self.edges[k]);
            }
        }
        assert forall|node: int| self.has(node) implies #[trigger] grown.branch(node)
            == self.branch(node) by {
            assert forall|k: int| 0 <= k < node implies #[trigger] grown.edges[k]
                == self.edges[k] by {}
            grown.lemma_branch_frame(self, node);
        }
        assert forall|node: int| self.has(node) implies (#[trigger] grown.is_leaf(node)
            <==> self.is_leaf(node) && (node != under || chain.len() == 0)) by {
            if grown.is_leaf(node) {
                assert forall|k: int| 0 <= k < self.edges.len() implies (#[trigger] self.edges[k]).0
                    != node by {
                    assert(grown.edges[k] == self.edges[k]);
                }
                if chain.len() > 0 {
                    assert(grown.edges[base - 1].0 == under);
                }
            }
            if self.is_leaf(node) && (node != under || chain.len() == 0) {
                assert forall|k: int| 0 <= k < grown.edges.len() implies (#[trigger] grown.edges[k]).0
                    != node by {
                    if k < self.edges.len() {
                        assert(grown.edges[k] == self.edges[k]);
                    }
                }
            }
        }
        assert forall|node: int| base <= node < base + chain.len() implies (#[trigger] grown.is_leaf(
            node,
        ) <==> node == base + chain.len() - 1) by {
            if node < base + chain.len() - 1 {
                assert(grown.edges[node].0 == node);
            } else {
                assert forall|k: int| 0 <= k < grown.edges.len() implies (#[trigger] grown.edges[k]).0
                    != node by {
                    if k < self.edges.len() {
                        assert(grown.edges[k] == self.edges[k]);
                    }
                }
            }
        }
    }

    /// The path to a node of an appended chain: the path to the node that
    /// the chain hangs from, and the chain's nodes up to the node.
    pub proof fn lemma_grow_branch(self, under: int, chain: Seq<Formula>, node: int, a: int)
        requires
            self.wf(),
            self.has(under),
            self.nodes.len() <= node < self.nodes.len() + chain.len(),
        ensures
            self.grow(under, chain).on_branch(a, node) <==> self.on_branch(a, under)
                || self.nodes.len() <= a <= node,
        decreases node,
    {
        let grown = self.grow(under, chain);
        self.lemma_grow(under, chain);
        grown.lemma_on_branch_step(a, node);
        self.lemma_on_branch_step(a, under);
        if node == self.nodes.len() {
            assert(grown.parent(node) == under);
            assert(grown.branch(under) == self.branch(under));
        } else {
            assert(grown.parent(node) == node - 1);
            self.lemma_grow_branch(under, chain, node - 1, a);
        }
    }
}

} // verus!
