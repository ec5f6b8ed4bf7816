use crate::proof_tree::TransformationState;
use crate::proposition::Formula;
use crate::semantics::{total_weight, Decomposition};
use crate::tableau::Tableau;
use vstd::prelude::*;

verus! {

/// The power of three with the given exponent.
pub open spec fn pow3(exponent: nat) -> nat
    decreases exponent,
{
    if exponent == 0 {
        1
    } else {
        3 * pow3((exponent - 1) as nat)
    }
}

/// Powers of three are positive and grow with the exponent.
pub proof fn lemma_pow3_grows(small: nat, large: nat)
    requires
        small <= large,
    ensures
        0 < pow3(small) <= pow3(large),
        small < large ==> 3 * pow3(small) <= pow3(large),
    decreases large,
{
    if small < large {
        lemma_pow3_grows(small, (large - 1) as nat);
    } else if small > 0 {
        lemma_pow3_grows((small - 1) as nat, (large - 1) as nat);
    }
}

impl Tableau {
    /// The weight of the formula at a node that is not yet processed; 0 for
    /// any other node.
    pub open spec fn pending_weight(self, node: int) -> nat {
        if self.state(node) == TransformationState::Unprocessed {
            self.formula(node).weight()
        } else {
            0
        }
    }

    /// The weights of the formulas not yet processed on the path from the
    /// root to `node`, added up.
    pub open spec fn load(self, node: int) -> nat
        decreases node,
    {
        if 0 < node <= self.edges.len() && 0 <= self.parent(node) < node {
            self.load(self.parent(node)) + self.pending_weight(node)
        } else {
            self.pending_weight(node)
        }
    }

    /// What a node adds to the potential: nothing, unless it is a leaf; for
    /// a leaf, three to the power of its load, where the leaves in `todo`
    /// carry `bonus` on top of their load.
    pub open spec fn term(self, bonus: nat, todo: Set<int>, node: int) -> nat {
        if self.is_leaf(node) {
            pow3(
                self.load(node) + if todo.contains(node) {
                    bonus
                } else {
                    0
                },
            )
        } else {
            0
        }
    }

    /// The terms of the nodes before `upto`, added up.
    pub open spec fn potential(self, bonus: nat, todo: Set<int>, upto: int) -> nat
        decreases upto,
    {
        if upto <= 0 {
            0
        } else {
            self.potential(bonus, todo, upto - 1) + self.term(bonus, todo, upto - 1)
        }
    }

    /// The measure that every step of the tableau method lowers: over all
    /// leaves, three to the power of the leaf's load.
    pub open spec fn measure(self) -> nat {
        self.potential(0, Set::empty(), self.nodes.len() as int)
    }

    /// Term by term, a potential that is no larger.
    pub proof fn lemma_potential_le(
        self,
        bonus: nat,
        todo: Set<int>,
        other: Tableau,
        other_bonus: nat,
        other_todo: Set<int>,
        upto: int,
    )
        requires
            forall|node: int|
                0 <= node < upto ==> #[trigger] self.term(bonus, todo, node) <= other.term(
                    other_bonus,
                    other_todo,
                    node,
                ),
        ensures
            self.potential(bonus, todo, upto) <= other.potential(other_bonus, other_todo, upto),
        decreases upto,
    {
        if upto > 0 {
            self.lemma_potential_le(bonus, todo, other, other_bonus, other_todo, upto - 1);
            assert(self.term(bonus, todo, upto - 1) <= other.term(
                other_bonus,
                other_todo,
                upto - 1,
            ));
        }
    }

    /// Term by term no larger, and smaller in one term: a smaller potential.
    pub proof fn lemma_potential_lt(
        self,
        bonus: nat,
        todo: Set<int>,
        other: Tableau,
        other_bonus: nat,
        other_todo: Set<int>,
        upto: int,
        at: int,
    )
        requires
            forall|node: int|
                0 <= node < upto ==> #[trigger] self.term(bonus, todo, node) <= other.term(
                    other_bonus,
                    other_todo,
                    node,
                ),
            0 <= at < upto,
            self.term(bonus, todo, at) < other.term(other_bonus, other_todo, at),
        ensures
            self.potential(bonus, todo, upto) < other.potential(other_bonus, other_todo, upto),
        decreases upto,
    {
        assert(self.term(bonus, todo, upto - 1) <= other.term(other_bonus, other_todo, upto - 1));
        if at == upto - 1 {
            self.lemma_potential_le(bonus, todo, other, other_bonus, other_todo, upto - 1);
        } else {
            self.lemma_potential_lt(bonus, todo, other, other_bonus, other_todo, upto - 1, at);
        }
    }

    /// Two potentials whose terms agree but for one node differ by that
    /// node's terms.
    pub proof fn lemma_potential_change(
        self,
        bonus: nat,
        todo: Set<int>,
        other: Tableau,
        other_bonus: nat,
        other_todo: Set<int>,
        upto: int,
        at: int,
    )
        requires
            forall|node: int|
                0 <= node < upto && node != at ==> #[trigger] self.term(bonus, todo, node)
                    == other.term(other_bonus, other_todo, node),
            0 <= at < upto,
        ensures
            self.potential(bonus, todo, upto) + other.term(other_bonus, other_todo, at)
                == other.potential(other_bonus, other_todo, upto) + self.term(bonus, todo, at),
        decreases upto,
    {
        if at == upto - 1 {
            self.lemma_potential_le(bonus, todo, other, other_bonus, other_todo, upto - 1);
            other.lemma_potential_le(other_bonus, other_todo, self, bonus, todo, upto - 1);
        } else {
            assert(self.term(bonus, todo, upto - 1) == other.term(
                other_bonus,
                other_todo,
                upto - 1,
            ));
            self.lemma_potential_change(bonus, todo, other, other_bonus, other_todo, upto - 1, at);
        }
    }

    /// Nodes that are no leaves add nothing to the potential.
    pub proof fn lemma_potential_skip(self, bonus: nat, todo: Set<int>, from: int, upto: int)
        requires
            from <= upto,
            forall|node: int| from <= node < upto ==> !#[trigger] self.is_leaf(node),
        ensures
            self.potential(bonus, todo, upto) == self.potential(bonus, todo, from),
        decreases upto - from,
    {
        if from < upto {
            assert(!self.is_leaf(upto - 1));
            self.lemma_potential_skip(bonus, todo, from, upto - 1);
        }
    }

    /// The load of a node depends only on the path to it and on the nodes
    /// there.
    pub proof fn lemma_load_frame(self, other: Tableau, node: int)
        requires
            0 <= node,
            self.agrees_up_to(other, node),
            forall|a: int| 0 <= a <= node ==> #[trigger] self.nodes[a] == other.nodes[a],
        ensures
            self.load(node) == other.load(node),
        decreases node,
    {
        if 0 < node {
            assert(self.edges[node - 1] == other.edges[node - 1]);
            assert(self.nodes[node] == other.nodes[node]);
            if 0 <= self.parent(node) < node {
                self.lemma_load_frame(other, self.parent(node));
            }
        } else {
            assert(self.nodes[node] == other.nodes[node]);
        }
    }

    /// Where nodes only leave the state of an unprocessed node, no load
    /// grows.
    pub proof fn lemma_load_le(self, other: Tableau, node: int)
        requires
            self.wf(),
            self.same_shape(other),
            self.has(node),
            forall|a: int|
                self.has(a) ==> #[trigger] other.pending_weight(a) <= self.pending_weight(a),
        ensures
            other.load(node) <= self.load(node),
        decreases node,
    {
        assert(other.pending_weight(node) <= self.pending_weight(node));
        if 0 < node {
            assert(self.edges[node - 1].0 <= node - 1);
            self.lemma_load_le(other, self.parent(node));
        }
    }

    /// Marking a node as transformed takes the weight of its formula off
    /// the load of the nodes below it, and off no other load.
    pub proof fn lemma_load_marked(self, pending: int, node: int)
        requires
            self.wf(),
            self.has(pending),
            self.has(node),
            self.state(pending) == TransformationState::Unprocessed,
        ensures
            self.load(node) == self.with_state(pending, TransformationState::Transformed).load(
                node,
            ) + if self.on_branch(pending, node) {
                self.formula(pending).weight()
            } else {
                0
            },
        decreases node,
    {
        let marked = self.with_state(pending, TransformationState::Transformed);
        self.lemma_on_branch_step(pending, node);
        if 0 < node {
            assert(self.edges[node - 1].0 <= node - 1);
            self.lemma_load_marked(pending, self.parent(node));
            self.lemma_on_branch_step(pending, self.parent(node));
        }
    }

    /// Below every node there is a leaf.
    pub proof fn lemma_leaf_below(self, node: int) -> (leaf: int)
        requires
            self.wf(),
            self.has(node),
        ensures
            self.has(leaf),
            self.is_leaf(leaf),
            self.on_branch(node, leaf),
        decreases self.nodes.len() - node,
    {
        if self.is_leaf(node) {
            self.lemma_branch_ends(node);
            node
        } else {
            let k = choose|k: int| 0 <= k < self.edges.len() && (#[trigger] self.edges[k]).0 == node;
            let child = k + 1;
            assert(self.edges[k].1 == k + 1);
            let leaf = self.lemma_leaf_below(child);
            self.lemma_branch_ends(node);
            self.lemma_on_branch_step(node, child);
            self.lemma_on_branch_trans(node, child, leaf);
            leaf
        }
    }

    /// The load of a node of an appended chain: the load of the node that
    /// the chain hangs from, and the weights of the chain's formulas up to
    /// the node.
    pub proof fn lemma_grow_load(self, under: int, chain: Seq<Formula>, i: int)
        requires
            self.wf(),
            self.has(under),
            0 <= i < chain.len(),
        ensures
            self.grow(under, chain).load(self.nodes.len() + i) == self.load(under) + total_weight(
                chain.take(i + 1),
            ),
        decreases i,
    {
        let grown = self.grow(under, chain);
        let node = self.nodes.len() + i;
        self.lemma_grow(under, chain);
        assert(grown.edges[node - 1].1 == node);
        assert(grown.nodes[node] == (chain[i], TransformationState::Unprocessed));
        assert(chain.take(i + 1).drop_last() =~= chain.take(i));
        assert(chain.take(i + 1).last() == chain[i]);
        if i == 0 {
            assert(grown.parent(node) == under);
            assert(grown.load(under) == self.load(under)) by {
                assert forall|k: int| 0 <= k < under implies #[trigger] grown.edges[k]
                    == self.edges[k] by {}
                assert forall|a: int| 0 <= a <= under implies #[trigger] grown.nodes[a]
                    == self.nodes[a] by {}
                grown.lemma_load_frame(self, under);
            }
            assert(total_weight(chain.take(0)) == 0);
        } else {
            assert(grown.parent(node) == node - 1);
            self.lemma_grow_load(under, chain, i - 1);
        }
    }

    /// An extension below a leaf that carries the bonus lowers the
    /// potential: the leaf gives way to at most two leaves, each with a load
    /// below the leaf's load and bonus.
    pub proof fn lemma_extend_potential(
        self,
        leaf: int,
        d: Decomposition,
        bonus: nat,
        todo: Set<int>,
    )
        requires
            self.wf(),
            self.has(leaf),
            self.is_leaf(leaf),
            todo.contains(leaf),
            forall|x: int| todo.contains(x) ==> self.has(x),
            d.left.len() == 0 ==> d.right.len() == 0,
            total_weight(d.left) < bonus,
            total_weight(d.right) < bonus,
        ensures
            self.extend(leaf, d).potential(
                bonus,
                todo.remove(leaf),
                self.extend(leaf, d).nodes.len() as int,
            ) < self.potential(bonus, todo, self.nodes.len() as int),
    {
        let first = self.grow(leaf, d.left);
        let grown = self.extend(leaf, d);
        let rest = todo.remove(leaf);
        let k = self.nodes.len() as int;
        let b1 = k + d.left.len();
        let b2 = b1 + d.right.len();
        let load = self.load(leaf);
        self.lemma_extend(leaf, d);
        self.lemma_grow(leaf, d.left);
        first.lemma_grow(leaf, d.right);
        assert forall|e: int| 0 <= e < self.edges.len() implies #[trigger] grown.edges[e]
            == self.edges[e] by {
            assert(first.edges[e] == self.edges[e]);
        }
        assert forall|e: int| 0 <= e < first.edges.len() implies #[trigger] grown.edges[e]
            == first.edges[e] by {}
        assert forall|node: int| 0 <= node < k implies #[trigger] grown.load(node) == self.load(
            node,
        ) by {
            assert forall|a: int| 0 <= a <= node implies #[trigger] grown.nodes[a]
                == self.nodes[a] by {}
            grown.lemma_load_frame(self, node);
        }
        assert forall|node: int| 0 <= node < k && node != leaf implies #[trigger] grown.term(
            bonus,
            rest,
            node,
        ) == self.term(bonus, todo, node) by {
            assert(grown.load(node) == self.load(node));
        }
        grown.lemma_potential_change(bonus, rest, self, bonus, todo, k, leaf);
        assert(self.term(bonus, todo, leaf) == pow3(load + bonus));
        assert(grown.load(leaf) == load);
        lemma_pow3_grows(load, load + bonus);
        if d.left.len() == 0 {
            assert(grown.term(bonus, rest, leaf) == pow3(load));
            assert(b2 == k);
        } else {
            assert(grown.term(bonus, rest, leaf) == 0);
            grown.lemma_potential_skip(bonus, rest, k, b1 - 1);
            assert(grown.potential(bonus, rest, b1) == grown.potential(bonus, rest, b1 - 1)
                + grown.term(bonus, rest, b1 - 1));
            assert(grown.load(b1 - 1) == load + total_weight(d.left)) by {
                self.lemma_grow_load(leaf, d.left, d.left.len() - 1);
                assert(d.left.take(d.left.len() as int) =~= d.left);
                assert forall|a: int| 0 <= a <= b1 - 1 implies #[trigger] grown.nodes[a]
                    == first.nodes[a] by {}
                grown.lemma_load_frame(first, b1 - 1);
            }
            assert(grown.is_leaf(b1 - 1));
            assert(!rest.contains(b1 - 1));
            assert(grown.term(bonus, rest, b1 - 1) == pow3(load + total_weight(d.left)));
            lemma_pow3_grows(load + total_weight(d.left), load + bonus);
            if d.right.len() == 0 {
                assert(b2 == b1);
            } else {
                grown.lemma_potential_skip(bonus, rest, b1, b2 - 1);
                assert(grown.potential(bonus, rest, b2) == grown.potential(bonus, rest, b2 - 1)
                    + grown.term(bonus, rest, b2 - 1));
                assert(grown.load(b2 - 1) == load + total_weight(d.right)) by {
                    first.lemma_grow_load(leaf, d.right, d.right.len() - 1);
                    assert(d.right.take(d.right.len() as int) =~= d.right);
                    assert forall|e: int| 0 <= e < leaf implies #[trigger] first.edges[e]
                        == self.edges[e] by {}
                    assert forall|a: int| 0 <= a <= leaf implies #[trigger] first.nodes[a]
                        == self.nodes[a] by {}
                    first.lemma_load_frame(self, leaf);
                }
                assert(grown.is_leaf(b2 - 1));
                assert(!rest.contains(b2 - 1));
                assert(grown.term(bonus, rest, b2 - 1) == pow3(load + total_weight(d.right)));
                lemma_pow3_grows(load + total_weight(d.right), load + bonus);
            }
        }
    }

    /// When a node is marked as transformed and the leaves in `todo`, all
    /// of them below the node, take the weight of its formula as their
    /// bonus, the potential is at most the measure that the tree had; it is
    /// smaller if a leaf below the node stays without the bonus.
    pub proof fn lemma_mark_potential(self, pending: int, todo: Set<int>)
        requires
            self.wf(),
            self.has(pending),
            self.state(pending) == TransformationState::Unprocessed,
            forall|x: int| todo.contains(x) ==> self.has(x) && self.on_branch(pending, x),
        ensures
            self.with_state(pending, TransformationState::Transformed).potential(
                self.formula(pending).weight(),
                todo,
                self.nodes.len() as int,
            ) <= self.measure(),
            (exists|spare: int|
                self.has(spare) && #[trigger] self.is_leaf(spare) && self.on_branch(pending, spare)
                    && !todo.contains(spare)) ==> self.with_state(
                pending,
                TransformationState::Transformed,
            ).potential(self.formula(pending).weight(), todo, self.nodes.len() as int)
                < self.measure(),
    {
        let marked = self.with_state(pending, TransformationState::Transformed);
        let bonus = self.formula(pending).weight();
        let none = Set::<int>::empty();
        let k = self.nodes.len() as int;
        assert(self.same_shape(marked));
        self.lemma_same_shape(marked);
        assert(bonus > 0) by {
            reveal_with_fuel(Formula::weight, 1);
        }
        assert forall|node: int| 0 <= node < k implies #[trigger] marked.term(bonus, todo, node)
            <= self.term(0, none, node) by {
            self.lemma_load_marked(pending, node);
            if self.is_leaf(node) {
                lemma_pow3_grows(
                    marked.load(node) + if todo.contains(node) {
                        bonus
                    } else {
                        0
                    },
                    self.load(node),
                );
            }
        }
        marked.lemma_potential_le(bonus, todo, self, 0, none, k);
        if exists|spare: int|
            self.has(spare) && #[trigger] self.is_leaf(spare) && self.on_branch(pending, spare)
                && !todo.contains(spare) {
            let spare = choose|spare: int|
                self.has(spare) && #[trigger] self.is_leaf(spare) && self.on_branch(pending, spare)
                    && !todo.contains(spare);
            self.lemma_load_marked(pending, spare);
            lemma_pow3_grows(marked.load(spare), self.load(spare));
            marked.lemma_potential_lt(bonus, todo, self, 0, none, k, spare);
        }
    }

    /// Where no leaf carries the bonus, the potential is the measure.
    pub proof fn lemma_potential_without_bonus(self, bonus: nat)
        ensures
            self.potential(bonus, Set::empty(), self.nodes.len() as int) == self.measure(),
    {
        let none = Set::<int>::empty();
        let k = self.nodes.len() as int;
        self.lemma_potential_le(bonus, none, self, 0, none, k);
        self.lemma_potential_le(0, none, self, bonus, none, k);
    }

    /// Closing branches does not raise the measure.
    pub proof fn lemma_close_measure(self)
        requires
            self.wf(),
        ensures
            self.close_branches().measure() <= self.measure(),
    {
        let closed = self.close_branches();
        let none = Set::<int>::empty();
        let k = self.nodes.len() as int;
        assert(self.same_shape(closed));
        self.lemma_same_shape(closed);
        assert forall|node: int| 0 <= node < k implies #[trigger] closed.term(0, none, node)
            <= self.term(0, none, node) by {
            self.lemma_load_le(closed, node);
            if self.is_leaf(node) {
                lemma_pow3_grows(closed.load(node), self.load(node));
            }
        }
        closed.lemma_potential_le(0, none, self, 0, none, k);
    }

    /// It makes no difference whether a node is marked before or after an
    /// extension.
    pub proof fn lemma_mark_commutes(
        self,
        pending: int,
        state: TransformationState,
        leaf: int,
        d: Decomposition,
    )
        requires
            self.has(pending),
        ensures
            self.with_state(pending, state).extend(leaf, d) == self.extend(leaf, d).with_state(
                pending,
                state,
            ),
    {
        let a = self.with_state(pending, state).extend(leaf, d);
        let b = self.extend(leaf, d).with_state(pending, state);
        assert(a.nodes =~= b.nodes);
        assert(a.edges =~= b.edges);
    }
}

} // verus!
