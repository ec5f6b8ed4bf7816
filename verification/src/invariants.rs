use crate::proof_tree::TransformationState;
use crate::proposition::Formula;
use crate::semantics::{
    all_in, all_true, consistent, lemma_decompose_shape, lemma_decompose_sound,
    lemma_decompose_void_free, lemma_saturated_set_is_model, saturated, Decomposition, Valuation,
};
use crate::tableau::Tableau;
use vstd::prelude::*;

verus! {

impl Tableau {
    /// Whether every formula on the path to `node` is true under the valuation.
    pub open spec fn true_branch(self, node: int, valuation: Valuation) -> bool {
        forall|a: int| #[trigger] self.on_branch(a, node) ==> self.formula(a).eval(valuation)
    }

    /// Whether `leaf` is a leaf that is not closed.
    pub open spec fn open_leaf(self, leaf: int) -> bool {
        self.has(leaf) && self.is_leaf(leaf) && self.state(leaf) != TransformationState::Closed
    }

    /// The formulas on the path from the root to `node`.
    pub open spec fn branch_formulas(self, node: int) -> Set<Formula> {
        Set::new(|formula: Formula| self.carries(node, formula))
    }

    /// Whether the path to `leaf` holds one of the two lists that the
    /// formula at `node` decomposes into.
    pub open spec fn expanded_on(self, node: int, leaf: int) -> bool {
        self.formula(node).decompose().present_in(self.branch_formulas(leaf))
    }

    /// Only leaves are closed, and only those whose path holds a formula
    /// together with its negation.
    pub open spec fn closures_justified(self) -> bool {
        forall|node: int|
            self.has(node) && #[trigger] self.state(node) == TransformationState::Closed
                ==> self.is_leaf(node) && self.contradictory(node)
    }

    /// Whatever valuation makes the root true makes a whole branch true.
    pub open spec fn sound(self) -> bool {
        forall|valuation: Valuation| #[trigger]
            self.formula(0).eval(valuation) ==> exists|leaf: int|
                self.has(leaf) && self.is_leaf(leaf) && #[trigger] self.true_branch(
                    leaf,
                    valuation,
                )
    }

    /// Every open branch holds the decomposition of each of its transformed
    /// nodes.
    pub open spec fn branches_saturated(self) -> bool {
        forall|leaf: int, a: int|
            self.open_leaf(leaf) && #[trigger] self.on_branch(a, leaf) && self.state(a)
                == TransformationState::Transformed ==> self.expanded_on(a, leaf)
    }

    /// Every open branch through `pending` holds the decomposition of the
    /// formula there, but for the branches of the leaves in `todo`.
    pub open spec fn expanding(self, pending: int, todo: Set<int>) -> bool {
        forall|leaf: int|
            self.open_leaf(leaf) && #[trigger] self.on_branch(pending, leaf) ==> self.expanded_on(
                pending,
                leaf,
            ) || todo.contains(leaf)
    }

    /// No open branch holds a formula together with its negation.
    pub open spec fn open_branches_consistent(self) -> bool {
        forall|leaf: int| #[trigger] self.open_leaf(leaf) ==> !self.contradictory(leaf)
    }

    /// The placeholder occurs in the tree only if it occurs in the root.
    pub open spec fn void_only_from_root(self) -> bool {
        self.formula(0).void_free() ==> forall|node: int|
            self.has(node) ==> (#[trigger] self.nodes[node]).0.void_free()
    }

    /// What holds of a proof tree between any two steps of its growth.
    pub open spec fn inv(self) -> bool {
        &&& self.wf()
        &&& self.closures_justified()
        &&& self.sound()
        &&& self.branches_saturated()
        &&& self.void_only_from_root()
    }

    /// What a tree looks like after both lists of a decomposition were
    /// appended below a node.
    pub proof fn lemma_extend(self, leaf: int, d: Decomposition)
        requires
            self.wf(),
            self.has(leaf),
        ensures
            self.extend(leaf, d).wf(),
            self.extend(leaf, d).nodes.len() == self.nodes.len() + d.left.len() + d.right.len(),
            forall|node: int|
                self.has(node) ==> #[trigger] self.extend(leaf, d).nodes[node] == self.nodes[node],
            forall|node: int|
                self.has(node) ==> #[trigger] self.extend(leaf, d).branch(node) == self.branch(
                    node,
                ),
            forall|node: int|
                self.has(node) ==> (#[trigger] self.extend(leaf, d).is_leaf(node) <==> self.is_leaf(
                    node,
                ) && (node != leaf || d.left.len() + d.right.len() == 0)),
            forall|node: int|
                self.nodes.len() <= node < self.nodes.len() + d.left.len()
                    ==> #[trigger] self.extend(leaf, d).nodes[node] == (
                    d.left[node - self.nodes.len()],
                    TransformationState::Unprocessed,
                ),
            forall|node: int|
                self.nodes.len() + d.left.len() <= node < self.nodes.len() + d.left.len()
                    + d.right.len() ==> #[trigger] self.extend(leaf, d).nodes[node] == (
                    d.right[node - self.nodes.len() - d.left.len()],
                    TransformationState::Unprocessed,
                ),
            forall|node: int|
                self.nodes.len() <= node < self.nodes.len() + d.left.len() + d.right.len() ==> (
                #[trigger] self.extend(leaf, d).is_leaf(node) <==> (d.left.len() > 0 && node
                    == self.nodes.len() + d.left.len() - 1) || (d.right.len() > 0 && node
                    == self.nodes.len() + d.left.len() + d.right.len() - 1)),
            forall|a: int, node: int|
                self.nodes.len() <= node < self.nodes.len() + d.left.len() ==> (
                #[trigger] self.extend(leaf, d).on_branch(a, node) <==> self.on_branch(a, leaf)
                    || self.nodes.len() <= a <= node),
            forall|a: int, node: int|
                self.nodes.len() + d.left.len() <= node < self.nodes.len() + d.left.len()
                    + d.right.len() ==> (#[trigger] self.extend(leaf, d).on_branch(a, node)
                    <==> self.on_branch(a, leaf) || self.nodes.len() + d.left.len() <= a <= node),
    {
        let first = self.grow(leaf, d.left);
        let second = first.grow(leaf, d.right);
        self.lemma_grow(leaf, d.left);
        first.lemma_grow(leaf, d.right);
        assert forall|node: int| self.has(node) implies #[trigger] second.nodes[node]
            == self.nodes[node] by {
            assert(first.nodes[node] == self.nodes[node]);
        }
        assert forall|node: int| self.has(node) implies #[trigger] second.branch(node)
            == self.branch(node) by {
            assert(first.branch(node) == self.branch(node));
        }
        assert forall|node: int| self.has(node) implies (#[trigger] second.is_leaf(node)
            <==> self.is_leaf(node) && (node != leaf || d.left.len() + d.right.len() == 0)) by {
            assert(first.is_leaf(node) <==> self.is_leaf(node) && (node != leaf || d.left.len()
                == 0));
        }
        assert forall|node: int|
            self.nodes.len() <= node < self.nodes.len() + d.left.len() implies #[trigger] second.nodes[node]
            == (d.left[node - self.nodes.len()], TransformationState::Unprocessed) by {
            assert(first.nodes[node] == (
                d.left[node - self.nodes.len()],
                TransformationState::Unprocessed,
            ));
        }
        assert forall|node: int|
            self.nodes.len() <= node < self.nodes.len() + d.left.len() + d.right.len() implies (
        #[trigger] second.is_leaf(node) <==> (d.left.len() > 0 && node == self.nodes.len()
            + d.left.len() - 1) || (d.right.len() > 0 && node == self.nodes.len() + d.left.len()
            + d.right.len() - 1)) by {
            if node < self.nodes.len() + d.left.len() {
                assert(first.is_leaf(node) <==> node == self.nodes.len() + d.left.len() - 1);
            }
        }
        assert forall|a: int, node: int|
            self.nodes.len() <= node < self.nodes.len() + d.left.len() implies (
        #[trigger] second.on_branch(a, node) <==> self.on_branch(a, leaf) || self.nodes.len() <= a
            <= node) by {
            self.lemma_grow_branch(leaf, d.left, node, a);
            assert(second.branch(node) == first.branch(node));
        }
        assert forall|a: int, node: int|
            self.nodes.len() + d.left.len() <= node < self.nodes.len() + d.left.len()
                + d.right.len() implies (#[trigger] second.on_branch(a, node) <==> self.on_branch(
            a,
            leaf,
        ) || self.nodes.len() + d.left.len() <= a <= node) by {
            first.lemma_grow_branch(leaf, d.right, node, a);
            assert(first.branch(leaf) == self.branch(leaf));
        }
    }

    /// What the lemmas on one extension ask for: the formula at `pending`
    /// is decomposed below `leaf`, an open leaf on a branch through `pending`.
    pub open spec fn can_extend(self, pending: int, leaf: int) -> bool {
        &&& self.wf()
        &&& self.has(pending)
        &&& self.open_leaf(leaf)
        &&& self.on_branch(pending, leaf)
    }

    /// The tree after the formula at `pending` was decomposed below `leaf`.
    pub open spec fn expand_at(self, pending: int, leaf: int) -> Tableau {
        self.extend(leaf, self.formula(pending).decompose())
    }

    /// An old node has the same formulas on its path after an extension.
    pub proof fn lemma_extend_keeps_formulas(self, d: Decomposition, leaf: int, node: int)
        requires
            self.wf(),
            self.has(leaf),
            self.has(node),
        ensures
            self.extend(leaf, d).branch_formulas(node) == self.branch_formulas(node),
            self.extend(leaf, d).contradictory(node) == self.contradictory(node),
    {
        let grown = self.extend(leaf, d);
        self.lemma_extend(leaf, d);
        assert(self.same_branch(grown, node)) by {
            assert(grown.branch(node) == self.branch(node));
            assert forall|a: int| 0 <= a <= node implies (#[trigger] self.nodes[a]).0
                == grown.nodes[a].0 by {
                assert(grown.nodes[a] == self.nodes[a]);
            }
        }
        assert forall|formula: Formula|
            grown.branch_formulas(node).contains(formula) == self.branch_formulas(node).contains(
                formula,
            ) by {
            self.lemma_carries_frame(grown, node, formula);
        }
        assert(grown.branch_formulas(node) =~= self.branch_formulas(node));
        self.lemma_contradictory_frame(grown, node);
    }

    /// A new node has on its path the formulas on the path to the leaf
    /// that was extended.
    pub proof fn lemma_extend_inherits_formulas(self, d: Decomposition, leaf: int, node: int)
        requires
            self.wf(),
            self.has(leaf),
            self.nodes.len() <= node < self.nodes.len() + d.left.len() + d.right.len(),
        ensures
            self.branch_formulas(leaf).subset_of(self.extend(leaf, d).branch_formulas(node)),
    {
        let grown = self.extend(leaf, d);
        self.lemma_extend(leaf, d);
        assert forall|formula: Formula|
            self.branch_formulas(leaf).contains(formula) implies grown.branch_formulas(
            node,
        ).contains(formula) by {
            let a = choose|a: int| #[trigger] self.on_branch(a, leaf) && self.formula(a) == formula;
            self.lemma_on_branch_step(a, leaf);
            assert(grown.nodes[a] == self.nodes[a]);
            assert(grown.on_branch(a, node) && grown.formula(a) == formula);
        }
    }

    /// An extension keeps the closures justified.
    pub proof fn lemma_extend_closures(self, pending: int, leaf: int)
        requires
            self.can_extend(pending, leaf),
            self.closures_justified(),
        ensures
            self.expand_at(pending, leaf).closures_justified(),
    {
        let d = self.formula(pending).decompose();
        let grown = self.extend(leaf, d);
        self.lemma_extend(leaf, d);
        assert forall|node: int|
            grown.has(node) && #[trigger] grown.state(node)
                == TransformationState::Closed implies grown.is_leaf(node) && grown.contradictory(
            node,
        ) by {
            if self.has(node) {
                assert(grown.nodes[node] == self.nodes[node]);
                assert(self.state(node) == TransformationState::Closed);
                self.lemma_extend_keeps_formulas(d, leaf, node);
            } else if node < self.nodes.len() + d.left.len() {
                assert(grown.nodes[node].1 == TransformationState::Unprocessed);
            } else {
                assert(grown.nodes[node].1 == TransformationState::Unprocessed);
            }
        }
    }

    /// An extension keeps the tree sound: a valuation that made the
    /// extended branch true makes one of the two new branches true.
    pub proof fn lemma_extend_sound(self, pending: int, leaf: int)
        requires
            self.can_extend(pending, leaf),
            self.sound(),
        ensures
            self.expand_at(pending, leaf).sound(),
    {
        let d = self.formula(pending).decompose();
        let grown = self.extend(leaf, d);
        let base = self.nodes.len() as int;
        self.lemma_extend(leaf, d);
        lemma_decompose_shape(self.formula(pending));
        assert forall|valuation: Valuation| #[trigger]
            grown.formula(0).eval(valuation) implies exists|x: int|
            grown.has(x) && grown.is_leaf(x) && #[trigger] grown.true_branch(x, valuation) by {
            assert(grown.nodes[0] == self.nodes[0]);
            assert(self.formula(0).eval(valuation));
            let x = choose|x: int|
                self.has(x) && self.is_leaf(x) && #[trigger] self.true_branch(x, valuation);
            if x != leaf || d.left.len() + d.right.len() == 0 {
                assert(grown.is_leaf(x));
                assert(grown.branch(x) == self.branch(x));
                assert forall|a: int| #[trigger] grown.on_branch(a, x) implies grown.formula(
                    a,
                ).eval(valuation) by {
                    self.lemma_on_branch_step(a, x);
                    assert(self.on_branch(a, x));
                    assert(grown.nodes[a] == self.nodes[a]);
                }
                assert(grown.true_branch(x, valuation));
            } else {
                assert(self.on_branch(pending, leaf));
                assert(self.formula(pending).eval(valuation));
                lemma_decompose_sound(self.formula(pending), valuation);
                if all_true(d.left, valuation) {
                    let y = base + d.left.len() - 1;
                    assert forall|a: int| #[trigger] grown.on_branch(a, y) implies grown.formula(
                        a,
                    ).eval(valuation) by {
                        if self.on_branch(a, leaf) {
                            self.lemma_on_branch_step(a, leaf);
                            assert(grown.nodes[a] == self.nodes[a]);
                        } else {
                            assert(grown.nodes[a].0 == d.left[a - base]);
                        }
                    }
                    assert(grown.is_leaf(y));
                    assert(grown.true_branch(y, valuation));
                } else {
                    let y = base + d.left.len() + d.right.len() - 1;
                    assert forall|a: int| #[trigger] grown.on_branch(a, y) implies grown.formula(
                        a,
                    ).eval(valuation) by {
                        if self.on_branch(a, leaf) {
                            self.lemma_on_branch_step(a, leaf);
                            assert(grown.nodes[a] == self.nodes[a]);
                        } else {
                            assert(grown.nodes[a].0 == d.right[a - base - d.left.len()]);
                        }
                    }
                    assert(grown.is_leaf(y));
                    assert(grown.true_branch(y, valuation));
                }
            }
        }
    }

    /// An extension keeps the open branches saturated.
    pub proof fn lemma_extend_saturated(self, pending: int, leaf: int)
        requires
            self.can_extend(pending, leaf),
            self.branches_saturated(),
        ensures
            self.expand_at(pending, leaf).branches_saturated(),
    {
        let d = self.formula(pending).decompose();
        let grown = self.extend(leaf, d);
        let base = self.nodes.len() as int;
        self.lemma_extend(leaf, d);
        assert forall|y: int, a: int|
            grown.open_leaf(y) && #[trigger] grown.on_branch(a, y) && grown.state(a)
                == TransformationState::Transformed implies grown.expanded_on(a, y) by {
            if self.has(y) {
                assert(grown.nodes[y] == self.nodes[y]);
                assert(grown.branch(y) == self.branch(y));
                self.lemma_on_branch_step(a, y);
                assert(grown.nodes[a] == self.nodes[a]);
                assert(self.expanded_on(a, y));
                self.lemma_extend_keeps_formulas(d, leaf, y);
            } else {
                if y < base + d.left.len() {
                    assert(grown.on_branch(a, y) <==> self.on_branch(a, leaf) || base <= a <= y);
                } else {
                    assert(grown.on_branch(a, y) <==> self.on_branch(a, leaf) || base
                        + d.left.len() <= a <= y);
                }
                if self.on_branch(a, leaf) {
                    self.lemma_on_branch_step(a, leaf);
                    assert(grown.nodes[a] == self.nodes[a]);
                    assert(self.expanded_on(a, leaf));
                    self.lemma_extend_inherits_formulas(d, leaf, y);
                    lemma_present_in_larger(
                        self.formula(a).decompose(),
                        self.branch_formulas(leaf),
                        grown.branch_formulas(y),
                    );
                } else if a < base + d.left.len() {
                    assert(grown.nodes[a].1 == TransformationState::Unprocessed);
                } else {
                    assert(grown.nodes[a].1 == TransformationState::Unprocessed);
                }
            }
        }
    }

    /// After an extension below `leaf`, the decomposition stands on the
    /// branches that replace the one that ended at `leaf`.
    pub proof fn lemma_extend_expanding(self, pending: int, leaf: int, todo: Set<int>)
        requires
            self.can_extend(pending, leaf),
            self.expanding(pending, todo),
        ensures
            self.expand_at(pending, leaf).expanding(pending, todo.remove(leaf)),
    {
        let d = self.formula(pending).decompose();
        let grown = self.extend(leaf, d);
        let base = self.nodes.len() as int;
        self.lemma_extend(leaf, d);
        lemma_decompose_shape(self.formula(pending));
        assert(grown.nodes[pending] == self.nodes[pending]);
        assert forall|y: int| grown.open_leaf(y) && #[trigger] grown.on_branch(pending, y) implies grown.expanded_on(
            pending,
            y,
        ) || todo.remove(leaf).contains(y) by {
            let set = grown.branch_formulas(y);
            if self.has(y) {
                assert(grown.nodes[y] == self.nodes[y]);
                assert(grown.branch(y) == self.branch(y));
                self.lemma_extend_keeps_formulas(d, leaf, y);
                if y == leaf {
                    assert(all_in(d.left, set));
                } else {
                    assert(self.open_leaf(y) && self.on_branch(pending, y));
                }
            } else if y < base + d.left.len() {
                assert forall|i: int| 0 <= i < d.left.len() implies set.contains(
                    #[trigger] d.left[i],
                ) by {
                    assert(grown.on_branch(base + i, y));
                    assert(grown.nodes[base + i].0 == d.left[i]);
                }
            } else {
                assert forall|i: int| 0 <= i < d.right.len() implies set.contains(
                    #[trigger] d.right[i],
                ) by {
                    assert(grown.on_branch(base + d.left.len() + i, y));
                    assert(grown.nodes[base + d.left.len() + i].0 == d.right[i]);
                }
            }
        }
    }

    /// An extension brings the placeholder into the tree only if it was
    /// there.
    pub proof fn lemma_extend_void(self, pending: int, leaf: int)
        requires
            self.can_extend(pending, leaf),
            self.void_only_from_root(),
        ensures
            self.expand_at(pending, leaf).void_only_from_root(),
    {
        let d = self.formula(pending).decompose();
        let grown = self.extend(leaf, d);
        let base = self.nodes.len() as int;
        self.lemma_extend(leaf, d);
        assert(grown.nodes[0] == self.nodes[0]);
        if self.formula(0).void_free() {
            assert(self.nodes[pending].0.void_free());
            lemma_decompose_void_free(self.formula(pending));
            assert forall|node: int| grown.has(node) implies (#[trigger] grown.nodes[node]).0.void_free() by {
                if self.has(node) {
                    assert(grown.nodes[node] == self.nodes[node]);
                    assert(self.nodes[node].0.void_free());
                } else if node < base + d.left.len() {
                    assert(grown.nodes[node].0 == d.left[node - base]);
                } else {
                    assert(grown.nodes[node].0 == d.right[node - base - d.left.len()]);
                }
            }
        }
    }

    /// Trees of the same shape have the same formulas on each path.
    pub proof fn lemma_same_shape_formulas(self, other: Tableau, node: int)
        requires
            self.wf(),
            self.same_shape(other),
            self.has(node),
        ensures
            other.branch_formulas(node) == self.branch_formulas(node),
    {
        self.lemma_same_shape(other);
        assert forall|formula: Formula|
            other.branch_formulas(node).contains(formula) == self.branch_formulas(node).contains(
                formula,
            ) by {
            assert(other.carries(node, formula) == self.carries(node, formula));
        }
        assert(other.branch_formulas(node) =~= self.branch_formulas(node));
    }

    /// Once the decomposition of the formula at `pending` stands on every
    /// open branch through it, the node can be marked as transformed.
    pub proof fn lemma_mark_inv(self, pending: int)
        requires
            self.inv(),
            self.has(pending),
            self.state(pending) == TransformationState::Unprocessed,
            self.expanding(pending, Set::empty()),
        ensures
            self.with_state(pending, TransformationState::Transformed).inv(),
            self.open_branches_consistent() ==> self.with_state(
                pending,
                TransformationState::Transformed,
            ).open_branches_consistent(),
    {
        let marked = self.with_state(pending, TransformationState::Transformed);
        assert(self.same_shape(marked));
        self.lemma_same_shape(marked);
        assert forall|node: int|
            marked.has(node) && #[trigger] marked.state(node)
                == TransformationState::Closed implies marked.is_leaf(node) && marked.contradictory(
            node,
        ) by {
            assert(self.state(node) == TransformationState::Closed);
        }
        assert forall|valuation: Valuation| #[trigger]
            marked.formula(0).eval(valuation) implies exists|x: int|
            marked.has(x) && marked.is_leaf(x) && #[trigger] marked.true_branch(x, valuation) by {
            assert(self.formula(0).eval(valuation));
            let x = choose|x: int|
                self.has(x) && self.is_leaf(x) && #[trigger] self.true_branch(x, valuation);
            assert forall|a: int| #[trigger] marked.on_branch(a, x) implies marked.formula(a).eval(
                valuation,
            ) by {
                self.lemma_on_branch_step(a, x);
                assert(self.on_branch(a, x));
                assert(self.nodes[a].0 == marked.nodes[a].0);
            }
            assert(marked.true_branch(x, valuation));
        }
        assert forall|y: int, a: int|
            marked.open_leaf(y) && #[trigger] marked.on_branch(a, y) && marked.state(a)
                == TransformationState::Transformed implies marked.expanded_on(a, y) by {
            assert(self.open_leaf(y));
            assert(self.on_branch(a, y));
            self.lemma_on_branch_step(a, y);
            self.lemma_same_shape_formulas(marked, y);
            assert(self.nodes[a].0 == marked.nodes[a].0);
            if a != pending {
                assert(self.state(a) == TransformationState::Transformed);
                assert(self.expanded_on(a, y));
            } else {
                assert(self.expanded_on(pending, y));
            }
        }
        if self.formula(0).void_free() {
            assert forall|node: int| marked.has(node) implies (#[trigger] marked.nodes[node]).0.void_free() by {
                assert(self.nodes[node].0.void_free());
            }
        }
        if self.open_branches_consistent() {
            assert forall|y: int| #[trigger] marked.open_leaf(y) implies !marked.contradictory(
                y,
            ) by {
                assert(self.open_leaf(y));
            }
        }
    }

    /// Closing the contradictory branches keeps what holds of the tree, and
    /// leaves no open branch with a formula and its negation.
    pub proof fn lemma_close_inv(self)
        requires
            self.inv(),
        ensures
            self.close_branches().inv(),
            self.close_branches().open_branches_consistent(),
    {
        let closed = self.close_branches();
        assert(self.same_shape(closed));
        self.lemma_same_shape(closed);
        assert forall|node: int|
            closed.has(node) && #[trigger] closed.state(node)
                == TransformationState::Closed implies closed.is_leaf(node) && closed.contradictory(
            node,
        ) by {
            if !(self.is_leaf(node) && self.contradictory(node)) {
                assert(self.state(node) == TransformationState::Closed);
            }
        }
        assert forall|valuation: Valuation| #[trigger]
            closed.formula(0).eval(valuation) implies exists|x: int|
            closed.has(x) && closed.is_leaf(x) && #[trigger] closed.true_branch(x, valuation) by {
            assert(self.formula(0).eval(valuation));
            let x = choose|x: int|
                self.has(x) && self.is_leaf(x) && #[trigger] self.true_branch(x, valuation);
            assert forall|a: int| #[trigger] closed.on_branch(a, x) implies closed.formula(a).eval(
                valuation,
            ) by {
                self.lemma_on_branch_step(a, x);
                assert(self.on_branch(a, x));
                assert(self.nodes[a].0 == closed.nodes[a].0);
            }
            assert(closed.true_branch(x, valuation));
        }
        assert forall|y: int, a: int|
            closed.open_leaf(y) && #[trigger] closed.on_branch(a, y) && closed.state(a)
                == TransformationState::Transformed implies closed.expanded_on(a, y) by {
            assert(self.open_leaf(y));
            assert(self.on_branch(a, y));
            self.lemma_on_branch_step(a, y);
            self.lemma_same_shape_formulas(closed, y);
            assert(self.nodes[a].0 == closed.nodes[a].0);
            assert(self.state(a) == TransformationState::Transformed);
            assert(self.expanded_on(a, y));
        }
        if self.formula(0).void_free() {
            assert forall|node: int| closed.has(node) implies (#[trigger] closed.nodes[node]).0.void_free() by {
                assert(self.nodes[node].0.void_free());
            }
        }
        assert forall|y: int| #[trigger] closed.open_leaf(y) implies !closed.contradictory(y) by {
            assert(closed.contradictory(y) == self.contradictory(y));
        }
    }

    /// A tree that consists of its root, not yet processed, is as a proof
    /// tree has to be.
    pub proof fn lemma_initial_inv(self)
        requires
            self.nodes.len() == 1,
            self.edges.len() == 0,
            self.state(0) == TransformationState::Unprocessed,
        ensures
            self.inv(),
            self.open_branches_consistent(),
    {
        assert(self.branch(0) == seq![0int]);
        assert(self.is_leaf(0));
        assert forall|a: int| self.on_branch(a, 0) implies a == 0 by {
            let i = choose|i: int| 0 <= i < self.branch(0).len() && self.branch(0)[i] == a;
        }
        assert(self.on_branch(0, 0)) by {
            assert(self.branch(0)[0] == 0);
        }
        assert forall|valuation: Valuation| #[trigger]
            self.formula(0).eval(valuation) implies exists|x: int|
            self.has(x) && self.is_leaf(x) && #[trigger] self.true_branch(x, valuation) by {
            assert(self.true_branch(0, valuation));
        }
        assert forall|y: int| #[trigger] self.open_leaf(y) implies !self.contradictory(y) by {
            if self.contradictory(y) {
                let (a, b) = choose|a: int, b: int|
                    #[trigger] self.on_branch(a, y) && #[trigger] self.on_branch(b, y)
                        && self.formula(a) == self.formula(b).not();
                self.formula(0).lemma_not_own_negation();
            }
        }
    }

    /// Where every leaf is closed, no valuation makes the root true.
    pub proof fn lemma_all_closed(self)
        requires
            self.inv(),
            forall|leaf: int|
                self.has(leaf) && self.is_leaf(leaf) ==> self.state(leaf)
                    == TransformationState::Closed,
        ensures
            self.formula(0).is_contradiction(),
    {
        assert forall|valuation: Valuation| !self.formula(0).eval(valuation) by {
            if self.formula(0).eval(valuation) {
                let x = choose|x: int|
                    self.has(x) && self.is_leaf(x) && #[trigger] self.true_branch(x, valuation);
                assert(self.state(x) == TransformationState::Closed);
                assert(self.contradictory(x));
                let (a, b) = choose|a: int, b: int|
                    #[trigger] self.on_branch(a, x) && #[trigger] self.on_branch(b, x)
                        && self.formula(a) == self.formula(b).not();
                assert(self.formula(a).eval(valuation));
                assert(self.formula(b).eval(valuation));
            }
        }
    }

    /// Where no node is left to process and a leaf is open, the formulas on
    /// its branch, read as a valuation, make the root true.
    pub proof fn lemma_open_branch_is_model(self, leaf: int)
        requires
            self.inv(),
            self.open_branches_consistent(),
            self.open_leaf(leaf),
            forall|node: int|
                self.has(node) ==> self.state(node) != TransformationState::Unprocessed,
        ensures
            self.formula(0).eval(self.branch_formulas(leaf)),
            !self.formula(0).is_contradiction(),
    {
        let set = self.branch_formulas(leaf);
        assert forall|formula: Formula| #[trigger] set.contains(formula) implies formula.decompose().present_in(
            set,
        ) by {
            let a = choose|a: int| #[trigger] self.on_branch(a, leaf) && self.formula(a) == formula;
            self.lemma_on_branch_step(a, leaf);
            if a != leaf {
                self.lemma_inner_node(a, leaf);
            }
            assert(self.state(a) != TransformationState::Unprocessed);
            if self.state(a) == TransformationState::Closed {
                assert(self.is_leaf(a));
            }
            assert(self.state(a) == TransformationState::Transformed);
            assert(self.expanded_on(a, leaf));
        }
        assert forall|formula: Formula|
            !(#[trigger] set.contains(formula) && set.contains(formula.not())) by {
            if set.contains(formula) && set.contains(formula.not()) {
                let b = choose|b: int| #[trigger]
                    self.on_branch(b, leaf) && self.formula(b) == formula;
                let a = choose|a: int| #[trigger]
                    self.on_branch(a, leaf) && self.formula(a) == formula.not();
                assert(self.contradictory(leaf));
            }
        }
        assert(saturated(set));
        assert(consistent(set));
        self.lemma_branch_ends(leaf);
        assert(set.contains(self.formula(0)));
        lemma_saturated_set_is_model(set, self.formula(0));
    }
}

/// A decomposition that is present in a set is present in every larger set.
pub proof fn lemma_present_in_larger(d: Decomposition, small: Set<Formula>, large: Set<Formula>)
    requires
        d.present_in(small),
        small.subset_of(large),
    ensures
        d.present_in(large),
{
    if all_in(d.left, small) {
        assert(all_in(d.left, large));
    } else {
        assert(all_in(d.right, large));
    }
}

} // verus!
