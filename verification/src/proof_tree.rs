use crate::proposition::{Formula, Proposition};
use crate::tableau::Tableau;
use petgraph::algo::all_simple_paths;
use petgraph::graph::{Graph, NodeIndex};
use petgraph::visit::DfsPostOrder;
use petgraph::Directed;
use vstd::prelude::*;

verus! {

/// How far a node of the proof tree has come.
#[derive(Debug, Clone, Copy, PartialEq, Eq, Structural)]
pub enum TransformationState {
    /// The node's proposition has not been decomposed yet.
    Unprocessed,
    /// The decomposition of the node's proposition stands on every open
    /// branch through the node.
    Transformed,
    /// The node is a leaf whose branch holds a contradiction.
    Closed,
}

impl TransformationState {
    /// The mark of the state: `?` for a node not yet processed, a check
    /// mark for a transformed one, a cross for a closed one.
    pub fn to_text(&self) -> (text: String)
        ensures
            text@ == self.spec_text(),
    {
        match self {
            TransformationState::Unprocessed => String::from_str("?"),
            TransformationState::Transformed => String::from_str("\u{2713}"),
            TransformationState::Closed => String::from_str("\u{2716}"),
        }
    }

    /// The text of [`TransformationState::to_text`].
    pub open spec fn spec_text(&self) -> Seq<char> {
        match self {
            TransformationState::Unprocessed => "?"@,
            TransformationState::Transformed => "\u{2713}"@,
            TransformationState::Closed => "\u{2716}"@,
        }
    }
}

impl Default for TransformationState {
    fn default() -> (state: Self)
        ensures
            state == TransformationState::Unprocessed,
    {
        TransformationState::Unprocessed
    }
}

#[verifier::external_type_specification]
#[verifier::external_body]
#[verifier::reject_recursive_types(N)]
#[verifier::reject_recursive_types(E)]
#[verifier::reject_recursive_types(Ty)]
#[verifier::reject_recursive_types(Ix)]
pub struct ExGraph<N, E, Ty, Ix>(Graph<N, E, Ty, Ix>);

#[verifier::external_type_specification]
#[verifier::external_body]
pub struct ExDirected(Directed);

/// The graph that holds a proof tree: each node is a proposition with its
/// state, an edge leads from a node to a node appended below it.
pub type PropositionTree = Graph<(Proposition, TransformationState), (), Directed, usize>;

/// The nodes of a graph in the order in which they were added; a node's index
/// is its place in this sequence.
pub uninterp spec fn graph_nodes(graph: PropositionTree) -> Seq<(Formula, TransformationState)>;

/// The edges of a graph, each as source and target, in the order in which
/// they were added.
pub uninterp spec fn graph_edges(graph: PropositionTree) -> Seq<(int, int)>;

/// `Graph::default`: a graph without nodes and edges.
#[verifier::external_body]
pub(crate) fn new_graph() -> (graph: PropositionTree)
    ensures
        graph_nodes(graph) == Seq::<(Formula, TransformationState)>::empty(),
        graph_edges(graph) == Seq::<(int, int)>::empty(),
{
    Graph::default()
}

/// `Graph::node_count`: the number of nodes.
#[verifier::external_body]
pub(crate) fn node_count(graph: &PropositionTree) -> (count: usize)
    ensures
        count == graph_nodes(*graph).len(),
{
    graph.node_count()
}

/// `Graph::add_node`: the node is appended behind the others and its index
/// returned; the edges stay. With `usize` indices the graph has no maximum
/// number of nodes of its own.
#[verifier::external_body]
pub(crate) fn add_node(
    graph: &mut PropositionTree,
    proposition: Proposition,
    state: TransformationState,
) -> (index: usize)
    ensures
        graph_nodes(*final(graph)) == graph_nodes(*old(graph)).push((proposition@, state)),
        graph_edges(*final(graph)) == graph_edges(*old(graph)),
        index == graph_nodes(*old(graph)).len(),
{
    graph.add_node((proposition, state)).index()
}

/// `Graph::add_edge`: the edge is appended behind the others; the nodes
/// stay. Both ends must exist.
#[verifier::external_body]
pub(crate) fn add_edge(graph: &mut PropositionTree, from: usize, to: usize)
    requires
        from < graph_nodes(*old(graph)).len(),
        to < graph_nodes(*old(graph)).len(),
    ensures
        graph_nodes(*final(graph)) == graph_nodes(*old(graph)),
        graph_edges(*final(graph)) == graph_edges(*old(graph)).push((from as int, to as int)),
{
    graph.add_edge(NodeIndex::new(from), NodeIndex::new(to), ());
}

/// Indexing a graph by a node index: the node, which must exist.
#[verifier::external_body]
pub(crate) fn node_weight(graph: &PropositionTree, index: usize) -> (node: &(
    Proposition,
    TransformationState,
))
    requires
        index < graph_nodes(*graph).len(),
    ensures
        (node.0@, node.1) == graph_nodes(*graph)[index as int],
{
    &graph[NodeIndex::new(index)]
}

/// Indexing a graph mutably by a node index, which must exist, to replace
/// the node's state; everything else stays.
#[verifier::external_body]
pub(crate) fn set_node_state(graph: &mut PropositionTree, index: usize, state: TransformationState)
    requires
        index < graph_nodes(*old(graph)).len(),
    ensures
        graph_nodes(*final(graph)) == graph_nodes(*old(graph)).update(
            index as int,
            (graph_nodes(*old(graph))[index as int].0, state),
        ),
        graph_edges(*final(graph)) == graph_edges(*old(graph)),
{
    graph[NodeIndex::new(index)].1 = state;
}

/// Whether consecutive nodes of a non-empty sequence are joined by an edge,
/// each edge leading from the earlier node to the later one.
pub open spec fn is_walk(edges: Seq<(int, int)>, path: Seq<int>) -> bool {
    &&& path.len() > 0
    &&& forall|i: int, j: int|
        0 <= i && j == i + 1 && j < path.len() ==> edges.contains(
            (#[trigger] path[i], #[trigger] path[j]),
        )
}

/// Whether edges lead from `from` to `to`; every node reaches itself.
pub open spec fn reachable(edges: Seq<(int, int)>, from: int, to: int) -> bool {
    exists|path: Seq<int>| #[trigger] is_walk(edges, path) && path.first() == from && path.last() == to
}

/// Whether `path` leads along edges from `from` to `to` and passes no node
/// twice.
pub open spec fn is_simple_path(edges: Seq<(int, int)>, from: int, to: int, path: Seq<int>) -> bool {
    &&& is_walk(edges, path)
    &&& path.first() == from
    &&& path.last() == to
    &&& path.no_duplicates()
}

/// The number of edges that start at `node`.
pub open spec fn out_degree(edges: Seq<(int, int)>, node: int) -> nat
    decreases edges.len(),
{
    if edges.len() == 0 {
        0
    } else {
        out_degree(edges.drop_last(), node) + if edges.last().0 == node {
            1nat
        } else {
            0nat
        }
    }
}

/// A sequence of node indices as mathematical integers.
pub open spec fn indices(nodes: Seq<usize>) -> Seq<int> {
    nodes.map_values(|i: usize| i as int)
}

/// `Graph::neighbors` on a directed graph walks the edges that start at the
/// node, one item for each; this counts them.
#[verifier::external_body]
pub(crate) fn neighbor_count(graph: &PropositionTree, index: usize) -> (count: usize)
    ensures
        count == out_degree(graph_edges(*graph), index as int),
{
    graph.neighbors(NodeIndex::new(index)).count()
}

/// `DfsPostOrder::new` and `DfsPostOrder::next` until the traversal ends: the
/// nodes that can be reached from `start` along edges, `start` among them,
/// each of them once. The order is the traversal's own and is not stated.
#[verifier::external_body]
pub(crate) fn post_order_from(graph: &PropositionTree, start: usize) -> (order: Vec<usize>)
    requires
        start < graph_nodes(*graph).len(),
    ensures
        order@.no_duplicates(),
        forall|node: usize|
            #[trigger] order@.contains(node) <==> reachable(
                graph_edges(*graph),
                start as int,
                node as int,
            ),
{
    let mut traversal = DfsPostOrder::new(graph, NodeIndex::new(start));
    let mut order = Vec::new();
    while let Some(node) = traversal.next(graph) {
        order.push(node.index());
    }
    order
}

/// `all_simple_paths` between two different nodes, with no bound on the
/// number of nodes between them: every item is a simple path from `from` to
/// `to`, and every such path is among the items.
#[verifier::external_body]
pub(crate) fn simple_paths(graph: &PropositionTree, from: usize, to: usize) -> (paths: Vec<
    Vec<usize>,
>)
    requires
        from < graph_nodes(*graph).len(),
        to < graph_nodes(*graph).len(),
        from != to,
    ensures
        forall|k: int|
            0 <= k < paths.len() ==> is_simple_path(
                graph_edges(*graph),
                from as int,
                to as int,
                indices((#[trigger] paths[k])@),
            ),
        forall|path: Seq<usize>|
            is_simple_path(graph_edges(*graph), from as int, to as int, #[trigger] indices(path))
                ==> exists|k: int| 0 <= k < paths.len() && (#[trigger] paths[k])@ == path,
{
    all_simple_paths::<Vec<_>, _>(graph, NodeIndex::new(from), NodeIndex::new(to), 0, None)
        .map(|path: Vec<NodeIndex<usize>>| path.into_iter().map(|node| node.index()).collect())
        .collect()
}

/// A proof tree: the graph that holds it, and the index of its root.
pub struct ProofTree {
    pub graph: PropositionTree,
    pub root: usize,
}

impl View for ProofTree {
    type V = Tableau;

    open spec fn view(&self) -> Tableau {
        Tableau { nodes: graph_nodes(self.graph), edges: graph_edges(self.graph) }
    }
}

impl ProofTree {
    /// The graph is a tree whose root is its first node.
    pub open spec fn wf(&self) -> bool {
        self@.wf() && self.root == 0
    }

    /// The number of nodes.
    pub fn node_count(&self) -> (count: usize)
        ensures
            count == self@.nodes.len(),
    {
        node_count(&self.graph)
    }

    /// The proposition at a node.
    pub fn proposition(&self, node: usize) -> (proposition: &Proposition)
        requires
            self@.has(node as int),
        ensures
            proposition@ == self@.formula(node as int),
    {
        &node_weight(&self.graph, node).0
    }

    /// The state of a node.
    pub fn state(&self, node: usize) -> (state: TransformationState)
        requires
            self@.has(node as int),
        ensures
            state == self@.state(node as int),
    {
        node_weight(&self.graph, node).1
    }

    /// Whether nothing was appended below a node.
    pub fn is_leaf(&self, node: usize) -> (leaf: bool)
        ensures
            leaf == self@.is_leaf(node as int),
    {
        proof {
            lemma_out_degree(self@.edges, node as int);
        }
        neighbor_count(&self.graph, node) == 0
    }
}

/// No edge starts at a node exactly if the node's out-degree is 0.
pub proof fn lemma_out_degree(edges: Seq<(int, int)>, node: int)
    ensures
        out_degree(edges, node) == 0 <==> (forall|k: int|
            0 <= k < edges.len() ==> (#[trigger] edges[k]).0 != node),
    decreases edges.len(),
{
    if edges.len() > 0 {
        let front = edges.drop_last();
        lemma_out_degree(front, node);
        if out_degree(edges, node) == 0 {
            assert forall|k: int| 0 <= k < edges.len() implies (#[trigger] edges[k]).0 != node by {
                if k < front.len() {
                    assert(front[k] == edges[k]);
                }
            }
        } else if edges.last().0 != node {
            let k = choose|k: int| 0 <= k < front.len() && (#[trigger] front[k]).0 == node;
            assert(edges[k].0 == node);
        } else {
            assert(edges[edges.len() - 1].0 == node);
        }
    }
}

} // verus!
