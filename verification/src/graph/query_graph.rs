//! The graph that a query document is read into: its operations, the
//! fragments to generate for its selection sets, the schema types they are
//! fragments of, and the named fragments they spread, kept in a
//! `petgraph` stable graph.

use vstd::prelude::*;
use petgraph::stable_graph::{EdgeIndex, NodeIndex, StableGraph};
use petgraph::visit::EdgeRef;
use petgraph::{Directed, Direction};
use crate::ingest::FieldDefinitionRef;

verus! {

#[verifier::external_type_specification]
#[verifier::external_body]
#[verifier::reject_recursive_types(N)]
#[verifier::reject_recursive_types(E)]
#[verifier::reject_recursive_types(Ty)]
#[verifier::reject_recursive_types(Ix)]
pub struct ExStableGraph<N, E, Ty, Ix>(StableGraph<N, E, Ty, Ix>);

#[verifier::external_type_specification]
#[verifier::external_body]
#[verifier::reject_recursive_types(Ix)]
pub struct ExNodeIndex<Ix>(NodeIndex<Ix>);

#[verifier::external_type_specification]
#[verifier::external_body]
#[verifier::reject_recursive_types(Ix)]
pub struct ExEdgeIndex<Ix>(EdgeIndex<Ix>);

#[verifier::external_type_specification]
#[verifier::external_body]
pub struct ExDirected(Directed);

/// The query graph: nodes and edges numbered by `usize`.
pub type QueryGraph = StableGraph<Node, Edge, Directed, usize>;

/// A node of the query graph.
#[derive(Clone, Copy, Debug, PartialEq, Eq, Structural)]
pub enum Node {
    /// An operation, by its position among the document's operations.
    Operation(usize),
    /// A query fragment to generate for one or more selection sets.
    QueryFragment,
    /// An enum of fragments to generate for a selection set on several types.
    InlineFragment,
    /// A schema type, by its position among the schema's types.
    Type(usize),
    /// A named fragment, by its position among the document's fragments.
    NamedFragment(usize),
    /// A selected field without a selection set of its own.
    LeafField,
}

/// An edge of the query graph.
#[derive(Debug, PartialEq, Eq)]
pub enum Edge {
    /// From an operation or a named fragment to its selection set.
    HasSelectionSet,
    /// From a fragment to a selected field (by its name and alias, the
    /// field it reads, and its position in the selection set).
    HasField { name: String, alias: Option<String>, definition: FieldDefinitionRef, index: usize },
    /// From a fragment to an inline fragment spread in it, by position.
    HasInlineSpread { index: usize },
    /// From a fragment to a named fragment spread in it, by position.
    HasFragment { index: usize },
    /// From a query fragment to the inline fragment that its selections on
    /// other types were split into, after its own selections.
    HasSyntheticSpread { index: usize },
    /// From a fragment or leaf field to the schema type it has.
    IsOfType,
}

/// A copy of an edge.
pub fn copy_edge(e: &Edge) -> (r: Edge)
    ensures
        r == *e,
{
    match e {
        Edge::HasSelectionSet => Edge::HasSelectionSet,
        Edge::HasField { name, alias, definition, index } => Edge::HasField {
            name: name.clone(),
            alias: match alias {
                Some(a) => Some(a.clone()),
                None => None,
            },
            definition: *definition,
            index: *index,
        },
        Edge::HasInlineSpread { index } => Edge::HasInlineSpread { index: *index },
        Edge::HasFragment { index } => Edge::HasFragment { index: *index },
        Edge::HasSyntheticSpread { index } => Edge::HasSyntheticSpread { index: *index },
        Edge::IsOfType => Edge::IsOfType,
    }
}

/// The position in its selection set that an edge stands for, if any.
pub open spec fn edge_selection_index(e: Edge) -> Option<usize> {
    match e {
        Edge::HasField { index, .. } => Some(index),
        Edge::HasInlineSpread { index } => Some(index),
        Edge::HasFragment { index } => Some(index),
        Edge::HasSyntheticSpread { index } => Some(index),
        _ => None,
    }
}

/// The position in its selection set that an edge stands for, if any.
pub fn selection_index(e: &Edge) -> (r: Option<usize>)
    ensures
        r == edge_selection_index(*e),
{
    match e {
        Edge::HasField { index, .. } => Some(*index),
        Edge::HasInlineSpread { index } => Some(*index),
        Edge::HasFragment { index } => Some(*index),
        Edge::HasSyntheticSpread { index } => Some(*index),
        _ => None,
    }
}

/// The nodes of a query graph, by number.
pub uninterp spec fn graph_nodes(g: QueryGraph) -> Map<int, Node>;

/// The edges of a query graph, by number: source, target and weight.
pub uninterp spec fn graph_edges(g: QueryGraph) -> Map<int, (int, int, Edge)>;

/// The number of a node index (`NodeIndex::index`).
pub uninterp spec fn node_number(n: NodeIndex<usize>) -> int;

/// The numbers of the edges that end at node `n`, in the order in which
/// `StableGraph::edges_directed` with `Incoming` yields them (it walks the
/// list of those edges that the graph keeps for `n`).
pub uninterp spec fn incoming_order(g: QueryGraph, n: int) -> Seq<int>;

/// The numbers of the edges that start at node `n`, in the order in which
/// `StableGraph::edges_directed` with `Outgoing` yields them (it walks the
/// list of those edges that the graph keeps for `n`).
pub uninterp spec fn outgoing_order(g: QueryGraph, n: int) -> Seq<int>;

/// Calls `StableGraph::default`, which makes a graph without nodes or edges
/// (so no node has an edge list).
#[verifier::external_body]
pub(crate) fn empty_graph() -> (g: QueryGraph)
    ensures
        graph_nodes(g).dom().is_empty(),
        graph_edges(g).dom().is_empty(),
        forall|x: int| #[trigger] outgoing_order(g, x).len() == 0,
        forall|x: int| #[trigger] incoming_order(g, x).len() == 0,
{
    StableGraph::default()
}

/// Calls `StableGraph::add_node`, which stores `n` under a node number that
/// no node of the graph has, with empty edge lists, and changes no other
/// node or edge.
#[verifier::external_body]
pub(crate) fn add_node(g: &mut QueryGraph, n: Node) -> (r: NodeIndex<usize>)
    ensures
        !graph_nodes(*old(g)).dom().contains(node_number(r)),
        graph_nodes(*final(g)) == graph_nodes(*old(g)).insert(node_number(r), n),
        graph_edges(*final(g)) == graph_edges(*old(g)),
        outgoing_order(*final(g), node_number(r)).len() == 0,
        incoming_order(*final(g), node_number(r)).len() == 0,
        forall|x: int| x != node_number(r) ==> #[trigger] outgoing_order(*final(g), x) == outgoing_order(*old(g), x),
        forall|x: int| x != node_number(r) ==> #[trigger] incoming_order(*final(g), x) == incoming_order(*old(g), x),
{
    g.add_node(n)
}

/// Calls `StableGraph::add_edge`, which stores an edge from `a` to `b` with
/// weight `w` under an edge number that no edge of the graph has, puts it
/// first in the list of edges from `a` and in the list of edges into `b`,
/// and changes no node, other edge or other list; it panics unless both
/// nodes are in the graph.
#[verifier::external_body]
pub(crate) fn add_edge(g: &mut QueryGraph, a: NodeIndex<usize>, b: NodeIndex<usize>, w: Edge)
    requires
        graph_nodes(*old(g)).dom().contains(node_number(a)),
        graph_nodes(*old(g)).dom().contains(node_number(b)),
    ensures
        graph_nodes(*final(g)) == graph_nodes(*old(g)),
        exists|k: int|
            {
                &&& !graph_edges(*old(g)).dom().contains(k)
                &&& graph_edges(*final(g)) == graph_edges(*old(g)).insert(k, (node_number(a), node_number(b), w))
                &&& outgoing_order(*final(g), node_number(a)) == seq![k] + outgoing_order(*old(g), node_number(a))
                &&& incoming_order(*final(g), node_number(b)) == seq![k] + incoming_order(*old(g), node_number(b))
            },
        forall|x: int|
            x != node_number(a) ==> #[trigger] outgoing_order(*final(g), x) == outgoing_order(*old(g), x),
        forall|x: int|
            x != node_number(b) ==> #[trigger] incoming_order(*final(g), x) == incoming_order(*old(g), x),
{
    g.add_edge(a, b, w);
}

/// Calls `StableGraph::edges` (the edges from `a`) and gives the selection
/// index of each: every edge from `a` is listed, and nothing else.
#[verifier::external_body]
pub(crate) fn outgoing_selection_indices(g: &QueryGraph, a: NodeIndex<usize>) -> (r: Vec<
    Option<usize>,
>)
    ensures
        forall|j: int|
            #![trigger r@[j]]
            0 <= j < r@.len() ==> exists|k: int|
                #![trigger graph_edges(*g)[k]]
                graph_edges(*g).dom().contains(k) && graph_edges(*g)[k].0 == node_number(a)
                    && edge_selection_index(graph_edges(*g)[k].2) == r@[j],
        forall|k: int|
            #![trigger graph_edges(*g)[k]]
            graph_edges(*g).dom().contains(k) && graph_edges(*g)[k].0 == node_number(a) ==> r@.contains(
                edge_selection_index(graph_edges(*g)[k].2),
            ),
{
    g.edges(a).map(|e| selection_index(e.weight())).collect()
}

/// Calls `NodeIndex::index`: the number of a node index.
#[verifier::external_body]
pub(crate) fn index_number(n: NodeIndex<usize>) -> (r: usize)
    ensures
        r as int == node_number(n),
{
    n.index()
}

/// Calls `StableGraph::node_indices`, which walks the node slots in order
/// and yields the index of each occupied one: every node of the graph
/// once, in increasing order of number.
#[verifier::external_body]
pub(crate) fn node_indices(g: &QueryGraph) -> (r: Vec<NodeIndex<usize>>)
    ensures
        forall|j: int| 0 <= j < r@.len() ==> graph_nodes(*g).dom().contains(#[trigger] node_number(r@[j])),
        forall|k: int| #[trigger] graph_nodes(*g).dom().contains(k) ==> exists|j: int| 0 <= j < r@.len() && node_number(r@[j]) == k,
        forall|i: int, j: int| 0 <= i < j < r@.len() ==> node_number(#[trigger] r@[i]) < node_number(#[trigger] r@[j]),
{
    g.node_indices().collect()
}

/// Calls `StableGraph::contains_node`: whether the node is in the graph.
#[verifier::external_body]
pub(crate) fn contains_node(g: &QueryGraph, n: NodeIndex<usize>) -> (r: bool)
    ensures
        r == graph_nodes(*g).dom().contains(node_number(n)),
{
    g.contains_node(n)
}

/// Indexes the graph by a node (`graph[n]`), which gives the node's weight
/// and panics unless the node is in the graph.
#[verifier::external_body]
pub(crate) fn node_weight(g: &QueryGraph, n: NodeIndex<usize>) -> (r: Node)
    requires
        graph_nodes(*g).dom().contains(node_number(n)),
    ensures
        r == graph_nodes(*g)[node_number(n)],
{
    g[n]
}

/// Calls `StableGraph::edges_directed` with `Incoming` and tells whether it
/// yields anything: whether some edge of the graph ends at `n`.
#[verifier::external_body]
pub(crate) fn has_incoming_edge(g: &QueryGraph, n: NodeIndex<usize>) -> (r: bool)
    ensures
        r == (exists|k: int| #[trigger] graph_edges(*g).dom().contains(k) && graph_edges(*g)[k].1 == node_number(n)),
{
    g.edges_directed(n, Direction::Incoming).next().is_some()
}

/// Calls `StableGraph::remove_node`: the node leaves the graph together with
/// every edge from or to it, each taken out of the edge lists it is in with
/// the rest of each list kept in order; every other node and edge keeps its
/// number and weight. A node that is not in the graph leaves it unchanged.
#[verifier::external_body]
pub(crate) fn remove_node(g: &mut QueryGraph, n: NodeIndex<usize>)
    ensures
        outgoing_order(*final(g), node_number(n)).len() == 0,
        incoming_order(*final(g), node_number(n)).len() == 0,
        forall|x: int|
            x != node_number(n) ==> #[trigger] outgoing_order(*final(g), x) == outgoing_order(*old(g), x).filter(
                |j: int| graph_edges(*old(g))[j].0 != node_number(n) && graph_edges(*old(g))[j].1 != node_number(n),
            ),
        forall|x: int|
            x != node_number(n) ==> #[trigger] incoming_order(*final(g), x) == incoming_order(*old(g), x).filter(
                |j: int| graph_edges(*old(g))[j].0 != node_number(n) && graph_edges(*old(g))[j].1 != node_number(n),
            ),
        graph_nodes(*final(g)) == graph_nodes(*old(g)).remove(node_number(n)),
        forall|k: int|
            #[trigger] graph_edges(*final(g)).dom().contains(k) <==> (graph_edges(*old(g)).dom().contains(k)
                && graph_edges(*old(g))[k].0 != node_number(n) && graph_edges(*old(g))[k].1 != node_number(n)),
        forall|k: int|
            #[trigger] graph_edges(*final(g)).dom().contains(k) ==> graph_edges(*final(g))[k] == graph_edges(*old(g))[k],
{
    g.remove_node(n);
}

/// Calls `StableGraph::edges_directed` with `Incoming` and gives the source
/// of each edge, in the order it yields them (`incoming_order`); each
/// listed edge ends at `n`.
#[verifier::external_body]
pub(crate) fn incoming_sources(g: &QueryGraph, n: NodeIndex<usize>) -> (r: Vec<NodeIndex<usize>>)
    ensures
        r@.len() == incoming_order(*g, node_number(n)).len(),
        forall|j: int|
            0 <= j < r@.len() ==> #[trigger] node_number(r@[j]) == graph_edges(*g)[incoming_order(*g, node_number(n))[j]].0,
        forall|j: int|
            0 <= j < r@.len() ==> graph_edges(*g).dom().contains(
                #[trigger] incoming_order(*g, node_number(n))[j],
            ) && graph_edges(*g)[incoming_order(*g, node_number(n))[j]].1 == node_number(n),
{
    g.edges_directed(n, Direction::Incoming).map(|e| e.source()).collect()
}

/// Calls `StableGraph::edges_directed` with `Outgoing` and gives the target
/// and weight of each edge, in the order it yields them (`outgoing_order`);
/// each listed edge starts at `n`.
#[verifier::external_body]
pub(crate) fn outgoing_edges<'a>(g: &'a QueryGraph, n: NodeIndex<usize>) -> (r: Vec<(NodeIndex<usize>, &'a Edge)>)
    ensures
        r@.len() == outgoing_order(*g, node_number(n)).len(),
        forall|j: int|
            0 <= j < r@.len() ==> #[trigger] node_number(r@[j].0) == graph_edges(*g)[outgoing_order(*g, node_number(n))[j]].1
                && *r@[j].1 == graph_edges(*g)[outgoing_order(*g, node_number(n))[j]].2,
        forall|j: int|
            0 <= j < r@.len() ==> graph_edges(*g).dom().contains(
                #[trigger] outgoing_order(*g, node_number(n))[j],
            ) && graph_edges(*g)[outgoing_order(*g, node_number(n))[j]].0 == node_number(n),
{
    g.edges_directed(n, Direction::Outgoing).map(|e| (e.target(), e.weight())).collect()
}

/// The number of an edge index (`EdgeIndex::index`).
pub uninterp spec fn edge_number(e: EdgeIndex<usize>) -> int;

/// Calls `NodeIndex::new`: the node index with number `i`.
#[verifier::external_body]
pub(crate) fn node_index(i: usize) -> (r: NodeIndex<usize>)
    ensures
        node_number(r) == i,
{
    NodeIndex::new(i)
}

/// Calls `StableGraph::edges_directed` with `Incoming` and gives the index,
/// source and weight of each edge, in the order it yields them
/// (`incoming_order`); each listed edge ends at `n`, and its source is a
/// node of the graph, as removing a node removes the edges at it.
#[verifier::external_body]
pub(crate) fn incoming_edges<'a>(g: &'a QueryGraph, n: NodeIndex<usize>) -> (r: Vec<(EdgeIndex<usize>, NodeIndex<usize>, &'a Edge)>)
    ensures
        r@.len() == incoming_order(*g, node_number(n)).len(),
        forall|j: int|
            0 <= j < r@.len() ==> {
                &&& edge_number((#[trigger] r@[j]).0) == incoming_order(*g, node_number(n))[j]
                &&& graph_edges(*g).dom().contains(incoming_order(*g, node_number(n))[j])
                &&& graph_nodes(*g).dom().contains(node_number(r@[j].1))
                &&& node_number(r@[j].1) == graph_edges(*g)[incoming_order(*g, node_number(n))[j]].0
                &&& graph_edges(*g)[incoming_order(*g, node_number(n))[j]].1 == node_number(n)
                &&& *r@[j].2 == graph_edges(*g)[incoming_order(*g, node_number(n))[j]].2
            },
{
    g.edges_directed(n, Direction::Incoming).map(|e| (e.id(), e.source(), e.weight())).collect()
}

/// Calls `StableGraph::remove_edge`: the edge leaves the graph and the two
/// edge lists it is in, which keep the rest of their order; every node and
/// every other edge stays as it was. An index that is no edge of the graph
/// leaves it unchanged.
#[verifier::external_body]
pub(crate) fn remove_edge(g: &mut QueryGraph, e: EdgeIndex<usize>)
    ensures
        forall|x: int| #[trigger] outgoing_order(*final(g), x) == outgoing_order(*old(g), x).filter(|j: int| j != edge_number(e)),
        forall|x: int| #[trigger] incoming_order(*final(g), x) == incoming_order(*old(g), x).filter(|j: int| j != edge_number(e)),
        graph_nodes(*final(g)) == graph_nodes(*old(g)),
        graph_edges(*final(g)) == graph_edges(*old(g)).remove(edge_number(e)),
{
    g.remove_edge(e);
}

} // verus!
