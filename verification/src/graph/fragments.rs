//! The fragments of a query graph as subjects that ask for a name: the
//! name of the operation or named fragment that leads to them, or else the
//! name of the type they are fragments of.

use vstd::prelude::*;
use petgraph::stable_graph::NodeIndex;
use crate::casing::{pascal_case, to_pascal_case};
use crate::document::{Schema, SchemaType};
use crate::executable::{FragmentDefinition, OperationDefinition};
use crate::graph::query_graph::{
    contains_node, graph_edges, graph_nodes, incoming_order, incoming_sources, index_number, node_number, node_weight,
    outgoing_edges, outgoing_order, Edge, Node, QueryGraph,
};
use crate::naming::Nameable;

verus! {

/// The name that the node numbered `s` gives the fragments it leads to: an
/// operation its name, if it has one, and a named fragment its name.
pub open spec fn source_name(
    nodes: Map<int, Node>,
    operations: Seq<OperationDefinition>,
    fragments: Seq<FragmentDefinition>,
    s: int,
) -> Option<Seq<char>> {
    if !nodes.dom().contains(s) {
        None
    } else {
        match nodes[s] {
            Node::Operation(i) => if i < operations.len() {
                match operations[i as int].name {
                    Some(n) => Some(n@),
                    None => None,
                }
            } else {
                None
            },
            Node::NamedFragment(f) => if f < fragments.len() {
                Some(fragments[f as int].name@)
            } else {
                None
            },
            _ => None,
        }
    }
}

/// The first name that the nodes numbered `sources` give, in order.
pub open spec fn first_source_name(
    nodes: Map<int, Node>,
    operations: Seq<OperationDefinition>,
    fragments: Seq<FragmentDefinition>,
    sources: Seq<int>,
) -> Option<Seq<char>>
    decreases sources.len(),
{
    if sources.len() == 0 {
        None
    } else {
        match source_name(nodes, operations, fragments, sources[0]) {
            Some(n) => Some(n),
            None => first_source_name(nodes, operations, fragments, sources.drop_first()),
        }
    }
}

/// The sources of the edges numbered `order`.
pub open spec fn edge_sources(edges: Map<int, (int, int, Edge)>, order: Seq<int>) -> Seq<int> {
    order.map_values(|k: int| edges[k].0)
}

/// The name of the type that the first `IsOfType` edge among the edges
/// numbered `order` leads to, when it leads to a type of the schema.
pub open spec fn first_type_name(
    nodes: Map<int, Node>,
    edges: Map<int, (int, int, Edge)>,
    types: Seq<SchemaType>,
    order: Seq<int>,
) -> Option<Seq<char>>
    decreases order.len(),
{
    if order.len() == 0 {
        None
    } else if edges[order[0]].2 == Edge::IsOfType {
        let t = edges[order[0]].1;
        if nodes.dom().contains(t) {
            match nodes[t] {
                Node::Type(i) => if i < types.len() {
                    Some(types[i as int].name@)
                } else {
                    None
                },
                _ => None,
            }
        } else {
            None
        }
    } else {
        first_type_name(nodes, edges, types, order.drop_first())
    }
}

/// The position in the schema of the type that the first `IsOfType` edge
/// among the edges numbered `order` leads to, when it leads to one of the
/// `type_count` types of the schema.
pub open spec fn first_type_position(
    nodes: Map<int, Node>,
    edges: Map<int, (int, int, Edge)>,
    type_count: int,
    order: Seq<int>,
) -> Option<int>
    decreases order.len(),
{
    if order.len() == 0 {
        None
    } else if edges[order[0]].2 == Edge::IsOfType {
        let t = edges[order[0]].1;
        if nodes.dom().contains(t) {
            match nodes[t] {
                Node::Type(i) => if i < type_count {
                    Some(i as int)
                } else {
                    None
                },
                _ => None,
            }
        } else {
            None
        }
    } else {
        first_type_position(nodes, edges, type_count, order.drop_first())
    }
}

/// The first type name is the name of the type at the first type position.
pub proof fn lemma_first_type_name_position(
    nodes: Map<int, Node>,
    edges: Map<int, (int, int, Edge)>,
    types: Seq<SchemaType>,
    order: Seq<int>,
)
    ensures
        first_type_name(nodes, edges, types, order) == match first_type_position(nodes, edges, types.len() as int, order) {
            Some(i) => Some(types[i].name@),
            None => None,
        },
    decreases order.len(),
{
    if order.len() > 0 && edges[order[0]].2 != Edge::IsOfType {
        lemma_first_type_name_position(nodes, edges, types, order.drop_first());
    }
}

/// A fragment node of a query graph, read with the schema and document the
/// graph was built from. Its first `IsOfType` edge leads to a schema type.
pub struct GraphFragment<'a> {
    graph: &'a QueryGraph,
    node: NodeIndex<usize>,
    schema: &'a Schema,
    operations: &'a Vec<OperationDefinition>,
    fragments: &'a Vec<FragmentDefinition>,
}

impl<'a> GraphFragment<'a> {
    /// The graph the fragment is a node of.
    pub closed spec fn spec_graph(&self) -> QueryGraph {
        *self.graph
    }

    /// The fragment's node.
    pub closed spec fn spec_node(&self) -> NodeIndex<usize> {
        self.node
    }

    /// The schema the graph was built from.
    pub closed spec fn spec_schema(&self) -> Schema {
        *self.schema
    }

    /// The operations of the document the graph was built from.
    pub closed spec fn spec_operations(&self) -> Seq<OperationDefinition> {
        self.operations@
    }

    /// The named fragments of the document the graph was built from.
    pub closed spec fn spec_fragments(&self) -> Seq<FragmentDefinition> {
        self.fragments@
    }

    /// The name of the type the fragment is of.
    pub open spec fn fragment_type_name(&self) -> Option<Seq<char>> {
        first_type_name(
            graph_nodes(self.spec_graph()),
            graph_edges(self.spec_graph()),
            self.spec_schema().types@,
            outgoing_order(self.spec_graph(), node_number(self.spec_node())),
        )
    }

    /// The name that the first operation or named fragment leading to the
    /// fragment gives it, among the edges into it in the graph's order.
    pub open spec fn source_name(&self) -> Option<Seq<char>> {
        first_source_name(
            graph_nodes(self.spec_graph()),
            self.spec_operations(),
            self.spec_fragments(),
            edge_sources(
                graph_edges(self.spec_graph()),
                incoming_order(self.spec_graph(), node_number(self.spec_node())),
            ),
        )
    }

    /// The position of the type the fragment is of.
    pub open spec fn type_position(&self) -> Option<int> {
        first_type_position(
            graph_nodes(self.spec_graph()),
            graph_edges(self.spec_graph()),
            self.spec_schema().types@.len() as int,
            outgoing_order(self.spec_graph(), node_number(self.spec_node())),
        )
    }

    /// The graph the fragment is a node of.
    pub fn graph(&self) -> (r: &'a QueryGraph)
        ensures
            *r == self.spec_graph(),
    {
        self.graph
    }

    /// The fragment's node.
    pub fn node(&self) -> (r: NodeIndex<usize>)
        ensures
            r == self.spec_node(),
            graph_nodes(self.spec_graph()).dom().contains(node_number(r)),
    {
        proof {
            use_type_invariant(self);
        }
        self.node
    }

    /// The schema the graph was built from.
    pub fn schema(&self) -> (r: &'a Schema)
        ensures
            *r == self.spec_schema(),
    {
        self.schema
    }

    /// The operations of the document the graph was built from.
    pub fn operations(&self) -> (r: &'a Vec<OperationDefinition>)
        ensures
            r@ == self.spec_operations(),
    {
        self.operations
    }

    /// The named fragments of the document the graph was built from.
    pub fn fragments(&self) -> (r: &'a Vec<FragmentDefinition>)
        ensures
            r@ == self.spec_fragments(),
    {
        self.fragments
    }

    /// The position of the type the fragment is of.
    pub fn type_index(&self) -> (r: usize)
        ensures
            self.type_position() == Some(r as int),
            r < self.spec_schema().types@.len(),
            self.fragment_type_name() == Some(self.spec_schema().types@[r as int].name@),
    {
        proof {
            use_type_invariant(self);
            lemma_first_type_name_position(
                graph_nodes(*self.graph),
                graph_edges(*self.graph),
                self.schema.types@,
                outgoing_order(*self.graph, node_number(self.node)),
            );
        }
        match find_type_position(self.graph, self.node, self.schema) {
            Some(t) => t,
            None => 0,
        }
    }

    #[verifier::type_invariant]
    closed spec fn typed(self) -> bool {
        &&& graph_nodes(*self.graph).dom().contains(node_number(self.node))
        &&& self.fragment_type_name() is Some
    }

    /// The fragment at `node` of `graph`, when the node is in the graph and
    /// its first `IsOfType` edge leads to a type of `schema`.
    pub fn new(
        graph: &'a QueryGraph,
        node: NodeIndex<usize>,
        schema: &'a Schema,
        operations: &'a Vec<OperationDefinition>,
        fragments: &'a Vec<FragmentDefinition>,
    ) -> (r: Option<GraphFragment<'a>>)
        requires
            graph_nodes(*graph).dom().contains(node_number(node)),
        ensures
            r is Some <==> first_type_name(
                graph_nodes(*graph),
                graph_edges(*graph),
                schema.types@,
                outgoing_order(*graph, node_number(node)),
            ) is Some,
            r matches Some(f) ==> {
                &&& f.spec_graph() == *graph
                &&& f.spec_node() == node
                &&& f.spec_schema() == *schema
                &&& f.spec_operations() == operations@
                &&& f.spec_fragments() == fragments@
            },
    {
        proof {
            lemma_first_type_name_position(
                graph_nodes(*graph),
                graph_edges(*graph),
                schema.types@,
                outgoing_order(*graph, node_number(node)),
            );
        }
        match find_type_position(graph, node, schema) {
            Some(_) => Some(GraphFragment { graph, node, schema, operations, fragments }),
            None => None,
        }
    }
}

/// The position of the type that the first `IsOfType` edge from `node`
/// leads to, when it leads to a type of `schema`.
fn find_type_position(graph: &QueryGraph, node: NodeIndex<usize>, schema: &Schema) -> (r: Option<usize>)
    ensures
        first_type_position(
            graph_nodes(*graph),
            graph_edges(*graph),
            schema.types@.len() as int,
            outgoing_order(*graph, node_number(node)),
        ) == match r {
            Some(i) => Some(i as int),
            None => None,
        },
        r matches Some(i) ==> i < schema.types@.len(),
{
    let out = outgoing_edges(graph, node);
    let ghost order = outgoing_order(*graph, node_number(node));
    let ghost nodes = graph_nodes(*graph);
    let ghost edges = graph_edges(*graph);
    let mut j: usize = 0;
    assert(order.subrange(0, order.len() as int) == order);
    assert forall|m: int| 0 <= m < out@.len() implies #[trigger] node_number(out@[m].0) == edges[order[m]].1 && *out@[m].1
        == edges[order[m]].2 by {
        assert(node_number(out@[m].0) == graph_edges(*graph)[outgoing_order(*graph, node_number(node))[m]].1);
    }
    while j < out.len()
        invariant
            j <= out@.len(),
            out@.len() == order.len(),
            forall|m: int|
                0 <= m < out@.len() ==> #[trigger] node_number(out@[m].0) == edges[order[m]].1 && *out@[m].1
                    == edges[order[m]].2,
            forall|m: int| 0 <= m < order.len() ==> edges.dom().contains(#[trigger] order[m]),
            nodes == graph_nodes(*graph),
            edges == graph_edges(*graph),
            order == outgoing_order(*graph, node_number(node)),
            first_type_position(nodes, edges, schema.types@.len() as int, order) == first_type_position(
                nodes,
                edges,
                schema.types@.len() as int,
                order.subrange(j as int, order.len() as int),
            ),
        decreases out.len() - j,
    {
        let (target, weight) = out[j];
        let ghost rest = order.subrange(j as int, order.len() as int);
        assert(rest[0] == order[j as int]);
        assert(node_number(out@[j as int].0) == edges[order[j as int]].1);
        assert(*weight == edges[rest[0]].2);
        match weight {
            Edge::IsOfType => {
                assert(edges[rest[0]].2 == Edge::IsOfType);
                assert(first_type_position(nodes, edges, schema.types@.len() as int, rest) == (if nodes.dom().contains(edges[rest[0]].1) {
                    match nodes[edges[rest[0]].1] {
                        Node::Type(i) => if i < schema.types@.len() {
                            Some(i as int)
                        } else {
                            None
                        },
                        _ => None,
                    }
                } else {
                    None
                }));
                if !contains_node(graph, target) {
                    return None;
                }
                let w = node_weight(graph, target);
                assert(target == out@[j as int].0);
                assert(node_number(target) == edges[rest[0]].1);
                assert(w == nodes[edges[rest[0]].1]);
                match w {
                    Node::Type(i) => {
                        if i < schema.types.len() {
                            return Some(i);
                        } else {
                            return None;
                        }
                    },
                    _ => {
                        return None;
                    },
                }
            },
            _ => {
                assert(rest.drop_first() == order.subrange(j + 1, order.len() as int));
            },
        }
        j = j + 1;
    }
    None
}

/// The name a fragment asks for: the name of its source, or else of its
/// type `ty`, in Pascal case.
pub open spec fn requested_fragment_name(source: Option<Seq<char>>, ty: Option<Seq<char>>) -> Seq<char> {
    match source {
        Some(n) => pascal_case(n),
        None => pascal_case(ty->0),
    }
}

impl<'a> Nameable for GraphFragment<'a> {
    type Id = usize;

    /// A fragment is known by the number of its node.
    open spec fn spec_id(&self) -> usize {
        node_number(self.spec_node()) as usize
    }

    /// A fragment asks for the name of the first operation or named
    /// fragment that leads to it, or else for the name of its type, in
    /// Pascal case.
    open spec fn spec_requested_name(&self) -> Seq<char> {
        requested_fragment_name(self.source_name(), self.fragment_type_name())
    }

    fn id(&self) -> (r: usize) {
        index_number(self.node)
    }

    fn requested_name(&self) -> (r: String) {
        proof {
            use_type_invariant(self);
        }
        let sources = incoming_sources(self.graph, self.node);
        let ghost order = incoming_order(*self.graph, node_number(self.node));
        let ghost nodes = graph_nodes(*self.graph);
        let ghost srcs = edge_sources(graph_edges(*self.graph), order);
        let mut j: usize = 0;
        assert(srcs.subrange(0, srcs.len() as int) == srcs);
        while j < sources.len()
            invariant
                j <= sources@.len(),
                sources@.len() == srcs.len(),
                srcs == edge_sources(graph_edges(*self.graph), incoming_order(*self.graph, node_number(self.node))),
                nodes == graph_nodes(*self.graph),
                forall|m: int| 0 <= m < sources@.len() ==> #[trigger] node_number(sources@[m]) == srcs[m],
                self.source_name() == first_source_name(
                    nodes,
                    self.operations@,
                    self.fragments@,
                    srcs.subrange(j as int, srcs.len() as int),
                ),
            decreases sources.len() - j,
        {
            let s = sources[j];
            let ghost rest = srcs.subrange(j as int, srcs.len() as int);
            assert(rest[0] == srcs[j as int]);
            assert(rest.drop_first() == srcs.subrange(j + 1, srcs.len() as int));
            assert(node_number(s) == srcs[j as int]);
            if contains_node(self.graph, s) {
                let w = node_weight(self.graph, s);
                match w {
                    Node::Operation(i) => {
                        if i < self.operations.len() {
                            match &self.operations[i].name {
                                Some(n) => {
                                    return to_pascal_case(n.as_str());
                                },
                                None => {},
                            }
                        }
                    },
                    Node::NamedFragment(f) => {
                        if f < self.fragments.len() {
                            return to_pascal_case(self.fragments[f].name.as_str());
                        }
                    },
                    _ => {},
                }
            }
            j = j + 1;
        }
        proof {
            lemma_first_type_name_position(
                graph_nodes(*self.graph),
                graph_edges(*self.graph),
                self.schema.types@,
                outgoing_order(*self.graph, node_number(self.node)),
            );
        }
        match find_type_position(self.graph, self.node, self.schema) {
            Some(t) => to_pascal_case(self.schema.types[t].name.as_str()),
            None => String::new(),
        }
    }
}

} // verus!
