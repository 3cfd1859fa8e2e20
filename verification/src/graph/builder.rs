//! Reading a query document into the query graph: a node for each schema
//! type, named fragment and operation, and for each selection set a query
//! fragment, an inline fragment, or both.

use vstd::prelude::*;
use petgraph::stable_graph::NodeIndex;
use crate::document::Schema;
use crate::executable::{FragmentDefinition, InlineFragment, OperationDefinition, OperationType, Selection};
use crate::ingest::{field_lookup, field_position, fragment_position, type_fields, typename_field_name};
use crate::output::string_opt;
use crate::graph::query_graph::{add_edge, outgoing_selection_indices, add_node, edge_selection_index, empty_graph, graph_edges, graph_nodes, node_number, Edge, Node, QueryGraph};
use crate::ingest::{find_field, find_roots, inline_fragment_type, selection_set_shape, RootDefinitions, SelectionSetShape};

verus! {

/// Builds the query graph of a document against a schema: the graph so far,
/// the node of each schema type (by type position) and of each named
/// fragment read so far (by fragment position), and the root types.
pub struct GraphBuilder<'a> {
    graph: QueryGraph,
    type_nodes: Vec<NodeIndex<usize>>,
    fragment_nodes: Vec<NodeIndex<usize>>,
    roots: RootDefinitions,
    schema: &'a Schema,
    fragments: &'a Vec<FragmentDefinition>,
}

/// The numbers of a sequence of node indices.
pub open spec fn numbers(v: Seq<NodeIndex<usize>>) -> Seq<int> {
    v.map_values(|n: NodeIndex<usize>| node_number(n))
}

impl<'a> GraphBuilder<'a> {
    /// The nodes of the graph so far.
    pub closed spec fn nodes(&self) -> Map<int, Node> {
        graph_nodes(self.graph)
    }

    /// The edges of the graph so far.
    pub closed spec fn edges(&self) -> Map<int, (int, int, Edge)> {
        graph_edges(self.graph)
    }

    /// The number of the node of each schema type, by type position.
    pub closed spec fn type_node_numbers(&self) -> Seq<int> {
        numbers(self.type_nodes@)
    }

    /// The number of the node of each named fragment read so far, by
    /// fragment position.
    pub closed spec fn fragment_node_numbers(&self) -> Seq<int> {
        numbers(self.fragment_nodes@)
    }

    /// The schema the document is read against.
    pub closed spec fn spec_schema(&self) -> Schema {
        *self.schema
    }

    /// The named fragments of the document.
    pub closed spec fn spec_fragments(&self) -> Seq<FragmentDefinition> {
        self.fragments@
    }

    /// The positions of the root types.
    pub closed spec fn spec_roots(&self) -> RootDefinitions {
        self.roots
    }

    /// Each schema type has its node, each named fragment read so far its
    /// node, and the root types are types of the schema.
    pub closed spec fn wf(&self) -> bool {
        &&& self.schema.wf()
        &&& graph_nodes(self.graph).dom().finite()
        &&& forall|k: int|
            #[trigger] graph_edges(self.graph).dom().contains(k) ==> graph_nodes(self.graph).dom().contains(
                graph_edges(self.graph)[k].0,
            ) && graph_nodes(self.graph).dom().contains(graph_edges(self.graph)[k].1)
        &&& self.type_nodes@.len() == self.schema.types@.len()
        &&& forall|p: int|
            0 <= p < self.type_nodes@.len() ==> {
                &&& graph_nodes(self.graph).dom().contains(#[trigger] numbers(self.type_nodes@)[p])
                &&& graph_nodes(self.graph)[numbers(self.type_nodes@)[p]] == Node::Type(p as usize)
            }
        &&& self.fragment_nodes@.len() <= self.fragments@.len()
        &&& forall|f: int|
            0 <= f < self.fragment_nodes@.len() ==> {
                &&& graph_nodes(self.graph).dom().contains(#[trigger] numbers(self.fragment_nodes@)[f])
                &&& graph_nodes(self.graph)[numbers(self.fragment_nodes@)[f]] == Node::NamedFragment(f as usize)
            }
        &&& self.roots.query matches Some(p) ==> p < self.schema.types@.len()
        &&& self.roots.mutation matches Some(p) ==> p < self.schema.types@.len()
        &&& self.roots.subscription matches Some(p) ==> p < self.schema.types@.len()
    }

    /// A builder for a document with the named fragments `fragments`,
    /// read against `schema`: the graph has a node for each schema type and
    /// nothing else, and the root types are those `find_roots` finds.
    pub fn new(schema: &'a Schema, fragments: &'a Vec<FragmentDefinition>) -> (r: GraphBuilder<'a>)
        requires
            schema.wf(),
        ensures
            r.wf(),
            r.spec_schema() == *schema,
            r.spec_fragments() == fragments@,
            r.nodes().dom().len() == schema.types@.len(),
            r.edges().dom().is_empty(),
            r.fragment_node_numbers().len() == 0,
            r.spec_roots() == find_roots_spec(*schema),
    {
        let mut graph = empty_graph();
        let mut type_nodes: Vec<NodeIndex<usize>> = Vec::new();
        let mut p: usize = 0;
        while p < schema.types.len()
            invariant
                p <= schema.types@.len(),
                type_nodes@.len() == p,
                graph_nodes(graph).dom().finite(),
                graph_nodes(graph).dom().len() == p,
                graph_edges(graph).dom().is_empty(),
                forall|q: int|
                    0 <= q < p ==> {
                        &&& graph_nodes(graph).dom().contains(#[trigger] numbers(type_nodes@)[q])
                        &&& graph_nodes(graph)[numbers(type_nodes@)[q]] == Node::Type(q as usize)
                    },
            decreases schema.types.len() - p,
        {
            let ghost before = graph_nodes(graph);
            let n = add_node(&mut graph, Node::Type(p));
            let ghost old_nodes = type_nodes@;
            type_nodes.push(n);
            proof {
                assert(numbers(type_nodes@) == numbers(old_nodes).push(node_number(n)));
                assert forall|q: int| 0 <= q < p + 1 implies {
                    &&& graph_nodes(graph).dom().contains(#[trigger] numbers(type_nodes@)[q])
                    &&& graph_nodes(graph)[numbers(type_nodes@)[q]] == Node::Type(q as usize)
                } by {
                    if q < p {
                        assert(numbers(type_nodes@)[q] == numbers(old_nodes)[q]);
                        assert(before.dom().contains(numbers(old_nodes)[q]));
                    }
                }
            }
            p = p + 1;
        }
        let roots = find_roots(schema);
        proof {
            lemma_root_positions(*schema);
        }
        GraphBuilder { graph, type_nodes, fragment_nodes: Vec::new(), roots, schema, fragments }
    }

    /// The graph built.
    pub fn finish(self) -> (r: QueryGraph)
        ensures
            graph_nodes(r) == self.nodes(),
            graph_edges(r) == self.edges(),
    {
        self.graph
    }
}

/// The root types that `find_roots` finds.
pub open spec fn find_roots_spec(schema: Schema) -> RootDefinitions {
    RootDefinitions {
        query: match crate::ingest::root_position(schema, crate::executable::OperationType::Query, "Query"@) {
            Some(p) => Some(p as usize),
            None => None,
        },
        mutation: match crate::ingest::root_position(schema, crate::executable::OperationType::Mutation, "Mutation"@) {
            Some(p) => Some(p as usize),
            None => None,
        },
        subscription: match crate::ingest::root_position(
            schema,
            crate::executable::OperationType::Subscription,
            "Subscription"@,
        ) {
            Some(p) => Some(p as usize),
            None => None,
        },
    }
}

proof fn lemma_root_positions(schema: Schema)
    ensures
        forall|kind: crate::executable::OperationType, d: Seq<char>|
            match #[trigger] crate::ingest::root_position(schema, kind, d) {
                Some(p) => 0 <= p < schema.types@.len(),
                None => true,
            },
{
    assert forall|kind: crate::executable::OperationType, d: Seq<char>|
        match #[trigger] crate::ingest::root_position(schema, kind, d) {
            Some(p) => 0 <= p < schema.types@.len(),
            None => true,
        } by {
        if let Some(n) = crate::ingest::root_name(schema, kind, d) {
            if schema.has_type(n) {
                let i = choose|i: int| 0 <= i < schema.types@.len() && #[trigger] schema.types@[i].name@ == n;
            }
        }
    }
}

/// How deep a selection nests selection sets: one more than the deepest of
/// its own selections.
pub open spec fn selection_depth(s: Selection) -> nat
    decreases s,
{
    match s {
        Selection::Field(f) => 1 + set_depth(f.selection_set@),
        Selection::InlineFragment(i) => 1 + set_depth(i.selection_set@),
        Selection::FragmentSpread(_) => 1,
    }
}

/// How deep a selection set nests: the depth of its deepest selection.
pub open spec fn set_depth(s: Seq<Selection>) -> nat
    decreases s,
{
    if s.len() == 0 {
        0
    } else {
        let a = set_depth(s.drop_last());
        let b = selection_depth(s.last());
        if a < b {
            b
        } else {
            a
        }
    }
}

proof fn lemma_set_depth_bounds(s: Seq<Selection>)
    ensures
        forall|i: int| 0 <= i < s.len() ==> selection_depth(#[trigger] s[i]) <= set_depth(s),
    decreases s.len(),
{
    if s.len() > 0 {
        let d = s.drop_last();
        lemma_set_depth_bounds(d);
        assert forall|i: int| 0 <= i < s.len() implies selection_depth(#[trigger] s[i]) <= set_depth(s) by {
            if i < d.len() {
                assert(s[i] == d[i]);
            }
        }
    }
}

proof fn lemma_set_depth_at_most(s: Seq<Selection>, d: nat)
    requires
        forall|i: int| 0 <= i < s.len() ==> selection_depth(#[trigger] s[i]) <= d,
    ensures
        set_depth(s) <= d,
    decreases s.len(),
{
    if s.len() > 0 {
        let t = s.drop_last();
        assert forall|i: int| 0 <= i < t.len() implies selection_depth(#[trigger] t[i]) <= d by {
            assert(t[i] == s[i]);
        }
        lemma_set_depth_at_most(t, d);
        assert(selection_depth(s[s.len() - 1]) <= d);
    }
}

/// The selections that `refs` points at.
pub open spec fn derefs(refs: Seq<&Selection>) -> Seq<Selection> {
    refs.map_values(|s: &Selection| *s)
}

/// The position of the last of `fragments` named `name`: the fragment a
/// spread of that name reaches when later fragments replace earlier ones.
pub open spec fn last_fragment_position(fragments: Seq<FragmentDefinition>, name: Seq<char>) -> Option<int>
    decreases fragments.len(),
{
    if fragments.len() == 0 {
        None
    } else if fragments.last().name@ == name {
        Some(fragments.len() - 1)
    } else {
        last_fragment_position(fragments.drop_last(), name)
    }
}

/// Selecting the field `name` on the type at `t` reads a field of the type
/// (or `__typename`) whose named type is in the schema.
pub open spec fn field_resolves(schema: Schema, t: int, name: Seq<char>) -> bool {
    &&& name == typename_field_name() ==> schema.has_type(seq!['S', 't', 'r', 'i', 'n', 'g'])
    &&& name != typename_field_name() ==> match field_position(type_fields(schema.types@[t]), name) {
        Some(p) => schema.has_type(type_fields(schema.types@[t])[p].ty.name@),
        None => false,
    }
}

/// The type an inline fragment's selections apply to.
pub open spec fn inline_type(schema: Schema, t: int, f: InlineFragment) -> int {
    match f.type_condition {
        Some(c) => schema.type_position(c@),
        None => t,
    }
}

/// The selection can be read on the type at `t`: each field it selects,
/// however deep, is a field of the type it is selected on, each type
/// condition names a schema type, and each spread names a fragment.
pub open spec fn selection_resolves(schema: Schema, fragments: Seq<FragmentDefinition>, t: int, s: Selection) -> bool
    decreases s,
{
    match s {
        Selection::Field(f) => {
            &&& field_resolves(schema, t, f.name@)
            &&& match field_lookup(schema, t, f.name@) {
                Some((ft, _)) => forall|i: int|
                    0 <= i < f.selection_set@.len() ==> selection_resolves(
                        schema,
                        fragments,
                        ft,
                        #[trigger] f.selection_set@[i],
                    ),
                None => false,
            }
        },
        Selection::InlineFragment(f) => {
            &&& (f.type_condition matches Some(c) ==> schema.has_type(c@))
            &&& forall|i: int|
                0 <= i < f.selection_set@.len() ==> selection_resolves(
                    schema,
                    fragments,
                    inline_type(schema, t, f),
                    #[trigger] f.selection_set@[i],
                )
        },
        Selection::FragmentSpread(sp) => fragment_position(fragments, sp.fragment_name@) is Some,
    }
}

/// Every selection of `s` can be read on the type at `t`.
pub open spec fn set_resolves(schema: Schema, fragments: Seq<FragmentDefinition>, t: int, s: Seq<Selection>) -> bool {
    forall|i: int| 0 <= i < s.len() ==> selection_resolves(schema, fragments, t, #[trigger] s[i])
}

/// The edge numbered `k` leaves the node numbered `r`.
pub open spec fn out_edge(edges: Map<int, (int, int, Edge)>, k: int, r: int) -> bool {
    edges.dom().contains(k) && edges[k].0 == r
}

/// The node numbered `c` has an edge to the node numbered `t` marking its type.
pub open spec fn has_type_edge(edges: Map<int, (int, int, Edge)>, c: int, t: int) -> bool {
    exists|k: int| #[trigger] out_edge(edges, k, c) && edges[k].1 == t && edges[k].2 == Edge::IsOfType
}

/// The node is a fragment to generate.
pub open spec fn is_fragment_node(nodes: Map<int, Node>, c: int) -> bool {
    nodes.dom().contains(c) && (nodes[c] == Node::QueryFragment || nodes[c] == Node::InlineFragment)
}

/// The edge `w` to the node numbered `target`, from a fragment on the type at
/// `t`, stands for the selection `sel` at position `i`: a field edge with the
/// field's name, alias and definition to a leaf field of the field's type
/// (or, for a field with a selection set, to a fragment); an inline spread
/// edge to a fragment; a fragment edge to the node of the last fragment of
/// the spread's name.
pub open spec fn stands_for(
    nodes: Map<int, Node>,
    edges: Map<int, (int, int, Edge)>,
    type_nodes: Seq<int>,
    fragment_nodes: Seq<int>,
    schema: Schema,
    fragments: Seq<FragmentDefinition>,
    t: int,
    i: int,
    sel: Selection,
    target: int,
    w: Edge,
) -> bool {
    match sel {
        Selection::Field(f) => match (w, field_lookup(schema, t, f.name@)) {
            (Edge::HasField { name, alias, definition, index }, Some((ft, def))) => {
                &&& name@ == f.name@
                &&& string_opt(alias) == string_opt(f.alias)
                &&& index == i
                &&& definition == def
                &&& if f.selection_set@.len() == 0 {
                    &&& nodes.dom().contains(target)
                    &&& nodes[target] == Node::LeafField
                    &&& has_type_edge(edges, target, type_nodes[ft])
                } else {
                    is_fragment_node(nodes, target)
                }
            },
            _ => false,
        },
        Selection::InlineFragment(_) => w == (Edge::HasInlineSpread { index: i as usize }) && is_fragment_node(nodes, target),
        Selection::FragmentSpread(sp) => w == (Edge::HasFragment { index: i as usize }) && match last_fragment_position(
            fragments,
            sp.fragment_name@,
        ) {
            Some(p) => target == fragment_nodes[p],
            None => false,
        },
    }
}

/// The node numbered `r` has an edge standing for the selection `sel` at
/// position `i`.
pub open spec fn selection_edge(
    nodes: Map<int, Node>,
    edges: Map<int, (int, int, Edge)>,
    type_nodes: Seq<int>,
    fragment_nodes: Seq<int>,
    schema: Schema,
    fragments: Seq<FragmentDefinition>,
    r: int,
    t: int,
    i: int,
    sel: Selection,
) -> bool {
    exists|k: int|
        #[trigger] out_edge(edges, k, r) && edge_selection_index(edges[k].2) == Some(i as usize) && stands_for(
            nodes,
            edges,
            type_nodes,
            fragment_nodes,
            schema,
            fragments,
            t,
            i,
            sel,
            edges[k].1,
            edges[k].2,
        )
}

/// The node numbered `r`, a `kind` node for the selections `sub` on the type
/// at `t`, has exactly these edges: one to its type, and for each selection
/// one edge standing for it; with `synthetic`, it may also have an edge
/// spreading the inline fragment its other selections were split into.
pub open spec fn built(
    nodes: Map<int, Node>,
    edges: Map<int, (int, int, Edge)>,
    type_nodes: Seq<int>,
    fragment_nodes: Seq<int>,
    schema: Schema,
    fragments: Seq<FragmentDefinition>,
    r: int,
    t: int,
    sub: Seq<Selection>,
    kind: Node,
    synthetic: bool,
) -> bool {
    &&& nodes.dom().contains(r)
    &&& nodes[r] == kind
    &&& has_type_edge(edges, r, type_nodes[t])
    &&& forall|i: int|
        0 <= i < sub.len() ==> #[trigger] selection_edge(
            nodes,
            edges,
            type_nodes,
            fragment_nodes,
            schema,
            fragments,
            r,
            t,
            i,
            sub[i],
        )
    &&& forall|k: int|
        #[trigger] out_edge(edges, k, r) ==> match edge_selection_index(edges[k].2) {
            None => edges[k].2 == Edge::IsOfType && edges[k].1 == type_nodes[t],
            Some(i) => (i < sub.len() && stands_for(
                nodes,
                edges,
                type_nodes,
                fragment_nodes,
                schema,
                fragments,
                t,
                i as int,
                sub[i as int],
                edges[k].1,
                edges[k].2,
            )) || (synthetic && i == sub.len() && edges[k].2 == (Edge::HasSyntheticSpread { index: i })),
        }
    &&& forall|k1: int, k2: int|
        #[trigger] out_edge(edges, k1, r) && #[trigger] out_edge(edges, k2, r) && edge_selection_index(edges[k1].2)
            == edge_selection_index(edges[k2].2) ==> k1 == k2
}

/// Every entry of `a` is an entry of `b`.
pub open spec fn keeps<K, V>(a: Map<K, V>, b: Map<K, V>) -> bool {
    forall|k: K| #[trigger] a.dom().contains(k) ==> b.dom().contains(k) && b[k] == a[k]
}

/// `b` is `a` grown: the same schema, fragments, roots and nodes of types
/// and fragments; every node and edge of `a` kept as it was; and every edge
/// that `a` lacks starting at a node that `a` lacks.
pub open spec fn grows<'a>(a: GraphBuilder<'a>, b: GraphBuilder<'a>) -> bool {
    &&& b.wf()
    &&& b.spec_schema() == a.spec_schema()
    &&& b.spec_fragments() == a.spec_fragments()
    &&& b.spec_roots() == a.spec_roots()
    &&& b.type_node_numbers() == a.type_node_numbers()
    &&& b.fragment_node_numbers() == a.fragment_node_numbers()
    &&& keeps(a.nodes(), b.nodes())
    &&& keeps(a.edges(), b.edges())
    &&& forall|k: int|
        #[trigger] b.edges().dom().contains(k) && !a.edges().dom().contains(k) ==> !a.nodes().dom().contains(
            b.edges()[k].0,
        )
}

proof fn lemma_grows_trans<'a>(a: GraphBuilder<'a>, b: GraphBuilder<'a>, c: GraphBuilder<'a>)
    requires
        grows(a, b),
        grows(b, c),
    ensures
        grows(a, c),
{
    assert forall|k: int| #[trigger] c.edges().dom().contains(k) && !a.edges().dom().contains(k) implies !a.nodes().dom().contains(
        c.edges()[k].0,
    ) by {
        if b.edges().dom().contains(k) {
            assert(c.edges()[k] == b.edges()[k]);
        } else {
            if a.nodes().dom().contains(c.edges()[k].0) {
                assert(b.nodes().dom().contains(c.edges()[k].0));
            }
        }
    }
}

proof fn lemma_stands_for_grows(
    n1: Map<int, Node>,
    e1: Map<int, (int, int, Edge)>,
    n2: Map<int, Node>,
    e2: Map<int, (int, int, Edge)>,
    type_nodes: Seq<int>,
    fragment_nodes: Seq<int>,
    schema: Schema,
    fragments: Seq<FragmentDefinition>,
    t: int,
    i: int,
    sel: Selection,
    target: int,
    w: Edge,
)
    requires
        keeps(n1, n2),
        keeps(e1, e2),
        stands_for(n1, e1, type_nodes, fragment_nodes, schema, fragments, t, i, sel, target, w),
    ensures
        stands_for(n2, e2, type_nodes, fragment_nodes, schema, fragments, t, i, sel, target, w),
{
    if let Selection::Field(f) = sel {
        if f.selection_set@.len() == 0 {
            if let Some((ft, _)) = field_lookup(schema, t, f.name@) {
                let k = choose|k: int| #[trigger] out_edge(e1, k, target) && e1[k].1 == type_nodes[ft] && e1[k].2 == Edge::IsOfType;
                assert(e2[k] == e1[k]);
                assert(out_edge(e2, k, target));
            }
        }
    }
}

proof fn lemma_built_grows(
    n1: Map<int, Node>,
    e1: Map<int, (int, int, Edge)>,
    n2: Map<int, Node>,
    e2: Map<int, (int, int, Edge)>,
    type_nodes: Seq<int>,
    fragment_nodes: Seq<int>,
    schema: Schema,
    fragments: Seq<FragmentDefinition>,
    r: int,
    t: int,
    sub: Seq<Selection>,
    kind: Node,
    synthetic: bool,
)
    requires
        keeps(n1, n2),
        keeps(e1, e2),
        forall|k: int| #[trigger] e2.dom().contains(k) && !e1.dom().contains(k) ==> e2[k].0 != r,
        built(n1, e1, type_nodes, fragment_nodes, schema, fragments, r, t, sub, kind, synthetic),
    ensures
        built(n2, e2, type_nodes, fragment_nodes, schema, fragments, r, t, sub, kind, synthetic),
{
    let k0 = choose|k: int| #[trigger] out_edge(e1, k, r) && e1[k].1 == type_nodes[t] && e1[k].2 == Edge::IsOfType;
    assert(e2[k0] == e1[k0]);
    assert(out_edge(e2, k0, r));
    assert forall|i: int| 0 <= i < sub.len() implies #[trigger] selection_edge(
        n2,
        e2,
        type_nodes,
        fragment_nodes,
        schema,
        fragments,
        r,
        t,
        i,
        sub[i],
    ) by {
        assert(selection_edge(n1, e1, type_nodes, fragment_nodes, schema, fragments, r, t, i, sub[i]));
        let k = choose|k: int|
            #[trigger] out_edge(e1, k, r) && edge_selection_index(e1[k].2) == Some(i as usize) && stands_for(
                n1,
                e1,
                type_nodes,
                fragment_nodes,
                schema,
                fragments,
                t,
                i,
                sub[i],
                e1[k].1,
                e1[k].2,
            );
        assert(e2[k] == e1[k]);
        lemma_stands_for_grows(n1, e1, n2, e2, type_nodes, fragment_nodes, schema, fragments, t, i, sub[i], e1[k].1, e1[k].2);
        assert(out_edge(e2, k, r));
    }
    assert forall|k: int| #[trigger] out_edge(e2, k, r) implies match edge_selection_index(e2[k].2) {
        None => e2[k].2 == Edge::IsOfType && e2[k].1 == type_nodes[t],
        Some(i) => (i < sub.len() && stands_for(
            n2,
            e2,
            type_nodes,
            fragment_nodes,
            schema,
            fragments,
            t,
            i as int,
            sub[i as int],
            e2[k].1,
            e2[k].2,
        )) || (synthetic && i == sub.len() && e2[k].2 == (Edge::HasSyntheticSpread { index: i })),
    } by {
        assert(e1.dom().contains(k));
        assert(out_edge(e1, k, r));
        assert(e2[k] == e1[k]);
        if let Some(i) = edge_selection_index(e1[k].2) {
            if i < sub.len() && stands_for(n1, e1, type_nodes, fragment_nodes, schema, fragments, t, i as int, sub[i as int], e1[k].1, e1[k].2) {
                lemma_stands_for_grows(n1, e1, n2, e2, type_nodes, fragment_nodes, schema, fragments, t, i as int, sub[i as int], e1[k].1, e1[k].2);
            }
        }
    }
    assert forall|k1: int, k2: int|
        #[trigger] out_edge(e2, k1, r) && #[trigger] out_edge(e2, k2, r) && edge_selection_index(e2[k1].2)
            == edge_selection_index(e2[k2].2) implies k1 == k2 by {
        assert(out_edge(e1, k1, r));
        assert(out_edge(e1, k2, r));
    }
}

proof fn lemma_last_fragment_position(fragments: Seq<FragmentDefinition>, name: Seq<char>)
    ensures
        match last_fragment_position(fragments, name) {
            Some(p) => 0 <= p < fragments.len() && fragments[p].name@ == name,
            None => forall|i: int| 0 <= i < fragments.len() ==> (#[trigger] fragments[i]).name@ != name,
        },
    decreases fragments.len(),
{
    if fragments.len() > 0 {
        let d = fragments.drop_last();
        lemma_last_fragment_position(d, name);
        assert forall|i: int| 0 <= i < d.len() implies d[i] == fragments[i] by {}
    }
}

/// Finds the last of `fragments` named `name`.
fn last_fragment_index(fragments: &Vec<FragmentDefinition>, name: &str) -> (r: Option<usize>)
    ensures
        match r {
            Some(p) => last_fragment_position(fragments@, name@) == Some(p as int),
            None => last_fragment_position(fragments@, name@) is None,
        },
{
    let mut k: usize = fragments.len();
    assert(fragments@.take(k as int) == fragments@);
    while k > 0
        invariant
            k <= fragments@.len(),
            last_fragment_position(fragments@, name@) == last_fragment_position(fragments@.take(k as int), name@),
        decreases k,
    {
        let ghost t = fragments@.take(k as int);
        assert(t.drop_last() == fragments@.take(k - 1));
        assert(t.last() == fragments@[k - 1]);
        if crate::text::str_eq(fragments[k - 1].name.as_str(), name) {
            return Some(k - 1);
        }
        k = k - 1;
    }
    None
}

proof fn lemma_built_extend(
    n: Map<int, Node>,
    e1: Map<int, (int, int, Edge)>,
    e2: Map<int, (int, int, Edge)>,
    type_nodes: Seq<int>,
    fragment_nodes: Seq<int>,
    schema: Schema,
    fragments: Seq<FragmentDefinition>,
    r: int,
    t: int,
    sub: Seq<Selection>,
    j: int,
    kind: Node,
    knew: int,
    target: int,
    w: Edge,
)
    requires
        0 <= j < sub.len(),
        sub.len() <= usize::MAX,
        built(n, e1, type_nodes, fragment_nodes, schema, fragments, r, t, sub.take(j), kind, false),
        !e1.dom().contains(knew),
        e2 == e1.insert(knew, (r, target, w)),
        edge_selection_index(w) == Some(j as usize),
        stands_for(n, e1, type_nodes, fragment_nodes, schema, fragments, t, j, sub[j], target, w),
    ensures
        built(n, e2, type_nodes, fragment_nodes, schema, fragments, r, t, sub.take(j + 1), kind, false),
{
    let s0 = sub.take(j);
    let s1 = sub.take(j + 1);
    assert(keeps(e1, e2));
    assert(keeps(n, n));
    let k0 = choose|k: int| #[trigger] out_edge(e1, k, r) && e1[k].1 == type_nodes[t] && e1[k].2 == Edge::IsOfType;
    assert(out_edge(e2, k0, r));
    lemma_stands_for_grows(n, e1, n, e2, type_nodes, fragment_nodes, schema, fragments, t, j, sub[j], target, w);
    assert forall|i: int| 0 <= i < s1.len() implies #[trigger] selection_edge(
        n,
        e2,
        type_nodes,
        fragment_nodes,
        schema,
        fragments,
        r,
        t,
        i,
        s1[i],
    ) by {
        if i < j {
            assert(s1[i] == s0[i]);
            assert(selection_edge(n, e1, type_nodes, fragment_nodes, schema, fragments, r, t, i, s0[i]));
            let k = choose|k: int|
                #[trigger] out_edge(e1, k, r) && edge_selection_index(e1[k].2) == Some(i as usize) && stands_for(
                    n,
                    e1,
                    type_nodes,
                    fragment_nodes,
                    schema,
                    fragments,
                    t,
                    i,
                    s0[i],
                    e1[k].1,
                    e1[k].2,
                );
            assert(e2[k] == e1[k]);
            lemma_stands_for_grows(n, e1, n, e2, type_nodes, fragment_nodes, schema, fragments, t, i, s0[i], e1[k].1, e1[k].2);
            assert(out_edge(e2, k, r));
        } else {
            assert(s1[i] == sub[j]);
            assert(out_edge(e2, knew, r));
        }
    }
    assert forall|k: int| #[trigger] out_edge(e2, k, r) implies match edge_selection_index(e2[k].2) {
        None => e2[k].2 == Edge::IsOfType && e2[k].1 == type_nodes[t],
        Some(i) => (i < s1.len() && stands_for(
            n,
            e2,
            type_nodes,
            fragment_nodes,
            schema,
            fragments,
            t,
            i as int,
            s1[i as int],
            e2[k].1,
            e2[k].2,
        )) || (false && i == s1.len() && e2[k].2 == (Edge::HasSyntheticSpread { index: i })),
    } by {
        if k == knew {
            assert(s1[j] == sub[j]);
        } else {
            assert(out_edge(e1, k, r));
            assert(e2[k] == e1[k]);
            if let Some(i) = edge_selection_index(e1[k].2) {
                assert(s1[i as int] == s0[i as int]);
                lemma_stands_for_grows(n, e1, n, e2, type_nodes, fragment_nodes, schema, fragments, t, i as int, s0[i as int], e1[k].1, e1[k].2);
            }
        }
    }
    assert forall|k1: int, k2: int|
        #[trigger] out_edge(e2, k1, r) && #[trigger] out_edge(e2, k2, r) && edge_selection_index(e2[k1].2)
            == edge_selection_index(e2[k2].2) implies k1 == k2 by {
        if k1 != knew && k2 != knew {
            assert(out_edge(e1, k1, r));
            assert(out_edge(e1, k2, r));
        } else if k1 == knew && k2 != knew {
            assert(out_edge(e1, k2, r));
            assert(e2[k2] == e1[k2]);
        } else if k2 == knew && k1 != knew {
            assert(out_edge(e1, k1, r));
            assert(e2[k1] == e1[k1]);
        }
    }
}

proof fn lemma_built_add_synthetic(
    n: Map<int, Node>,
    e1: Map<int, (int, int, Edge)>,
    e2: Map<int, (int, int, Edge)>,
    type_nodes: Seq<int>,
    fragment_nodes: Seq<int>,
    schema: Schema,
    fragments: Seq<FragmentDefinition>,
    r: int,
    t: int,
    sub: Seq<Selection>,
    kind: Node,
    knew: int,
    target: int,
)
    requires
        sub.len() <= usize::MAX,
        built(n, e1, type_nodes, fragment_nodes, schema, fragments, r, t, sub, kind, false),
        !e1.dom().contains(knew),
        e2 == e1.insert(knew, (r, target, Edge::HasSyntheticSpread { index: sub.len() as usize })),
    ensures
        built(n, e2, type_nodes, fragment_nodes, schema, fragments, r, t, sub, kind, true),
{
    assert(keeps(e1, e2));
    assert(keeps(n, n));
    let k0 = choose|k: int| #[trigger] out_edge(e1, k, r) && e1[k].1 == type_nodes[t] && e1[k].2 == Edge::IsOfType;
    assert(out_edge(e2, k0, r));
    assert forall|i: int| 0 <= i < sub.len() implies #[trigger] selection_edge(
        n,
        e2,
        type_nodes,
        fragment_nodes,
        schema,
        fragments,
        r,
        t,
        i,
        sub[i],
    ) by {
        assert(selection_edge(n, e1, type_nodes, fragment_nodes, schema, fragments, r, t, i, sub[i]));
        let k = choose|k: int|
            #[trigger] out_edge(e1, k, r) && edge_selection_index(e1[k].2) == Some(i as usize) && stands_for(
                n,
                e1,
                type_nodes,
                fragment_nodes,
                schema,
                fragments,
                t,
                i,
                sub[i],
                e1[k].1,
                e1[k].2,
            );
        assert(e2[k] == e1[k]);
        lemma_stands_for_grows(n, e1, n, e2, type_nodes, fragment_nodes, schema, fragments, t, i, sub[i], e1[k].1, e1[k].2);
        assert(out_edge(e2, k, r));
    }
    assert forall|k: int| #[trigger] out_edge(e2, k, r) implies match edge_selection_index(e2[k].2) {
        None => e2[k].2 == Edge::IsOfType && e2[k].1 == type_nodes[t],
        Some(i) => (i < sub.len() && stands_for(
            n,
            e2,
            type_nodes,
            fragment_nodes,
            schema,
            fragments,
            t,
            i as int,
            sub[i as int],
            e2[k].1,
            e2[k].2,
        )) || (true && i == sub.len() && e2[k].2 == (Edge::HasSyntheticSpread { index: i })),
    } by {
        if k != knew {
            assert(out_edge(e1, k, r));
            assert(e2[k] == e1[k]);
            if let Some(i) = edge_selection_index(e1[k].2) {
                lemma_stands_for_grows(n, e1, n, e2, type_nodes, fragment_nodes, schema, fragments, t, i as int, sub[i as int], e1[k].1, e1[k].2);
            }
        }
    }
    assert forall|k1: int, k2: int|
        #[trigger] out_edge(e2, k1, r) && #[trigger] out_edge(e2, k2, r) && edge_selection_index(e2[k1].2)
            == edge_selection_index(e2[k2].2) implies k1 == k2 by {
        if k1 != knew && k2 != knew {
            assert(out_edge(e1, k1, r));
            assert(out_edge(e1, k2, r));
        } else if k1 == knew && k2 != knew {
            assert(out_edge(e1, k2, r));
            assert(e2[k2] == e1[k2]);
        } else if k2 == knew && k1 != knew {
            assert(out_edge(e1, k1, r));
            assert(e2[k1] == e1[k1]);
        }
    }
}

/// The selections of `sels` at `positions`, in order.
pub open spec fn pick(sels: Seq<Selection>, positions: Seq<usize>) -> Seq<Selection> {
    positions.map_values(|p: usize| sels[p as int])
}

/// The selections of a selection set that go to the current type
/// (`!other`) or to other types (`other`) when it is split.
pub open spec fn split_part(sels: Seq<Selection>, current: Seq<char>, fragments: Seq<FragmentDefinition>, other: bool) -> Seq<Selection> {
    pick(sels, crate::ingest::split_positions(sels, current, fragments, other))
}

/// What reading the selection set `sels` on the type at `t` makes of the
/// node numbered `r`: a set that needs both a query fragment and inline
/// fragments becomes a query fragment for its selections on the type, with
/// one more edge, numbered after them, spreading an inline fragment for
/// its selections on other types; any other set becomes an inline fragment
/// (when it needs inline fragments) or a query fragment for all of its
/// selections.
pub open spec fn ingested(
    nodes: Map<int, Node>,
    edges: Map<int, (int, int, Edge)>,
    type_nodes: Seq<int>,
    fragment_nodes: Seq<int>,
    schema: Schema,
    fragments: Seq<FragmentDefinition>,
    r: int,
    t: int,
    sels: Seq<Selection>,
) -> bool {
    let current = schema.types@[t].name@;
    let needs_query = crate::ingest::needs_query_fragment_spec(sels);
    let needs_inline = crate::ingest::needs_inline_fragments_spec(sels, current, fragments);
    if needs_query && needs_inline {
        let on_type = split_part(sels, current, fragments, false);
        let on_others = split_part(sels, current, fragments, true);
        &&& built(nodes, edges, type_nodes, fragment_nodes, schema, fragments, r, t, on_type, Node::QueryFragment, true)
        &&& exists|k: int|
            #[trigger] out_edge(edges, k, r) && edges[k].2 == (Edge::HasSyntheticSpread { index: on_type.len() as usize })
                && built(
                nodes,
                edges,
                type_nodes,
                fragment_nodes,
                schema,
                fragments,
                edges[k].1,
                t,
                on_others,
                Node::InlineFragment,
                false,
            )
    } else {
        built(
            nodes,
            edges,
            type_nodes,
            fragment_nodes,
            schema,
            fragments,
            r,
            t,
            sels,
            if needs_inline {
                Node::InlineFragment
            } else {
                Node::QueryFragment
            },
            false,
        )
    }
}

/// References to each selection of `sels`.
fn refs(sels: &Vec<Selection>) -> (r: Vec<&Selection>)
    ensures
        derefs(r@) == sels@,
{
    let mut out: Vec<&Selection> = Vec::new();
    let mut i: usize = 0;
    while i < sels.len()
        invariant
            i <= sels@.len(),
            derefs(out@) == sels@.take(i as int),
        decreases sels.len() - i,
    {
        let ghost before = out@;
        out.push(&sels[i]);
        proof {
            assert(derefs(out@) =~= derefs(before).push(sels@[i as int]));
            assert(sels@.take(i + 1) =~= sels@.take(i as int).push(sels@[i as int]));
        }
        i = i + 1;
    }
    assert(sels@.take(sels@.len() as int) == sels@);
    out
}

/// References to the selections of `sels` at `positions`.
fn pick_refs<'s>(sels: &'s Vec<Selection>, positions: &Vec<usize>) -> (r: Vec<&'s Selection>)
    requires
        forall|i: int| 0 <= i < positions@.len() ==> (#[trigger] positions@[i]) < sels@.len(),
    ensures
        derefs(r@) == pick(sels@, positions@),
{
    let mut out: Vec<&Selection> = Vec::new();
    let mut i: usize = 0;
    while i < positions.len()
        invariant
            i <= positions@.len(),
            forall|a: int| 0 <= a < positions@.len() ==> (#[trigger] positions@[a]) < sels@.len(),
            derefs(out@) == pick(sels@, positions@.take(i as int)),
        decreases positions.len() - i,
    {
        let ghost before = out@;
        out.push(&sels[positions[i]]);
        proof {
            assert(derefs(out@) =~= derefs(before).push(sels@[positions@[i as int] as int]));
            assert(positions@.take(i + 1) =~= positions@.take(i as int).push(positions@[i as int]));
            assert(pick(sels@, positions@.take(i + 1)) =~= pick(sels@, positions@.take(i as int)).push(
                sels@[positions@[i as int] as int],
            ));
        }
        i = i + 1;
    }
    assert(positions@.take(positions@.len() as int) == positions@);
    out
}

/// A copy of an optional string.
fn copy_opt(o: &Option<String>) -> (r: Option<String>)
    ensures
        string_opt(r) == string_opt(*o),
{
    match o {
        Some(s) => Some(s.clone()),
        None => None,
    }
}

/// The largest position among `indices`, if any is given.
fn max_selection_index(indices: &Vec<Option<usize>>) -> (r: Option<usize>)
    ensures
        r is None <==> forall|j: int| 0 <= j < indices@.len() ==> (#[trigger] indices@[j]) is None,
        r matches Some(m) ==> {
            &&& exists|j: int| 0 <= j < indices@.len() && #[trigger] indices@[j] == Some(m)
            &&& forall|j: int| 0 <= j < indices@.len() ==> match #[trigger] indices@[j] {
                Some(v) => v <= m,
                None => true,
            }
        },
{
    let mut best: Option<usize> = None;
    let mut j: usize = 0;
    while j < indices.len()
        invariant
            j <= indices@.len(),
            best is None <==> forall|a: int| 0 <= a < j ==> (#[trigger] indices@[a]) is None,
            best matches Some(m) ==> {
                &&& exists|a: int| 0 <= a < j && #[trigger] indices@[a] == Some(m)
                &&& forall|a: int| 0 <= a < j ==> match #[trigger] indices@[a] {
                    Some(v) => v <= m,
                    None => true,
                }
            },
        decreases indices.len() - j,
    {
        if let Some(v) = indices[j] {
            best = match best {
                None => Some(v),
                Some(b) => if v > b {
                    Some(v)
                } else {
                    Some(b)
                },
            };
        }
        j = j + 1;
    }
    best
}

impl<'a> GraphBuilder<'a> {
    /// Adds the node of the next named fragment of the document.
    pub fn ingest_fragment(&mut self)
        requires
            old(self).wf(),
            old(self).fragment_node_numbers().len() < old(self).spec_fragments().len(),
        ensures
            final(self).wf(),
            final(self).spec_schema() == old(self).spec_schema(),
            final(self).spec_fragments() == old(self).spec_fragments(),
            final(self).spec_roots() == old(self).spec_roots(),
            final(self).type_node_numbers() == old(self).type_node_numbers(),
            final(self).fragment_node_numbers().len() == old(self).fragment_node_numbers().len() + 1,
            final(self).fragment_node_numbers().drop_last() == old(self).fragment_node_numbers(),
            !old(self).nodes().dom().contains(final(self).fragment_node_numbers().last()),
            final(self).nodes() == old(self).nodes().insert(
                final(self).fragment_node_numbers().last(),
                Node::NamedFragment(old(self).fragment_node_numbers().len() as usize),
            ),
            final(self).edges() == old(self).edges(),
    {
        let ghost before_nodes = graph_nodes(self.graph);
        let ghost before_numbers = numbers(self.fragment_nodes@);
        let f = self.fragment_nodes.len();
        let n = add_node(&mut self.graph, Node::NamedFragment(f));
        self.fragment_nodes.push(n);
        proof {
            assert(numbers(self.fragment_nodes@) =~= before_numbers.push(node_number(n)));
            assert forall|p: int| 0 <= p < self.type_nodes@.len() implies {
                &&& graph_nodes(self.graph).dom().contains(#[trigger] numbers(self.type_nodes@)[p])
                &&& graph_nodes(self.graph)[numbers(self.type_nodes@)[p]] == Node::Type(p as usize)
            } by {
                assert(before_nodes.dom().contains(numbers(self.type_nodes@)[p]));
            }
            assert forall|q: int| 0 <= q < self.fragment_nodes@.len() implies {
                &&& graph_nodes(self.graph).dom().contains(#[trigger] numbers(self.fragment_nodes@)[q])
                &&& graph_nodes(self.graph)[numbers(self.fragment_nodes@)[q]] == Node::NamedFragment(q as usize)
            } by {
                if q < f {
                    assert(numbers(self.fragment_nodes@)[q] == before_numbers[q]);
                    assert(before_nodes.dom().contains(before_numbers[q]));
                }
            }
        }
    }

    /// Adds a leaf field of the type at `t`: a new node with an edge to its
    /// type.
    fn ingest_scalar_field(&mut self, t: usize) -> (r: NodeIndex<usize>)
        requires
            old(self).wf(),
            t < old(self).spec_schema().types@.len(),
        ensures
            grows(*old(self), *final(self)),
            !old(self).nodes().dom().contains(node_number(r)),
            final(self).nodes().dom().contains(node_number(r)),
            final(self).nodes()[node_number(r)] == Node::LeafField,
            has_type_edge(final(self).edges(), node_number(r), final(self).type_node_numbers()[t as int]),
    {
        let ghost start = *self;
        let this = add_node(&mut self.graph, Node::LeafField);
        let tn = self.type_nodes[t];
        proof {
            assert(numbers(self.type_nodes@)[t as int] == node_number(tn));
            assert(start.nodes().dom().contains(node_number(tn)));
        }
        add_edge(&mut self.graph, this, tn, Edge::IsOfType);
        proof {
            let k = choose|k: int|
                !graph_edges(start.graph).dom().contains(k) && graph_edges(self.graph) == graph_edges(start.graph).insert(
                    k,
                    (node_number(this), node_number(tn), Edge::IsOfType),
                );
            assert(out_edge(self.edges(), k, node_number(this)));
            assert forall|p: int| 0 <= p < self.type_nodes@.len() implies {
                &&& graph_nodes(self.graph).dom().contains(#[trigger] numbers(self.type_nodes@)[p])
                &&& graph_nodes(self.graph)[numbers(self.type_nodes@)[p]] == Node::Type(p as usize)
            } by {
                assert(start.nodes().dom().contains(numbers(self.type_nodes@)[p]));
            }
            assert forall|q: int| 0 <= q < self.fragment_nodes@.len() implies {
                &&& graph_nodes(self.graph).dom().contains(#[trigger] numbers(self.fragment_nodes@)[q])
                &&& graph_nodes(self.graph)[numbers(self.fragment_nodes@)[q]] == Node::NamedFragment(q as usize)
            } by {
                assert(start.nodes().dom().contains(numbers(self.fragment_nodes@)[q]));
            }
        }
        this
    }
}

proof fn lemma_wf_after_edge<'a>(a: GraphBuilder<'a>, b: GraphBuilder<'a>)
    requires
        a.wf(),
        forall|k: int|
            #[trigger] graph_edges(b.graph).dom().contains(k) ==> graph_nodes(b.graph).dom().contains(
                graph_edges(b.graph)[k].0,
            ) && graph_nodes(b.graph).dom().contains(graph_edges(b.graph)[k].1),
        b.spec_schema() == a.spec_schema(),
        b.spec_fragments() == a.spec_fragments(),
        b.spec_roots() == a.spec_roots(),
        b.type_node_numbers() == a.type_node_numbers(),
        b.fragment_node_numbers() == a.fragment_node_numbers(),
        b.nodes() == a.nodes(),
        b.type_nodes@.len() == a.type_nodes@.len(),
        b.fragment_nodes@.len() == a.fragment_nodes@.len(),
        b.schema == a.schema,
        b.fragments == a.fragments,
        b.roots == a.roots,
    ensures
        b.wf(),
{
    assert forall|p: int| 0 <= p < b.type_nodes@.len() implies {
        &&& graph_nodes(b.graph).dom().contains(#[trigger] numbers(b.type_nodes@)[p])
        &&& graph_nodes(b.graph)[numbers(b.type_nodes@)[p]] == Node::Type(p as usize)
    } by {
        assert(numbers(b.type_nodes@)[p] == numbers(a.type_nodes@)[p]);
    }
    assert forall|q: int| 0 <= q < b.fragment_nodes@.len() implies {
        &&& graph_nodes(b.graph).dom().contains(#[trigger] numbers(b.fragment_nodes@)[q])
        &&& graph_nodes(b.graph)[numbers(b.fragment_nodes@)[q]] == Node::NamedFragment(q as usize)
    } by {
        assert(numbers(b.fragment_nodes@)[q] == numbers(a.fragment_nodes@)[q]);
    }
}

impl<'a> GraphBuilder<'a> {
    /// Adds a `kind` node for the selections `sub` on the type at `t`: a new
    /// node with an edge to its type and, for each selection in order, an
    /// edge with its position: to a leaf field or the fragment of a field's
    /// own selection set, to the fragment of an inline fragment, or to the
    /// node of a spread named fragment.
    fn build_fragment_node(&mut self, t: usize, sub: &Vec<&Selection>, kind: Node) -> (r: NodeIndex<usize>)
        requires
            old(self).wf(),
            t < old(self).spec_schema().types@.len(),
            old(self).fragment_node_numbers().len() == old(self).spec_fragments().len(),
            kind == Node::QueryFragment || kind == Node::InlineFragment,
            set_resolves(old(self).spec_schema(), old(self).spec_fragments(), t as int, derefs(sub@)),
        ensures
            grows(*old(self), *final(self)),
            !old(self).nodes().dom().contains(node_number(r)),
            built(
                final(self).nodes(),
                final(self).edges(),
                final(self).type_node_numbers(),
                final(self).fragment_node_numbers(),
                final(self).spec_schema(),
                final(self).spec_fragments(),
                node_number(r),
                t as int,
                derefs(sub@),
                kind,
                false,
            ),
        decreases set_depth(derefs(sub@)), 1nat,
    {
        let ghost start = *self;
        let ghost all = derefs(sub@);
        let schema = self.schema;
        let fragments = self.fragments;
        let this = add_node(&mut self.graph, kind);
        let tn = self.type_nodes[t];
        proof {
            assert(numbers(self.type_nodes@)[t as int] == node_number(tn));
            assert(start.nodes().dom().contains(node_number(tn)));
        }
        let ghost with_node = *self;
        add_edge(&mut self.graph, this, tn, Edge::IsOfType);
        proof {
            let k = choose|k: int|
                !graph_edges(with_node.graph).dom().contains(k) && graph_edges(self.graph) == graph_edges(with_node.graph).insert(
                    k,
                    (node_number(this), node_number(tn), Edge::IsOfType),
                );
            assert(out_edge(self.edges(), k, node_number(this)));
            assert forall|p: int| 0 <= p < self.type_nodes@.len() implies {
                &&& graph_nodes(self.graph).dom().contains(#[trigger] numbers(self.type_nodes@)[p])
                &&& graph_nodes(self.graph)[numbers(self.type_nodes@)[p]] == Node::Type(p as usize)
            } by {
                assert(start.nodes().dom().contains(numbers(self.type_nodes@)[p]));
            }
            assert forall|q: int| 0 <= q < self.fragment_nodes@.len() implies {
                &&& graph_nodes(self.graph).dom().contains(#[trigger] numbers(self.fragment_nodes@)[q])
                &&& graph_nodes(self.graph)[numbers(self.fragment_nodes@)[q]] == Node::NamedFragment(q as usize)
            } by {
                assert(start.nodes().dom().contains(numbers(self.fragment_nodes@)[q]));
            }
            assert(all.take(0) =~= Seq::<Selection>::empty());
            assert forall|k2: int| #[trigger] out_edge(self.edges(), k2, node_number(this)) implies k2 == k by {
                if k2 != k {
                    assert(graph_edges(with_node.graph).dom().contains(k2));
                    assert(graph_edges(with_node.graph) == graph_edges(start.graph));
                    assert(!start.nodes().dom().contains(node_number(this)));
                    assert(start.wf());
                }
            }
            lemma_set_depth_bounds(all);
        }
        let mut j: usize = 0;
        while j < sub.len()
            invariant
                all == derefs(sub@),
                grows(start, *self),
                start.wf(),
                t < start.spec_schema().types@.len(),
                start.fragment_node_numbers().len() == start.spec_fragments().len(),
                set_resolves(start.spec_schema(), start.spec_fragments(), t as int, all),
                forall|i: int| 0 <= i < all.len() ==> selection_depth(#[trigger] all[i]) <= set_depth(all),
                kind == Node::QueryFragment || kind == Node::InlineFragment,
                !start.nodes().dom().contains(node_number(this)),
                self.nodes().dom().contains(node_number(this)),
                j <= sub@.len(),
                built(
                    self.nodes(),
                    self.edges(),
                    self.type_node_numbers(),
                    self.fragment_node_numbers(),
                    self.spec_schema(),
                    self.spec_fragments(),
                    node_number(this),
                    t as int,
                    all.take(j as int),
                    kind,
                    false,
                ),
            decreases sub.len() - j,
        {
            let ghost before = *self;
            proof {
                assert(all[j as int] == *sub@[j as int]);
                assert(selection_resolves(start.spec_schema(), start.spec_fragments(), t as int, all[j as int]));
                assert(all.take(j + 1) =~= all.take(j as int).push(all[j as int]));
            }
            self.link_selection(this, t, sub[j], j, Ghost(all.take(j as int)), kind);
            proof {
                assert forall|k: int| #[trigger] self.edges().dom().contains(k) && !start.edges().dom().contains(k)
                    implies !start.nodes().dom().contains(self.edges()[k].0) by {
                    if before.edges().dom().contains(k) {
                        assert(self.edges()[k] == before.edges()[k]);
                    } else if self.edges()[k].0 != node_number(this) {
                        assert(!before.nodes().dom().contains(self.edges()[k].0));
                    }
                }
                assert(keeps(start.nodes(), self.nodes()));
                assert(keeps(start.edges(), self.edges()));
            }
            j = j + 1;
        }
        proof {
            assert(all.take(sub@.len() as int) =~= all);
        }
        this
    }
}

impl<'a> GraphBuilder<'a> {
    /// Reads the selection set `sels` on the type at `t` into the graph and
    /// gives the fragment it became (see `ingested`): a set with fields as
    /// well as selections on other types is split into a query fragment and
    /// an inline fragment spread from it after its own selections.
    #[verifier::rlimit(60)]
    #[verifier::spinoff_prover]
    pub fn ingest_selection_set(&mut self, t: usize, sels: &Vec<Selection>) -> (r: NodeIndex<usize>)
        requires
            old(self).wf(),
            t < old(self).spec_schema().types@.len(),
            old(self).fragment_node_numbers().len() == old(self).spec_fragments().len(),
            set_resolves(old(self).spec_schema(), old(self).spec_fragments(), t as int, sels@),
        ensures
            grows(*old(self), *final(self)),
            !old(self).nodes().dom().contains(node_number(r)),
            is_fragment_node(final(self).nodes(), node_number(r)),
            ingested(
                final(self).nodes(),
                final(self).edges(),
                final(self).type_node_numbers(),
                final(self).fragment_node_numbers(),
                final(self).spec_schema(),
                final(self).spec_fragments(),
                node_number(r),
                t as int,
                sels@,
            ),
        decreases set_depth(sels@), 2nat,
    {
        let ghost start = *self;
        let ghost schema_v = start.spec_schema();
        let ghost frags = start.spec_fragments();
        let schema = self.schema;
        let fragments = self.fragments;
        let current = schema.types[t].name.as_str();
        proof {
            assert forall|i: int| 0 <= i < sels@.len() implies match #[trigger] sels@[i] {
                Selection::FragmentSpread(sp) => crate::ingest::fragment_position(fragments@, sp.fragment_name@) is Some,
                _ => true,
            } by {
                assert(selection_resolves(schema_v, frags, t as int, sels@[i]));
            }
            lemma_set_depth_bounds(sels@);
        }
        let shape = selection_set_shape(sels, current, fragments);
        match shape {
            SelectionSetShape::Split { query, inline } => {
                proof {
                    assert(sels@.len() == sels.len());
                    crate::ingest::lemma_split_positions_below(sels@, current@, fragments@, false);
                    crate::ingest::lemma_split_positions_below(sels@, current@, fragments@, true);
                }
                let on_type = pick_refs(sels, &query);
                let on_others = pick_refs(sels, &inline);
                let ghost qs = derefs(on_type@);
                let ghost is = derefs(on_others@);
                proof {
                    assert(qs == split_part(sels@, current@, fragments@, false));
                    assert(is == split_part(sels@, current@, fragments@, true));
                    assert forall|i: int| 0 <= i < qs.len() implies selection_resolves(schema_v, frags, t as int, #[trigger] qs[i])
                        && selection_depth(qs[i]) <= set_depth(sels@) by {
                        assert(qs[i] == sels@[query@[i] as int]);
                    }
                    assert forall|i: int| 0 <= i < is.len() implies selection_resolves(schema_v, frags, t as int, #[trigger] is[i])
                        && selection_depth(is[i]) <= set_depth(sels@) by {
                        assert(is[i] == sels@[inline@[i] as int]);
                    }
                    lemma_set_depth_at_most(qs, set_depth(sels@));
                    lemma_set_depth_at_most(is, set_depth(sels@));
                }
                let q = self.build_fragment_node(t, &on_type, Node::QueryFragment);
                let ghost s1 = *self;
                let i = self.build_fragment_node(t, &on_others, Node::InlineFragment);
                let ghost s2 = *self;
                proof {
                    lemma_grows_trans(start, s1, s2);
                    assert forall|k: int| #[trigger] s2.edges().dom().contains(k) && !s1.edges().dom().contains(k)
                        implies s2.edges()[k].0 != node_number(q) by {
                        assert(s1.nodes().dom().contains(node_number(q)));
                    }
                    lemma_built_grows(
                        s1.nodes(),
                        s1.edges(),
                        s2.nodes(),
                        s2.edges(),
                        s2.type_node_numbers(),
                        s2.fragment_node_numbers(),
                        schema_v,
                        frags,
                        node_number(q),
                        t as int,
                        qs,
                        Node::QueryFragment,
                        false,
                    );
                }
                let indices = outgoing_selection_indices(&self.graph, q);
                let most = max_selection_index(&indices);
                proof {
                    let n = qs.len();
                    assert(n > 0);
                    assert(selection_edge(
                        s2.nodes(),
                        s2.edges(),
                        s2.type_node_numbers(),
                        s2.fragment_node_numbers(),
                        schema_v,
                        frags,
                        node_number(q),
                        t as int,
                        n - 1,
                        qs[n - 1],
                    ));
                    let k = choose|k: int|
                        #[trigger] out_edge(s2.edges(), k, node_number(q)) && edge_selection_index(s2.edges()[k].2) == Some(
                            (n - 1) as usize,
                        ) && stands_for(
                            s2.nodes(),
                            s2.edges(),
                            s2.type_node_numbers(),
                            s2.fragment_node_numbers(),
                            schema_v,
                            frags,
                            t as int,
                            n - 1,
                            qs[n - 1],
                            s2.edges()[k].1,
                            s2.edges()[k].2,
                        );
                    assert(graph_edges(self.graph)[k] == s2.edges()[k]);
                    assert(indices@.contains(Some((n - 1) as usize)));
                    assert forall|j: int| 0 <= j < indices@.len() implies match #[trigger] indices@[j] {
                        Some(v) => v < n,
                        None => true,
                    } by {
                        let k2 = choose|k2: int|
                            #![trigger graph_edges(self.graph)[k2]]
                            graph_edges(self.graph).dom().contains(k2) && graph_edges(self.graph)[k2].0 == node_number(q)
                                && edge_selection_index(graph_edges(self.graph)[k2].2) == indices@[j];
                        assert(out_edge(s2.edges(), k2, node_number(q)));
                    }
                }
                let m = match most {
                    Some(m) => m,
                    None => {
                        proof {
                            let j = choose|j: int| 0 <= j < indices@.len() && indices@[j] == Some((qs.len() - 1) as usize);
                            assert(indices@[j] is None);
                        }
                        return q;
                    },
                };
                proof {
                    let j = choose|j: int| 0 <= j < indices@.len() && indices@[j] == Some((qs.len() - 1) as usize);
                    assert(match indices@[j] {
                        Some(v) => v <= m,
                        None => true,
                    });
                    assert(indices@[j] == Some((qs.len() - 1) as usize));
                    assert((qs.len() - 1) as usize <= m);
                    let j2 = choose|j2: int| 0 <= j2 < indices@.len() && #[trigger] indices@[j2] == Some(m);
                    assert(match indices@[j2] {
                        Some(v) => v < qs.len(),
                        None => true,
                    });
                    assert(indices@[j2] == Some(m));
                    assert(m < qs.len());
                    assert(m == qs.len() - 1);
                    assert(s2.nodes().dom().contains(node_number(i)));
                    assert(s2.nodes().dom().contains(node_number(q)));
                }
                add_edge(&mut self.graph, q, i, Edge::HasSyntheticSpread { index: m + 1 });
                proof {
                    let k = choose|k: int|
                        !graph_edges(s2.graph).dom().contains(k) && graph_edges(self.graph) == graph_edges(s2.graph).insert(
                            k,
                            (node_number(q), node_number(i), Edge::HasSyntheticSpread { index: (m + 1) as usize }),
                        );
                    lemma_wf_after_edge(s2, *self);
                    lemma_built_add_synthetic(
                        s2.nodes(),
                        s2.edges(),
                        self.edges(),
                        s2.type_node_numbers(),
                        s2.fragment_node_numbers(),
                        schema_v,
                        frags,
                        node_number(q),
                        t as int,
                        qs,
                        Node::QueryFragment,
                        k,
                        node_number(i),
                    );
                    assert(node_number(q) != node_number(i));
                    assert forall|k2: int| #[trigger] self.edges().dom().contains(k2) && !s2.edges().dom().contains(k2)
                        implies self.edges()[k2].0 != node_number(i) by {
                        assert(k2 == k);
                    }
                    lemma_built_grows(
                        s2.nodes(),
                        s2.edges(),
                        self.nodes(),
                        self.edges(),
                        s2.type_node_numbers(),
                        s2.fragment_node_numbers(),
                        schema_v,
                        frags,
                        node_number(i),
                        t as int,
                        is,
                        Node::InlineFragment,
                        false,
                    );
                    assert(out_edge(self.edges(), k, node_number(q)));
                    assert forall|k2: int| #[trigger] self.edges().dom().contains(k2) && !start.edges().dom().contains(k2)
                        implies !start.nodes().dom().contains(self.edges()[k2].0) by {
                        if k2 != k {
                            assert(s2.edges().dom().contains(k2));
                        }
                    }
                }
                q
            },
            SelectionSetShape::InlineFragment => {
                let all = refs(sels);
                self.build_fragment_node(t, &all, Node::InlineFragment)
            },
            SelectionSetShape::QueryFragment => {
                let all = refs(sels);
                self.build_fragment_node(t, &all, Node::QueryFragment)
            },
        }
    }
}

impl<'a> GraphBuilder<'a> {
    /// Links the selection `sel`, at position `j` of the selections of the
    /// node `this` on the type at `t`, after `prefix` (the selections before
    /// it): reads a field's or inline fragment's own selection set (or a
    /// leaf field), and adds the edge standing for the selection.
    #[verifier::rlimit(80)]
    #[verifier::spinoff_prover]
    fn link_selection(
        &mut self,
        this: NodeIndex<usize>,
        t: usize,
        sel: &Selection,
        j: usize,
        Ghost(prefix): Ghost<Seq<Selection>>,
        kind: Node,
    )
        requires
            old(self).wf(),
            t < old(self).spec_schema().types@.len(),
            old(self).fragment_node_numbers().len() == old(self).spec_fragments().len(),
            selection_resolves(old(self).spec_schema(), old(self).spec_fragments(), t as int, *sel),
            old(self).nodes().dom().contains(node_number(this)),
            prefix.len() == j,
            j < usize::MAX,
            built(
                old(self).nodes(),
                old(self).edges(),
                old(self).type_node_numbers(),
                old(self).fragment_node_numbers(),
                old(self).spec_schema(),
                old(self).spec_fragments(),
                node_number(this),
                t as int,
                prefix,
                kind,
                false,
            ),
        ensures
            final(self).wf(),
            final(self).spec_schema() == old(self).spec_schema(),
            final(self).spec_fragments() == old(self).spec_fragments(),
            final(self).spec_roots() == old(self).spec_roots(),
            final(self).type_node_numbers() == old(self).type_node_numbers(),
            final(self).fragment_node_numbers() == old(self).fragment_node_numbers(),
            keeps(old(self).nodes(), final(self).nodes()),
            keeps(old(self).edges(), final(self).edges()),
            forall|k: int|
                #[trigger] final(self).edges().dom().contains(k) && !old(self).edges().dom().contains(k) ==> (
                !old(self).nodes().dom().contains(final(self).edges()[k].0) || final(self).edges()[k].0 == node_number(
                    this,
                )),
            built(
                final(self).nodes(),
                final(self).edges(),
                final(self).type_node_numbers(),
                final(self).fragment_node_numbers(),
                final(self).spec_schema(),
                final(self).spec_fragments(),
                node_number(this),
                t as int,
                prefix.push(*sel),
                kind,
                false,
            ),
        decreases selection_depth(*sel), 0nat,
    {
        let ghost before = *self;
        let ghost all = prefix.push(*sel);
        let schema = self.schema;
        let fragments = self.fragments;
        proof {
            assert(all.take(j as int) =~= prefix);
            assert(all[j as int] == *sel);
        }
        let (target, w) = match sel {
            Selection::Field(f) => {
                let details = find_field(schema, t, f.name.as_str());
                let d = match details {
                    Some(d) => d,
                    None => {
                        proof {
                            assert(false);
                        }
                        return;
                    },
                };
                let c = if f.selection_set.len() > 0 {
                    self.ingest_selection_set(d.type_node, &f.selection_set)
                } else {
                    self.ingest_scalar_field(d.type_node)
                };
                let w = Edge::HasField {
                    name: f.name.clone(),
                    alias: copy_opt(&f.alias),
                    definition: d.definition,
                    index: j,
                };
                (c, w)
            },
            Selection::InlineFragment(fr) => {
                let ty = inline_fragment_type(schema, t, fr);
                let c = self.ingest_selection_set(ty, &fr.selection_set);
                (c, Edge::HasInlineSpread { index: j })
            },
            Selection::FragmentSpread(sp) => {
                proof {
                    lemma_last_fragment_position(before.spec_fragments(), sp.fragment_name@);
                    if last_fragment_position(before.spec_fragments(), sp.fragment_name@) is None {
                        let i = choose|i: int|
                            0 <= i < before.spec_fragments().len() && #[trigger] before.spec_fragments()[i].name@
                                == sp.fragment_name@;
                        assert(before.spec_fragments()[i].name@ != sp.fragment_name@);
                    }
                }
                let p = match last_fragment_index(fragments, sp.fragment_name.as_str()) {
                    Some(p) => p,
                    None => {
                        proof {
                            assert(false);
                        }
                        return;
                    },
                };
                let c = self.fragment_nodes[p];
                proof {
                    assert(numbers(self.fragment_nodes@)[p as int] == node_number(c));
                }
                (c, Edge::HasFragment { index: j })
            },
        };
        let ghost mid = *self;
        proof {
            assert forall|k: int| #[trigger] mid.edges().dom().contains(k) && !before.edges().dom().contains(k)
                implies mid.edges()[k].0 != node_number(this) by {}
            lemma_built_grows(
                before.nodes(),
                before.edges(),
                mid.nodes(),
                mid.edges(),
                mid.type_node_numbers(),
                mid.fragment_node_numbers(),
                mid.spec_schema(),
                mid.spec_fragments(),
                node_number(this),
                t as int,
                prefix,
                kind,
                false,
            );
            assert(mid.nodes().dom().contains(node_number(this)));
        }
        add_edge(&mut self.graph, this, target, w);
        proof {
            let k = choose|k: int|
                !graph_edges(mid.graph).dom().contains(k) && graph_edges(self.graph) == graph_edges(mid.graph).insert(
                    k,
                    (node_number(this), node_number(target), w),
                );
            lemma_built_extend(
                mid.nodes(),
                mid.edges(),
                self.edges(),
                mid.type_node_numbers(),
                mid.fragment_node_numbers(),
                mid.spec_schema(),
                mid.spec_fragments(),
                node_number(this),
                t as int,
                all,
                j as int,
                kind,
                k,
                node_number(target),
                w,
            );
            assert(all.take(j + 1) =~= all);
            lemma_wf_after_edge(mid, *self);
            assert forall|k2: int| #[trigger] self.edges().dom().contains(k2) && !before.edges().dom().contains(k2)
                implies (!before.nodes().dom().contains(self.edges()[k2].0) || self.edges()[k2].0 == node_number(this)) by {
                if k2 != k {
                    assert(mid.edges().dom().contains(k2));
                }
            }
        }
    }
}

/// A node read from a selection set keeps being what it was made when the
/// graph grows by nodes and edges that start elsewhere than at the nodes
/// it was made of.
proof fn lemma_ingested_grows(
    n1: Map<int, Node>,
    e1: Map<int, (int, int, Edge)>,
    n2: Map<int, Node>,
    e2: Map<int, (int, int, Edge)>,
    type_nodes: Seq<int>,
    fragment_nodes: Seq<int>,
    schema: Schema,
    fragments: Seq<FragmentDefinition>,
    r: int,
    t: int,
    sels: Seq<Selection>,
)
    requires
        keeps(n1, n2),
        keeps(e1, e2),
        forall|k: int|
            #[trigger] e2.dom().contains(k) && !e1.dom().contains(k) ==> !is_fragment_node(n1, e2[k].0),
        forall|k: int| #[trigger] e1.dom().contains(k) ==> n1.dom().contains(e1[k].0) && n1.dom().contains(e1[k].1),
        n1.dom().contains(r),
        ingested(n1, e1, type_nodes, fragment_nodes, schema, fragments, r, t, sels),
    ensures
        ingested(n2, e2, type_nodes, fragment_nodes, schema, fragments, r, t, sels),
{
    let current = schema.types@[t].name@;
    let needs_query = crate::ingest::needs_query_fragment_spec(sels);
    let needs_inline = crate::ingest::needs_inline_fragments_spec(sels, current, fragments);
    if needs_query && needs_inline {
        let on_type = split_part(sels, current, fragments, false);
        let on_others = split_part(sels, current, fragments, true);
        assert forall|k: int| #[trigger] e2.dom().contains(k) && !e1.dom().contains(k) implies e2[k].0 != r by {
            assert(is_fragment_node(n1, r));
        }
        lemma_built_grows(n1, e1, n2, e2, type_nodes, fragment_nodes, schema, fragments, r, t, on_type, Node::QueryFragment, true);
        let k = choose|k: int|
            #[trigger] out_edge(e1, k, r) && e1[k].2 == (Edge::HasSyntheticSpread { index: on_type.len() as usize })
                && built(n1, e1, type_nodes, fragment_nodes, schema, fragments, e1[k].1, t, on_others, Node::InlineFragment, false);
        let c = e1[k].1;
        assert(n1.dom().contains(c));
        assert forall|k2: int| #[trigger] e2.dom().contains(k2) && !e1.dom().contains(k2) implies e2[k2].0 != c by {
            assert(is_fragment_node(n1, c));
        }
        lemma_built_grows(n1, e1, n2, e2, type_nodes, fragment_nodes, schema, fragments, c, t, on_others, Node::InlineFragment, false);
        assert(e2[k] == e1[k]);
        assert(out_edge(e2, k, r));
    } else {
        assert forall|k: int| #[trigger] e2.dom().contains(k) && !e1.dom().contains(k) implies e2[k].0 != r by {
            assert(is_fragment_node(n1, r));
        }
        lemma_built_grows(
            n1,
            e1,
            n2,
            e2,
            type_nodes,
            fragment_nodes,
            schema,
            fragments,
            r,
            t,
            sels,
            if needs_inline {
                Node::InlineFragment
            } else {
                Node::QueryFragment
            },
            false,
        );
    }
}

/// The root type for operations of type `kind`, if the schema has one.
pub open spec fn root_for(roots: RootDefinitions, kind: OperationType) -> Option<usize> {
    match kind {
        OperationType::Query => roots.query,
        OperationType::Mutation => roots.mutation,
        OperationType::Subscription => roots.subscription,
    }
}

/// An edge from the node numbered `o` marks the node that the selection set
/// `sels`, on the type at `t`, was read into.
pub open spec fn selection_set_read(
    nodes: Map<int, Node>,
    edges: Map<int, (int, int, Edge)>,
    type_nodes: Seq<int>,
    fragment_nodes: Seq<int>,
    schema: Schema,
    fragments: Seq<FragmentDefinition>,
    o: int,
    t: int,
    sels: Seq<Selection>,
) -> bool {
    exists|k: int|
        #[trigger] out_edge(edges, k, o) && edges[k].2 == Edge::HasSelectionSet && is_fragment_node(nodes, edges[k].1)
            && ingested(nodes, edges, type_nodes, fragment_nodes, schema, fragments, edges[k].1, t, sels)
}

proof fn lemma_read_grows(
    n1: Map<int, Node>,
    e1: Map<int, (int, int, Edge)>,
    n2: Map<int, Node>,
    e2: Map<int, (int, int, Edge)>,
    type_nodes: Seq<int>,
    fragment_nodes: Seq<int>,
    schema: Schema,
    fragments: Seq<FragmentDefinition>,
    o: int,
    t: int,
    sels: Seq<Selection>,
)
    requires
        keeps(n1, n2),
        keeps(e1, e2),
        forall|k: int|
            #[trigger] e2.dom().contains(k) && !e1.dom().contains(k) ==> !is_fragment_node(n1, e2[k].0),
        forall|k: int| #[trigger] e1.dom().contains(k) ==> n1.dom().contains(e1[k].0) && n1.dom().contains(e1[k].1),
        selection_set_read(n1, e1, type_nodes, fragment_nodes, schema, fragments, o, t, sels),
    ensures
        selection_set_read(n2, e2, type_nodes, fragment_nodes, schema, fragments, o, t, sels),
{
    let k = choose|k: int|
        #[trigger] out_edge(e1, k, o) && e1[k].2 == Edge::HasSelectionSet && is_fragment_node(n1, e1[k].1) && ingested(
            n1,
            e1,
            type_nodes,
            fragment_nodes,
            schema,
            fragments,
            e1[k].1,
            t,
            sels,
        );
    lemma_ingested_grows(n1, e1, n2, e2, type_nodes, fragment_nodes, schema, fragments, e1[k].1, t, sels);
    assert(e2[k] == e1[k]);
    assert(out_edge(e2, k, o));
}

/// The operation can be read: the schema has its root type, and its
/// selection set resolves on it.
pub open spec fn operation_resolves(schema: Schema, fragments: Seq<FragmentDefinition>, roots: RootDefinitions, op: OperationDefinition) -> bool {
    match root_for(roots, op.operation_type) {
        Some(p) => set_resolves(schema, fragments, p as int, op.selection_set@),
        None => false,
    }
}

/// The named fragment can be read: the schema has the type its type
/// condition names, and its selection set resolves on it.
pub open spec fn fragment_resolves(schema: Schema, fragments: Seq<FragmentDefinition>, f: FragmentDefinition) -> bool {
    &&& schema.has_type(f.type_condition@)
    &&& set_resolves(schema, fragments, schema.type_position(f.type_condition@), f.selection_set@)
}

impl<'a> GraphBuilder<'a> {
    /// The root type for operations of type `kind`.
    fn root_index(&self, kind: OperationType) -> (r: Option<usize>)
        ensures
            r == root_for(self.spec_roots(), kind),
    {
        match kind {
            OperationType::Query => self.roots.query,
            OperationType::Mutation => self.roots.mutation,
            OperationType::Subscription => self.roots.subscription,
        }
    }

    /// Adds the node of the operation at `position` and reads its selection
    /// set on its root type, linked from the operation's node.
    #[verifier::rlimit(60)]
    #[verifier::spinoff_prover]
    pub fn ingest_operation(&mut self, position: usize, op: &OperationDefinition) -> (r: NodeIndex<usize>)
        requires
            old(self).wf(),
            old(self).fragment_node_numbers().len() == old(self).spec_fragments().len(),
            operation_resolves(old(self).spec_schema(), old(self).spec_fragments(), old(self).spec_roots(), *op),
        ensures
            grows(*old(self), *final(self)),
            !old(self).nodes().dom().contains(node_number(r)),
            final(self).nodes().dom().contains(node_number(r)),
            final(self).nodes()[node_number(r)] == Node::Operation(position),
            selection_set_read(
                final(self).nodes(),
                final(self).edges(),
                final(self).type_node_numbers(),
                final(self).fragment_node_numbers(),
                final(self).spec_schema(),
                final(self).spec_fragments(),
                node_number(r),
                root_for(old(self).spec_roots(), op.operation_type)->0 as int,
                op.selection_set@,
            ),
    {
        let ghost start = *self;
        let operation_node = add_node(&mut self.graph, Node::Operation(position));
        let ghost s1 = *self;
        proof {
            lemma_wf_after_node(start, s1, node_number(operation_node));
        }
        let root = match self.root_index(op.operation_type) {
            Some(p) => p,
            None => {
                proof {
                    assert(false);
                }
                return operation_node;
            },
        };
        let c = self.ingest_selection_set(root, &op.selection_set);
        let ghost s2 = *self;
        proof {
            lemma_grows_trans(start, s1, s2);
            assert(s1.nodes().dom().contains(node_number(operation_node)));
            assert(s2.nodes().dom().contains(node_number(operation_node)));
        }
        add_edge(&mut self.graph, operation_node, c, Edge::HasSelectionSet);
        proof {
            let k = choose|k: int|
                !graph_edges(s2.graph).dom().contains(k) && graph_edges(self.graph) == graph_edges(s2.graph).insert(
                    k,
                    (node_number(operation_node), node_number(c), Edge::HasSelectionSet),
                );
            assert(self.edges() == s2.edges().insert(k, (node_number(operation_node), node_number(c), Edge::HasSelectionSet)));
            lemma_wf_after_edge(s2, *self);
            assert forall|k2: int| #[trigger] self.edges().dom().contains(k2) && !s2.edges().dom().contains(k2)
                implies !is_fragment_node(s2.nodes(), self.edges()[k2].0) by {
                assert(k2 == k);
            }
            lemma_ingested_grows(
                s2.nodes(),
                s2.edges(),
                self.nodes(),
                self.edges(),
                s2.type_node_numbers(),
                s2.fragment_node_numbers(),
                s2.spec_schema(),
                s2.spec_fragments(),
                node_number(c),
                root as int,
                op.selection_set@,
            );
            assert(out_edge(self.edges(), k, node_number(operation_node)));
            assert forall|k2: int| #[trigger] self.edges().dom().contains(k2) && !start.edges().dom().contains(k2)
                implies !start.nodes().dom().contains(self.edges()[k2].0) by {
                if k2 != k {
                    assert(s2.edges().dom().contains(k2));
                }
            }
        }
        operation_node
    }

    /// Reads the selection set of the named fragment at `f` on the type its
    /// type condition names, linked from the node of the last fragment of
    /// its name.
    #[verifier::rlimit(60)]
    #[verifier::spinoff_prover]
    pub fn ingest_named_fragment_selection_set(&mut self, f: usize)
        requires
            old(self).wf(),
            old(self).fragment_node_numbers().len() == old(self).spec_fragments().len(),
            f < old(self).spec_fragments().len(),
            fragment_resolves(old(self).spec_schema(), old(self).spec_fragments(), old(self).spec_fragments()[f as int]),
        ensures
            final(self).wf(),
            final(self).spec_schema() == old(self).spec_schema(),
            final(self).spec_fragments() == old(self).spec_fragments(),
            final(self).spec_roots() == old(self).spec_roots(),
            final(self).type_node_numbers() == old(self).type_node_numbers(),
            final(self).fragment_node_numbers() == old(self).fragment_node_numbers(),
            keeps(old(self).nodes(), final(self).nodes()),
            keeps(old(self).edges(), final(self).edges()),
            forall|k: int|
                #[trigger] final(self).edges().dom().contains(k) && !old(self).edges().dom().contains(k)
                    ==> !is_fragment_node(old(self).nodes(), final(self).edges()[k].0),
            ({
                let fr = old(self).spec_fragments()[f as int];
                match last_fragment_position(old(self).spec_fragments(), fr.name@) {
                    Some(p) => selection_set_read(
                        final(self).nodes(),
                        final(self).edges(),
                        final(self).type_node_numbers(),
                        final(self).fragment_node_numbers(),
                        final(self).spec_schema(),
                        final(self).spec_fragments(),
                        final(self).fragment_node_numbers()[p],
                        old(self).spec_schema().type_position(fr.type_condition@),
                        fr.selection_set@,
                    ),
                    None => false,
                }
            }),
    {
        let ghost start = *self;
        let schema = self.schema;
        let fragments = self.fragments;
        let fragment = &fragments[f];
        let ty = match schema.type_index(fragment.type_condition.as_str()) {
            Some(t) => t,
            None => {
                proof {
                    assert(false);
                }
                return;
            },
        };
        let c = self.ingest_selection_set(ty, &fragment.selection_set);
        let ghost s2 = *self;
        proof {
            lemma_last_fragment_position(start.spec_fragments(), fragment.name@);
            if last_fragment_position(start.spec_fragments(), fragment.name@) is None {
                assert(start.spec_fragments()[f as int].name@ != fragment.name@);
            }
        }
        let p = match last_fragment_index(fragments, fragment.name.as_str()) {
            Some(p) => p,
            None => {
                proof {
                    assert(false);
                }
                return;
            },
        };
        let fnode = self.fragment_nodes[p];
        proof {
            assert(numbers(self.fragment_nodes@)[p as int] == node_number(fnode));
            assert(s2.nodes()[node_number(fnode)] == Node::NamedFragment(p));
        }
        add_edge(&mut self.graph, fnode, c, Edge::HasSelectionSet);
        proof {
            let k = choose|k: int|
                !graph_edges(s2.graph).dom().contains(k) && graph_edges(self.graph) == graph_edges(s2.graph).insert(
                    k,
                    (node_number(fnode), node_number(c), Edge::HasSelectionSet),
                );
            assert(self.edges() == s2.edges().insert(k, (node_number(fnode), node_number(c), Edge::HasSelectionSet)));
            lemma_wf_after_edge(s2, *self);
            assert forall|k2: int| #[trigger] self.edges().dom().contains(k2) && !s2.edges().dom().contains(k2)
                implies !is_fragment_node(s2.nodes(), self.edges()[k2].0) by {
                assert(k2 == k);
            }
            lemma_ingested_grows(
                s2.nodes(),
                s2.edges(),
                self.nodes(),
                self.edges(),
                s2.type_node_numbers(),
                s2.fragment_node_numbers(),
                s2.spec_schema(),
                s2.spec_fragments(),
                node_number(c),
                ty as int,
                fragment.selection_set@,
            );
            assert(out_edge(self.edges(), k, node_number(fnode)));
            assert(start.nodes()[node_number(fnode)] == Node::NamedFragment(p));
            assert forall|k2: int| #[trigger] self.edges().dom().contains(k2) && !start.edges().dom().contains(k2)
                implies !is_fragment_node(start.nodes(), self.edges()[k2].0) by {
                if k2 != k {
                    assert(s2.edges().dom().contains(k2));
                    assert(!start.nodes().dom().contains(self.edges()[k2].0));
                }
            }
        }
    }
}

proof fn lemma_wf_after_node<'a>(a: GraphBuilder<'a>, b: GraphBuilder<'a>, n: int)
    requires
        a.wf(),
        !a.nodes().dom().contains(n),
        b.nodes() == a.nodes().insert(n, b.nodes()[n]),
        b.edges() == a.edges(),
        b.type_nodes == a.type_nodes,
        b.fragment_nodes == a.fragment_nodes,
        b.schema == a.schema,
        b.fragments == a.fragments,
        b.roots == a.roots,
    ensures
        grows(a, b),
{
    assert forall|p: int| 0 <= p < b.type_nodes@.len() implies {
        &&& graph_nodes(b.graph).dom().contains(#[trigger] numbers(b.type_nodes@)[p])
        &&& graph_nodes(b.graph)[numbers(b.type_nodes@)[p]] == Node::Type(p as usize)
    } by {
        assert(a.nodes().dom().contains(numbers(a.type_nodes@)[p]));
    }
    assert forall|q: int| 0 <= q < b.fragment_nodes@.len() implies {
        &&& graph_nodes(b.graph).dom().contains(#[trigger] numbers(b.fragment_nodes@)[q])
        &&& graph_nodes(b.graph)[numbers(b.fragment_nodes@)[q]] == Node::NamedFragment(q as usize)
    } by {
        assert(a.nodes().dom().contains(numbers(a.fragment_nodes@)[q]));
    }
}

/// The selection set of the named fragment at `f` was read into the graph,
/// linked from the node of the last fragment of its name.
pub open spec fn fragment_set_read<'a>(b: GraphBuilder<'a>, f: int) -> bool {
    let fr = b.spec_fragments()[f];
    match last_fragment_position(b.spec_fragments(), fr.name@) {
        Some(p) => selection_set_read(
            b.nodes(),
            b.edges(),
            b.type_node_numbers(),
            b.fragment_node_numbers(),
            b.spec_schema(),
            b.spec_fragments(),
            b.fragment_node_numbers()[p],
            b.spec_schema().type_position(fr.type_condition@),
            fr.selection_set@,
        ),
        None => false,
    }
}

/// The operation `op`, at `i`, has its node, and its selection set was
/// read into the graph on its root type, linked from that node.
pub open spec fn operation_read<'a>(b: GraphBuilder<'a>, i: int, op: OperationDefinition) -> bool {
    exists|o: int|
        #[trigger] b.nodes().dom().contains(o) && b.nodes()[o] == Node::Operation(i as usize) && selection_set_read(
            b.nodes(),
            b.edges(),
            b.type_node_numbers(),
            b.fragment_node_numbers(),
            b.spec_schema(),
            b.spec_fragments(),
            o,
            root_for(b.spec_roots(), op.operation_type)->0 as int,
            op.selection_set@,
        )
}

proof fn lemma_document_facts_grow<'a>(a: GraphBuilder<'a>, b: GraphBuilder<'a>, operations: Seq<OperationDefinition>, nf: int, no: int)
    requires
        a.wf(),
        b.wf(),
        b.spec_schema() == a.spec_schema(),
        b.spec_fragments() == a.spec_fragments(),
        b.spec_roots() == a.spec_roots(),
        b.type_node_numbers() == a.type_node_numbers(),
        b.fragment_node_numbers() == a.fragment_node_numbers(),
        keeps(a.nodes(), b.nodes()),
        keeps(a.edges(), b.edges()),
        forall|k: int|
            #[trigger] b.edges().dom().contains(k) && !a.edges().dom().contains(k) ==> !is_fragment_node(a.nodes(), b.edges()[k].0),
        0 <= nf <= a.spec_fragments().len(),
        0 <= no <= operations.len(),
        forall|f: int| 0 <= f < nf ==> #[trigger] fragment_set_read(a, f),
        forall|i: int| 0 <= i < no ==> #[trigger] operation_read(a, i, operations[i]),
    ensures
        forall|f: int| 0 <= f < nf ==> #[trigger] fragment_set_read(b, f),
        forall|i: int| 0 <= i < no ==> #[trigger] operation_read(b, i, operations[i]),
{
    assert forall|k: int| #[trigger] a.edges().dom().contains(k) implies a.nodes().dom().contains(a.edges()[k].0) && a.nodes().dom().contains(
        a.edges()[k].1,
    ) by {}
    assert forall|f: int| 0 <= f < nf implies #[trigger] fragment_set_read(b, f) by {
        assert(fragment_set_read(a, f));
        let fr = a.spec_fragments()[f];
        if let Some(p) = last_fragment_position(a.spec_fragments(), fr.name@) {
            lemma_read_grows(
                a.nodes(),
                a.edges(),
                b.nodes(),
                b.edges(),
                a.type_node_numbers(),
                a.fragment_node_numbers(),
                a.spec_schema(),
                a.spec_fragments(),
                a.fragment_node_numbers()[p],
                a.spec_schema().type_position(fr.type_condition@),
                fr.selection_set@,
            );
        }
    }
    assert forall|i: int| 0 <= i < no implies #[trigger] operation_read(b, i, operations[i]) by {
        assert(operation_read(a, i, operations[i]));
        let op = operations[i];
        let root = root_for(a.spec_roots(), op.operation_type)->0 as int;
        let o = choose|o: int|
            #[trigger] a.nodes().dom().contains(o) && a.nodes()[o] == Node::Operation(i as usize) && selection_set_read(
                a.nodes(),
                a.edges(),
                a.type_node_numbers(),
                a.fragment_node_numbers(),
                a.spec_schema(),
                a.spec_fragments(),
                o,
                root,
                op.selection_set@,
            );
        lemma_read_grows(
            a.nodes(),
            a.edges(),
            b.nodes(),
            b.edges(),
            a.type_node_numbers(),
            a.fragment_node_numbers(),
            a.spec_schema(),
            a.spec_fragments(),
            o,
            root,
            op.selection_set@,
        );
        assert(b.nodes().dom().contains(o));
    }
}

impl<'a> GraphBuilder<'a> {
    /// Reads a document: a node for each named fragment, then each named
    /// fragment's selection set, then each operation (at its position in
    /// `operations`).
    #[verifier::rlimit(40)]
    #[verifier::spinoff_prover]
    pub fn ingest_executable_doc(&mut self, operations: &Vec<OperationDefinition>)
        requires
            old(self).wf(),
            old(self).fragment_node_numbers().len() == 0,
            forall|f: int|
                0 <= f < old(self).spec_fragments().len() ==> fragment_resolves(
                    old(self).spec_schema(),
                    old(self).spec_fragments(),
                    #[trigger] old(self).spec_fragments()[f],
                ),
            forall|i: int|
                0 <= i < operations@.len() ==> operation_resolves(
                    old(self).spec_schema(),
                    old(self).spec_fragments(),
                    old(self).spec_roots(),
                    #[trigger] operations@[i],
                ),
        ensures
            final(self).wf(),
            final(self).spec_schema() == old(self).spec_schema(),
            final(self).spec_fragments() == old(self).spec_fragments(),
            final(self).spec_roots() == old(self).spec_roots(),
            final(self).type_node_numbers() == old(self).type_node_numbers(),
            final(self).fragment_node_numbers().len() == final(self).spec_fragments().len(),
            forall|f: int| 0 <= f < final(self).spec_fragments().len() ==> #[trigger] fragment_set_read(*final(self), f),
            forall|i: int| 0 <= i < operations@.len() ==> #[trigger] operation_read(*final(self), i, operations@[i]),
    {
        let ghost start = *self;
        let fragments = self.fragments;
        while self.fragment_nodes.len() < fragments.len()
            invariant
                self.wf(),
                fragments@ == self.spec_fragments(),
                self.spec_schema() == start.spec_schema(),
                self.spec_fragments() == start.spec_fragments(),
                self.spec_roots() == start.spec_roots(),
                self.type_node_numbers() == start.type_node_numbers(),
                self.fragment_node_numbers().len() <= self.spec_fragments().len(),
            decreases fragments.len() - self.fragment_nodes.len(),
        {
            self.ingest_fragment();
        }
        let mut f: usize = 0;
        while f < fragments.len()
            invariant
                self.wf(),
                fragments@ == self.spec_fragments(),
                self.spec_schema() == start.spec_schema(),
                self.spec_fragments() == start.spec_fragments(),
                self.spec_roots() == start.spec_roots(),
                self.type_node_numbers() == start.type_node_numbers(),
                self.fragment_node_numbers().len() == self.spec_fragments().len(),
                forall|g: int|
                    0 <= g < start.spec_fragments().len() ==> fragment_resolves(
                        start.spec_schema(),
                        start.spec_fragments(),
                        #[trigger] start.spec_fragments()[g],
                    ),
                f <= fragments@.len(),
                forall|g: int| 0 <= g < f ==> #[trigger] fragment_set_read(*self, g),
            decreases fragments.len() - f,
        {
            let ghost before = *self;
            self.ingest_named_fragment_selection_set(f);
            proof {
                lemma_document_facts_grow(before, *self, operations@, f as int, 0);
            }
            f = f + 1;
        }
        let mut i: usize = 0;
        while i < operations.len()
            invariant
                self.wf(),
                self.spec_schema() == start.spec_schema(),
                self.spec_fragments() == start.spec_fragments(),
                self.spec_roots() == start.spec_roots(),
                self.type_node_numbers() == start.type_node_numbers(),
                self.fragment_node_numbers().len() == self.spec_fragments().len(),
                forall|g: int|
                    0 <= g < operations@.len() ==> operation_resolves(
                        start.spec_schema(),
                        start.spec_fragments(),
                        start.spec_roots(),
                        #[trigger] operations@[g],
                    ),
                i <= operations@.len(),
                forall|g: int| 0 <= g < self.spec_fragments().len() ==> #[trigger] fragment_set_read(*self, g),
                forall|g: int| 0 <= g < i ==> #[trigger] operation_read(*self, g, operations@[g]),
            decreases operations.len() - i,
        {
            let ghost before = *self;
            let o = self.ingest_operation(i, &operations[i]);
            proof {
                assert forall|k: int| #[trigger] self.edges().dom().contains(k) && !before.edges().dom().contains(k)
                    implies !is_fragment_node(before.nodes(), self.edges()[k].0) by {}
                lemma_document_facts_grow(before, *self, operations@, self.spec_fragments().len() as int, i as int);
                assert(self.nodes().dom().contains(node_number(o)));
                assert(operation_read(*self, i as int, operations@[i as int]));
            }
            i = i + 1;
        }
    }
}

/// Reads a query document (its operations and named fragments) against a
/// schema into the query graph: a node for each schema type, named fragment
/// and operation, and the fragments its selection sets become (see
/// `ingested`), each linked from its operation or named fragment.
pub fn query_graph(schema: &Schema, operations: &Vec<OperationDefinition>, fragments: &Vec<FragmentDefinition>) -> (r: QueryGraph)
    requires
        schema.wf(),
        forall|f: int| 0 <= f < fragments@.len() ==> fragment_resolves(*schema, fragments@, #[trigger] fragments@[f]),
        forall|i: int|
            0 <= i < operations@.len() ==> operation_resolves(*schema, fragments@, find_roots_spec(*schema), #[trigger] operations@[i]),
    ensures
        exists|b: GraphBuilder|
            {
                &&& b.wf()
                &&& b.spec_schema() == *schema
                &&& b.spec_fragments() == fragments@
                &&& b.spec_roots() == find_roots_spec(*schema)
                &&& graph_nodes(r) == b.nodes()
                &&& graph_edges(r) == b.edges()
                &&& b.fragment_node_numbers().len() == fragments@.len()
                &&& forall|f: int| 0 <= f < fragments@.len() ==> #[trigger] fragment_set_read(b, f)
                &&& forall|i: int| 0 <= i < operations@.len() ==> #[trigger] operation_read(b, i, operations@[i])
            },
{
    let mut builder = GraphBuilder::new(schema, fragments);
    builder.ingest_executable_doc(operations);
    let ghost b = builder;
    let r = builder.finish();
    proof {
        assert(graph_nodes(r) == b.nodes());
    }
    r
}

} // verus!
