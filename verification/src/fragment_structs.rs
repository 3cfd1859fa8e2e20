//! The query fragment structs generated for the fragment nodes of a query
//! graph: one output field per selection, in selection order.

use vstd::prelude::*;
use petgraph::stable_graph::NodeIndex;
use crate::casing::snake_case;
use crate::document::{Schema, SchemaType, TypeKind, TypeRef};
use crate::executable::{FieldSelection, FragmentDefinition, OperationDefinition};
use crate::graph::fragments::{
    edge_sources, first_source_name, first_type_name, requested_fragment_name, GraphFragment,
};
use crate::graph::query_graph::{
    contains_node, edge_selection_index, index_number, graph_edges, graph_nodes, incoming_order, node_number, node_weight,
    outgoing_edges, outgoing_order, selection_index, Edge, Node, QueryGraph,
};
use crate::ingest::{type_fields, FieldDefinitionRef};
use crate::maps::{OverrideMap, ScalarTypeMap};
use crate::naming::{name_step, Nameable, Namer};
use crate::output::{field_rename, scalar_field_type_name, string_opt, InlineFragments, OutputField, QueryFragment};
use crate::processing::{FragmentId, VariableStructs};
use crate::wrappers::{TypeWrappers, WrappingType};

verus! {

/// The selection index of the edge at position `p` of the edges from `n`,
/// in the order the graph lists them.
pub open spec fn selection_at(g: QueryGraph, n: int, p: int) -> Option<usize> {
    edge_selection_index(graph_edges(g)[outgoing_order(g, n)[p]].2)
}

/// Selection `a` (index, position) comes before selection `b`: by index,
/// and for equal indices by position.
pub open spec fn selection_before(a: (usize, usize), b: (usize, usize)) -> bool {
    a.0 < b.0 || (a.0 == b.0 && a.1 < b.1)
}

/// `q` lists the positions of the edges from `n` that stand for a
/// selection, each once, ordered by selection index and, for equal
/// indices, by position.
pub open spec fn selection_order(g: QueryGraph, n: int, q: Seq<int>) -> bool {
    let order = outgoing_order(g, n);
    &&& forall|i: int| 0 <= i < q.len() ==> 0 <= #[trigger] q[i] < order.len() && selection_at(g, n, q[i]) is Some
    &&& forall|p: int|
        0 <= p < order.len() && #[trigger] selection_at(g, n, p) is Some ==> exists|i: int| 0 <= i < q.len() && q[i] == p
    &&& forall|i: int, j: int|
        0 <= i < j < q.len() ==> selection_before(
            (selection_at(g, n, #[trigger] q[i])->0, q[i] as usize),
            (selection_at(g, n, #[trigger] q[j])->0, q[j] as usize),
        )
}

/// The positions of the edges from `n` that stand for selections, in
/// selection order, with each selection's index.
pub(crate) fn ordered_selections(g: &QueryGraph, n: NodeIndex<usize>) -> (r: Vec<(usize, usize)>)
    ensures
        selection_order(*g, node_number(n), r@.map_values(|e: (usize, usize)| e.1 as int)),
        forall|i: int|
            0 <= i < r@.len() ==> selection_at(*g, node_number(n), (#[trigger] r@[i]).1 as int) == Some(r@[i].0),
        r@.len() <= outgoing_order(*g, node_number(n)).len(),
{
    let out = outgoing_edges(g, n);
    let ghost order = outgoing_order(*g, node_number(n));
    let ghost nn = node_number(n);
    let mut v: Vec<(usize, usize)> = Vec::new();
    let mut p: usize = 0;
    assert forall|m: int| 0 <= m < out@.len() implies *(#[trigger] out@[m]).1 == graph_edges(*g)[order[m]].2 by {
        assert(node_number(out@[m].0) == graph_edges(*g)[order[m]].1);
    }
    while p < out.len()
        invariant
            p <= out@.len(),
            v@.len() <= p,
            out@.len() == order.len(),
            order == outgoing_order(*g, nn),
            nn == node_number(n),
            forall|m: int| 0 <= m < out@.len() ==> *(#[trigger] out@[m]).1 == graph_edges(*g)[order[m]].2,
            forall|i: int| 0 <= i < v@.len() ==> (#[trigger] v@[i]).1 < p && selection_at(*g, nn, v@[i].1 as int) == Some(v@[i].0),
            forall|q: int|
                0 <= q < p && #[trigger] selection_at(*g, nn, q) is Some ==> exists|i: int| 0 <= i < v@.len() && v@[i].1 == q,
            forall|i: int, j: int| 0 <= i < j < v@.len() ==> selection_before(#[trigger] v@[i], #[trigger] v@[j]),
        decreases out.len() - p,
    {
        assert(*out@[p as int].1 == graph_edges(*g)[order[p as int]].2);
        match selection_index(out[p].1) {
            Some(idx) => {
                let ghost before = v@;
                let mut at: usize = 0;
                while at < v.len() && v[at].0 <= idx
                    invariant
                        at <= v@.len(),
                        v@ == before,
                        forall|i: int| 0 <= i < at ==> (#[trigger] v@[i]).0 <= idx,
                    decreases v.len() - at,
                {
                    at = at + 1;
                }
                proof {
                    assert forall|i: int| at <= i < v@.len() implies idx < (#[trigger] v@[i]).0 by {
                        if at < v@.len() && i > at {
                            assert(selection_before(v@[at as int], v@[i]));
                        }
                    }
                }
                v.insert(at, (idx, p));
                proof {
                    assert forall|i: int, j: int| 0 <= i < j < v@.len() implies selection_before(#[trigger] v@[i], #[trigger] v@[j]) by {
                        if i < at && j < at {
                            assert(v@[i] == before[i] && v@[j] == before[j]);
                        } else if i < at && j == at {
                            assert(v@[i] == before[i]);
                        } else if i < at && j > at {
                            assert(v@[i] == before[i] && v@[j] == before[j - 1]);
                        } else if i == at {
                            assert(v@[j] == before[j - 1]);
                        } else {
                            assert(v@[i] == before[i - 1] && v@[j] == before[j - 1]);
                        }
                    }
                    assert forall|q: int|
                        0 <= q < p + 1 && #[trigger] selection_at(*g, nn, q) is Some implies exists|i: int|
                            0 <= i < v@.len() && v@[i].1 == q by {
                        if q < p {
                            let i = choose|i: int| 0 <= i < before.len() && before[i].1 == q;
                            if i < at {
                                assert(v@[i] == before[i]);
                            } else {
                                assert(v@[i + 1] == before[i]);
                            }
                        } else {
                            assert(v@[at as int].1 == q);
                        }
                    }
                    assert forall|i: int| 0 <= i < v@.len() implies (#[trigger] v@[i]).1 < p + 1 && selection_at(*g, nn, v@[i].1 as int) == Some(v@[i].0) by {
                        if i < at {
                            assert(v@[i] == before[i]);
                        } else if i > at {
                            assert(v@[i] == before[i - 1]);
                        }
                    }
                }
            },
            None => {},
        }
        p = p + 1;
    }
    proof {
        let q = v@.map_values(|e: (usize, usize)| e.1 as int);
        assert forall|i: int| 0 <= i < q.len() implies 0 <= #[trigger] q[i] < order.len() && selection_at(*g, nn, q[i]) is Some by {
            assert(q[i] == v@[i].1 as int);
        }
        assert forall|pp: int|
            0 <= pp < order.len() && #[trigger] selection_at(*g, nn, pp) is Some implies exists|i: int| 0 <= i < q.len() && q[i] == pp by {
            let i = choose|i: int| 0 <= i < v@.len() && v@[i].1 == pp;
            assert(q[i] == pp);
        }
        assert forall|i: int, j: int| 0 <= i < j < q.len() implies selection_before(
            (selection_at(*g, nn, #[trigger] q[i])->0, q[i] as usize),
            (selection_at(*g, nn, #[trigger] q[j])->0, q[j] as usize),
        ) by {
            assert(selection_before(v@[i], v@[j]));
            assert(q[i] == v@[i].1 as int && q[j] == v@[j].1 as int);
        }
    }
    v
}

/// The name the fragment at node `t` asks for (see `GraphFragment`).
pub open spec fn fragment_requested(
    g: QueryGraph,
    schema: Schema,
    operations: Seq<OperationDefinition>,
    fragments: Seq<FragmentDefinition>,
    t: int,
) -> Seq<char> {
    requested_fragment_name(
        first_source_name(graph_nodes(g), operations, fragments, edge_sources(graph_edges(g), incoming_order(g, t))),
        first_type_name(graph_nodes(g), graph_edges(g), schema.types@, outgoing_order(g, t)),
    )
}

/// The node at `t` is a fragment node whose first `IsOfType` edge leads to
/// a type of the schema.
pub open spec fn is_typed_fragment(g: QueryGraph, schema: Schema, t: int) -> bool {
    &&& graph_nodes(g).dom().contains(t)
    &&& first_type_name(graph_nodes(g), graph_edges(g), schema.types@, outgoing_order(g, t)) is Some
}

/// The target of the first `HasSelectionSet` edge among the edges `order`.
pub open spec fn first_selection_set_target(edges: Map<int, (int, int, Edge)>, order: Seq<int>) -> Option<int>
    decreases order.len(),
{
    if order.len() == 0 {
        None
    } else if edges[order[0]].2 == Edge::HasSelectionSet {
        Some(edges[order[0]].1)
    } else {
        first_selection_set_target(edges, order.drop_first())
    }
}

/// The fragment a spread of the node `t` stands for: a named fragment
/// stands for its selection set, any other node for itself.
pub open spec fn spread_target(g: QueryGraph, t: int) -> Option<int> {
    if graph_nodes(g).dom().contains(t) && graph_nodes(g)[t] is NamedFragment {
        first_selection_set_target(graph_edges(g), outgoing_order(g, t))
    } else {
        Some(t)
    }
}

/// The edge at position `p` of the edges from `n`.
pub open spec fn edge_at(g: QueryGraph, n: int, p: int) -> (int, int, Edge) {
    graph_edges(g)[outgoing_order(g, n)[p]]
}

/// The fragment that the selection at position `p` of the edges from `n`
/// needs a name for, by node, if any: that of a field with a selection set,
/// or the one a spread stands for.
pub open spec fn selection_subject(g: QueryGraph, n: int, p: int) -> Option<int> {
    let e = edge_at(g, n, p);
    match e.2 {
        Edge::HasField { .. } => if graph_nodes(g)[e.1] == Node::LeafField {
            None
        } else {
            Some(e.1)
        },
        Edge::HasInlineSpread { .. } => spread_target(g, e.1),
        Edge::HasFragment { .. } => spread_target(g, e.1),
        Edge::HasSyntheticSpread { .. } => spread_target(g, e.1),
        _ => None,
    }
}

/// The name of the GraphQL type of a selected field: `String` for
/// `__typename`, else the type of the field at that position of the type
/// at position `ti`.
pub open spec fn field_type_name(schema: Schema, ti: int, def: FieldDefinitionRef) -> Seq<char> {
    match def {
        FieldDefinitionRef::Typename => seq!['S', 't', 'r', 'i', 'n', 'g'],
        FieldDefinitionRef::Field(p) => type_fields(schema.types@[ti])[p as int].ty.name@,
    }
}

/// The wrappers of the GraphQL type of a selected field (`__typename` is
/// never null).
pub open spec fn field_type_wrappers(schema: Schema, ti: int, def: FieldDefinitionRef) -> Seq<WrappingType> {
    match def {
        FieldDefinitionRef::Typename => seq![WrappingType::NonNull],
        FieldDefinitionRef::Field(p) => type_fields(schema.types@[ti])[p as int].ty.wrappers@,
    }
}

/// The selection at position `p` of the edges from `n` can be generated:
/// its target is in the graph, a field it reads is a field of the type at
/// position `ti`, and the fragment it needs a name for is a typed fragment.
pub open spec fn selection_resolves(g: QueryGraph, schema: Schema, n: int, ti: int, p: int) -> bool {
    let e = edge_at(g, n, p);
    &&& graph_nodes(g).dom().contains(e.1)
    &&& match e.2 {
        Edge::HasField { definition, .. } => match definition {
            FieldDefinitionRef::Field(f) => f < type_fields(schema.types@[ti]).len(),
            FieldDefinitionRef::Typename => true,
        },
        _ => true,
    }
    &&& match selection_subject(g, n, p) {
        Some(t) => is_typed_fragment(g, schema, t),
        None => edge_selection_index(e.2) is Some ==> e.2 is HasField,
    }
}

/// The namer's names and counts after naming the subjects of the first
/// `k` selections listed by `q`.
pub open spec fn names_after(
    g: QueryGraph,
    schema: Schema,
    operations: Seq<OperationDefinition>,
    fragments: Seq<FragmentDefinition>,
    n: int,
    q: Seq<int>,
    k: int,
    names: Map<usize, Seq<char>>,
    uses: Map<Seq<char>, nat>,
) -> (Map<usize, Seq<char>>, Map<Seq<char>, nat>)
    decreases k,
{
    if k <= 0 {
        (names, uses)
    } else {
        let st = names_after(g, schema, operations, fragments, n, q, k - 1, names, uses);
        match selection_subject(g, n, q[k - 1]) {
            Some(t) => {
                let r = name_step(st.0, st.1, t as usize, fragment_requested(g, schema, operations, fragments, t));
                (r.1, r.2)
            },
            None => st,
        }
    }
}

/// `f` is the output field for the selection at position `p` of the edges
/// from the fragment `n` of the type at position `ti`, with the names and
/// counts `st` before it. A scalar field's override is looked up by the
/// coordinate of the fragment's GraphQL type and the field's name.
pub open spec fn is_selection_field(
    f: OutputField,
    g: QueryGraph,
    schema: Schema,
    operations: Seq<OperationDefinition>,
    fragments: Seq<FragmentDefinition>,
    n: int,
    ti: int,
    p: int,
    overrides: Map<(Seq<char>, Seq<char>), Seq<char>>,
    scalar_types: Map<Seq<char>, Seq<char>>,
    st: (Map<usize, Seq<char>>, Map<Seq<char>, nat>),
) -> bool {
    let e = edge_at(g, n, p);
    let given = match selection_subject(g, n, p) {
        Some(t) => name_step(st.0, st.1, t as usize, fragment_requested(g, schema, operations, fragments, t)).0,
        None => Seq::empty(),
    };
    match e.2 {
        Edge::HasField { name, alias, definition, .. } => {
            &&& f.name@ == match alias {
                Some(a) => a@,
                None => name@,
            }
            &&& string_opt(f.rename) == field_rename(name@, string_opt(alias))
            &&& f.field_type.wrappers@ == field_type_wrappers(schema, ti, definition)
            &&& f.field_type.name@ == if selection_subject(g, n, p) is None {
                scalar_field_type_name(schema.types@[ti].name@, name@, field_type_name(schema, ti, definition), overrides, scalar_types)
            } else {
                given
            }
        },
        _ => {
            &&& f.name@ == snake_case(given)
            &&& f.rename is None
            &&& f.field_type.name@ == given
            &&& f.field_type.wrappers@ == seq![WrappingType::NonNull]
        },
    }
}

/// The name of the variables struct that `vars` gives the fragment `id`.
pub open spec fn variables_name(vars: VariableStructs, id: FragmentId) -> Option<Seq<char>> {
    if exists|i: int| 0 <= i < vars.mapping().len() && (#[trigger] vars.mapping()[i]).0 == id {
        let i = choose|i: int| 0 <= i < vars.mapping().len() && (#[trigger] vars.mapping()[i]).0 == id;
        Some(vars.structs@[vars.mapping()[i].1 as int].name@)
    } else {
        None
    }
}

/// The fragment a spread of the node `t` stands for (see `spread_target`).
pub(crate) fn find_spread_target(g: &QueryGraph, t: NodeIndex<usize>) -> (r: Option<NodeIndex<usize>>)
    requires
        graph_nodes(*g).dom().contains(node_number(t)),
    ensures
        match r {
            Some(s) => spread_target(*g, node_number(t)) == Some(node_number(s)),
            None => spread_target(*g, node_number(t)) is None,
        },
{
    match node_weight(g, t) {
        Node::NamedFragment(_) => {},
        _ => {
            return Some(t);
        },
    }
    let out = outgoing_edges(g, t);
    let ghost order = outgoing_order(*g, node_number(t));
    let ghost edges = graph_edges(*g);
    assert forall|m: int| 0 <= m < out@.len() implies node_number((#[trigger] out@[m]).0) == edges[order[m]].1 && *out@[m].1
        == edges[order[m]].2 by {
        assert(node_number(out@[m].0) == edges[order[m]].1);
    }
    assert(order.subrange(0, order.len() as int) == order);
    let mut j: usize = 0;
    while j < out.len()
        invariant
            j <= out@.len(),
            out@.len() == order.len(),
            order == outgoing_order(*g, node_number(t)),
            edges == graph_edges(*g),
            graph_nodes(*g).dom().contains(node_number(t)),
            graph_nodes(*g)[node_number(t)] is NamedFragment,
            forall|m: int| 0 <= m < out@.len() ==> node_number((#[trigger] out@[m]).0) == edges[order[m]].1 && *out@[m].1
                == edges[order[m]].2,
            first_selection_set_target(edges, order) == first_selection_set_target(
                edges,
                order.subrange(j as int, order.len() as int),
            ),
        decreases out.len() - j,
    {
        let ghost rest = order.subrange(j as int, order.len() as int);
        assert(rest[0] == order[j as int]);
        assert(rest.drop_first() == order.subrange(j + 1, order.len() as int));
        let (target, weight) = out[j];
        assert(node_number(target) == edges[order[j as int]].1 && *weight == edges[order[j as int]].2);
        match weight {
            Edge::HasSelectionSet => {
                assert(first_selection_set_target(edges, rest) == Some(edges[rest[0]].1));
                return Some(target);
            },
            _ => {},
        }
        j = j + 1;
    }
    None
}

/// A copy of an optional string.
fn copy_opt(o: &Option<String>) -> (r: Option<String>)
    ensures
        string_opt(r) == string_opt(*o),
{
    match o {
        Some(s) => Some(s.clone()),
        None => None,
    }
}

/// The GraphQL type of a selected field, read by `def` on the type `t`.
fn field_type_ref(t: &SchemaType, def: FieldDefinitionRef) -> (r: TypeRef)
    requires
        def matches FieldDefinitionRef::Field(f) ==> f < type_fields(*t).len(),
    ensures
        r.name@ == match def {
            FieldDefinitionRef::Typename => seq!['S', 't', 'r', 'i', 'n', 'g'],
            FieldDefinitionRef::Field(f) => type_fields(*t)[f as int].ty.name@,
        },
        r.wrappers@ == match def {
            FieldDefinitionRef::Typename => seq![WrappingType::NonNull],
            FieldDefinitionRef::Field(f) => type_fields(*t)[f as int].ty.wrappers@,
        },
{
    match def {
        FieldDefinitionRef::Typename => {
            proof {
                reveal_strlit("String");
            }
            TypeRef { name: "String".to_owned(), wrappers: TypeWrappers::none().wrap_non_null() }
        },
        FieldDefinitionRef::Field(f) => {
            let fd = match &t.kind {
                TypeKind::Object { fields } => &fields[f],
                TypeKind::Interface { interface_fields } => &interface_fields[f],
                _ => {
                    proof {
                        assert(false);
                    }
                    return TypeRef { name: String::new(), wrappers: TypeWrappers::none() };
                },
            };
            TypeRef { name: fd.ty.name.clone(), wrappers: fd.ty.wrappers.duplicate() }
        },
    }
}

/// The query fragment struct generated for `fragment`: one output field
/// per selection, in selection order (a scalar field as
/// `OutputField::for_scalar_field` builds it for the fragment's GraphQL
/// type, so that an override on `Type.field` applies, a field with a selection set
/// as `OutputField::for_composite_field` does, typed by the name its
/// fragment gets, a spread as `OutputField::for_spread` does), then the
/// fragment's own name from the namer, its type, and the variables struct
/// it takes. The fragments the fields and spreads need are named in order,
/// before the fragment itself.
pub fn make_query_fragment(
    fragment: &GraphFragment,
    namer: &mut Namer<usize>,
    vars: &VariableStructs,
    overrides: &OverrideMap,
    scalar_types: &ScalarTypeMap,
) -> (r: QueryFragment)
    requires
        old(namer).wf(),
        vars.wf(),
        overrides.wf(),
        scalar_types.wf(),
        fragment.type_position() is Some,
        forall|p: int|
            0 <= p < outgoing_order(fragment.spec_graph(), node_number(fragment.spec_node())).len() && #[trigger] selection_at(
                fragment.spec_graph(),
                node_number(fragment.spec_node()),
                p,
            ) is Some ==> selection_resolves(
                fragment.spec_graph(),
                fragment.spec_schema(),
                node_number(fragment.spec_node()),
                fragment.type_position()->0,
                p,
            ),
        forall|name: Seq<char>|
            #[trigger] old(namer).use_count(name) + outgoing_order(fragment.spec_graph(), node_number(fragment.spec_node())).len()
                + 1 < u16::MAX,
    ensures
        final(namer).wf(),
        ({
            let g = fragment.spec_graph();
            let schema = fragment.spec_schema();
            let ops = fragment.spec_operations();
            let frags = fragment.spec_fragments();
            let n = node_number(fragment.spec_node());
            let ti = fragment.type_position()->0;
            let requested = fragment_requested(g, schema, ops, frags, n);
            exists|q: Seq<int>|
                {
                    &&& selection_order(g, n, q)
                    &&& r.fields@.len() == q.len()
                    &&& forall|i: int|
                        0 <= i < q.len() ==> is_selection_field(
                            #[trigger] r.fields@[i],
                            g,
                            schema,
                            ops,
                            frags,
                            n,
                            ti,
                            q[i],
                            overrides@,
                            scalar_types@,
                            names_after(g, schema, ops, frags, n, q, i, old(namer).names(), old(namer).uses()),
                        )
                    &&& {
                        let st = names_after(g, schema, ops, frags, n, q, q.len() as int, old(namer).names(), old(namer).uses());
                        let own = name_step(st.0, st.1, n as usize, requested);
                        &&& r.name@ == own.0
                        &&& final(namer).names() == own.1
                        &&& final(namer).uses() == own.2
                    }
                }
        }),
        r.target_type@ == fragment.spec_schema().types@[fragment.type_position()->0].name@,
        string_opt(r.variable_struct_name) == variables_name(*vars, FragmentId::Query(node_number(fragment.spec_node()) as usize)),
        r.schema_name is None,
{
    proof {
        broadcast use vstd::laws_eq::group_laws_eq;
    }
    let g = fragment.graph();
    let node = fragment.node();
    let schema = fragment.schema();
    let operations = fragment.operations();
    let fragments = fragment.fragments();
    let ti = fragment.type_index();
    let ghost n = node_number(node);
    let ghost ops = operations@;
    let ghost frags = fragments@;
    let ghost names0 = namer.names();
    let ghost uses0 = namer.uses();
    let sels = ordered_selections(g, node);
    let ghost q = sels@.map_values(|e: (usize, usize)| e.1 as int);
    let out = outgoing_edges(g, node);
    let ghost order = outgoing_order(*g, n);
    let ghost edges = graph_edges(*g);
    assert forall|m: int| 0 <= m < out@.len() implies node_number((#[trigger] out@[m]).0) == edges[order[m]].1 && *out@[m].1
        == edges[order[m]].2 by {
        assert(node_number(out@[m].0) == edges[order[m]].1);
    }
    let mut fields: Vec<OutputField> = Vec::new();
    let mut i: usize = 0;
    while i < sels.len()
        invariant
            i <= sels@.len(),
            sels@.len() <= order.len(),
            q == sels@.map_values(|e: (usize, usize)| e.1 as int),
            selection_order(*g, n, q),
            forall|m: int| 0 <= m < sels@.len() ==> selection_at(*g, n, (#[trigger] sels@[m]).1 as int) == Some(sels@[m].0),
            out@.len() == order.len(),
            order == outgoing_order(*g, n),
            edges == graph_edges(*g),
            n == node_number(node),
            *g == fragment.spec_graph(),
            node == fragment.spec_node(),
            *schema == fragment.spec_schema(),
            ops == fragment.spec_operations(),
            frags == fragment.spec_fragments(),
            operations@ == ops,
            fragments@ == frags,
            fragment.type_position() == Some(ti as int),
            ti < schema.types@.len(),
            forall|m: int| 0 <= m < out@.len() ==> node_number((#[trigger] out@[m]).0) == edges[order[m]].1 && *out@[m].1
                == edges[order[m]].2,
            forall|p: int|
                0 <= p < order.len() && #[trigger] selection_at(*g, n, p) is Some ==> selection_resolves(*g, *schema, n, ti as int, p),
            forall|name: Seq<char>| #[trigger] namer.use_count(name) + order.len() + 1 < u16::MAX + i,
            namer.wf(),
            vars.wf(),
            overrides.wf(),
            scalar_types.wf(),
            (namer.names(), namer.uses()) == names_after(*g, *schema, ops, frags, n, q, i as int, names0, uses0),
            fields@.len() == i,
            forall|m: int|
                0 <= m < i ==> is_selection_field(
                    #[trigger] fields@[m],
                    *g,
                    *schema,
                    ops,
                    frags,
                    n,
                    ti as int,
                    q[m],
                    overrides@,
                    scalar_types@,
                    names_after(*g, *schema, ops, frags, n, q, m, names0, uses0),
                ),
        decreases sels.len() - i,
    {
        let p = sels[i].1;
        let ghost pp = p as int;
        assert(q[i as int] == pp);
        assert(0 <= pp < order.len() && selection_at(*g, n, pp) is Some);
        assert(selection_resolves(*g, *schema, n, ti as int, pp));
        let (target, weight) = out[p];
        assert(node_number(target) == edge_at(*g, n, pp).1 && *weight == edge_at(*g, n, pp).2);
        let ghost st = names_after(*g, *schema, ops, frags, n, q, i as int, names0, uses0);
        let ghost before = *namer;
        let f = match weight {
            Edge::HasField { name, alias, definition, .. } => {
                let ty = field_type_ref(&schema.types[ti], *definition);
                let sel = FieldSelection {
                    alias: copy_opt(alias),
                    name: name.clone(),
                    arguments: Vec::new(),
                    directives: Vec::new(),
                    selection_set: Vec::new(),
                };
                match node_weight(g, target) {
                    Node::LeafField => OutputField::for_scalar_field(schema.types[ti].name.as_str(), &sel, &ty, overrides, scalar_types),
                    _ => {
                        let sub = GraphFragment::new(g, target, schema, operations, fragments).unwrap();
                        let given = namer.name_subject(&sub);
                        OutputField::for_composite_field(&sel, &ty, given)
                    },
                }
            },
            _ => {
                let s = find_spread_target(g, target).unwrap();
                let sub = GraphFragment::new(g, s, schema, operations, fragments).unwrap();
                let given = namer.name_subject(&sub);
                OutputField::for_spread(given)
            },
        };
        fields.push(f);
        proof {
            assert forall|x: Seq<char>| #[trigger] namer.use_count(x) + order.len() + 1 < u16::MAX + i + 1 by {
                assert(before.use_count(x) + order.len() + 1 < u16::MAX + i);
            }
        }
        i = i + 1;
    }
    let variable_struct_name = match vars.variables_name_for_fragment(FragmentId::Query(index_number(node))) {
        Some(v) => Some(v.to_owned()),
        None => None,
    };
    let name = namer.name_subject(fragment);
    QueryFragment {
        fields,
        target_type: schema.types[ti].name.clone(),
        variable_struct_name,
        schema_name: None,
        name,
    }
}

/// The fragment that the node `t` stands for as a variant of an inline
/// fragment: a query or inline fragment itself, a named fragment the
/// fragment its selection set edge leads to; nothing for other nodes.
pub open spec fn variant_of(g: QueryGraph, t: int) -> Option<int> {
    let nodes = graph_nodes(g);
    if !nodes.dom().contains(t) {
        None
    } else {
        match nodes[t] {
            Node::QueryFragment => Some(t),
            Node::InlineFragment => Some(t),
            Node::NamedFragment(_) => match first_selection_set_target(graph_edges(g), outgoing_order(g, t)) {
                Some(s) => if nodes.dom().contains(s) && (nodes[s] is QueryFragment || nodes[s] is InlineFragment) {
                    Some(s)
                } else {
                    None
                },
                None => None,
            },
            _ => None,
        }
    }
}

/// The variants that the edges numbered `order` lead to, last edge first.
pub open spec fn variants(g: QueryGraph, order: Seq<int>) -> Seq<int>
    decreases order.len(),
{
    if order.len() == 0 {
        seq![]
    } else {
        let rest = variants(g, order.drop_first());
        match variant_of(g, graph_edges(g)[order[0]].1) {
            Some(v) => rest.push(v),
            None => rest,
        }
    }
}

/// The namer's names and counts after naming the first `k` of the
/// fragments `vs`.
pub open spec fn names_over(
    g: QueryGraph,
    schema: Schema,
    operations: Seq<OperationDefinition>,
    fragments: Seq<FragmentDefinition>,
    vs: Seq<int>,
    k: int,
    names: Map<usize, Seq<char>>,
    uses: Map<Seq<char>, nat>,
) -> (Map<usize, Seq<char>>, Map<Seq<char>, nat>)
    decreases k,
{
    if k <= 0 {
        (names, uses)
    } else {
        let st = names_over(g, schema, operations, fragments, vs, k - 1, names, uses);
        let r = name_step(st.0, st.1, vs[k - 1] as usize, fragment_requested(g, schema, operations, fragments, vs[k - 1]));
        (r.1, r.2)
    }
}

proof fn lemma_variants_len(g: QueryGraph, order: Seq<int>)
    ensures
        variants(g, order).len() <= order.len(),
    decreases order.len(),
{
    if order.len() > 0 {
        lemma_variants_len(g, order.drop_first());
    }
}

/// The variants of the fragment at `node`: the fragments its edges lead
/// to, last edge first.
fn find_variants(g: &QueryGraph, node: NodeIndex<usize>) -> (r: Vec<NodeIndex<usize>>)
    ensures
        r@.map_values(|v: NodeIndex<usize>| node_number(v)) == variants(*g, outgoing_order(*g, node_number(node))),
{
    let out = outgoing_edges(g, node);
    let ghost order = outgoing_order(*g, node_number(node));
    let ghost edges = graph_edges(*g);
    assert forall|m: int| 0 <= m < out@.len() implies node_number((#[trigger] out@[m]).0) == edges[order[m]].1 && *out@[m].1
        == edges[order[m]].2 by {
        assert(node_number(out@[m].0) == edges[order[m]].1);
    }
    let mut r: Vec<NodeIndex<usize>> = Vec::new();
    let mut j: usize = out.len();
    assert(order.subrange(order.len() as int, order.len() as int) =~= Seq::<int>::empty());
    while j > 0
        invariant
            j <= out@.len(),
            out@.len() == order.len(),
            order == outgoing_order(*g, node_number(node)),
            edges == graph_edges(*g),
            forall|m: int| 0 <= m < out@.len() ==> node_number((#[trigger] out@[m]).0) == edges[order[m]].1 && *out@[m].1
                == edges[order[m]].2,
            r@.map_values(|v: NodeIndex<usize>| node_number(v)) == variants(*g, order.subrange(j as int, order.len() as int)),
        decreases j,
    {
        j = j - 1;
        let ghost sub = order.subrange(j as int, order.len() as int);
        assert(sub[0] == order[j as int]);
        assert(sub.drop_first() =~= order.subrange(j + 1, order.len() as int));
        let t = out[j].0;
        assert(node_number(t) == edges[order[j as int]].1);
        let ghost before = r@;
        if contains_node(g, t) {
            match node_weight(g, t) {
                Node::QueryFragment => {
                    r.push(t);
                },
                Node::InlineFragment => {
                    r.push(t);
                },
                Node::NamedFragment(_) => {
                    match find_spread_target(g, t) {
                        Some(s) => {
                            if contains_node(g, s) {
                                match node_weight(g, s) {
                                    Node::QueryFragment => {
                                        r.push(s);
                                    },
                                    Node::InlineFragment => {
                                        r.push(s);
                                    },
                                    _ => {},
                                }
                            }
                        },
                        None => {},
                    }
                },
                _ => {},
            }
        }
        proof {
            assert(before.map_values(|v: NodeIndex<usize>| node_number(v)) == variants(*g, sub.drop_first()));
            if r@.len() > before.len() {
                assert(r@ == before.push(r@[before.len() as int]));
                assert(r@.map_values(|v: NodeIndex<usize>| node_number(v)) =~= before.map_values(
                    |v: NodeIndex<usize>| node_number(v),
                ).push(node_number(r@[before.len() as int])));
            } else {
                assert(r@ == before);
            }
        }
    }
    assert(order.subrange(0, order.len() as int) =~= order);
    r
}

/// The inline fragments enum generated for `fragment`: the names the
/// namer gives its variants (last edge first), then its type, the
/// variables struct it takes, and its own name from the namer.
pub fn make_inline_fragments(fragment: &GraphFragment, namer: &mut Namer<usize>, vars: &VariableStructs) -> (r: InlineFragments)
    requires
        old(namer).wf(),
        vars.wf(),
        fragment.type_position() is Some,
        forall|i: int|
            0 <= i < variants(fragment.spec_graph(), outgoing_order(fragment.spec_graph(), node_number(fragment.spec_node()))).len()
                ==> is_typed_fragment(
                fragment.spec_graph(),
                fragment.spec_schema(),
                #[trigger] variants(fragment.spec_graph(), outgoing_order(fragment.spec_graph(), node_number(fragment.spec_node())))[i],
            ),
        forall|name: Seq<char>|
            #[trigger] old(namer).use_count(name) + outgoing_order(fragment.spec_graph(), node_number(fragment.spec_node())).len()
                + 1 < u16::MAX,
    ensures
        final(namer).wf(),
        ({
            let g = fragment.spec_graph();
            let schema = fragment.spec_schema();
            let ops = fragment.spec_operations();
            let frags = fragment.spec_fragments();
            let n = node_number(fragment.spec_node());
            let vs = variants(g, outgoing_order(g, n));
            let st = names_over(g, schema, ops, frags, vs, vs.len() as int, old(namer).names(), old(namer).uses());
            let own = name_step(st.0, st.1, n as usize, fragment_requested(g, schema, ops, frags, n));
            &&& r.inner_type_names@.len() == vs.len()
            &&& forall|i: int|
                0 <= i < vs.len() ==> (#[trigger] r.inner_type_names@[i])@ == ({
                    let sti = names_over(g, schema, ops, frags, vs, i, old(namer).names(), old(namer).uses());
                    name_step(sti.0, sti.1, vs[i] as usize, fragment_requested(g, schema, ops, frags, vs[i])).0
                })
            &&& r.name@ == own.0
            &&& final(namer).names() == own.1
            &&& final(namer).uses() == own.2
        }),
        r.target_type@ == fragment.spec_schema().types@[fragment.type_position()->0].name@,
        string_opt(r.variable_struct_name) == variables_name(*vars, FragmentId::Query(node_number(fragment.spec_node()) as usize)),
        r.schema_name is None,
{
    proof {
        broadcast use vstd::laws_eq::group_laws_eq;
    }
    let g = fragment.graph();
    let node = fragment.node();
    let schema = fragment.schema();
    let operations = fragment.operations();
    let fragments = fragment.fragments();
    let ti = fragment.type_index();
    let ghost n = node_number(node);
    let ghost ops = operations@;
    let ghost frags = fragments@;
    let ghost names0 = namer.names();
    let ghost uses0 = namer.uses();
    let vs = find_variants(g, node);
    let ghost vv = variants(*g, outgoing_order(*g, n));
    proof {
        lemma_variants_len(*g, outgoing_order(*g, n));
    }
    let mut inner: Vec<String> = Vec::new();
    let mut i: usize = 0;
    while i < vs.len()
        invariant
            i <= vs@.len(),
            vs@.map_values(|v: NodeIndex<usize>| node_number(v)) == vv,
            vv == variants(*g, outgoing_order(*g, n)),
            vv.len() <= outgoing_order(*g, n).len(),
            *g == fragment.spec_graph(),
            n == node_number(fragment.spec_node()),
            *schema == fragment.spec_schema(),
            ops == fragment.spec_operations(),
            frags == fragment.spec_fragments(),
            operations@ == ops,
            fragments@ == frags,
            forall|k: int| 0 <= k < vv.len() ==> is_typed_fragment(*g, *schema, #[trigger] vv[k]),
            forall|name: Seq<char>| #[trigger] namer.use_count(name) + outgoing_order(*g, n).len() + 1 < u16::MAX + i,
            namer.wf(),
            (namer.names(), namer.uses()) == names_over(*g, *schema, ops, frags, vv, i as int, names0, uses0),
            inner@.len() == i,
            forall|k: int|
                0 <= k < i ==> (#[trigger] inner@[k])@ == ({
                    let sti = names_over(*g, *schema, ops, frags, vv, k, names0, uses0);
                    name_step(sti.0, sti.1, vv[k] as usize, fragment_requested(*g, *schema, ops, frags, vv[k])).0
                }),
        decreases vs.len() - i,
    {
        let v = vs[i];
        assert(node_number(v) == vv[i as int]);
        assert(is_typed_fragment(*g, *schema, vv[i as int]));
        let ghost before = *namer;
        let sub = GraphFragment::new(g, v, schema, operations, fragments).unwrap();
        let given = namer.name_subject(&sub);
        inner.push(given);
        proof {
            assert forall|x: Seq<char>| #[trigger] namer.use_count(x) + outgoing_order(*g, n).len() + 1 < u16::MAX + i + 1 by {
                assert(before.use_count(x) + outgoing_order(*g, n).len() + 1 < u16::MAX + i);
            }
        }
        i = i + 1;
    }
    let variable_struct_name = match vars.variables_name_for_fragment(FragmentId::Query(index_number(node))) {
        Some(v) => Some(v.to_owned()),
        None => None,
    };
    let name = namer.name_subject(fragment);
    InlineFragments {
        inner_type_names: inner,
        target_type: schema.types[ti].name.clone(),
        variable_struct_name,
        name,
        schema_name: None,
    }
}

} // verus!
