use cynic_querygen::document::{FieldDefinition, Schema, SchemaType, TypeKind, TypeRef};
use cynic_querygen::executable::{
    FieldSelection, FragmentDefinition, FragmentSpread, InlineFragment, OperationDefinition, OperationType,
    Selection,
};
use cynic_querygen::graph::builder::query_graph;
use cynic_querygen::graph::query_graph::{Edge, Node, QueryGraph};
use cynic_querygen::ingest::FieldDefinitionRef;
use cynic_querygen::wrappers::TypeWrappers;
use petgraph::stable_graph::NodeIndex;
use petgraph::visit::EdgeRef;

fn field_def(name: &str, ty: &str) -> FieldDefinition {
    FieldDefinition { name: name.into(), ty: TypeRef { name: ty.into(), wrappers: TypeWrappers::none() }, arguments: vec![] }
}

fn object(name: &str, fields: Vec<FieldDefinition>) -> SchemaType {
    SchemaType { name: name.into(), kind: TypeKind::Object { fields } }
}

fn schema() -> Schema {
    Schema {
        types: vec![
            SchemaType { name: "String".into(), kind: TypeKind::Scalar },
            object("Query", vec![field_def("film", "Film"), field_def("node", "Node")]),
            object("Film", vec![field_def("id", "String"), field_def("title", "String"), field_def("director", "Person")]),
            object("Person", vec![field_def("name", "String")]),
            SchemaType { name: "Node".into(), kind: TypeKind::Interface { interface_fields: vec![field_def("id", "String")] } },
        ],
        schema_definitions: vec![],
        extension_only: vec![],
    }
}

fn field(name: &str, selection_set: Vec<Selection>) -> Selection {
    Selection::Field(FieldSelection { alias: None, name: name.into(), arguments: vec![], directives: vec![], selection_set })
}

fn query(selection_set: Vec<Selection>) -> OperationDefinition {
    OperationDefinition { operation_type: OperationType::Query, name: Some("MyQuery".into()), variable_definitions: vec![], selection_set }
}

fn find(g: &QueryGraph, weight: Node) -> Vec<NodeIndex<usize>> {
    g.node_indices().filter(|i| g[*i] == weight).collect()
}

/// The edges from `n` as (selection index or none, weight description, target).
fn out(g: &QueryGraph, n: NodeIndex<usize>) -> Vec<(String, NodeIndex<usize>)> {
    let mut edges: Vec<(String, NodeIndex<usize>)> = g
        .edges(n)
        .map(|e| {
            let label = match e.weight() {
                Edge::HasSelectionSet => "selection set".to_string(),
                Edge::HasField { name, index, .. } => format!("{index}: field {name}"),
                Edge::HasInlineSpread { index } => format!("{index}: inline"),
                Edge::HasFragment { index } => format!("{index}: fragment"),
                Edge::HasSyntheticSpread { index } => format!("{index}: synthetic"),
                Edge::IsOfType => "type".to_string(),
            };
            (label, e.target())
        })
        .collect();
    edges.sort_by(|a, b| a.0.cmp(&b.0));
    edges
}

fn target(edges: &[(String, NodeIndex<usize>)], label: &str) -> NodeIndex<usize> {
    edges.iter().find(|(l, _)| l == label).unwrap().1
}

#[test]
fn nested_fields_become_nested_query_fragments() {
    let s = schema();
    let ops = vec![query(vec![field("film", vec![field("title", vec![]), field("director", vec![field("name", vec![])])])])];
    let g = query_graph(&s, &ops, &vec![]);

    let types: Vec<_> = (0..5).map(|p| find(&g, Node::Type(p))[0]).collect();
    let op = find(&g, Node::Operation(0));
    assert_eq!(op.len(), 1);
    let op_edges = out(&g, op[0]);
    assert_eq!(op_edges.len(), 1);
    let root = target(&op_edges, "selection set");
    assert_eq!(g[root], Node::QueryFragment);

    let root_edges = out(&g, root);
    assert_eq!(root_edges.len(), 2);
    assert_eq!(target(&root_edges, "type"), types[1]);
    let film = target(&root_edges, "0: field film");
    assert_eq!(g[film], Node::QueryFragment);

    let film_edges = out(&g, film);
    assert_eq!(film_edges.len(), 3);
    assert_eq!(target(&film_edges, "type"), types[2]);
    let title = target(&film_edges, "0: field title");
    assert_eq!(g[title], Node::LeafField);
    assert_eq!(out(&g, title), vec![("type".to_string(), types[0])]);
    let director = target(&film_edges, "1: field director");
    assert_eq!(g[director], Node::QueryFragment);
    assert_eq!(target(&out(&g, director), "type"), types[3]);

    // five types, the operation, three query fragments and two leaves
    assert_eq!(g.node_count(), 11);
}

#[test]
fn field_edges_carry_the_selection() {
    let s = schema();
    let ops = vec![query(vec![Selection::Field(FieldSelection {
        alias: Some("movie".into()),
        name: "film".into(),
        arguments: vec![],
        directives: vec![],
        selection_set: vec![field("__typename", vec![])],
    })])];
    let g = query_graph(&s, &ops, &vec![]);
    let op = find(&g, Node::Operation(0))[0];
    let root = target(&out(&g, op), "selection set");
    let edge = g.edges(root).find(|e| matches!(e.weight(), Edge::HasField { .. })).unwrap();
    match edge.weight() {
        Edge::HasField { name, alias, definition, index } => {
            assert_eq!(name, "film");
            assert_eq!(alias.as_deref(), Some("movie"));
            assert_eq!(*definition, FieldDefinitionRef::Field(0));
            assert_eq!(*index, 0);
        }
        _ => unreachable!(),
    }
    let film = edge.target();
    let typename = g.edges(film).find(|e| matches!(e.weight(), Edge::HasField { .. })).unwrap();
    match typename.weight() {
        Edge::HasField { definition, .. } => assert_eq!(*definition, FieldDefinitionRef::Typename),
        _ => unreachable!(),
    }
    // __typename reads a String
    let string = find(&g, Node::Type(0))[0];
    assert_eq!(target(&out(&g, typename.target()), "type"), string);
}

#[test]
fn fields_and_other_types_split_into_a_synthetic_spread() {
    let s = schema();
    let on_film = Selection::InlineFragment(InlineFragment {
        type_condition: Some("Film".into()),
        directives: vec![],
        selection_set: vec![field("title", vec![])],
    });
    let ops = vec![query(vec![field("node", vec![field("id", vec![]), on_film])])];
    let g = query_graph(&s, &ops, &vec![]);
    let op = find(&g, Node::Operation(0))[0];
    let root = target(&out(&g, op), "selection set");
    let node = target(&out(&g, root), "0: field node");
    assert_eq!(g[node], Node::QueryFragment);

    let node_edges = out(&g, node);
    assert_eq!(node_edges.len(), 3);
    assert_eq!(g[target(&node_edges, "0: field id")], Node::LeafField);
    let inline = target(&node_edges, "1: synthetic");
    assert_eq!(g[inline], Node::InlineFragment);

    let inline_edges = out(&g, inline);
    assert_eq!(inline_edges.len(), 2);
    assert_eq!(target(&inline_edges, "type"), find(&g, Node::Type(4))[0]);
    let film = target(&inline_edges, "0: inline");
    assert_eq!(g[film], Node::QueryFragment);
    assert_eq!(target(&out(&g, film), "type"), find(&g, Node::Type(2))[0]);
}

#[test]
fn only_other_types_make_an_inline_fragment() {
    let s = schema();
    let on_film = Selection::InlineFragment(InlineFragment {
        type_condition: Some("Film".into()),
        directives: vec![],
        selection_set: vec![field("title", vec![])],
    });
    let ops = vec![query(vec![field("node", vec![field("__typename", vec![]), on_film])])];
    let g = query_graph(&s, &ops, &vec![]);
    let op = find(&g, Node::Operation(0))[0];
    let root = target(&out(&g, op), "selection set");
    let node = target(&out(&g, root), "0: field node");
    assert_eq!(g[node], Node::InlineFragment);
    let node_edges = out(&g, node);
    assert_eq!(node_edges.len(), 3);
    assert_eq!(g[target(&node_edges, "0: field __typename")], Node::LeafField);
    assert_eq!(g[target(&node_edges, "1: inline")], Node::QueryFragment);
}

#[test]
fn spreads_point_at_named_fragments() {
    let s = schema();
    let fragments = vec![FragmentDefinition {
        name: "FilmParts".into(),
        type_condition: "Film".into(),
        selection_set: vec![field("title", vec![])],
    }];
    let spread = Selection::FragmentSpread(FragmentSpread { fragment_name: "FilmParts".into(), directives: vec![] });
    let ops = vec![query(vec![field("film", vec![spread])])];
    let g = query_graph(&s, &ops, &fragments);

    let named = find(&g, Node::NamedFragment(0));
    assert_eq!(named.len(), 1);
    let parts = target(&out(&g, named[0]), "selection set");
    assert_eq!(g[parts], Node::QueryFragment);
    assert_eq!(target(&out(&g, parts), "type"), find(&g, Node::Type(2))[0]);

    let op = find(&g, Node::Operation(0))[0];
    let root = target(&out(&g, op), "selection set");
    let film = target(&out(&g, root), "0: field film");
    assert_eq!(g[film], Node::QueryFragment);
    assert_eq!(target(&out(&g, film), "0: fragment"), named[0]);
}

#[test]
fn operations_are_read_in_order() {
    let s = Schema {
        schema_definitions: vec![],
        extension_only: vec![],
        types: {
            let mut t = schema().types;
            t.push(object("Mutation", vec![field_def("like", "Film")]));
            t
        },
    };
    let mutation = OperationDefinition {
        operation_type: OperationType::Mutation,
        name: None,
        variable_definitions: vec![],
        selection_set: vec![field("like", vec![field("id", vec![])])],
    };
    let ops = vec![query(vec![field("film", vec![field("id", vec![])])]), mutation];
    let g = query_graph(&s, &ops, &vec![]);
    let second = find(&g, Node::Operation(1))[0];
    let root = target(&out(&g, second), "selection set");
    assert_eq!(target(&out(&g, root), "type"), find(&g, Node::Type(5))[0]);
}
