use cynic_querygen::graph::query_graph::{Edge, Node, QueryGraph};
use cynic_querygen::ingest::FieldDefinitionRef;
use cynic_querygen::transforms::{apply_merges, lift_solo_spread, prune_unused_leaves};
use cynic_querygen::document::{Schema, SchemaType, TypeKind};
use cynic_querygen::executable::{FragmentDefinition, OperationDefinition};
use cynic_querygen::transforms::Merges;

fn groups(m: &Merges) -> Vec<(usize, Vec<usize>)> {
    m.groups().iter().map(|(t, s)| (*t, s.clone())).collect()
}

#[test]
fn equal_fragments_join_the_group_of_the_first() {
    let mut m = Merges::new();
    assert!(m.is_empty());
    m.add(1, 2);
    m.add(1, 3);
    m.add(2, 4);
    m.add(5, 6);
    assert!(!m.is_empty());
    assert_eq!(groups(&m), vec![(1, vec![2, 3, 4]), (5, vec![6])]);
}

#[test]
fn a_node_joins_the_first_group_it_is_found_in() {
    let mut m = Merges::new();
    m.add(1, 2);
    m.add(3, 2);
    // 2 is now in both groups; a match on 2 joins the first
    m.add(2, 7);
    assert_eq!(groups(&m), vec![(1, vec![2, 7]), (3, vec![2])]);
}

#[test]
fn after_add_some_group_holds_both() {
    let mut m = Merges::new();
    m.add(10, 11);
    m.add(12, 10);
    let g = groups(&m);
    assert!(g.iter().any(|(t, s)| (*t == 12 || s.contains(&12)) && (*t == 10 || s.contains(&10))));
    assert!(g.iter().any(|(t, s)| (*t == 10 || s.contains(&10)) && (*t == 11 || s.contains(&11))));
}

#[test]
fn leaves_that_nothing_selects_are_pruned() {

    let mut g = QueryGraph::default();
    let unused = g.add_node(Node::LeafField);
    let ty = g.add_node(Node::Type(0));
    let used = g.add_node(Node::LeafField);
    let fragment = g.add_node(Node::QueryFragment);
    g.add_edge(
        fragment,
        used,
        Edge::HasField { name: "id".into(), alias: None, definition: FieldDefinitionRef::Field(0), index: 0 },
    );
    g.add_edge(unused, ty, Edge::IsOfType);
    g.add_edge(used, ty, Edge::IsOfType);
    g.add_edge(fragment, ty, Edge::IsOfType);

    prune_unused_leaves(&mut g);

    assert!(g.node_weight(unused).is_none());
    assert_eq!(g.node_weight(used), Some(&Node::LeafField));
    assert_eq!(g.node_weight(ty), Some(&Node::Type(0)));
    assert_eq!(g.node_weight(fragment), Some(&Node::QueryFragment));
    assert_eq!(g.node_count(), 3);
    assert_eq!(g.edge_count(), 3);
}

#[test]
fn merged_fragments_take_over_the_edges_into_them() {
    let mut g = QueryGraph::default();
    let op = g.add_node(Node::Operation(0));
    let ty = g.add_node(Node::Type(0));
    let a = g.add_node(Node::QueryFragment);
    let b = g.add_node(Node::QueryFragment);
    let c = g.add_node(Node::QueryFragment);
    g.add_edge(op, a, Edge::HasSelectionSet);
    g.add_edge(
        a,
        b,
        Edge::HasField { name: "x".into(), alias: None, definition: FieldDefinitionRef::Field(0), index: 0 },
    );
    g.add_edge(
        a,
        c,
        Edge::HasField { name: "y".into(), alias: None, definition: FieldDefinitionRef::Field(1), index: 1 },
    );
    g.add_edge(b, ty, Edge::IsOfType);
    g.add_edge(c, ty, Edge::IsOfType);

    let mut m = Merges::new();
    m.add(b.index(), c.index());
    apply_merges(&mut g, &m);

    assert!(g.node_weight(c).is_none());
    assert_eq!(g.node_count(), 4);
    // both fields of `a` now lead to `b`
    let targets: Vec<_> = g.edges(a).map(|e| petgraph::visit::EdgeRef::target(&e)).collect();
    assert_eq!(targets.len(), 2);
    assert!(targets.iter().all(|t| *t == b));
    // the edge from `c` to its type went with it
    assert_eq!(g.edge_count(), 4);
}

#[test]
fn a_fragment_that_only_spreads_another_of_its_type_is_lifted() {
    let schema = Schema {
        types: vec![SchemaType { name: "Film".into(), kind: TypeKind::Object { fields: vec![] } }],
        schema_definitions: vec![],
        extension_only: vec![],
    };
    let operations: Vec<OperationDefinition> = vec![];
    let fragments: Vec<FragmentDefinition> = vec![];

    let mut g = QueryGraph::default();
    let parent = g.add_node(Node::QueryFragment);
    let ty = g.add_node(Node::Type(0));
    let solo = g.add_node(Node::QueryFragment);
    let inner = g.add_node(Node::QueryFragment);
    g.add_edge(parent, ty, Edge::IsOfType);
    g.add_edge(solo, ty, Edge::IsOfType);
    g.add_edge(inner, ty, Edge::IsOfType);
    g.add_edge(
        parent,
        solo,
        Edge::HasField { name: "film".into(), alias: None, definition: FieldDefinitionRef::Field(0), index: 0 },
    );
    g.add_edge(solo, inner, Edge::HasInlineSpread { index: 0 });

    // a fragment with a field selection is left alone
    assert!(!lift_solo_spread(&mut g, parent, &schema, &operations, &fragments));
    assert_eq!(g.node_count(), 4);

    assert!(lift_solo_spread(&mut g, solo, &schema, &operations, &fragments));
    // only a field led to `solo`, so it is gone and the field leads to `inner`
    assert!(g.node_weight(solo).is_none());
    let targets: Vec<_> = g.edges(parent).map(|e| petgraph::visit::EdgeRef::target(&e)).collect();
    assert!(targets.contains(&inner));
    assert!(!targets.contains(&solo));
    assert_eq!(g.edge_count(), 3);
}
