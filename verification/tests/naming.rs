use cynic_querygen::document::{Schema, SchemaType, TypeKind};
use cynic_querygen::executable::{FragmentDefinition, OperationDefinition, OperationType};
use cynic_querygen::graph::fragments::GraphFragment;
use cynic_querygen::graph::query_graph::{Edge, Node, QueryGraph};
use cynic_querygen::naming::{Nameable, Namer};

struct NamedThing {
    id: i32,
    my_name: String,
}

impl Nameable for NamedThing {
    type Id = i32;

    fn requested_name(&self) -> String {
        self.my_name.to_owned()
    }

    fn id(&self) -> Self::Id {
        self.id
    }
}

#[test]
fn test_naming() {
    let thing_one = NamedThing {
        id: 0,
        my_name: "Thing".into(),
    };
    let thing_two = NamedThing {
        id: 1,
        my_name: "Thing".into(),
    };
    let other_thing = NamedThing {
        id: 2,
        my_name: "OtherThing".into(),
    };

    let mut namer = Namer::new();

    // First give things names
    assert_eq!(namer.name_subject(&thing_one), "Thing");
    assert_eq!(namer.name_subject(&thing_two), "Thing2");
    assert_eq!(namer.name_subject(&other_thing), "OtherThing");

    // Now make sure the names are still the same when called again
    assert_eq!(namer.name_subject(&other_thing), "OtherThing");
    assert_eq!(namer.name_subject(&thing_two), "Thing2");
    assert_eq!(namer.name_subject(&thing_one), "Thing");
}

#[test]
fn names_are_numbered_past_nine() {
    let mut namer = Namer::new();
    for i in 0..12 {
        let thing = NamedThing { id: i, my_name: "Item".into() };
        let name = namer.name_subject(&thing);
        if i == 0 {
            assert_eq!(name, "Item");
        } else {
            assert_eq!(name, format!("Item{}", i + 1));
        }
    }
}

#[test]
fn graph_fragments_ask_for_their_source_name_or_type_name() {

    let schema = Schema {
        types: vec![SchemaType { name: "film_type".into(), kind: TypeKind::Object { fields: vec![] } }],
        schema_definitions: vec![],
        extension_only: vec![],
    };
    let operations = vec![OperationDefinition {
        operation_type: OperationType::Query,
        name: Some("allFilms".into()),
        variable_definitions: vec![],
        selection_set: vec![],
    }];
    let fragments: Vec<FragmentDefinition> = vec![];

    let mut g = QueryGraph::default();
    let op = g.add_node(Node::Operation(0));
    let ty = g.add_node(Node::Type(0));
    let top = g.add_node(Node::QueryFragment);
    let inner = g.add_node(Node::QueryFragment);
    g.add_edge(op, top, Edge::HasSelectionSet);
    g.add_edge(top, ty, Edge::IsOfType);
    g.add_edge(inner, ty, Edge::IsOfType);

    let top_fragment = GraphFragment::new(&g, top, &schema, &operations, &fragments).unwrap();
    let inner_fragment = GraphFragment::new(&g, inner, &schema, &operations, &fragments).unwrap();
    assert_eq!(top_fragment.requested_name(), "AllFilms");
    assert_eq!(inner_fragment.requested_name(), "FilmType");
    assert_eq!(top_fragment.id(), top.index());

    // the operation node has no type, so it is no fragment
    assert!(GraphFragment::new(&g, op, &schema, &operations, &fragments).is_none());

    let mut namer = Namer::new();
    assert_eq!(namer.name_subject(&top_fragment), "AllFilms");
    assert_eq!(namer.name_subject(&inner_fragment), "FilmType");
    assert_eq!(namer.name_subject(&top_fragment), "AllFilms");
}
