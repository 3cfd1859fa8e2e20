use cynic_querygen::document::{FieldDefinition, Schema, SchemaType, TypeKind, TypeRef};
use cynic_querygen::executable::{FragmentDefinition, OperationDefinition, OperationType};
use cynic_querygen::fragment_structs::{make_inline_fragments, make_query_fragment};
use cynic_querygen::graph::fragments::GraphFragment;
use cynic_querygen::graph::query_graph::{Edge, Node, QueryGraph};
use cynic_querygen::ingest::FieldDefinitionRef;
use cynic_querygen::maps::{OverrideMap, ScalarTypeMap};
use cynic_querygen::naming::Namer;
use cynic_querygen::processing::VariableStructs;
use cynic_querygen::wrappers::TypeWrappers;

fn field_def(name: &str, ty: &str, wrappers: TypeWrappers) -> FieldDefinition {
    FieldDefinition { name: name.into(), ty: TypeRef { name: ty.into(), wrappers }, arguments: vec![] }
}

fn schema() -> Schema {
    Schema {
        types: vec![
            SchemaType { name: "String".into(), kind: TypeKind::Scalar },
            SchemaType {
                name: "Film".into(),
                kind: TypeKind::Object {
                    fields: vec![
                        field_def("id", "String", TypeWrappers::none().wrap_non_null()),
                        field_def("title", "String", TypeWrappers::none()),
                        field_def("sequel", "Film", TypeWrappers::none()),
                    ],
                },
            },
        ],
        schema_definitions: vec![],
        extension_only: vec![],
    }
}

fn field_edge(name: &str, alias: Option<&str>, definition: usize, index: usize) -> Edge {
    Edge::HasField {
        name: name.into(),
        alias: alias.map(|a| a.to_string()),
        definition: FieldDefinitionRef::Field(definition),
        index,
    }
}

#[test]
fn a_query_fragment_has_a_field_per_selection_in_selection_order() {
    let schema = schema();
    let operations = vec![OperationDefinition {
        operation_type: OperationType::Query,
        name: Some("allFilms".into()),
        variable_definitions: vec![],
        selection_set: vec![],
    }];
    let fragments: Vec<FragmentDefinition> = vec![];

    let mut g = QueryGraph::default();
    let op = g.add_node(Node::Operation(0));
    let string_ty = g.add_node(Node::Type(0));
    let film_ty = g.add_node(Node::Type(1));
    let top = g.add_node(Node::QueryFragment);
    let sequel = g.add_node(Node::QueryFragment);
    let id_leaf = g.add_node(Node::LeafField);
    let title_leaf = g.add_node(Node::LeafField);
    g.add_edge(op, top, Edge::HasSelectionSet);
    g.add_edge(top, film_ty, Edge::IsOfType);
    g.add_edge(sequel, film_ty, Edge::IsOfType);
    g.add_edge(id_leaf, string_ty, Edge::IsOfType);
    g.add_edge(title_leaf, string_ty, Edge::IsOfType);
    // added out of order: the fields come out by selection index
    g.add_edge(top, sequel, field_edge("sequel", None, 2, 2));
    g.add_edge(top, id_leaf, field_edge("id", Some("filmId"), 0, 0));
    g.add_edge(top, title_leaf, field_edge("title", None, 1, 1));
    g.add_edge(sequel, title_leaf, field_edge("title", None, 1, 0));
    g.add_edge(top, sequel, Edge::HasInlineSpread { index: 3 });

    let fragment = GraphFragment::new(&g, top, &schema, &operations, &fragments).unwrap();
    let mut namer = Namer::new();
    let mut scalar_types = ScalarTypeMap::new();
    scalar_types.insert("String".into(), "MyString".into());
    let out = make_query_fragment(&fragment, &mut namer, &VariableStructs::new(), &OverrideMap::new(), &scalar_types);

    assert_eq!(out.name, "AllFilms");
    assert_eq!(out.target_type, "Film");
    assert_eq!(out.variable_struct_name, None);
    assert_eq!(out.schema_name, None);
    let names: Vec<&str> = out.fields.iter().map(|f| f.name.as_str()).collect();
    assert_eq!(names, vec!["filmId", "title", "sequel", "film"]);
    assert_eq!(out.fields[0].rename.as_deref(), Some("id"));
    assert_eq!(out.fields[0].field_type.to_string(), "MyString");
    assert_eq!(out.fields[1].rename, None);
    assert_eq!(out.fields[1].field_type.to_string(), "Option<MyString>");
    // the nested fragment asks for its type's name
    assert_eq!(out.fields[2].field_type.to_string(), "Option<Film>");
    // a spread of the same fragment reuses the name it was given
    assert_eq!(out.fields[3].field_type.to_string(), "Film");
    assert_eq!(out.fields[3].rename, None);
}

#[test]
fn an_inline_fragments_enum_names_its_variants_in_order() {
    let schema = Schema {
        types: vec![
            SchemaType { name: "Node".into(), kind: TypeKind::Interface { interface_fields: vec![] } },
            SchemaType { name: "Film".into(), kind: TypeKind::Object { fields: vec![] } },
            SchemaType { name: "Planet".into(), kind: TypeKind::Object { fields: vec![] } },
        ],
        schema_definitions: vec![],
        extension_only: vec![],
    };
    let operations = vec![OperationDefinition {
        operation_type: OperationType::Query,
        name: Some("q".into()),
        variable_definitions: vec![],
        selection_set: vec![],
    }];
    let fragments: Vec<FragmentDefinition> = vec![];

    let mut g = QueryGraph::default();
    let op = g.add_node(Node::Operation(0));
    let node_ty = g.add_node(Node::Type(0));
    let film_ty = g.add_node(Node::Type(1));
    let planet_ty = g.add_node(Node::Type(2));
    let inline = g.add_node(Node::InlineFragment);
    let film = g.add_node(Node::QueryFragment);
    let planet = g.add_node(Node::QueryFragment);
    g.add_edge(op, inline, Edge::HasSelectionSet);
    g.add_edge(inline, node_ty, Edge::IsOfType);
    g.add_edge(film, film_ty, Edge::IsOfType);
    g.add_edge(planet, planet_ty, Edge::IsOfType);
    g.add_edge(inline, film, Edge::HasInlineSpread { index: 0 });
    g.add_edge(inline, planet, Edge::HasInlineSpread { index: 1 });

    let fragment = GraphFragment::new(&g, inline, &schema, &operations, &fragments).unwrap();
    let mut namer = Namer::new();
    let out = make_inline_fragments(&fragment, &mut namer, &VariableStructs::new());
    assert_eq!(out.inner_type_names, vec!["Film".to_string(), "Planet".to_string()]);
    assert_eq!(out.name, "Q");
    assert_eq!(out.target_type, "Node");
    assert_eq!(out.variable_struct_name, None);
    assert_eq!(out.schema_name, None);
}

#[test]
fn a_field_override_is_keyed_by_the_graphql_type_of_the_fragment() {
    let schema = schema();
    let operations = vec![OperationDefinition {
        operation_type: OperationType::Query,
        name: Some("allFilms".into()),
        variable_definitions: vec![],
        selection_set: vec![],
    }];
    let fragments: Vec<FragmentDefinition> = vec![];

    let mut g = QueryGraph::default();
    let op = g.add_node(Node::Operation(0));
    let string_ty = g.add_node(Node::Type(0));
    let film_ty = g.add_node(Node::Type(1));
    let top = g.add_node(Node::QueryFragment);
    let title_leaf = g.add_node(Node::LeafField);
    g.add_edge(op, top, Edge::HasSelectionSet);
    g.add_edge(top, film_ty, Edge::IsOfType);
    g.add_edge(title_leaf, string_ty, Edge::IsOfType);
    g.add_edge(top, title_leaf, field_edge("title", None, 1, 0));

    let fragment = GraphFragment::new(&g, top, &schema, &operations, &fragments).unwrap();
    let mut overrides = OverrideMap::new();
    // keyed by the type `Film`, not by the fragment's name `AllFilms`
    overrides.insert("Film".into(), "title".into(), "my::Title".into());
    overrides.insert("AllFilms".into(), "title".into(), "wrong::Title".into());
    let mut namer = Namer::new();
    let out = make_query_fragment(&fragment, &mut namer, &VariableStructs::new(), &overrides, &ScalarTypeMap::new());
    assert_eq!(out.name, "AllFilms");
    assert_eq!(out.fields[0].field_type.to_string(), "Option<my::Title>");
}
