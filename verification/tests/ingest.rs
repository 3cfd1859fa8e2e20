use cynic_querygen::document::{
    FieldDefinition, RootOperationTypeDefinition, Schema, SchemaType, TypeKind, TypeRef,
};
use cynic_querygen::executable::{
    FieldSelection, FragmentDefinition, FragmentSpread, InlineFragment, OperationType, Selection,
};
use cynic_querygen::ingest::{
    find_field, find_roots, inline_fragment_type, needs_inline_fragments, needs_query_fragment,
    selection_set_shape, split_selections, FieldDefinitionRef, SelectionSetShape,
};
use cynic_querygen::wrappers::TypeWrappers;

fn named(name: &str) -> TypeRef {
    TypeRef { name: name.into(), wrappers: TypeWrappers::none() }
}

fn field_def(name: &str, ty: &str) -> FieldDefinition {
    FieldDefinition { name: name.into(), ty: named(ty), arguments: vec![] }
}

fn schema(definitions: Vec<Vec<RootOperationTypeDefinition>>) -> Schema {
    Schema {
        types: vec![
            SchemaType { name: "String".into(), kind: TypeKind::Scalar },
            SchemaType {
                name: "Query".into(),
                kind: TypeKind::Object {
                    fields: vec![field_def("node", "Node"), field_def("name", "String"), field_def("name", "Node")],
                },
            },
            SchemaType {
                name: "Node".into(),
                kind: TypeKind::Interface { interface_fields: vec![field_def("id", "String")] },
            },
            SchemaType {
                name: "Film".into(),
                kind: TypeKind::Object { fields: vec![field_def("id", "String"), field_def("title", "String")] },
            },
            SchemaType { name: "Mutation".into(), kind: TypeKind::Object { fields: vec![] } },
            SchemaType { name: "Root".into(), kind: TypeKind::Object { fields: vec![] } },
        ],
        schema_definitions: definitions,
        extension_only: vec![],
    }
}

fn field(name: &str) -> Selection {
    Selection::Field(FieldSelection {
        alias: None,
        name: name.into(),
        arguments: vec![],
        directives: vec![],
        selection_set: vec![],
    })
}

fn inline(on: Option<&str>) -> Selection {
    Selection::InlineFragment(InlineFragment {
        type_condition: on.map(|t| t.to_string()),
        directives: vec![],
        selection_set: vec![field("id")],
    })
}

fn spread(name: &str) -> Selection {
    Selection::FragmentSpread(FragmentSpread { fragment_name: name.into(), directives: vec![] })
}

fn fragments() -> Vec<FragmentDefinition> {
    vec![
        FragmentDefinition { name: "FilmParts".into(), type_condition: "Film".into(), selection_set: vec![] },
        FragmentDefinition { name: "NodeParts".into(), type_condition: "Node".into(), selection_set: vec![] },
    ]
}

#[test]
fn roots_default_to_conventional_names() {
    let s = schema(vec![]);
    let roots = find_roots(&s);
    assert_eq!(roots.query, Some(1));
    assert_eq!(roots.mutation, Some(4));
    assert_eq!(roots.subscription, None);
}

#[test]
fn a_root_that_is_only_extended_is_not_a_default_root() {
    let mut s = schema(vec![]);
    s.extension_only = vec!["Mutation".into()];
    let roots = find_roots(&s);
    assert_eq!(roots.query, Some(1));
    assert_eq!(roots.mutation, None);
    assert_eq!(roots.subscription, None);
}

#[test]
fn schema_definitions_name_the_roots() {
    let s = schema(vec![
        vec![RootOperationTypeDefinition { operation_type: OperationType::Query, named_type: "Film".into() }],
        vec![RootOperationTypeDefinition { operation_type: OperationType::Query, named_type: "Root".into() }],
    ]);
    let roots = find_roots(&s);
    // the last entry wins, and a schema definition turns the defaults off
    assert_eq!(roots.query, Some(5));
    assert_eq!(roots.mutation, None);
    assert_eq!(roots.subscription, None);
}

#[test]
fn fields_are_found_on_objects_and_interfaces() {
    let s = schema(vec![]);
    let d = find_field(&s, 1, "node").unwrap();
    assert_eq!(d.type_node, 2);
    assert_eq!(d.definition, FieldDefinitionRef::Field(0));
    // the first field of a name is the one found
    let d = find_field(&s, 1, "name").unwrap();
    assert_eq!(d.type_node, 0);
    assert_eq!(d.definition, FieldDefinitionRef::Field(1));
    let d = find_field(&s, 2, "id").unwrap();
    assert_eq!(d.type_node, 0);
    assert!(find_field(&s, 3, "missing").is_none());
    // scalars have no fields
    assert!(find_field(&s, 0, "id").is_none());
}

#[test]
fn typename_reads_a_string_on_every_type() {
    let s = schema(vec![]);
    for t in [0, 1, 2, 3] {
        let d = find_field(&s, t, "__typename").unwrap();
        assert_eq!(d.type_node, 0);
        assert_eq!(d.definition, FieldDefinitionRef::Typename);
    }
}

#[test]
fn typename_alone_needs_no_query_fragment() {
    assert!(!needs_query_fragment(&vec![field("__typename")]));
    assert!(needs_query_fragment(&vec![field("__typename"), field("id")]));
    assert!(!needs_query_fragment(&vec![inline(Some("Film")), spread("FilmParts")]));
}

#[test]
fn selections_on_other_types_need_inline_fragments() {
    let f = fragments();
    assert!(!needs_inline_fragments(&vec![field("id"), inline(None), inline(Some("Node"))], "Node", &f));
    assert!(!needs_inline_fragments(&vec![spread("NodeParts")], "Node", &f));
    assert!(needs_inline_fragments(&vec![inline(Some("Film"))], "Node", &f));
    assert!(needs_inline_fragments(&vec![spread("FilmParts")], "Node", &f));
}

#[test]
fn selections_split_by_type() {
    let f = fragments();
    let set = vec![field("id"), inline(Some("Film")), spread("NodeParts"), spread("FilmParts"), inline(None)];
    let (on_current, on_other) = split_selections(&set, "Node", &f);
    assert_eq!(on_current, vec![0, 2, 4]);
    assert_eq!(on_other, vec![1, 3]);
}

#[test]
fn selection_set_shapes() {
    let f = fragments();
    let mixed = vec![field("id"), inline(Some("Film"))];
    match selection_set_shape(&mixed, "Node", &f) {
        SelectionSetShape::Split { query, inline } => {
            assert_eq!(query, vec![0]);
            assert_eq!(inline, vec![1]);
        }
        _ => panic!("expected a split"),
    }
    let only_other = vec![field("__typename"), inline(Some("Film"))];
    assert!(matches!(selection_set_shape(&only_other, "Node", &f), SelectionSetShape::InlineFragment));
    let only_current = vec![field("id"), spread("NodeParts")];
    assert!(matches!(selection_set_shape(&only_current, "Node", &f), SelectionSetShape::QueryFragment));
    assert!(matches!(selection_set_shape(&vec![], "Node", &f), SelectionSetShape::QueryFragment));
}

#[test]
fn inline_fragments_apply_to_their_type_condition() {
    let s = schema(vec![]);
    let on_film = InlineFragment { type_condition: Some("Film".into()), directives: vec![], selection_set: vec![] };
    let bare = InlineFragment { type_condition: None, directives: vec![], selection_set: vec![] };
    assert_eq!(inline_fragment_type(&s, 2, &on_film), 3);
    assert_eq!(inline_fragment_type(&s, 2, &bare), 2);
}
