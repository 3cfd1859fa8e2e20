use cynic_querygen::document::{
    FieldDefinition, InputValueDefinition, Schema, SchemaType, TypeKind, TypeRef,
};
use cynic_querygen::executable::{OperationDefinition, OperationType, VariableDefinition};
use cynic_querygen::inputs::InputObjects;
use cynic_querygen::maps::ScalarTypeMap;
use cynic_querygen::wrappers::TypeWrappers;

fn named(name: &str, wrappers: TypeWrappers) -> TypeRef {
    TypeRef { name: name.into(), wrappers }
}

fn input(name: &str, ty: &str, wrappers: TypeWrappers) -> InputValueDefinition {
    InputValueDefinition { name: name.into(), ty: named(ty, wrappers) }
}

fn input_object(name: &str, fields: Vec<InputValueDefinition>) -> SchemaType {
    SchemaType { name: name.into(), kind: TypeKind::InputObject { input_fields: fields, one_of: false } }
}

fn scalar(name: &str) -> SchemaType {
    SchemaType { name: name.into(), kind: TypeKind::Scalar }
}

fn schema() -> Schema {
    Schema {
        types: vec![
            scalar("String"),
            scalar("Boolean"),
            scalar("DateTime"),
            SchemaType { name: "IssueState".into(), kind: TypeKind::Enum { values: vec!["OPEN".into(), "CLOSED".into()] } },
            input_object(
                "IssueFilters",
                vec![
                    input("assignee", "String", TypeWrappers::none()),
                    input("labels", "String", TypeWrappers::none().wrap_non_null().wrap_list()),
                    input("since", "DateTime", TypeWrappers::none()),
                    input("states", "IssueState", TypeWrappers::none().wrap_non_null().wrap_list()),
                    input("viewerSubscribed", "Boolean", TypeWrappers::none()),
                ],
            ),
            input_object("SelfRecursiveInput", vec![input("recursive", "SelfRecursiveInput", TypeWrappers::none())]),
            input_object("RecursiveInputParent", vec![input("recursive", "RecursiveInputChild", TypeWrappers::none())]),
            input_object("RecursiveInputChild", vec![input("recursive", "RecursiveInputParent", TypeWrappers::none())]),
            SchemaType {
                name: "Query".into(),
                kind: TypeKind::Object {
                    fields: vec![FieldDefinition { name: "hello".into(), ty: named("String", TypeWrappers::none()), arguments: vec![] }],
                },
            },
        ],
        schema_definitions: vec![],
        extension_only: vec![],
    }
}

fn variable(name: &str, ty: &str) -> VariableDefinition {
    VariableDefinition { name: name.into(), ty: named(ty, TypeWrappers::none().wrap_non_null()) }
}

fn query(variables: Vec<VariableDefinition>) -> OperationDefinition {
    OperationDefinition {
        operation_type: OperationType::Query,
        name: Some("MyQuery".into()),
        variable_definitions: variables,
        selection_set: vec![],
    }
}

#[test]
fn deduplicates_input_types_if_same() {
    let s = schema();
    let ops = vec![query(vec![variable("filterOne", "IssueFilters"), variable("filterTwo", "IssueFilters")])];
    let input_objects = InputObjects::new(&s, &ops);
    assert_eq!(input_objects.objects.len(), 1);
}

#[test]
fn finds_variable_input_types() {
    let s = schema();
    let ops = vec![query(vec![variable("input", "IssueFilters")])];
    let input_objects = InputObjects::new(&s, &ops);
    assert_eq!(input_objects.objects.len(), 1);
}

#[test]
fn test_extracting_recursive_types() {
    let s = schema();
    let ops = vec![query(vec![variable("input", "SelfRecursiveInput"), variable("input2", "RecursiveInputParent")])];
    let input_objects = InputObjects::new(&s, &ops);
    assert_eq!(input_objects.objects.len(), 3);
}

#[test]
fn recursive_and_borrowing_input_objects() {
    let s = schema();
    let ops = vec![query(vec![
        variable("filters", "IssueFilters"),
        variable("input", "SelfRecursiveInput"),
        variable("input2", "RecursiveInputParent"),
    ])];
    let input_objects = InputObjects::new(&s, &ops);
    // the variables are taken from the last, each input object before the
    // input objects its fields reach
    assert_eq!(input_objects.objects, vec![6, 7, 5, 4]);
    // IssueFilters holds strings, the recursive inputs only each other
    assert!(input_objects.objects_with_lifetime[4]);
    assert!(!input_objects.objects_with_lifetime[5]);
    assert!(input_objects.recursive_objects[5]);
    // a cycle marks the input object it was entered by
    assert!(input_objects.recursive_objects[6]);
    assert!(!input_objects.recursive_objects[7]);
    assert!(!input_objects.recursive_objects[4]);
    assert_eq!(
        input_objects.required_input_types(),
        vec!["RecursiveInputChild", "RecursiveInputParent", "SelfRecursiveInput", "String", "String", "DateTime", "IssueState", "Boolean"]
    );
}

#[test]
fn processed_input_objects_type_their_fields() {
    let s = schema();
    let ops = vec![query(vec![variable("filters", "IssueFilters"), variable("input", "SelfRecursiveInput")])];
    let input_objects = InputObjects::new(&s, &ops);
    let mut scalars = ScalarTypeMap::new();
    scalars.insert("DateTime".into(), "chrono::DateTime<chrono::Utc>".into());
    let processed = input_objects.processed_objects(&scalars);
    assert_eq!(processed.len(), 2);
    assert_eq!(processed[0].name, "SelfRecursiveInput");
    assert_eq!(processed[0].fields[0].type_spec.name, "Option<Box<SelfRecursiveInput>>");
    assert_eq!(processed[1].name, "IssueFilters");
    assert_eq!(processed[1].schema_name, None);
    let types: Vec<&str> = processed[1].fields.iter().map(|f| f.type_spec.name.as_str()).collect();
    assert_eq!(
        types,
        vec![
            "Option<&'a str>",
            "Option<Vec<&'a str>>",
            "Option<chrono::DateTime<chrono::Utc>>",
            "Option<Vec<IssueState>>",
            "Option<bool>",
        ]
    );
}

#[test]
fn only_the_input_objects_a_variable_reaches_are_taken() {
    let s = schema();
    // a variable of the child reaches the parent through its field, and
    // nothing reaches the other input objects
    let ops = vec![query(vec![variable("child", "RecursiveInputChild")])];
    let input_objects = InputObjects::new(&s, &ops);
    let mut objects = input_objects.objects.clone();
    objects.sort();
    assert_eq!(objects, vec![6, 7]);
}
