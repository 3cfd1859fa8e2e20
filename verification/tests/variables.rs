use cynic_querygen::document::{ObjectField, TypeRef, Value};
use cynic_querygen::executable::{
    Argument, Directive, FieldSelection, FragmentSpread, VariableDefinition,
};
use cynic_querygen::maps::ScalarTypeMap;
use cynic_querygen::processing::{FragmentId, VariableStruct, VariableStructField};
use cynic_querygen::variables::{
    assemble_variable_struct, collect_value_variables, field_variables, spread_variables,
    variable_children, variable_field_type_spec, VariableStructChild, VariablesStructForDisplay,
};
use cynic_querygen::wrappers::TypeWrappers;

fn def(name: &str, ty: &str, wrappers: TypeWrappers) -> VariableDefinition {
    VariableDefinition { name: name.into(), ty: TypeRef { name: ty.into(), wrappers } }
}

fn var(position: usize, name: &str) -> VariableStructChild {
    VariableStructChild::Variable { position, definition: def(name, "String", TypeWrappers::none()) }
}

fn field_names(fields: &[VariableStructField]) -> Vec<String> {
    fields.iter().map(|f| f.name().to_string()).collect()
}

#[test]
fn nested_structs_come_first_then_variables_by_position() {
    let children = vec![
        var(2, "after"),
        VariableStructChild::UsedByFragment { fragment: FragmentId::Query(7) },
        VariableStructChild::NestedStruct { name: "FilmVariables".into() },
        var(0, "first"),
        VariableStructChild::NestedStruct { name: "PersonVariables".into() },
        var(1, "second"),
        VariableStructChild::UsedByFragment { fragment: FragmentId::Inline(3) },
    ];
    let (s, uses) = assemble_variable_struct("QueryVariables".into(), &children);
    assert_eq!(s.name, "QueryVariables");
    assert_eq!(
        field_names(&s.fields),
        vec!["FilmVariables", "PersonVariables", "first", "second", "after"]
    );
    assert_eq!(uses, vec![FragmentId::Query(7), FragmentId::Inline(3)]);
}

#[test]
fn a_variable_used_twice_is_declared_once() {
    let children = vec![var(1, "id"), var(0, "first"), var(1, "id")];
    let (s, uses) = assemble_variable_struct("Vars".into(), &children);
    assert_eq!(field_names(&s.fields), vec!["first", "id"]);
    assert!(uses.is_empty());
    match &s.fields[1] {
        VariableStructField::Variable { position, definition } => {
            assert_eq!(*position, 1);
            assert_eq!(definition.ty.name, "String");
        }
        _ => panic!("expected a variable"),
    }
}

#[test]
fn variables_of_the_same_position_keep_their_order() {
    let children = vec![var(4, "b"), var(4, "a")];
    let (s, _) = assemble_variable_struct("Vars".into(), &children);
    assert_eq!(field_names(&s.fields), vec!["b", "a"]);
}

#[test]
fn values_name_their_variables_in_order() {
    let value = Value::List(vec![
        Value::Variable("a".into()),
        Value::Int(1),
        Value::Object(vec![
            ObjectField { name: "x".into(), value: Value::Variable("b".into()) },
            ObjectField { name: "y".into(), value: Value::List(vec![Value::Variable("c".into()), Value::Null]) },
        ]),
        Value::Variable("a".into()),
    ]);
    let mut out = vec!["before".to_string()];
    collect_value_variables(&value, &mut out);
    assert_eq!(out, vec!["before", "a", "b", "c", "a"]);
}

#[test]
fn fields_and_spreads_use_the_variables_of_their_arguments() {
    let field = FieldSelection {
        alias: None,
        name: "films".into(),
        arguments: vec![
            Argument { name: "first".into(), value: Value::Variable("count".into()) },
            Argument { name: "after".into(), value: Value::String("x".into()) },
        ],
        directives: vec![Directive {
            name: "include".into(),
            arguments: vec![Argument { name: "if".into(), value: Value::Variable("withFilms".into()) }],
        }],
        selection_set: vec![],
    };
    assert_eq!(field_variables(&field), vec!["count", "withFilms"]);
    let spread = FragmentSpread {
        fragment_name: "Parts".into(),
        directives: vec![Directive {
            name: "skip".into(),
            arguments: vec![Argument { name: "if".into(), value: Value::Variable("hide".into()) }],
        }],
    };
    assert_eq!(spread_variables(&spread), vec!["hide"]);
}

#[test]
fn variable_names_stand_for_their_last_definition() {
    let definitions = vec![
        def("id", "ID", TypeWrappers::none()),
        def("count", "Int", TypeWrappers::none()),
        def("id", "String", TypeWrappers::none()),
    ];
    let children = variable_children(&vec!["count".to_string(), "id".to_string()], &definitions);
    assert_eq!(children.len(), 2);
    match (&children[0], &children[1]) {
        (
            VariableStructChild::Variable { position: p0, definition: d0 },
            VariableStructChild::Variable { position: p1, definition: d1 },
        ) => {
            assert_eq!((*p0, d0.ty.name.as_str()), (1, "Int"));
            assert_eq!((*p1, d1.ty.name.as_str()), (2, "String"));
        }
        _ => panic!("expected variables"),
    }
}

#[test]
fn variable_struct_field_types() {
    let mut scalars = ScalarTypeMap::new();
    scalars.insert("DateTime".into(), "chrono::DateTime".into());
    let needs = vec![("FilmFilter".to_string(), true), ("Plain".to_string(), false)];

    let filter = VariableStructField::Variable {
        position: 0,
        definition: def("filter", "FilmFilter", TypeWrappers::none().wrap_non_null()),
    };
    let t = variable_field_type_spec(&filter, &needs, &scalars);
    assert_eq!(t.name, "FilmFilter<'a>");
    assert!(t.contains_lifetime_a);

    let when = VariableStructField::Variable { position: 1, definition: def("when", "DateTime", TypeWrappers::none()) };
    let t = variable_field_type_spec(&when, &needs, &scalars);
    assert_eq!(t.name, "Option<chrono::DateTime>");
    assert!(!t.contains_lifetime_a);

    let nested = VariableStructField::NestedStruct { name: "FilmFilter".into() };
    let t = variable_field_type_spec(&nested, &needs, &scalars);
    assert_eq!(t.name, "FilmFilter");
    assert!(t.contains_lifetime_a);

    let unknown = VariableStructField::NestedStruct { name: "Other".into() };
    assert!(!variable_field_type_spec(&unknown, &needs, &scalars).contains_lifetime_a);
}

#[test]
fn variables_struct_declarations() {
    let s = VariableStruct {
        name: "MyQueryVariables".into(),
        fields: vec![
            VariableStructField::NestedStruct { name: "FilmVariables".into() },
            VariableStructField::Variable { position: 0, definition: def("filmId", "ID", TypeWrappers::none().wrap_non_null()) },
            VariableStructField::Variable { position: 1, definition: def("first_count", "Int", TypeWrappers::none()) },
        ],
    };
    let needs = vec![("FilmVariables".to_string(), false)];
    let scalars = ScalarTypeMap::new();
    let d = VariablesStructForDisplay { variable_struct: &s, input_objects_need_lifetime: &needs, scalar_types: &scalars };
    let specs: Vec<String> = d.field_type_specs().into_iter().map(|t| t.name).collect();
    assert_eq!(specs, vec!["FilmVariables", "&'a cynic::Id", "Option<i32>"]);
    assert_eq!(
        d.declaration_head(),
        "#[derive(cynic::QueryVariables, Debug)]\npub struct MyQueryVariables<'a> {\n"
    );
    assert_eq!(
        d.field_names(),
        vec![
            ("film_variables".to_string(), Some("FilmVariables".to_string())),
            ("film_id".to_string(), None),
            ("first_count".to_string(), Some("first_count".to_string())),
        ]
    );

    let plain = VariableStruct { name: "Vars".into(), fields: vec![] };
    let d = VariablesStructForDisplay { variable_struct: &plain, input_objects_need_lifetime: &needs, scalar_types: &scalars };
    assert_eq!(d.declaration_head(), "#[derive(cynic::QueryVariables, Debug)]\npub struct Vars {\n");
}
