use cynic_querygen::document::{SchemaType, TypeKind, TypeRef};
use cynic_querygen::executable::FieldSelection;
use cynic_querygen::maps::{OverrideMap, ScalarTypeMap};
use cynic_querygen::output::{
    add_schema_name, Enum, InlineFragments, Output, OutputField, QueryFragment, Scalar,
};
use cynic_querygen::processing::VariableStructs;
use cynic_querygen::wrappers::{TypeWrappers, WrappingType};

fn selection(alias: Option<&str>, name: &str) -> FieldSelection {
    FieldSelection {
        alias: alias.map(|a| a.to_string()),
        name: name.into(),
        arguments: vec![],
        directives: vec![],
        selection_set: vec![],
    }
}

fn ty(name: &str, wrappers: TypeWrappers) -> TypeRef {
    TypeRef { name: name.into(), wrappers }
}

#[test]
fn scalar_fields_take_overrides_then_scalar_types_then_pascal_case() {
    let mut overrides = OverrideMap::new();
    overrides.insert("Film".into(), "releaseDate".into(), "chrono::NaiveDate".into());
    let mut scalars = ScalarTypeMap::new();
    scalars.insert("Date".into(), "crate::Date".into());

    let f = OutputField::for_scalar_field(
        "Film",
        &selection(None, "releaseDate"),
        &ty("Date", TypeWrappers::none()),
        &overrides,
        &scalars,
    );
    assert_eq!(f.field_type.name, "chrono::NaiveDate");
    assert_eq!(f.field_type.to_string(), "Option<chrono::NaiveDate>");

    let f = OutputField::for_scalar_field(
        "Film",
        &selection(None, "created"),
        &ty("Date", TypeWrappers::none().wrap_non_null()),
        &overrides,
        &scalars,
    );
    assert_eq!(f.field_type.name, "crate::Date");
    assert_eq!(f.field_type.to_string(), "crate::Date");

    let f = OutputField::for_scalar_field(
        "Film",
        &selection(None, "id"),
        &ty("ID", TypeWrappers::none().wrap_non_null()),
        &overrides,
        &scalars,
    );
    assert_eq!(f.field_type.name, "Id");
    assert_eq!(f.field_type.to_string(), "cynic::Id");
}

#[test]
fn overrides_are_looked_up_by_fragment_name() {
    let mut overrides = OverrideMap::new();
    overrides.insert("Film".into(), "title".into(), "MyTitle".into());
    let scalars = ScalarTypeMap::new();
    let f = OutputField::for_scalar_field(
        "Film2",
        &selection(None, "title"),
        &ty("String", TypeWrappers::none()),
        &overrides,
        &scalars,
    );
    assert_eq!(f.field_type.name, "String");
}

#[test]
fn aliased_or_snake_case_fields_are_renamed() {
    let overrides = OverrideMap::new();
    let scalars = ScalarTypeMap::new();
    let string = ty("String", TypeWrappers::none());

    let f = OutputField::for_scalar_field("Film", &selection(None, "title"), &string, &overrides, &scalars);
    assert_eq!(f.name, "title");
    assert_eq!(f.rename, None);

    let f = OutputField::for_scalar_field("Film", &selection(None, "releaseDate"), &string, &overrides, &scalars);
    assert_eq!(f.name, "releaseDate");
    assert_eq!(f.rename, None);

    let f = OutputField::for_scalar_field("Film", &selection(Some("name"), "title"), &string, &overrides, &scalars);
    assert_eq!(f.name, "name");
    assert_eq!(f.rename.as_deref(), Some("title"));

    let f = OutputField::for_scalar_field("Film", &selection(None, "release_date"), &string, &overrides, &scalars);
    assert_eq!(f.rename.as_deref(), Some("release_date"));
}

#[test]
fn composite_fields_are_typed_by_their_fragment() {
    let f = OutputField::for_composite_field(
        &selection(None, "films"),
        &ty("Film", TypeWrappers::none().wrap_list()),
        "FilmsConnection".into(),
    );
    assert_eq!(f.name, "films");
    assert_eq!(f.field_type.to_string(), "Option<Vec<Option<FilmsConnection>>>");
}

#[test]
fn spreads_are_never_optional() {
    let f = OutputField::for_spread("FilmFields".into());
    assert_eq!(f.name, "film_fields");
    assert_eq!(f.rename, None);
    assert_eq!(f.field_type.wrappers.iter(), vec![WrappingType::NonNull]);
    assert_eq!(f.field_type.to_string(), "FilmFields");
}

#[test]
fn scalar_declarations() {
    let date = SchemaType { name: "Date".into(), kind: TypeKind::Scalar };
    let s = Scalar { definition: &date, schema_name: None };
    assert_eq!(s.to_string(), "#[derive(cynic::Scalar, Debug, Clone)]\npub struct Date(pub String);\n");

    let url = SchemaType { name: "url_string".into(), kind: TypeKind::Scalar };
    let s = Scalar { definition: &url, schema_name: Some("github".into()) };
    assert_eq!(
        s.to_string(),
        "#[derive(cynic::Scalar, Debug, Clone)]\n#[cynic(graphql_type = \"url_string\")]\npub struct UrlString(pub String);\n"
    );
}

fn sample_output(color: &SchemaType) -> Output<'_> {
    Output {
        query_fragments: vec![QueryFragment {
            fields: vec![],
            target_type: "Query".into(),
            variable_struct_name: None,
            schema_name: None,
            name: "MyQuery".into(),
        }],
        inline_fragments: vec![InlineFragments {
            inner_type_names: vec!["Film".into()],
            target_type: "Node".into(),
            variable_struct_name: Some("Vars".into()),
            name: "Node".into(),
            schema_name: None,
        }],
        input_objects: vec![],
        enums: vec![Enum { definition: color, schema_name: None }],
        scalars: vec![Scalar { definition: color, schema_name: None }],
        variable_structs: VariableStructs::new(),
    }
}

#[test]
fn schema_names_reach_every_generated_item() {
    let color = SchemaType { name: "Color".into(), kind: TypeKind::Enum { values: vec![] } };
    let mut output = sample_output(&color);
    add_schema_name(&mut output, Some("starwars"));
    assert_eq!(output.query_fragments[0].schema_name.as_deref(), Some("starwars"));
    assert_eq!(output.query_fragments[0].name, "MyQuery");
    assert_eq!(output.inline_fragments[0].schema_name.as_deref(), Some("starwars"));
    assert_eq!(output.inline_fragments[0].variable_struct_name.as_deref(), Some("Vars"));
    assert_eq!(output.enums[0].schema_name.as_deref(), Some("starwars"));
    assert_eq!(output.scalars[0].schema_name.as_deref(), Some("starwars"));

    let mut untouched = sample_output(&color);
    add_schema_name(&mut untouched, None);
    assert_eq!(untouched.query_fragments[0].schema_name, None);
    assert_eq!(untouched.enums[0].schema_name, None);
}
