use cynic_querygen::coordinate::{parse_schema_coordinate, SchemaCoordinate};
use cynic_querygen::document::Schema;
use cynic_querygen::{Error, Generator, InvalidSchemaCoordinate, QueryGenOptions, SchemaParseError};

fn empty_schema() -> Schema {
    Schema { types: vec![], schema_definitions: vec![], extension_only: vec![] }
}

#[test]
fn a_new_generator_has_no_options() {
    let g = Generator::new(empty_schema());
    assert_eq!(g.schema_name(), None);
    assert_eq!(g.override_for("Film", "title"), None);
    assert_eq!(g.scalar_type("Date"), None);
    assert!(g.schema().types.is_empty());
}

#[test]
fn schema_names_are_kept() {
    let g = Generator::new(empty_schema()).with_schema_name("starwars".into());
    assert_eq!(g.schema_name(), Some("starwars"));
    let mut g = g;
    g.set_schema_name("github".into());
    assert_eq!(g.schema_name(), Some("github"));
}

#[test]
fn field_overrides_take_member_coordinates() {
    let g = Generator::new(empty_schema())
        .with_override("Film.title", "MyTitle".into())
        .ok()
        .unwrap();
    assert_eq!(g.override_for("Film", "title"), Some("MyTitle"));
    assert_eq!(g.override_for("Film", "other"), None);
    let mut g = g;
    assert!(g.set_override("Film.title", "Other".into()).is_ok());
    assert_eq!(g.override_for("Film", "title"), Some("Other"));
}

#[test]
fn other_coordinates_are_refused() {
    let mut g = Generator::new(empty_schema());
    match g.set_override("Film", "X".into()) {
        Err(InvalidSchemaCoordinate::UnsupportedCoordinate(c)) => {
            assert_eq!(c.to_string(), "Film");
        }
        _ => panic!("expected an unsupported coordinate"),
    }
    match g.set_override("@deprecated", "X".into()) {
        Err(e @ InvalidSchemaCoordinate::UnsupportedCoordinate(_)) => {
            assert_eq!(e.message(), "Unsupported schema coordinate: @deprecated");
        }
        _ => panic!("expected an unsupported coordinate"),
    }
    match g.set_override("Film.", "X".into()) {
        Err(InvalidSchemaCoordinate::ParseError(e)) => assert_eq!(e.text, "Film."),
        _ => panic!("expected a parse error"),
    }
    assert_eq!(g.override_for("Film", "X"), None);
}

#[test]
fn many_overrides_stop_at_the_first_bad_one() {
    let mut g = Generator::new(empty_schema());
    let r = g.set_overrides(vec![
        ("Film.title".into(), "A".into()),
        ("Film".into(), "B".into()),
        ("Film.id".into(), "C".into()),
    ]);
    assert!(r.is_err());
    assert_eq!(g.override_for("Film", "title"), Some("A"));
    assert_eq!(g.override_for("Film", "id"), None);

    let g = Generator::new(empty_schema())
        .with_overrides(vec![("A.b".into(), "X".into()), ("A.c".into(), "Y".into())])
        .ok()
        .unwrap();
    assert_eq!(g.override_for("A", "b"), Some("X"));
    assert_eq!(g.override_for("A", "c"), Some("Y"));
}

#[test]
fn scalar_types_are_set_and_replaced() {
    let g = Generator::new(empty_schema())
        .with_scalar_type("UUID".into(), "my_crate::Uuid".into())
        .with_scalar_types(vec![("Date".into(), "a::Date".into()), ("UUID".into(), "b::Uuid".into())]);
    assert_eq!(g.scalar_type("UUID"), Some("b::Uuid"));
    assert_eq!(g.scalar_type("Date"), Some("a::Date"));
    let mut g = g;
    g.set_scalar_type("Date".into(), "c::Date".into());
    g.set_scalar_types(vec![("Time".into(), "t::Time".into())]);
    assert_eq!(g.scalar_type("Date"), Some("c::Date"));
    assert_eq!(g.scalar_type("Time"), Some("t::Time"));
}

#[test]
fn coordinates_read_back_as_written() {
    for text in ["Film", "Film.title", "Film.title(first:)", "@deprecated", "@deprecated(reason:)", "_a.b_2"] {
        let c = parse_schema_coordinate(text).ok().unwrap();
        assert_eq!(c.to_string(), text);
    }
    assert!(parse_schema_coordinate("Film.title").ok().unwrap().is_member());
    assert!(!parse_schema_coordinate("Film").ok().unwrap().is_member());
    for bad in ["", "1Film", "Film.", "Film.a.b", "@", "Film.title(first)", "Film.title(:)", "Fi lm"] {
        assert!(parse_schema_coordinate(bad).is_err(), "{bad}");
    }
    let m = SchemaCoordinate::member("Film".into(), "title".into());
    assert!(m.is_member());
    assert_eq!(m.to_string(), "Film.title");
}

#[test]
fn error_messages() {
    assert_eq!(
        Error::UnknownField("title".into(), "Film".into()).message(),
        "could not find field `title` on `Film`"
    );
    assert_eq!(
        Error::TypeConditionFailed("Film".into(), "Person".into()).message(),
        "Tried to apply a fragment for a Film type on a Person type"
    );
    assert_eq!(Error::ExpectedListType.message(), "expected field to be a list");
    assert_eq!(
        Error::NoFieldSelected("Query".into()).message(),
        "At least one field should be selected for `Query`."
    );
    assert_eq!(
        Error::MissingTypeCondition.message(),
        "An inline fragment on a union or interface type must have a type condition"
    );
    assert_eq!(SchemaParseError("bad schema".into()).message(), "bad schema");
}

#[test]
fn default_options() {
    let o = QueryGenOptions::default();
    assert_eq!(o.schema_module_name, "schema");
    assert_eq!(o.schema_name, None);
}
