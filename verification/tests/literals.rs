use cynic_querygen::document::{
    InputValueDefinition, ObjectField, Schema, SchemaType, TypeKind, TypeRef, Value,
};
use cynic_querygen::graph::typed_value::{string_needs_raw_literal, TypedValue};
use cynic_querygen::graph::types::Type;
use cynic_querygen::wrappers::{TypeWrappers, WrappingType};

fn named(name: &str, wrappers: TypeWrappers) -> TypeRef {
    TypeRef { name: name.into(), wrappers }
}

fn input(name: &str, ty: TypeRef) -> InputValueDefinition {
    InputValueDefinition { name: name.into(), ty }
}

fn schema() -> Schema {
    Schema {
        types: vec![
            SchemaType { name: "String".into(), kind: TypeKind::Scalar },
            SchemaType { name: "Int".into(), kind: TypeKind::Scalar },
            SchemaType {
                name: "Filter".into(),
                kind: TypeKind::InputObject {
                    input_fields: vec![
                        input("name", named("String", TypeWrappers::none())),
                        input("tags", named("String", TypeWrappers::none().wrap_non_null().wrap_list())),
                        input("nested", named("Filter", TypeWrappers::none())),
                        input("limit", named("Int", TypeWrappers::none().wrap_non_null())),
                    ],
                    one_of: false,
                },
            },
            SchemaType { name: "Color".into(), kind: TypeKind::Enum { values: vec!["RED".into()] } },
        ],
        schema_definitions: vec![],
        extension_only: vec![],
    }
}

fn literal(schema: &Schema, value: &Value, definition: usize, wrappers: TypeWrappers) -> String {
    TypedValue::new(value, Type { schema, definition, wrappers }).into_literal()
}

#[test]
fn scalar_literals() {
    let s = schema();
    assert_eq!(literal(&s, &Value::Int(-42), 1, TypeWrappers::none()), "-42");
    assert_eq!(literal(&s, &Value::Boolean(true), 0, TypeWrappers::none()), "true");
    assert_eq!(literal(&s, &Value::Boolean(false), 0, TypeWrappers::none()), "false");
    assert_eq!(literal(&s, &Value::Null, 0, TypeWrappers::none()), "null");
    assert_eq!(literal(&s, &Value::Float("1.5".into()), 0, TypeWrappers::none()), "1.5");
    assert_eq!(literal(&s, &Value::Enum("RED".into()), 3, TypeWrappers::none()), "\"RED\"");
    assert_eq!(literal(&s, &Value::String("hello".into()), 0, TypeWrappers::none()), "\"hello\"");
}

#[test]
fn strings_that_need_escaping_become_raw_literals() {
    let s = schema();
    assert_eq!(
        literal(&s, &Value::String("say \"hi\"".into()), 0, TypeWrappers::none()),
        "r#\"say \"hi\"\"#"
    );
    assert_eq!(
        literal(&s, &Value::String("a\nb".into()), 0, TypeWrappers::none()),
        "r#\"a\nb\"#"
    );
    assert!(string_needs_raw_literal("tab\there"));
    assert!(string_needs_raw_literal("\u{7f}"));
    assert!(!string_needs_raw_literal("plain text, with 'quotes'"));
}

#[test]
fn variables_are_snake_cased() {
    let s = schema();
    assert_eq!(literal(&s, &Value::Variable("myVariable".into()), 0, TypeWrappers::none()), "$my_variable");
    assert_eq!(literal(&s, &Value::Variable("id".into()), 0, TypeWrappers::none()), "$id");
}

#[test]
fn lists_and_objects() {
    let s = schema();
    let list = Value::List(vec![Value::Int(1), Value::Int(2), Value::Int(3)]);
    assert_eq!(literal(&s, &list, 1, TypeWrappers::none().wrap_list()), "[1, 2, 3]");
    assert_eq!(literal(&s, &Value::List(vec![]), 1, TypeWrappers::none().wrap_list()), "[]");

    let object = Value::Object(vec![
        ObjectField { name: "name".into(), value: Value::String("x".into()) },
        ObjectField {
            name: "tags".into(),
            value: Value::List(vec![Value::String("a".into()), Value::String("b".into())]),
        },
        ObjectField {
            name: "nested".into(),
            value: Value::Object(vec![ObjectField { name: "limit".into(), value: Value::Int(10) }]),
        },
    ]);
    assert_eq!(
        literal(&s, &object, 2, TypeWrappers::none().wrap_non_null()),
        "{ name: \"x\", tags: [\"a\", \"b\"], nested: { limit: 10 } }"
    );
    assert_eq!(literal(&s, &Value::Object(vec![]), 2, TypeWrappers::none()), "{  }");
}

#[test]
fn list_items_take_the_item_type() {
    let s = schema();
    let value = Value::List(vec![Value::String("a".into()), Value::Null]);
    let typed = TypedValue::new(
        &value,
        Type { schema: &s, definition: 0, wrappers: TypeWrappers::none().wrap_non_null().wrap_list().wrap_non_null() },
    );
    let TypedValue::List(list) = typed else { panic!("expected a list") };
    let items = list.items();
    assert_eq!(items.len(), 2);
    for item in &items {
        let ty = match item {
            TypedValue::String(v) => &v.ty,
            TypedValue::Null(v) => &v.ty,
            _ => panic!("unexpected item"),
        };
        assert_eq!(ty.wrappers(), vec![WrappingType::NonNull]);
        assert_eq!(ty.name(), "String");
    }
}

#[test]
fn object_fields_take_their_declared_types() {
    let s = schema();
    let value = Value::Object(vec![ObjectField { name: "limit".into(), value: Value::Int(3) }]);
    let typed = TypedValue::new(&value, Type { schema: &s, definition: 2, wrappers: TypeWrappers::none() });
    let TypedValue::Object(object) = typed else { panic!("expected an object") };
    let fields = object.fields();
    assert_eq!(fields.len(), 1);
    assert_eq!(fields[0].name(), "limit");
    let TypedValue::Int(v) = fields[0].value() else { panic!("expected an int") };
    assert_eq!(v.value, 3);
    assert_eq!(v.ty.name(), "Int");
    assert_eq!(v.ty.wrappers(), vec![WrappingType::NonNull]);
}
