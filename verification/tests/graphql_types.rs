use cynic_querygen::document::{Schema, SchemaType, TypeKind};
use cynic_querygen::graph::types::Type;
use cynic_querygen::wrappers::TypeWrappers;

#[test]
fn types_are_written_as_graphql_writes_them() {
    let schema = Schema {
        types: vec![SchemaType { name: "Foo".into(), kind: TypeKind::Scalar }],
        schema_definitions: vec![],
        extension_only: vec![],
    };
    let text = |wrappers: TypeWrappers| Type { schema: &schema, definition: 0, wrappers }.graphql_text();
    assert_eq!(text(TypeWrappers::none()), "Foo");
    assert_eq!(text(TypeWrappers::none().wrap_non_null()), "Foo!");
    assert_eq!(text(TypeWrappers::none().wrap_list()), "[Foo]");
    assert_eq!(text(TypeWrappers::none().wrap_non_null().wrap_list().wrap_non_null()), "[Foo!]!");
    assert_eq!(text(TypeWrappers::none().wrap_list().wrap_non_null().wrap_list()), "[[Foo]!]");
}
