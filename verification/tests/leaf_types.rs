use cynic_querygen::document::{Schema, SchemaType, TypeKind};
use cynic_querygen::leaf_types::{leaf_types, sort_by_name, str_lt};
use cynic_querygen::maps::ScalarTypeMap;

fn schema() -> Schema {
    let scalar = |n: &str| SchemaType { name: n.into(), kind: TypeKind::Scalar };
    let en = |n: &str| SchemaType { name: n.into(), kind: TypeKind::Enum { values: vec!["A".into()] } };
    Schema {
        types: vec![
            scalar("String"),
            en("Zebra"),
            scalar("DateTime"),
            en("Apple"),
            scalar("Uuid"),
            SchemaType { name: "Query".into(), kind: TypeKind::Object { fields: vec![] } },
        ],
        schema_definitions: vec![],
        extension_only: vec![],
    }
}

#[test]
fn leaf_types_skip_builtin_and_given_scalars() {
    let s = schema();
    let mut scalars = ScalarTypeMap::new();
    scalars.insert("Uuid".into(), "uuid::Uuid".into());
    let names = vec!["Zebra", "String", "DateTime", "Zebra", "Query", "Uuid", "Apple", "Missing", "DateTime"];
    let (enums, custom) = leaf_types(&s, &names, &scalars);
    assert_eq!(enums, vec![1, 3]);
    assert_eq!(custom, vec![2]);
}

#[test]
fn types_sort_by_name() {
    let s = schema();
    assert_eq!(sort_by_name(&s, &vec![1, 3, 0, 2]), vec![3, 2, 0, 1]);
    assert!(str_lt("Apple", "Zebra"));
    assert!(str_lt("Ab", "Abc"));
    assert!(!str_lt("Abc", "Abc"));
    assert!(!str_lt("b", "B"));
}
