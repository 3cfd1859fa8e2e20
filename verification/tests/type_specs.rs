use cynic_querygen::document::{InputValueDefinition, TypeRef};
use cynic_querygen::type_spec::TypeSpec;
use cynic_querygen::wrappers::TypeWrappers;

fn field(name: &str, wrappers: TypeWrappers) -> InputValueDefinition {
    InputValueDefinition { name: "f".into(), ty: TypeRef { name: name.into(), wrappers } }
}

#[test]
fn input_fields_are_nullable_unless_non_null() {
    let t = TypeSpec::for_input_field(&field("Int", TypeWrappers::none()), None, false, false, None);
    assert_eq!(t.name, "Option<i32>");
    assert!(!t.contains_lifetime_a);
    let t = TypeSpec::for_input_field(&field("Int", TypeWrappers::none().wrap_non_null()), None, false, false, None);
    assert_eq!(t.name, "i32");
}

#[test]
fn one_of_fields_are_never_optional() {
    let t = TypeSpec::for_input_field(&field("Float", TypeWrappers::none()), Some(false), false, false, None);
    assert_eq!(t.name, "f64");
}

#[test]
fn borrowed_scalars_and_lists() {
    let t = TypeSpec::for_input_field(
        &field("String", TypeWrappers::none().wrap_non_null().wrap_list().wrap_non_null()),
        None,
        false,
        false,
        None,
    );
    assert_eq!(t.name, "Vec<&'a str>");
    assert!(t.contains_lifetime_a);
    let t = TypeSpec::for_input_field(&field("ID", TypeWrappers::none().wrap_list()), None, false, false, None);
    assert_eq!(t.name, "Option<Vec<Option<&'a cynic::Id>>>");
    assert!(t.contains_lifetime_a);
}

#[test]
fn recursive_objects_are_boxed_outside_lists_only() {
    let t = TypeSpec::for_input_field(&field("tree_node", TypeWrappers::none()), None, true, false, None);
    assert_eq!(t.name, "Option<Box<TreeNode>>");
    let t = TypeSpec::for_input_field(&field("TreeNode", TypeWrappers::none().wrap_list()), None, true, true, None);
    assert_eq!(t.name, "Option<Vec<Option<TreeNode<'a>>>>");
    assert!(t.contains_lifetime_a);
}

#[test]
fn scalar_types_replace_the_scalar() {
    let t = TypeSpec::for_input_field(&field("String", TypeWrappers::none()), None, false, false, Some("my_crate::MyString"));
    assert_eq!(t.name, "Option<my_crate::MyString>");
    assert!(!t.contains_lifetime_a);
}

#[test]
fn variables_use_executable_types() {
    let ty = TypeRef { name: "UUID".into(), wrappers: TypeWrappers::none().wrap_non_null() };
    let t = TypeSpec::for_executable_type(&ty, false, None);
    assert_eq!(t.name, "Uuid");
    let t = TypeSpec::for_executable_type(&ty, false, Some("my_crate::Uuid"));
    assert_eq!(t.name, "my_crate::Uuid");
    let ty = TypeRef { name: "Boolean".into(), wrappers: TypeWrappers::none() };
    assert_eq!(TypeSpec::for_executable_type(&ty, false, None).name, "Option<bool>");
}

#[test]
fn lifetime_parameter_when_any_field_borrows() {
    let owned = TypeSpec { name: "i32".into(), contains_lifetime_a: false };
    let borrowed = TypeSpec { name: "&'a str".into(), contains_lifetime_a: true };
    assert_eq!(TypeSpec::lifetime(&vec![]), "");
    assert_eq!(TypeSpec::lifetime(&vec![owned]), "");
    let owned = TypeSpec { name: "i32".into(), contains_lifetime_a: false };
    assert_eq!(TypeSpec::lifetime(&vec![owned, borrowed]), "<'a>");
}
