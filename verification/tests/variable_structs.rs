use cynic_querygen::executable::{
    ExecutableDefinition, FragmentDefinition, OperationDefinition, OperationType,
};
use cynic_querygen::processing::{
    scalar_is_builtin, type_requires_lifetime, FragmentId, VariableStruct, VariableStructs,
};

fn named_struct(name: &str) -> VariableStruct {
    VariableStruct { name: name.into(), fields: vec![] }
}

#[test]
fn fragments_find_the_struct_they_use() {
    let structs = vec![named_struct("QueryVariables"), named_struct("FilmVariables")];
    let uses = vec![
        (FragmentId::Inline(2), 1),
        (FragmentId::Query(9), 0),
        (FragmentId::Query(1), 1),
        (FragmentId::Query(9), 1),
    ];
    let s = VariableStructs::from_parts(structs, uses);
    assert_eq!(s.variables_name_for_fragment(FragmentId::Query(9)), Some("QueryVariables"));
    assert_eq!(s.variables_name_for_fragment(FragmentId::Query(1)), Some("FilmVariables"));
    assert_eq!(s.variables_name_for_fragment(FragmentId::Inline(2)), Some("FilmVariables"));
    assert_eq!(s.variables_name_for_fragment(FragmentId::Inline(9)), None);
    assert_eq!(s.variables_name_for_fragment(FragmentId::Query(3)), None);
    assert!(VariableStructs::new().variables_name_for_fragment(FragmentId::Query(0)).is_none());
}

#[test]
fn builtin_scalars() {
    for s in ["String", "Int", "Boolean", "ID", "Float"] {
        assert!(scalar_is_builtin(s));
    }
    assert!(!scalar_is_builtin("DateTime"));
    assert!(type_requires_lifetime("String"));
    assert!(type_requires_lifetime("ID"));
    assert!(!type_requires_lifetime("Int"));
}

#[test]
fn definitions_are_operations_or_fragments() {
    let op = OperationDefinition {
        operation_type: OperationType::Query,
        name: None,
        variable_definitions: vec![],
        selection_set: vec![],
    };
    let frag = FragmentDefinition { name: "Parts".into(), type_condition: "Film".into(), selection_set: vec![] };
    let a = ExecutableDefinition::Operation(&op);
    let b = ExecutableDefinition::Fragment(&frag);
    assert!(a.is_operation() && !a.is_fragment());
    assert!(b.is_fragment() && !b.is_operation());
    assert!(a.as_fragment().is_none());
    assert_eq!(b.as_fragment().unwrap().name, "Parts");
    assert!(a.as_operation().unwrap().name.is_none());
    assert!(b.as_operation().is_none());
}
