use cynic_querygen::output::RustOutputFieldType;
use cynic_querygen::wrappers::TypeWrappers;

#[test]
fn rust_output_field_type_display() {
    assert_eq!(
        RustOutputFieldType {
            name: "Id".into(),
            wrappers: TypeWrappers::default().wrap_non_null()
        }
        .to_string(),
        "cynic::Id"
    );

    assert_eq!(
        RustOutputFieldType {
            name: "Foo".into(),
            wrappers: TypeWrappers::default()
        }
        .to_string(),
        "Option<Foo>"
    );

    assert_eq!(
        RustOutputFieldType {
            name: "Foo".into(),
            wrappers: TypeWrappers::default().wrap_list()
        }
        .to_string(),
        "Option<Vec<Option<Foo>>>"
    );

    assert_eq!(
        RustOutputFieldType {
            name: "Foo".into(),
            wrappers: TypeWrappers::default().wrap_non_null().wrap_list()
        }
        .to_string(),
        "Option<Vec<Foo>>"
    );

    assert_eq!(
        RustOutputFieldType {
            name: "Foo".into(),
            wrappers: TypeWrappers::default()
                .wrap_non_null()
                .wrap_list()
                .wrap_non_null()
        }
        .to_string(),
        "Vec<Foo>"
    );
}

#[test]
fn scalar_names_map_to_rust_types() {
    let t = |name: &str, w: TypeWrappers| RustOutputFieldType { name: name.into(), wrappers: w }.to_string();
    assert_eq!(t("Int", TypeWrappers::none().wrap_non_null()), "i32");
    assert_eq!(t("Float", TypeWrappers::none()), "Option<f64>");
    assert_eq!(t("Boolean", TypeWrappers::none().wrap_non_null().wrap_list().wrap_non_null().wrap_list()), "Option<Vec<Vec<bool>>>");
    assert_eq!(t("ID", TypeWrappers::none().wrap_non_null()), "ID");
}

#[test]
fn non_null_removes_the_outer_option() {
    let nullable = RustOutputFieldType { name: "Foo".into(), wrappers: TypeWrappers::none().wrap_list() }.to_string();
    let non_null = RustOutputFieldType { name: "Foo".into(), wrappers: TypeWrappers::none().wrap_list().wrap_non_null() }.to_string();
    assert_eq!(nullable, format!("Option<{}>", non_null));
}
