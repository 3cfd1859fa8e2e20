use cynic_querygen::casing::{to_pascal_case, to_snake_case};

#[test]
fn snake_case_of_names() {
    assert_eq!(to_snake_case("fooBar"), "foo_bar");
    assert_eq!(to_snake_case("FooBar"), "foo_bar");
    assert_eq!(to_snake_case("HTTPServer"), "httpserver");
    assert_eq!(to_snake_case("already_snake"), "already_snake");
    assert_eq!(to_snake_case(""), "");
    assert_eq!(to_snake_case("aB1C"), "a_b1_c");
}

#[test]
fn snake_case_keeps_names_without_capitals() {
    for name in ["abc", "a_b_c", "x1y2", "_leading"] {
        assert_eq!(to_snake_case(name), name);
    }
}

#[test]
fn pascal_case_of_names() {
    assert_eq!(to_pascal_case("foo_bar"), "FooBar");
    assert_eq!(to_pascal_case("fooBar"), "FooBar");
    assert_eq!(to_pascal_case("UUID"), "Uuid");
    assert_eq!(to_pascal_case("IssueFilters"), "IssueFilters");
    assert_eq!(to_pascal_case("__typename"), "__typename");
    assert_eq!(to_pascal_case("a"), "A");
    assert_eq!(to_pascal_case(""), "");
}

#[test]
fn snake_case_of_ascii_names_is_stable_and_only_adds_underscores() {
    for name in ["fooBar", "FooBar", "someHTTPThing", "a_B_c", "x1Y2z", "_Leading"] {
        let r = to_snake_case(name);
        assert!(!r.chars().any(|c| c.is_ascii_uppercase()));
        assert_eq!(to_snake_case(&r), r);
        let stripped: String = r.chars().filter(|c| *c != '_').collect();
        let expected: String = name.to_ascii_lowercase().chars().filter(|c| *c != '_').collect();
        assert_eq!(stripped, expected);
    }
}
