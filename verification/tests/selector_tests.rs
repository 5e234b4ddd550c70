use yarn_lock_diff::selector::selector_package;

#[test]
fn plain_name_before_separator() {
    assert_eq!(selector_package("pkg@npm:^1.2.3"), Some("pkg".to_string()));
}

#[test]
fn scoped_name_keeps_its_leading_at() {
    assert_eq!(selector_package("@scope/name@npm:^3.1.2"), Some("@scope/name".to_string()));
}

#[test]
fn comma_joined_selectors_use_the_first() {
    assert_eq!(
        selector_package("@scope/name@npm:^3.1.2, @scope/name@npm:^3.1.3, @scope/name@npm:^3.1.5"),
        Some("@scope/name".to_string()),
    );
}

#[test]
fn key_without_separator_has_no_package() {
    assert_eq!(selector_package("not-a-selector"), None);
}

#[test]
fn separator_needs_a_name_before_it() {
    assert_eq!(selector_package("@npm:^1.0.0"), None);
}
