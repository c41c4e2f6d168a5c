use dnadb_engine::query::like_util::{sql_like_contains_literal, sql_like_prefix_literal};

#[test]
fn prefix_only_patterns() {
    assert_eq!(sql_like_prefix_literal("post-999%"), Some("post-999"));
    assert_eq!(sql_like_prefix_literal("a%"), Some("a"));
}

#[test]
fn rejects_non_prefix_patterns() {
    assert_eq!(sql_like_prefix_literal("%x"), None);
    assert_eq!(sql_like_prefix_literal("foo%bar%"), None);
    assert_eq!(sql_like_prefix_literal("foo_bar%"), None);
    assert_eq!(sql_like_prefix_literal("%"), None);
    assert_eq!(sql_like_prefix_literal(""), None);
    assert_eq!(sql_like_prefix_literal("exact"), None);
}

#[test]
fn contains_only_patterns() {
    assert_eq!(sql_like_contains_literal("%gmail.com%"), Some("gmail.com"));
    assert_eq!(sql_like_contains_literal("%abc%"), Some("abc"));
}

#[test]
fn rejects_non_contains_patterns() {
    assert_eq!(sql_like_contains_literal("abc%"), None);
    assert_eq!(sql_like_contains_literal("%abc"), None);
    assert_eq!(sql_like_contains_literal("abc"), None);
    assert_eq!(sql_like_contains_literal("%a_b%"), None);
    assert_eq!(sql_like_contains_literal("%%"), None);
    assert_eq!(sql_like_contains_literal("%a%b%"), None);
}
