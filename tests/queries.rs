use rehype_tree_sitter_highlight::queries::{compose_query, is_extending, join_query_files, merge_queries};

#[test]
fn extending_override_is_appended_after_newline() {
    let merged = compose_query("(base)", &vec![";; extends\n(more)".to_string()]);
    assert_eq!(merged, "(base)\n;; extends\n(more)");
}

#[test]
fn extending_override_after_trailing_newline() {
    let merged = compose_query("(base)\n", &vec![";; extends\n(more)".to_string()]);
    assert_eq!(merged, "(base)\n;; extends\n(more)");
}

#[test]
fn plain_override_replaces_base() {
    let merged = compose_query("(base)", &vec!["(other)".to_string()]);
    assert_eq!(merged, "(other)");
}

#[test]
fn later_overrides_apply_in_order() {
    let merged = compose_query(
        "(base)",
        &vec![
            "(first)".to_string(),
            ";; extends\n(second)".to_string(),
            "  ;; extends (third)".to_string(),
        ],
    );
    assert_eq!(merged, "(first)\n;; extends\n(second)\n  ;; extends (third)");
}

#[test]
fn no_overrides_keeps_base() {
    assert_eq!(compose_query("(base)", &Vec::new()), "(base)");
}

#[test]
fn merge_with_empty_sides() {
    assert_eq!(merge_queries("", "(x)"), "(x)");
    assert_eq!(merge_queries("(x)", ""), "(x)");
    assert_eq!(merge_queries("a", "b"), "a\nb");
    assert_eq!(merge_queries("a\n", "b"), "a\nb");
}

#[test]
fn extends_marker_detection() {
    assert!(is_extending(";; extends"));
    assert!(is_extending("   ;; extends\n(x)"));
    assert!(is_extending("\n\t;; extends"));
    assert!(!is_extending(""));
    assert!(!is_extending(";; extend"));
    assert!(!is_extending("(x)\n;; extends"));
    assert!(!is_extending("; extends"));
}

#[test]
fn built_in_files_joined_with_newlines() {
    assert_eq!(join_query_files(&vec!["a".to_string(), "b".to_string(), "c".to_string()]), "a\nb\nc");
    assert_eq!(join_query_files(&vec!["only".to_string()]), "only");
    assert_eq!(join_query_files(&Vec::new()), "");
}
