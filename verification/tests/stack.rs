use komodo_guard::stack::{compose_container_match_regex, container_match_pattern_of};

#[test]
fn matches_containers_of_a_service() {
    let re = compose_container_match_regex("proj-web").unwrap();
    assert!(re.is_match("proj-web"));
    assert!(re.is_match("proj-web-1"));
    assert!(re.is_match("proj-web12"));
    assert!(!re.is_match("proj-web-x"));
    assert!(!re.is_match("other-proj-web-1"));
    assert_eq!(re.as_str(), "^proj-web-?[0-9]*$");
}

#[test]
fn reports_names_that_make_no_pattern() {
    let error = compose_container_match_regex("bad(").unwrap_err();
    assert_eq!(error.pattern, "^bad(-?[0-9]*$");
    assert_eq!(error.cause, regex::Regex::new("^bad(-?[0-9]*$").unwrap_err().to_string());
    assert!(error.cause.contains("unclosed group"), "{}", error.cause);
    assert_eq!(
        error.message(),
        format!("failed to construct valid regex from ^bad(-?[0-9]*$: {}", error.cause)
    );
    assert_eq!(error.summary(), "failed to construct valid regex from ^bad(-?[0-9]*$");
    assert_eq!(container_match_pattern_of("a.b"), "^a.b-?[0-9]*$");
}
