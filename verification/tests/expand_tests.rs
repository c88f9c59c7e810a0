use awsm_env::replace_placeholders;

#[test]
fn test_replaces_placeholders() {
    let input = "$foo/bar/$baz";
    let placeholders = vec![
        ("foo".to_string(), "123".to_string()),
        ("baz".to_string(), "456".to_string()),
    ];

    let result = replace_placeholders(input, &placeholders);

    assert_eq!(result, Ok("123/bar/456".to_string()))
}

#[test]
fn test_handles_escapes() {
    let input = "$$foo/bar/$baz";
    let placeholders = vec![
        ("foo".to_string(), "123".to_string()),
        ("baz".to_string(), "456".to_string()),
    ];

    let result = replace_placeholders(input, &placeholders);

    assert_eq!(result, Ok("$foo/bar/456".to_string()))
}

#[test]
fn test_returns_error_for_missing_placeholder() {
    let input = "$foo/bar/$baz";
    let placeholders = vec![("baz".to_string(), "456".to_string())];

    let result = replace_placeholders(input, &placeholders);

    assert!(result.is_err())
}

#[test]
fn test_supports_underscores_in_placeholders() {
    let input = "bar/$baz_1";
    let placeholders = vec![("baz_1".to_string(), "456".to_string())];

    let result = replace_placeholders(input, &placeholders);

    assert_eq!(result, Ok("bar/456".to_string()))
}

#[test]
fn test_missing_placeholder_names_first_left_to_right() {
    let input = "$aa/$bb";
    let placeholders: Vec<(String, String)> = Vec::new();

    let result = replace_placeholders(input, &placeholders);

    assert_eq!(
        result,
        Err(awsm_env::Error::PlaceholderMissing("aa".to_string()))
    )
}

#[test]
fn test_lone_dollar_is_kept() {
    let input = "a$/b";
    let placeholders: Vec<(String, String)> = Vec::new();

    let result = replace_placeholders(input, &placeholders);

    assert_eq!(result, Ok("a$/b".to_string()))
}

#[test]
fn test_double_escape_collapses_pairwise() {
    let input = "$$$$x";
    let placeholders: Vec<(String, String)> = Vec::new();

    let result = replace_placeholders(input, &placeholders);

    assert_eq!(result, Ok("$$x".to_string()))
}

#[test]
fn test_replacement_values_are_not_rescanned() {
    let input = "$a";
    let placeholders = vec![
        ("a".to_string(), "$b".to_string()),
        ("b".to_string(), "nope".to_string()),
    ];

    let result = replace_placeholders(input, &placeholders);

    assert_eq!(result, Ok("$b".to_string()))
}
