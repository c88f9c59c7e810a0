use awsm_env::error::ParseIssueKind;
use awsm_env::parse;
use awsm_env::parse_key_val;
use awsm_env::resolve::apply_results;
use awsm_env::resolve::check_sm_batch_errors;
use awsm_env::resolve::extend_table;
use awsm_env::resolve::finalize;
use awsm_env::resolve::plan_requests;
use awsm_env::resolve::SmBatchIssue;
use awsm_env::EnvFormatter;
use awsm_env::Error;
use awsm_env::Formatter;
use awsm_env::OutputEntry;
use indexmap::IndexMap;

/// Runs the whole pipeline with in-memory backends: each store is a list
/// of (identifier, value) pairs, an identifier not listed is absent.
fn resolve_with(
    input: &str,
    sm_store: &[(&str, &str)],
    ps_store: &[(&str, &str)],
    overrides: &IndexMap<String, String>,
    placeholders: Vec<(String, String)>,
) -> Result<IndexMap<String, String>, Error> {
    let entries = parse(input).expect("input parses");
    let plan = plan_requests(&entries, &placeholders)?;
    let mut vals: Vec<Option<String>> = entries.iter().map(|e| e.value.clone()).collect();

    let mut sm_table: Vec<(String, String)> = Vec::new();
    for batch in &plan.sm_batches {
        let mut values: Vec<(String, String)> = Vec::new();
        for id in batch {
            if let Some((_, v)) = sm_store.iter().find(|(k, _)| k == id) {
                values.push((id.clone(), v.to_string()));
            }
        }
        extend_table(&mut sm_table, &values);
    }
    vals = apply_results(&entries, &vals, &plan.sm_requests, &sm_table)?;

    let mut ps_table: Vec<(String, String)> = Vec::new();
    for batch in &plan.ps_batches {
        let mut values: Vec<(String, String)> = Vec::new();
        for id in batch {
            if let Some((_, v)) = ps_store.iter().find(|(k, _)| k == id) {
                values.push((id.clone(), v.to_string()));
            }
        }
        extend_table(&mut ps_table, &values);
    }
    vals = apply_results(&entries, &vals, &plan.ps_requests, &ps_table)?;

    Ok(finalize(&entries, &vals, overrides))
}

fn pairs(m: &IndexMap<String, String>) -> Vec<(String, String)> {
    m.iter().map(|(k, v)| (k.clone(), v.clone())).collect()
}

#[test]
fn test_entry_without_value_is_dropped() {
    let result = resolve_with("KEY1=value1\nKEY2=", &[], &[], &IndexMap::new(), vec![]).unwrap();

    assert_eq!(
        pairs(&result),
        vec![("KEY1".to_string(), "value1".to_string())]
    );
}

#[test]
fn test_required_missing_secret_fails() {
    let result = resolve_with(
        "# @aws-sm foo/bar\nKEY1=fallback",
        &[],
        &[],
        &IndexMap::new(),
        vec![],
    );

    assert_eq!(result, Err(Error::ParameterNotFound("foo/bar".to_string())));
}

#[test]
fn test_optional_missing_secret_falls_back() {
    let result = resolve_with(
        "# @aws-sm foo/bar @optional\nKEY1=fallback",
        &[],
        &[],
        &IndexMap::new(),
        vec![],
    )
    .unwrap();

    assert_eq!(
        pairs(&result),
        vec![("KEY1".to_string(), "fallback".to_string())]
    );
}

#[test]
fn test_fetched_value_overrides_default() {
    let result = resolve_with(
        "# @aws-sm foo/bar\nKEY1=fallback",
        &[("foo/bar", "fetched")],
        &[],
        &IndexMap::new(),
        vec![],
    )
    .unwrap();

    assert_eq!(
        pairs(&result),
        vec![("KEY1".to_string(), "fetched".to_string())]
    );
}

#[test]
fn test_required_missing_parameter_fails() {
    let result = resolve_with(
        "# @aws-ps foo/bar\nKEY1=fallback",
        &[],
        &[],
        &IndexMap::new(),
        vec![],
    );

    assert_eq!(result, Err(Error::ParameterNotFound("foo/bar".to_string())));
}

#[test]
fn test_placeholders_expand_in_patterns() {
    let result = resolve_with(
        "# @aws-sm app/$env/db\nKEY1=",
        &[("app/prod/db", "s3cret")],
        &[],
        &IndexMap::new(),
        vec![("env".to_string(), "prod".to_string())],
    )
    .unwrap();

    assert_eq!(
        pairs(&result),
        vec![("KEY1".to_string(), "s3cret".to_string())]
    );
}

#[test]
fn test_missing_placeholder_fails_naming_it() {
    let result = resolve_with(
        "# @aws-sm app/$env/$missing\nKEY1=",
        &[],
        &[],
        &IndexMap::new(),
        vec![("env".to_string(), "prod".to_string())],
    );

    assert_eq!(result, Err(Error::PlaceholderMissing("missing".to_string())));
}

#[test]
fn test_shared_identifier_fetched_once() {
    let input = "# @aws-sm shared/secret\nKEY1=\n# @aws-sm shared/secret\nKEY2=";
    let entries = parse(input).unwrap();
    let plan = plan_requests(&entries, &vec![]).unwrap();

    let total: usize = plan.sm_batches.iter().map(|b| b.len()).sum();
    assert_eq!(plan.sm_batches.len(), 1);
    assert_eq!(total, 1);
    assert_eq!(plan.sm_batches[0][0], "shared/secret");

    let result = resolve_with(
        input,
        &[("shared/secret", "twice")],
        &[],
        &IndexMap::new(),
        vec![],
    )
    .unwrap();
    assert_eq!(
        pairs(&result),
        vec![
            ("KEY1".to_string(), "twice".to_string()),
            ("KEY2".to_string(), "twice".to_string()),
        ]
    );
}

#[test]
fn test_batches_respect_limits() {
    let mut sm_input = String::new();
    for i in 0..25 {
        sm_input.push_str(&format!("# @aws-sm id/{}\nKEY{}=\n", i, i));
    }
    let entries = parse(&sm_input).unwrap();
    let plan = plan_requests(&entries, &vec![]).unwrap();
    let sizes: Vec<usize> = plan.sm_batches.iter().map(|b| b.len()).collect();
    assert_eq!(sizes, vec![20, 5]);

    let mut ps_input = String::new();
    for i in 0..11 {
        ps_input.push_str(&format!("# @aws-ps id/{}\nKEY{}=\n", i, i));
    }
    let entries = parse(&ps_input).unwrap();
    let plan = plan_requests(&entries, &vec![]).unwrap();
    let sizes: Vec<usize> = plan.ps_batches.iter().map(|b| b.len()).collect();
    assert_eq!(sizes, vec![10, 1]);
}

#[test]
fn test_overrides_take_precedence() {
    let mut overrides = IndexMap::new();
    overrides.insert("KEY1".to_string(), "overridden".to_string());
    overrides.insert("EXTRA".to_string(), "added".to_string());

    let result = resolve_with(
        "# @aws-sm foo/bar\nKEY1=fallback\nKEY2=kept",
        &[("foo/bar", "fetched")],
        &[],
        &overrides,
        vec![],
    )
    .unwrap();

    assert_eq!(
        pairs(&result),
        vec![
            ("KEY1".to_string(), "overridden".to_string()),
            ("KEY2".to_string(), "kept".to_string()),
            ("EXTRA".to_string(), "added".to_string()),
        ]
    );
}

#[test]
fn test_overrides_are_never_expanded() {
    let mut overrides = IndexMap::new();
    overrides.insert("KEY1".to_string(), "$env".to_string());

    let result = resolve_with(
        "KEY1=x",
        &[],
        &[],
        &overrides,
        vec![("env".to_string(), "prod".to_string())],
    )
    .unwrap();

    assert_eq!(pairs(&result), vec![("KEY1".to_string(), "$env".to_string())]);
}

#[test]
fn test_not_found_batch_errors_pass() {
    let issues = vec![SmBatchIssue {
        code: Some("ResourceNotFoundException".to_string()),
        message: "missing".to_string(),
    }];

    assert_eq!(check_sm_batch_errors(&issues), Ok(()));
}

#[test]
fn test_other_batch_errors_abort() {
    let issues = vec![
        SmBatchIssue {
            code: Some("ResourceNotFoundException".to_string()),
            message: "missing".to_string(),
        },
        SmBatchIssue {
            code: Some("AccessDeniedException".to_string()),
            message: "denied".to_string(),
        },
    ];

    assert_eq!(
        check_sm_batch_errors(&issues),
        Err(Error::AwsSmApiError("denied".to_string()))
    );
}

#[test]
fn test_codeless_batch_errors_abort() {
    let issues = vec![SmBatchIssue { code: None, message: "odd".to_string() }];

    assert_eq!(
        check_sm_batch_errors(&issues),
        Err(Error::AwsSmApiError("odd".to_string()))
    );
}

#[test]
fn test_parse_key_val_splits_on_first_equals() {
    assert_eq!(
        parse_key_val("a=b"),
        Ok(("a".to_string(), "b".to_string()))
    );
    assert_eq!(
        parse_key_val("a=b=c"),
        Ok(("a".to_string(), "b".to_string()))
    );
    assert_eq!(parse_key_val("a="), Ok(("a".to_string(), "".to_string())));
    assert_eq!(
        parse_key_val("nope"),
        Err("Key value pairs should be of the form key=value".to_string())
    );
}

#[test]
fn test_parse_error_carries_position() {
    let result = parse("GOOD=1\nKEY1=\"unterminated");
    match result {
        Err(Error::ParsingError(issue)) => {
            assert_eq!(issue.line, 2);
            assert_eq!(issue.kind, ParseIssueKind::UnterminatedValue);
        },
        other => panic!("expected a parse error, got {:?}", other),
    }

    let result = parse("!!!");
    match result {
        Err(Error::ParsingError(issue)) => {
            assert_eq!(issue.line, 1);
            assert_eq!(issue.kind, ParseIssueKind::MalformedLine);
        },
        other => panic!("expected a parse error, got {:?}", other),
    }
}

#[test]
fn test_error_messages() {
    assert_eq!(
        Error::ParameterNotFound("foo/bar".to_string()).message(),
        "Parameter not found: foo/bar"
    );
    assert_eq!(
        Error::PlaceholderMissing("env".to_string()).message(),
        "Placeholder value missing for 'env'"
    );
    assert_eq!(
        Error::AwsSmSdkError("boom".to_string()).message(),
        "AWS SDK error: boom"
    );
    assert_eq!(
        Error::AwsSmApiError("boom".to_string()).message(),
        "AWS API error: boom"
    );
    assert_eq!(
        Error::AwsPsSdkError("boom".to_string()).message(),
        "AWS SDK error: boom"
    );
    let parse_err = parse("KEY1=\"oops").unwrap_err();
    assert_eq!(
        parse_err.message(),
        "Unable to parse input: line 1: unterminated quoted value"
    );
}

#[test]
fn test_directive_attaches_only_to_next_declaration() {
    let input = "# @aws-sm foo/bar\nKEY1=\nKEY2=x";
    let result = resolve_with(input, &[("foo/bar", "v")], &[], &IndexMap::new(), vec![]).unwrap();

    assert_eq!(
        pairs(&result),
        vec![
            ("KEY1".to_string(), "v".to_string()),
            ("KEY2".to_string(), "x".to_string()),
        ]
    );
}

#[test]
fn test_round_trip_env_rendering() {
    let input = "KEY1=value1\nKEY2=\"va l\\\"ue2\"";
    let entries = parse(input).unwrap();
    let rendered = {
        let pairs: Vec<(String, String)> = entries
            .iter()
            .filter_map(|e| e.value.clone().map(|v| (e.key.clone(), v)))
            .collect();
        let out: Vec<OutputEntry> = pairs.iter().map(|(k, v)| OutputEntry(k, v)).collect();
        EnvFormatter::new().format(&out)
    };
    let reparsed = parse(&rendered).unwrap();

    let original: Vec<(String, Option<String>)> =
        entries.iter().map(|e| (e.key.clone(), e.value.clone())).collect();
    let again: Vec<(String, Option<String>)> =
        reparsed.iter().map(|e| (e.key.clone(), e.value.clone())).collect();
    assert_eq!(original, again);
}
