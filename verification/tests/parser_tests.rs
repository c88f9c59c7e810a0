use awsm_env::parse;
use awsm_env::EnvEntry;
use awsm_env::SecretConfig;
use awsm_env::SecretProviderConfig;

fn entry(key: &str, value: Option<&str>, secret: Option<SecretConfig>) -> EnvEntry {
    EnvEntry { key: key.to_string(), value: value.map(|v| v.to_string()), secret }
}

#[test]
fn test_parses_key_value() {
    let input = r#"
            KEY1=value1
        "#;
    let result = parse(&input);

    assert_eq!(result, Ok(vec![entry("KEY1", Some("value1"), None)]))
}

#[test]
fn test_parses_key_value_with_colon() {
    let input = r#"
            KEY1:value1
        "#;
    let result = parse(&input);

    assert_eq!(result, Ok(vec![entry("KEY1", Some("value1"), None)]))
}

#[test]
fn test_parses_multiple_key_value() {
    let input = r#"
            KEY1=value1
            KEY2=value2
        "#;
    let result = parse(&input);

    assert_eq!(
        result,
        Ok(vec![
            entry("KEY1", Some("value1"), None),
            entry("KEY2", Some("value2"), None),
        ])
    )
}

#[test]
fn test_handles_export_before_key() {
    let input = r#"
            export KEY1=value1
        "#;
    let result = parse(&input);

    assert_eq!(result, Ok(vec![entry("KEY1", Some("value1"), None)]))
}

#[test]
fn test_parses_aws_sm_directive() {
    let input = r#"
            # @aws-sm foobar/123
            KEY1=value1
        "#;
    let result = parse(&input);

    assert_eq!(
        result,
        Ok(vec![entry(
            "KEY1",
            Some("value1"),
            Some(SecretConfig {
                required: true,
                provider_config: SecretProviderConfig::AwsSm("foobar/123".to_string())
            })
        )])
    )
}

#[test]
fn test_parses_aws_ps_directive() {
    let input = r#"
            # @aws-ps foobar/123
            KEY1=value1
        "#;
    let result = parse(&input);

    assert_eq!(
        result,
        Ok(vec![entry(
            "KEY1",
            Some("value1"),
            Some(SecretConfig {
                required: true,
                provider_config: SecretProviderConfig::AwsPs("foobar/123".to_string())
            })
        )])
    )
}

#[test]
fn test_parses_optional_directive() {
    let input = r#"
            # @aws-ps foobar/123 @optional
            KEY1=value1
        "#;
    let result = parse(&input);

    assert_eq!(
        result,
        Ok(vec![entry(
            "KEY1",
            Some("value1"),
            Some(SecretConfig {
                required: false,
                provider_config: SecretProviderConfig::AwsPs("foobar/123".to_string())
            })
        )])
    )
}

#[test]
fn test_parses_multiple_directives() {
    let input = r#"
            # @aws-sm foobar/123
            KEY1=value1

            # @aws-sm barbaz/456
            KEY2=value2
        "#;
    let result = parse(&input);

    assert_eq!(
        result,
        Ok(vec![
            entry(
                "KEY1",
                Some("value1"),
                Some(SecretConfig {
                    required: true,
                    provider_config: SecretProviderConfig::AwsSm("foobar/123".to_string())
                })
            ),
            entry(
                "KEY2",
                Some("value2"),
                Some(SecretConfig {
                    required: true,
                    provider_config: SecretProviderConfig::AwsSm("barbaz/456".to_string())
                })
            ),
        ])
    )
}

#[test]
fn test_handles_spacing() {
    let input = r#"
            #    @aws-sm     foobar/123
            KEY1 =   value1
        "#;
    let result = parse(&input);

    assert_eq!(
        result,
        Ok(vec![entry(
            "KEY1",
            Some("value1"),
            Some(SecretConfig {
                required: true,
                provider_config: SecretProviderConfig::AwsSm("foobar/123".to_string())
            })
        )])
    )
}

#[test]
fn test_ignores_comments_after_directive() {
    let input = r#"
            # @aws-sm foobar/123
            # test
            KEY1=value1
        "#;
    let result = parse(&input);

    assert_eq!(
        result,
        Ok(vec![entry(
            "KEY1",
            Some("value1"),
            Some(SecretConfig {
                required: true,
                provider_config: SecretProviderConfig::AwsSm("foobar/123".to_string())
            })
        )])
    )
}

#[test]
fn test_ignores_comments_between_entries() {
    let input = r#"
            #test
            # @aws-sm foobar/123
            KEY1=value1
            # test
            # @aws-sm barbaz/456
            KEY2=value2
            # test
        "#;
    let result = parse(&input);

    assert_eq!(
        result,
        Ok(vec![
            entry(
                "KEY1",
                Some("value1"),
                Some(SecretConfig {
                    required: true,
                    provider_config: SecretProviderConfig::AwsSm("foobar/123".to_string())
                })
            ),
            entry(
                "KEY2",
                Some("value2"),
                Some(SecretConfig {
                    required: true,
                    provider_config: SecretProviderConfig::AwsSm("barbaz/456".to_string())
                })
            ),
        ])
    )
}

#[test]
fn test_handles_comments_at_the_end_of_values() {
    let input = r#"
            KEY1=value1 # test 123
            KEY2="value2" # test 123
            KEY3='value3' # test 123
            KEY4=`value4` # test 123
        "#;
    let result = parse(&input);

    assert_eq!(
        result,
        Ok(vec![
            entry("KEY1", Some("value1"), None),
            entry("KEY2", Some("value2"), None),
            entry("KEY3", Some("value3"), None),
            entry("KEY4", Some("value4"), None),
        ])
    )
}

#[test]
fn test_handles_escaped_delimiters() {
    let input = r#"
            KEY1="val\"ue1"
            KEY2='val\'ue2'
            KEY3=`val\`ue3`
        "#;
    let result = parse(&input);

    assert_eq!(
        result,
        Ok(vec![
            entry("KEY1", Some("val\"ue1"), None),
            entry("KEY2", Some("val'ue2"), None),
            entry("KEY3", Some("val`ue3"), None),
        ])
    )
}

#[test]
fn test_does_not_allow_unescaped_dquote() {
    let input = r#"
            KEY1="val"ue1"
        "#;
    let result = parse(&input);

    assert!(result.is_err())
}

#[test]
fn test_does_not_allow_unescaped_squote() {
    let input = r#"
            KEY1='val'ue1'
        "#;
    let result = parse(&input);

    assert!(result.is_err())
}

#[test]
fn test_does_not_allow_unescaped_tick() {
    let input = r#"
            KEY1=`val`ue1`
        "#;
    let result = parse(&input);

    assert!(result.is_err())
}

#[test]
fn test_handles_empty_values() {
    let input = r#"
            KEY1=value1
            KEY2=
        "#;
    let result = parse(&input);

    assert_eq!(
        result,
        Ok(vec![
            entry("KEY1", Some("value1"), None),
            entry("KEY2", None, None),
        ])
    )
}

#[test]
fn test_overrides_duplicate_keys() {
    let input = r#"
            KEY1=value1
            KEY1=overridden
        "#;
    let result = parse(&input);

    assert_eq!(result, Ok(vec![entry("KEY1", Some("overridden"), None)]))
}

#[test]
fn test_parses_empty_input() {
    assert_eq!(parse(""), Ok(vec![]));
    assert_eq!(parse("\n\n   \n"), Ok(vec![]));
}

#[test]
fn test_trailing_directive_without_declaration_is_discarded() {
    let input = r#"
            KEY1=value1
            # @aws-sm foobar/123
        "#;
    let result = parse(&input);

    assert_eq!(result, Ok(vec![entry("KEY1", Some("value1"), None)]))
}

#[test]
fn test_duplicate_key_replaces_value_and_directive() {
    let input = r#"
            # @aws-sm foobar/123
            KEY1=value1
            KEY1=plain
        "#;
    let result = parse(&input);

    assert_eq!(result, Ok(vec![entry("KEY1", Some("plain"), None)]))
}

#[test]
fn test_preserves_spaces_in_quotes() {
    let input = r#"
            KEY1="  val  ue  1  "
            KEY2='  val  ue  2  '
            KEY3=`  val  ue  3  `
        "#;
    let result = parse(&input);

    assert_eq!(
        result,
        Ok(vec![
            entry("KEY1", Some("  val  ue  1  "), None),
            entry("KEY2", Some("  val  ue  2  "), None),
            entry("KEY3", Some("  val  ue  3  "), None),
        ])
    )
}
