use awsm_env::EnvFormatter;
use awsm_env::Formatter;
use awsm_env::JsonFormatter;
use awsm_env::OutputEntry;
use awsm_env::ShellFormatter;

#[test]
fn test_env_output() {
    let input = vec![
        OutputEntry("KEY1", "value1"),
        OutputEntry("KEY2", "val\"ue2"),
    ];

    let formatter = EnvFormatter::new();
    let result = formatter.format(&input);
    assert_eq!(result, "KEY1=\"value1\"\nKEY2=\"val\\\"ue2\"\n")
}

#[test]
fn test_shell_output() {
    let input = vec![
        OutputEntry("KEY1", "value1"),
        OutputEntry("KEY2", "val\"ue2"),
    ];

    let formatter = ShellFormatter::new();
    let result = formatter.format(&input);
    assert_eq!(
        result,
        "export KEY1=\"value1\"\nexport KEY2=\"val\\\"ue2\"\n"
    )
}

#[test]
fn test_json_output() {
    let input = vec![
        OutputEntry("KEY1", "value1"),
        OutputEntry("KEY2", "val\"ue2"),
    ];

    let formatter = JsonFormatter::new();
    let result = formatter.format(&input);

    let mut expected = std::collections::HashMap::new();

    expected.insert("KEY1", "value1");
    expected.insert("KEY2", "val\"ue2");

    assert_eq!(
        serde_json::from_str::<serde_json::Value>(&result).unwrap(),
        serde_json::to_value(expected).unwrap()
    )
}

#[test]
fn test_env_output_matches_serde_escaping() {
    let value = "tab\tnewline\nquote\"backslash\\bell\u{07}";
    let input = vec![OutputEntry("K", value)];

    let formatter = EnvFormatter::new();
    let result = formatter.format(&input);

    let expected = format!("K={}\n", serde_json::to_string(value).unwrap());
    assert_eq!(result, expected)
}

#[test]
fn test_json_output_is_ordered_and_newline_terminated() {
    let input = vec![OutputEntry("B", "2"), OutputEntry("A", "1")];

    let formatter = JsonFormatter::new();
    let result = formatter.format(&input);

    assert_eq!(result, "{\"B\":\"2\",\"A\":\"1\"}\n")
}

#[test]
fn test_empty_renderings() {
    let input: Vec<OutputEntry> = Vec::new();

    assert_eq!(EnvFormatter::new().format(&input), "");
    assert_eq!(ShellFormatter::new().format(&input), "");
    assert_eq!(JsonFormatter::new().format(&input), "{}\n");
}
