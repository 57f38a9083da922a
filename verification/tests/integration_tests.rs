use confpiler::error::ConfpilerError;
use confpiler::FlatConfig;
use confpiler::MergeWarning;
use confpiler::Value;
use std::collections::HashMap;

// These are all effectively "happy path" tests that serve as smoke tests.
// The trees stand in for the on-disk fixtures, one per source identifier,
// exactly as the external loader would hand them over.

fn as_map(config: &FlatConfig) -> HashMap<String, String> {
    config.items().iter().cloned().collect()
}

fn file_one() -> Value {
    Value::Table(vec![
        (
            "foo".to_string(),
            Value::Table(vec![
                ("bar".to_string(), Value::Int(10)),
                ("baz".to_string(), Value::Float("99.9".to_string())),
            ]),
        ),
        (
            "hoof".to_string(),
            Value::Array(vec![
                Value::Bool(true),
                Value::Bool(false),
                Value::Str("hello".to_string()),
            ]),
        ),
        (
            "doof".to_string(),
            Value::Table(vec![(
                "herp".to_string(),
                Value::Table(vec![(
                    "derp".to_string(),
                    Value::Str("goodbye".to_string()),
                )]),
            )]),
        ),
        (
            "under_scored".to_string(),
            Value::Table(vec![(
                "key".to_string(),
                Value::Str("https://foo.bar".to_string()),
            )]),
        ),
    ])
}

fn file_two() -> Value {
    Value::Table(vec![
        (
            "foo".to_string(),
            Value::Table(vec![(
                "baz".to_string(),
                Value::Float("222.2".to_string()),
            )]),
        ),
        (
            "hoof".to_string(),
            Value::Array(vec![
                Value::Str("arrays".to_string()),
                Value::Str("are".to_string()),
                Value::Str("replaced".to_string()),
                Value::Str("not".to_string()),
                Value::Str("merged".to_string()),
            ]),
        ),
    ])
}

fn file_three() -> Value {
    Value::Table(vec![("another".to_string(), Value::Str("one".to_string()))])
}

fn file_two_warnings() -> Value {
    Value::Table(vec![(
        "foo".to_string(),
        Value::Table(vec![
            ("bar".to_string(), Value::Int(10)),
            ("baz".to_string(), Value::Float("333.3".to_string())),
        ]),
    )])
}

fn file_three_warnings() -> Value {
    Value::Table(vec![(
        "doof".to_string(),
        Value::Table(vec![(
            "herp".to_string(),
            Value::Table(vec![(
                "derp".to_string(),
                Value::Str("goodbye".to_string()),
            )]),
        )]),
    )])
}

#[test]
fn loading_single_file() {
    let expected = HashMap::from([
        ("FOO__BAR".to_string(), "10".to_string()),
        ("FOO__BAZ".to_string(), "99.9".to_string()),
        ("HOOF".to_string(), "true,false,hello".to_string()),
        ("DOOF__HERP__DERP".to_string(), "goodbye".to_string()),
        ("UNDER_SCORED__KEY".to_string(), "https://foo.bar".to_string()),
    ]);

    let mut builder = FlatConfig::builder();
    builder.add_config("tests/fixtures/file_one");
    let (config, warnings) = builder
        .build(&vec![file_one()])
        .expect("Failed to construct config");

    assert!(warnings.is_empty());

    assert_eq!(as_map(&config), expected);
}

#[test]
fn specifying_separators() {
    let expected = HashMap::from([
        ("FOO_BAR".to_string(), "10".to_string()),
        ("FOO_BAZ".to_string(), "99.9".to_string()),
        ("HOOF".to_string(), "true false hello".to_string()),
        ("DOOF_HERP_DERP".to_string(), "goodbye".to_string()),
        ("UNDER_SCORED_KEY".to_string(), "https://foo.bar".to_string()),
    ]);

    let mut builder = FlatConfig::builder();
    builder.add_config("tests/fixtures/file_one");
    builder.with_separator("_");
    builder.with_array_separator(" ");
    let (config, warnings) = builder
        .build(&vec![file_one()])
        .expect("Failed to construct config");

    assert!(warnings.is_empty());
    assert_eq!(as_map(&config), expected);
}

#[test]
fn multiple_files() {
    let expected = HashMap::from([
        ("FOO__BAR".to_string(), "10".to_string()),
        ("FOO__BAZ".to_string(), "222.2".to_string()),
        ("HOOF".to_string(), "arrays,are,replaced,not,merged".to_string()),
        ("DOOF__HERP__DERP".to_string(), "goodbye".to_string()),
        ("UNDER_SCORED__KEY".to_string(), "https://foo.bar".to_string()),
        ("ANOTHER".to_string(), "one".to_string()),
    ]);

    let mut builder = FlatConfig::builder();
    builder.add_config("tests/fixtures/file_one");
    builder.add_config("tests/fixtures/file_two");
    builder.add_config("tests/fixtures/file_three");
    let (config, warnings) = builder
        .build(&vec![file_one(), file_two(), file_three()])
        .expect("Failed to construct config");

    assert!(warnings.is_empty());
    assert_eq!(as_map(&config), expected);
}

#[test]
fn generating_warnings() {
    let expected = HashMap::from([
        ("FOO__BAR".to_string(), "10".to_string()),
        ("FOO__BAZ".to_string(), "333.3".to_string()),
        ("HOOF".to_string(), "true,false,hello".to_string()),
        ("DOOF__HERP__DERP".to_string(), "goodbye".to_string()),
        ("UNDER_SCORED__KEY".to_string(), "https://foo.bar".to_string()),
    ]);

    let mut builder = FlatConfig::builder();
    builder.add_config("tests/fixtures/file_one");
    builder.add_config("tests/fixtures/file_two_warnings");
    builder.add_config("tests/fixtures/file_three_warnings");
    let (config, warnings) = builder
        .build(&vec![file_one(), file_two_warnings(), file_three_warnings()])
        .expect("Failed to construct config");

    assert_eq!(warnings.len(), 2);

    assert!(warnings.contains(&MergeWarning::RedundantValue {
        overrider: "tests/fixtures/file_two_warnings".to_string(),
        key: "FOO__BAR".to_string(),
        value: "10".to_string(),
    }));

    assert!(warnings.contains(&MergeWarning::RedundantValue {
        overrider: "tests/fixtures/file_three_warnings".to_string(),
        key: "DOOF__HERP__DERP".to_string(),
        value: "goodbye".to_string(),
    }));

    assert_eq!(as_map(&config), expected);
}

#[test]
fn invalid_configurations() {
    let duplicate_key = Value::Table(vec![
        ("foo".to_string(), Value::Int(1)),
        ("fOo".to_string(), Value::Int(2)),
    ]);
    let mut builder = FlatConfig::builder();
    builder.add_config("tests/fixtures/duplicate_key");
    let res = builder.build(&vec![duplicate_key]);

    assert!(res.is_err());

    let invalid_array = Value::Table(vec![(
        "biz".to_string(),
        Value::Array(vec![
            Value::Bool(false),
            Value::Table(vec![]),
            Value::Str("x".to_string()),
        ]),
    )]);
    let mut builder = FlatConfig::builder();
    builder.add_config("tests/fixtures/invalid_array");
    let res = builder.build(&vec![invalid_array]);

    assert!(res.is_err());
}
