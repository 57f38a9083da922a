use confpiler::error::ConfpilerError;
use confpiler::flatten_into;
use confpiler::FlatConfig;
use confpiler::FlatConfigBuilder;
use confpiler::MergeWarning;
use confpiler::Value;
use std::collections::HashMap;

fn as_map(config: &FlatConfig) -> HashMap<String, String> {
    config.items().iter().cloned().collect()
}

fn out_map(out: &Vec<(String, String)>) -> HashMap<String, String> {
    out.iter().cloned().collect()
}

#[test]
fn builder_yields_a_default_builder() {
    assert_eq!(FlatConfig::builder(), FlatConfigBuilder::default());
}

#[test]
fn merging() {
    let mut a = FlatConfig::new("origin1");
    a.set("herp", "derp");
    a.set("hoof", "changeme");
    let mut b = FlatConfig::new("origin2");
    b.set("foo", "bar");
    b.set("hoof", "doof");

    let expected = HashMap::from([
        ("foo".to_string(), "bar".to_string()),
        ("hoof".to_string(), "doof".to_string()),
        ("herp".to_string(), "derp".to_string()),
    ]);

    let warnings = a.merge(&b);

    assert_eq!(as_map(&a), expected);
    assert_eq!(a.origin(), "origin1");
    assert!(warnings.is_empty());
}

#[test]
fn merging_when_overriding_with_same_value_generates_warnings() {
    let mut a = FlatConfig::new("origin1");
    a.set("herp", "derp");
    a.set("hoof", "changeme");
    let mut b = FlatConfig::new("origin2");
    b.set("foo", "bar");
    b.set("herp", "derp");
    b.set("hoof", "changeme");

    let expected = HashMap::from([
        ("foo".to_string(), "bar".to_string()),
        ("herp".to_string(), "derp".to_string()),
        ("hoof".to_string(), "changeme".to_string()),
    ]);

    let warnings = a.merge(&b);

    assert_eq!(as_map(&a), expected);
    assert_eq!(a.origin(), "origin1");

    assert_eq!(warnings.len(), 2);

    // we're sensitive to ordering here because of the hashing, so just
    // assert individually
    assert!(warnings.contains(&MergeWarning::RedundantValue {
        overrider: "origin2".to_string(),
        key: "herp".to_string(),
        value: "derp".to_string(),
    }));

    assert!(warnings.contains(&MergeWarning::RedundantValue {
        overrider: "origin2".to_string(),
        key: "hoof".to_string(),
        value: "changeme".to_string(),
    }));
}

#[test]
fn defaults() {
    let builder = FlatConfigBuilder::default();
    assert!(builder.configs().is_empty());
    assert_eq!(builder.separator(), &"__".to_string());
    assert_eq!(builder.array_separator(), &",".to_string());
}

#[test]
fn adding_configs() {
    let mut builder = FlatConfigBuilder::default();
    builder.add_config("foo/bar");
    builder.add_config("foo/baz");

    let expected = vec!["foo/bar".to_string(), "foo/baz".to_string()];

    assert_eq!(builder.configs(), &expected);
}

#[test]
fn specifying_prefix() {
    let mut builder = FlatConfigBuilder::default();
    builder.with_prefix("foo");

    assert_eq!(builder.prefix(), &Some("FOO".to_string()));
}

#[test]
fn specifying_separator() {
    let mut builder = FlatConfigBuilder::default();
    builder.with_separator("*");

    assert_eq!(builder.separator(), &"*".to_string());
}

#[test]
fn specifying_array_separator() {
    let mut builder = FlatConfigBuilder::default();
    builder.with_array_separator("---");

    assert_eq!(builder.array_separator(), &"---".to_string());
}

// building this by hand is a bit of work, but it gives full control over the
// node types without loading anything from disk
fn valid_input() -> Vec<(String, Value)> {
    vec![
        ("foo".to_string(), Value::Float("10.2".to_string())),
        ("bar".to_string(), Value::Str("Hello".to_string())),
        (
            "baz".to_string(),
            Value::Table(vec![
                ("herp".to_string(), Value::Bool(false)),
                ("derp".to_string(), Value::Int(15)),
                (
                    "hoof".to_string(),
                    Value::Table(vec![("doof".to_string(), Value::Int(999))]),
                ),
            ]),
        ),
        (
            "biz".to_string(),
            Value::Array(vec![
                Value::Bool(false),
                Value::Int(1111),
                Value::Str("Goodbye".to_string()),
            ]),
        ),
    ]
}

#[test]
fn accepts_empty_input() {
    let mut out = Vec::new();
    let input = Vec::new();

    let res = flatten_into(&input, &mut out, None, "__", ",");

    assert!(res.is_ok());
    assert!(out.is_empty());
}

#[test]
fn flattens_valid_input() {
    let mut out = Vec::new();
    let input = valid_input();

    let expected: HashMap<String, String> = HashMap::from([
        ("FOO".to_string(), "10.2".to_string()),
        ("BAR".to_string(), "Hello".to_string()),
        ("BAZ__HERP".to_string(), "false".to_string()),
        ("BAZ__DERP".to_string(), "15".to_string()),
        ("BAZ__HOOF__DOOF".to_string(), "999".to_string()),
        ("BIZ".to_string(), "false,1111,Goodbye".to_string()),
    ]);

    let res = flatten_into(&input, &mut out, None, "__", ",");

    assert!(res.is_ok());
    assert_eq!(out_map(&out), expected);
}

#[test]
fn supports_prefixing() {
    let mut out = Vec::new();
    let input = valid_input();

    let expected: HashMap<String, String> = HashMap::from([
        ("PRE__FOO".to_string(), "10.2".to_string()),
        ("PRE__BAR".to_string(), "Hello".to_string()),
        ("PRE__BAZ__HERP".to_string(), "false".to_string()),
        ("PRE__BAZ__DERP".to_string(), "15".to_string()),
        ("PRE__BAZ__HOOF__DOOF".to_string(), "999".to_string()),
        ("PRE__BIZ".to_string(), "false,1111,Goodbye".to_string()),
    ]);

    let prefix = Some("PRE".to_string());

    let res = flatten_into(&input, &mut out, prefix.as_ref(), "__", ",");

    assert!(res.is_ok());
    assert_eq!(out_map(&out), expected);
}

#[test]
fn uses_the_specified_separators() {
    let mut out = Vec::new();
    let input = valid_input();

    let expected: HashMap<String, String> = HashMap::from([
        ("FOO".to_string(), "10.2".to_string()),
        ("BAR".to_string(), "Hello".to_string()),
        ("BAZ*HERP".to_string(), "false".to_string()),
        ("BAZ*DERP".to_string(), "15".to_string()),
        ("BAZ*HOOF*DOOF".to_string(), "999".to_string()),
        ("BIZ".to_string(), "false 1111 Goodbye".to_string()),
    ]);

    let res = flatten_into(&input, &mut out, None, "*", " ");

    assert!(res.is_ok());
    assert_eq!(out_map(&out), expected);
}

#[test]
fn errors_on_duplicate_keys() {
    let mut out = Vec::new();

    let mut invalid = valid_input();
    invalid.push(("fOo".to_string(), Value::Float("1".to_string())));

    let res = flatten_into(&invalid, &mut out, None, "__", ",");

    assert!(res.is_err());

    match res.unwrap_err() {
        ConfpilerError::DuplicateKey(key) => assert_eq!(key, "FOO".to_string()),
        e => panic!("unexpected error variant: {}", e.message()),
    };

    // including duplicates because of nesting
    let mut invalid = valid_input();
    invalid.push(("baz__herp".to_string(), Value::Bool(true)));

    let mut out = Vec::new();
    let res = flatten_into(&invalid, &mut out, None, "__", ",");

    assert!(res.is_err());

    match res.unwrap_err() {
        ConfpilerError::DuplicateKey(key) => assert_eq!(key, "BAZ__HERP".to_string()),
        e => panic!("unexpected error variant: {}", e.message()),
    };
}

#[test]
fn errors_on_unsupported_array() {
    let mut out = Vec::new();

    let mut invalid: Vec<(String, Value)> = valid_input()
        .into_iter()
        .filter(|(k, _)| k != "biz")
        .collect();
    invalid.push((
        "biz".to_string(),
        Value::Array(vec![
            Value::Bool(false),
            Value::Table(vec![]),
            Value::Str("Goodbye".to_string()),
        ]),
    ));

    let res = flatten_into(&invalid, &mut out, None, "__", ",");

    assert!(res.is_err());

    match res.unwrap_err() {
        ConfpilerError::UnsupportedArray(key) => assert_eq!(key, "BIZ".to_string()),
        e => panic!("unexpected error variant: {}", e.message()),
    };
}
