use confpiler::error::ConfpilerError;
use confpiler::to_ascii_upper;
use confpiler::warnings_formatter;
use confpiler::FlatConfig;
use confpiler::MergeWarning;
use confpiler::Value;
use std::collections::HashMap;

fn as_map(config: &FlatConfig) -> HashMap<String, String> {
    config.items().iter().cloned().collect()
}

#[test]
fn empty_table_builds_to_empty_mapping() {
    let mut builder = FlatConfig::builder();
    builder.add_config("empty");
    let (config, warnings) = builder
        .build(&vec![Value::Table(vec![])])
        .expect("empty table should flatten cleanly");

    assert!(config.items().is_empty());
    assert!(warnings.is_empty());
}

#[test]
fn nested_scalars_flatten_exactly() {
    let tree = Value::Table(vec![
        (
            "foo".to_string(),
            Value::Table(vec![
                ("bar".to_string(), Value::Int(10)),
                ("baz".to_string(), Value::Bool(false)),
            ]),
        ),
        ("hoof".to_string(), Value::Str("doof".to_string())),
    ]);

    let mut builder = FlatConfig::builder();
    builder.add_config("one");
    let (config, warnings) = builder.build(&vec![tree]).unwrap();

    let expected = HashMap::from([
        ("FOO__BAR".to_string(), "10".to_string()),
        ("FOO__BAZ".to_string(), "false".to_string()),
        ("HOOF".to_string(), "doof".to_string()),
    ]);
    assert_eq!(as_map(&config), expected);
    assert!(warnings.is_empty());
}

#[test]
fn identical_sources_warn_once() {
    let one = Value::Table(vec![(
        "foo".to_string(),
        Value::Table(vec![("bar".to_string(), Value::Int(10))]),
    )]);
    let two = Value::Table(vec![(
        "foo".to_string(),
        Value::Table(vec![("bar".to_string(), Value::Int(10))]),
    )]);

    let mut builder = FlatConfig::builder();
    builder.add_config("source1");
    builder.add_config("source2");
    let (config, warnings) = builder.build(&vec![one, two]).unwrap();

    let expected = HashMap::from([("FOO__BAR".to_string(), "10".to_string())]);
    assert_eq!(as_map(&config), expected);

    assert_eq!(warnings.len(), 1);
    assert_eq!(
        warnings[0],
        MergeWarning::RedundantValue {
            overrider: "source2".to_string(),
            key: "FOO__BAR".to_string(),
            value: "10".to_string(),
        }
    );
}

#[test]
fn prefix_applies_to_every_key() {
    let tree = Value::Table(vec![("foo".to_string(), Value::Int(1))]);

    let mut builder = FlatConfig::builder();
    builder.add_config("one");
    builder.with_prefix("pre");
    let (config, _) = builder.build(&vec![tree]).unwrap();

    let expected = HashMap::from([("PRE__FOO".to_string(), "1".to_string())]);
    assert_eq!(as_map(&config), expected);
}

#[test]
fn no_sources_fails() {
    let builder = FlatConfig::builder();
    match builder.build(&vec![]) {
        Err(ConfpilerError::NoConfigSpecified) => {}
        _ => panic!("expected NoConfigSpecified"),
    }
}

#[test]
fn duplicate_sources_fail() {
    let mut builder = FlatConfig::builder();
    builder.add_config("same");
    builder.add_config("other");
    builder.add_config("same");
    let trees = vec![
        Value::Table(vec![]),
        Value::Table(vec![]),
        Value::Table(vec![]),
    ];
    match builder.build(&trees) {
        Err(ConfpilerError::DuplicateConfig(id)) => assert_eq!(id, "same"),
        _ => panic!("expected DuplicateConfig"),
    }
}

#[test]
fn null_is_skipped_in_tables_and_empty_in_arrays() {
    let tree = Value::Table(vec![
        ("gone".to_string(), Value::Null),
        (
            "list".to_string(),
            Value::Array(vec![Value::Null, Value::Int(1)]),
        ),
    ]);

    let mut builder = FlatConfig::builder();
    builder.add_config("one");
    let (config, _) = builder.build(&vec![tree]).unwrap();

    let expected = HashMap::from([("LIST".to_string(), ",1".to_string())]);
    assert_eq!(as_map(&config), expected);
}

#[test]
fn negative_and_extreme_integers_render_in_decimal() {
    let tree = Value::Table(vec![
        ("neg".to_string(), Value::Int(-5)),
        ("min".to_string(), Value::Int(i64::MIN)),
        ("max".to_string(), Value::Int(i64::MAX)),
        ("zero".to_string(), Value::Int(0)),
    ]);

    let mut builder = FlatConfig::builder();
    builder.add_config("one");
    let (config, _) = builder.build(&vec![tree]).unwrap();

    let expected = HashMap::from([
        ("NEG".to_string(), "-5".to_string()),
        ("MIN".to_string(), "-9223372036854775808".to_string()),
        ("MAX".to_string(), "9223372036854775807".to_string()),
        ("ZERO".to_string(), "0".to_string()),
    ]);
    assert_eq!(as_map(&config), expected);
}

#[test]
fn uppercasing_is_ascii_only() {
    assert_eq!(to_ascii_upper("hé-llo_9a"), "Hé-LLO_9A".to_string());
    assert_eq!(to_ascii_upper(""), "".to_string());

    let tree = Value::Table(vec![("héllo".to_string(), Value::Int(1))]);
    let mut builder = FlatConfig::builder();
    builder.add_config("one");
    let (config, _) = builder.build(&vec![tree]).unwrap();
    let expected = HashMap::from([("HéLLO".to_string(), "1".to_string())]);
    assert_eq!(as_map(&config), expected);
}

#[test]
fn structural_collision_is_a_duplicate_key() {
    let tree = Value::Table(vec![
        (
            "foo".to_string(),
            Value::Table(vec![("bar".to_string(), Value::Int(1))]),
        ),
        ("foo__bar".to_string(), Value::Int(2)),
    ]);
    let mut builder = FlatConfig::builder();
    builder.add_config("one");
    match builder.build(&vec![tree]) {
        Err(ConfpilerError::DuplicateKey(key)) => assert_eq!(key, "FOO__BAR"),
        _ => panic!("expected DuplicateKey"),
    }
}

#[test]
fn warning_message_is_exact() {
    let w = MergeWarning::RedundantValue {
        overrider: "b".to_string(),
        key: "K".to_string(),
        value: "v".to_string(),
    };
    assert_eq!(
        w.message(),
        "'b' is attempting to override 'K' with 'v', but the key already contains that value"
            .to_string()
    );
}

#[test]
fn error_messages_are_exact() {
    assert_eq!(
        ConfpilerError::DuplicateConfig("a".to_string()).message(),
        "the config \"a\" was specified twice".to_string()
    );
    assert_eq!(
        ConfpilerError::DuplicateKey("K".to_string()).message(),
        "the key \"K\" would be overwritten by another value in the same configuration file"
            .to_string()
    );
    assert_eq!(
        ConfpilerError::NoConfigSpecified.message(),
        "must specify at least one config path via `builder.add_config`".to_string()
    );
    assert_eq!(
        ConfpilerError::UnsupportedArray("K".to_string()).message(),
        "the array at \"K\" is unsupported (arrays must not contain arrays or maps to be considered valid)"
            .to_string()
    );
    assert_eq!(
        ConfpilerError::SourceError("id".to_string(), "cause".to_string()).message(),
        "cause".to_string()
    );
}

#[test]
fn warnings_render_in_stable_order() {
    let later = MergeWarning::RedundantValue {
        overrider: "z".to_string(),
        key: "B".to_string(),
        value: "2".to_string(),
    };
    let earlier = MergeWarning::RedundantValue {
        overrider: "a".to_string(),
        key: "A".to_string(),
        value: "1".to_string(),
    };

    let formatted = warnings_formatter(&vec![later.clone(), earlier.clone()]);
    let expected = format!("    {}\n    {}", earlier.message(), later.message());
    assert_eq!(formatted, expected);

    let as_error = ConfpilerError::from(vec![later.clone(), earlier.clone()]);
    match &as_error {
        ConfpilerError::Warnings(ws) => assert_eq!(ws.len(), 2),
        _ => panic!("expected Warnings"),
    }
    let expected_error = format!("{}\n{}", earlier.message(), later.message());
    assert_eq!(as_error.message(), expected_error);
}

#[test]
fn array_separator_applies_through_build() {
    let tree = Value::Table(vec![(
        "biz".to_string(),
        Value::Array(vec![
            Value::Bool(false),
            Value::Int(1111),
            Value::Str("Goodbye".to_string()),
        ]),
    )]);

    let mut builder = FlatConfig::builder();
    builder.add_config("one");
    builder.with_array_separator(",");
    let (config, _) = builder.build(&vec![tree]).unwrap();

    let expected = HashMap::from([("BIZ".to_string(), "false,1111,Goodbye".to_string())]);
    assert_eq!(as_map(&config), expected);
}

#[test]
fn last_source_wins_across_three() {
    let a = Value::Table(vec![("k".to_string(), Value::Int(1))]);
    let b = Value::Table(vec![("k".to_string(), Value::Int(2))]);
    let c = Value::Table(vec![("k".to_string(), Value::Int(3))]);

    let mut builder = FlatConfig::builder();
    builder.add_config("a");
    builder.add_config("b");
    builder.add_config("c");
    let (config, warnings) = builder.build(&vec![a, b, c]).unwrap();

    assert_eq!(config.get("K"), Some(&"3".to_string()));
    assert_eq!(config.items().len(), 1);
    assert!(warnings.is_empty());
}

#[test]
fn get_looks_keys_up() {
    let mut c = FlatConfig::new("o");
    c.set("A", "1");
    assert_eq!(c.get("A"), Some(&"1".to_string()));
    assert_eq!(c.get("B"), None);
    c.set("A", "2");
    assert_eq!(c.get("A"), Some(&"2".to_string()));
    assert_eq!(c.items().len(), 1);
}
