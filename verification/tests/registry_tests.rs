use yambler::{Error, SnipFault, Value, build_registry, snippet_entry, substitute};

fn st(x: &str) -> Value {
    Value::Str(x.to_string())
}

#[test]
fn snippet_entry_extracts_key_and_value() {
    let doc = Value::Mapping(vec![
        (st("key"), st("env")),
        (st("value"), Value::Integer(3)),
    ]);
    let (k, v) = snippet_entry(&doc).unwrap();
    assert_eq!(k, "env".to_string());
    assert_eq!(v, Value::Integer(3));
}

#[test]
fn snippet_entry_ignores_extra_entries() {
    let doc = Value::Mapping(vec![
        (st("comment"), st("ignored")),
        (st("key"), st("k")),
        (st("value"), Value::Null),
    ]);
    let (k, v) = snippet_entry(&doc).unwrap();
    assert_eq!(k, "k".to_string());
    assert_eq!(v, Value::Null);
}

#[test]
fn snippet_not_a_mapping_is_malformed() {
    let err = snippet_entry(&Value::Integer(1)).unwrap_err();
    assert_eq!(err, Error::MalformedSnippet(SnipFault::NotMapping));
    assert_eq!(err.message(), "Yaml snip is not a hash.");
}

#[test]
fn snippet_without_key_is_malformed() {
    let doc = Value::Mapping(vec![(st("value"), Value::Null)]);
    let err = snippet_entry(&doc).unwrap_err();
    assert_eq!(err, Error::MalformedSnippet(SnipFault::KeyMissing));
    assert_eq!(err.message(), "Yaml snip doesn't have a string key.");
}

#[test]
fn snippet_with_non_string_key_is_malformed() {
    let doc = Value::Mapping(vec![
        (st("key"), Value::Integer(1)),
        (st("value"), Value::Null),
    ]);
    let err = snippet_entry(&doc).unwrap_err();
    assert_eq!(err, Error::MalformedSnippet(SnipFault::KeyMissing));
}

#[test]
fn snippet_with_empty_key_is_malformed() {
    let doc = Value::Mapping(vec![
        (st("key"), st("")),
        (st("value"), Value::Null),
    ]);
    let err = snippet_entry(&doc).unwrap_err();
    assert_eq!(err, Error::MalformedSnippet(SnipFault::KeyEmpty));
}

#[test]
fn snippet_without_value_is_malformed() {
    let doc = Value::Mapping(vec![(st("key"), st("k"))]);
    let err = snippet_entry(&doc).unwrap_err();
    assert_eq!(err, Error::MalformedSnippet(SnipFault::ValueMissing));
    assert_eq!(err.message(), "Yaml snip doesn't have a value.");
}

#[test]
fn build_registry_reads_every_document_of_every_text() {
    let texts = vec![
        "key: a\nvalue: 1\n---\nkey: b\nvalue: two".to_string(),
        "key: c\nvalue:\n- 1\n- 2".to_string(),
    ];
    let reg = build_registry(&texts).unwrap();
    assert_eq!(substitute(&st("SNIPPET_a"), &reg).unwrap(), Value::Integer(1));
    assert_eq!(substitute(&st("SNIPPET_b"), &reg).unwrap(), st("two"));
    assert_eq!(
        substitute(&st("SNIPPET_c"), &reg).unwrap(),
        Value::Sequence(vec![Value::Integer(1), Value::Integer(2)])
    );
}

#[test]
fn build_registry_later_text_overwrites_earlier() {
    let texts = vec![
        "key: a\nvalue: first".to_string(),
        "key: a\nvalue: second".to_string(),
    ];
    let reg = build_registry(&texts).unwrap();
    assert_eq!(substitute(&st("SNIPPET_a"), &reg).unwrap(), st("second"));
}

#[test]
fn build_registry_rejects_malformed_document() {
    let texts = vec!["- just\n- a\n- list".to_string()];
    let err = build_registry(&texts).unwrap_err();
    assert_eq!(err, Error::MalformedSnippet(SnipFault::NotMapping));
}

#[test]
fn build_registry_surfaces_parse_errors() {
    let texts = vec!["key: [unclosed".to_string()];
    let err = build_registry(&texts).unwrap_err();
    assert!(matches!(err, Error::Parse(_)));
}
