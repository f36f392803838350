use yambler::{Error, Registry, Value, substitute};

fn st(x: &str) -> Value {
    Value::Str(x.to_string())
}

fn num(i: i64) -> Value {
    Value::Integer(i)
}

fn seq_of(elems: Vec<Value>) -> Value {
    Value::Sequence(elems)
}

fn map_of(pairs: Vec<(Value, Value)>) -> Value {
    Value::Mapping(pairs)
}

#[test]
fn no_placeholder_is_identity() {
    let mut reg = Registry::new();
    reg.insert("a".to_string(), num(42));
    let node = map_of(vec![
        (st("name"), st("prod")),
        (st("ports"), seq_of(vec![num(1), num(2)])),
        (st("flag"), Value::Boolean(true)),
        (st("nil"), Value::Null),
        (st("rate"), Value::Real("1.5".to_string())),
    ]);
    let expected = map_of(vec![
        (st("name"), st("prod")),
        (st("ports"), seq_of(vec![num(1), num(2)])),
        (st("flag"), Value::Boolean(true)),
        (st("nil"), Value::Null),
        (st("rate"), Value::Real("1.5".to_string())),
    ]);
    assert_eq!(substitute(&node, &reg).unwrap(), expected);
}

#[test]
fn scalar_placeholder_is_replaced() {
    let mut reg = Registry::new();
    reg.insert("env".to_string(), st("prod"));
    assert_eq!(substitute(&st("SNIPPET_env"), &reg).unwrap(), st("prod"));
}

#[test]
fn non_sequence_value_stays_one_element() {
    let mut reg = Registry::new();
    reg.insert("a".to_string(), st("x"));
    let node = seq_of(vec![st("SNIPPET_a"), num(1)]);
    assert_eq!(
        substitute(&node, &reg).unwrap(),
        seq_of(vec![st("x"), num(1)])
    );
}

#[test]
fn sequence_value_is_spliced() {
    let mut reg = Registry::new();
    reg.insert("a".to_string(), seq_of(vec![num(1), num(2), num(3)]));
    let node = seq_of(vec![st("SNIPPET_a"), num(9)]);
    assert_eq!(
        substitute(&node, &reg).unwrap(),
        seq_of(vec![num(1), num(2), num(3), num(9)])
    );
}

#[test]
fn literal_nested_sequence_is_not_spliced() {
    let reg = Registry::new();
    let node = seq_of(vec![seq_of(vec![num(1), num(2)]), num(3)]);
    let expected = seq_of(vec![seq_of(vec![num(1), num(2)]), num(3)]);
    assert_eq!(substitute(&node, &reg).unwrap(), expected);
}

#[test]
fn mapping_valued_placeholder_stays_one_element() {
    let mut reg = Registry::new();
    reg.insert("m".to_string(), map_of(vec![(st("k"), num(1))]));
    let node = seq_of(vec![st("SNIPPET_m"), num(2)]);
    assert_eq!(
        substitute(&node, &reg).unwrap(),
        seq_of(vec![map_of(vec![(st("k"), num(1))]), num(2)])
    );
}

#[test]
fn snippets_reference_other_snippets() {
    let mut reg = Registry::new();
    reg.insert("outer".to_string(), map_of(vec![(st("n"), st("SNIPPET_inner"))]));
    reg.insert("inner".to_string(), num(7));
    assert_eq!(
        substitute(&st("SNIPPET_outer"), &reg).unwrap(),
        map_of(vec![(st("n"), num(7))])
    );
}

#[test]
fn identical_placeholders_resolve_independently() {
    let mut reg = Registry::new();
    reg.insert("a".to_string(), num(5));
    let node = seq_of(vec![st("SNIPPET_a"), st("SNIPPET_a")]);
    assert_eq!(
        substitute(&node, &reg).unwrap(),
        seq_of(vec![num(5), num(5)])
    );
}

#[test]
fn circular_reference_mentions_both_keys() {
    let mut reg = Registry::new();
    reg.insert("a".to_string(), st("SNIPPET_b"));
    reg.insert("b".to_string(), st("SNIPPET_a"));
    let err = substitute(&st("SNIPPET_a"), &reg).unwrap_err();
    assert_eq!(
        err,
        Error::CircularReference(vec!["a".to_string(), "b".to_string()], "a".to_string())
    );
    let msg = err.message();
    assert!(msg.contains("a"));
    assert!(msg.contains("b"));
    assert_eq!(msg, "Circular replacement: [\"a\", \"b\"] -> a");
}

#[test]
fn trail_keys_are_escaped_in_the_message() {
    let err = Error::CircularReference(
        vec!["a\"b".to_string(), "c\\d".to_string()],
        "a\"b".to_string(),
    );
    assert_eq!(
        err.message(),
        "Circular replacement: [\"a\\\"b\", \"c\\\\d\"] -> a\"b"
    );
}

#[test]
fn self_reference_is_circular() {
    let mut reg = Registry::new();
    reg.insert("a".to_string(), st("SNIPPET_a"));
    let err = substitute(&st("SNIPPET_a"), &reg).unwrap_err();
    assert_eq!(
        err,
        Error::CircularReference(vec!["a".to_string()], "a".to_string())
    );
}

#[test]
fn unresolved_snippet_names_the_key() {
    let reg = Registry::new();
    let err = substitute(&st("SNIPPET_x"), &reg).unwrap_err();
    assert_eq!(err, Error::UnresolvedSnippet("x".to_string()));
    assert_eq!(err.message(), "No snippet for SNIPPET_x");
}

#[test]
fn mapping_keys_are_never_substituted() {
    let mut reg = Registry::new();
    reg.insert("a".to_string(), st("replaced"));
    let node = map_of(vec![(st("SNIPPET_a"), st("SNIPPET_a"))]);
    assert_eq!(
        substitute(&node, &reg).unwrap(),
        map_of(vec![(st("SNIPPET_a"), st("replaced"))])
    );
}

#[test]
fn prefix_is_case_sensitive_and_exact() {
    let reg = Registry::new();
    assert_eq!(substitute(&st("snippet_a"), &reg).unwrap(), st("snippet_a"));
    assert_eq!(substitute(&st("SNIPPET"), &reg).unwrap(), st("SNIPPET"));
    assert_eq!(substitute(&st("a SNIPPET_b"), &reg).unwrap(), st("a SNIPPET_b"));
}

#[test]
fn empty_key_placeholder_is_looked_up() {
    let reg = Registry::new();
    let err = substitute(&st("SNIPPET_"), &reg).unwrap_err();
    assert_eq!(err, Error::UnresolvedSnippet(String::new()));
}

#[test]
fn last_insertion_wins() {
    let mut reg = Registry::new();
    reg.insert("a".to_string(), num(1));
    reg.insert("a".to_string(), num(2));
    assert_eq!(substitute(&st("SNIPPET_a"), &reg).unwrap(), num(2));
    assert_eq!(reg.get(&"a".to_string()), Some(&num(2)));
    assert_eq!(reg.get(&"b".to_string()), None);
}
