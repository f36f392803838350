use yambler::{
    Error, Value, check_modes, file_name_of, frame_output, is_yaml_file_name, join_path, run,
    select_yaml_files,
};

#[test]
fn mismatched_modes_fail() {
    let err = check_modes(true, false).unwrap_err();
    assert_eq!(err, Error::ModeMismatch(true));
    assert_eq!(
        err.message(),
        "If input is a directory, output must also be a directory."
    );
    let err = check_modes(false, true).unwrap_err();
    assert_eq!(err, Error::ModeMismatch(false));
    assert_eq!(
        err.message(),
        "If input is a file, output must also be a file."
    );
    assert!(check_modes(true, true).is_ok());
    assert!(check_modes(false, false).is_ok());
}

#[test]
fn mode_mismatch_comes_before_snippet_reading() {
    // Even with a snippet text that could never parse, the mode check wins.
    let err = run(
        true,
        false,
        &"out".to_string(),
        &vec![("a.yml".to_string(), "a: 1".to_string())],
        &vec!["key: [unclosed".to_string()],
    )
    .unwrap_err();
    assert_eq!(err, Error::ModeMismatch(true));
}

#[test]
fn yaml_file_names_are_selected() {
    let names = vec![
        "a.yml".to_string(),
        "b.yaml".to_string(),
        "c.txt".to_string(),
        "noext".to_string(),
        ".yml".to_string(),
    ];
    let kept = select_yaml_files(&names);
    assert_eq!(
        kept,
        vec!["a.yml".to_string(), "b.yaml".to_string(), ".yml".to_string()]
    );
    assert!(is_yaml_file_name(&"x.yaml".to_string()));
    assert!(!is_yaml_file_name(&"x.yaml.txt".to_string()));
    assert!(!is_yaml_file_name(&"yml".to_string()));
}

#[test]
fn paths_are_joined_with_a_separator() {
    assert_eq!(
        join_path(&"out".to_string(), &"a.yml".to_string()),
        "out/a.yml".to_string()
    );
    assert_eq!(
        join_path(&"out/".to_string(), &"a.yml".to_string()),
        "out/a.yml".to_string()
    );
    assert_eq!(
        join_path(&"".to_string(), &"a.yml".to_string()),
        "a.yml".to_string()
    );
}

#[test]
fn file_names_are_the_last_path_component() {
    assert_eq!(file_name_of(&"dir/sub/x.yml".to_string()), "x.yml".to_string());
    assert_eq!(file_name_of(&"x.yml".to_string()), "x.yml".to_string());
    assert_eq!(file_name_of(&"/x.yml".to_string()), "x.yml".to_string());
    assert_eq!(file_name_of(&"dir/sub/".to_string()), "sub".to_string());
    assert_eq!(file_name_of(&"/".to_string()), "??".to_string());
    assert_eq!(file_name_of(&"dir/..".to_string()), "??".to_string());
    assert_eq!(file_name_of(&"".to_string()), "??".to_string());
}

#[test]
fn framing_alone_yields_the_header_and_documents() {
    assert_eq!(
        frame_output(&"t.yml".to_string(), &vec![]),
        "---\n# DO NOT EDIT\n# Created from template \"t.yml\".\n".to_string()
    );
    assert_eq!(
        frame_output(&"t.yml".to_string(), &vec![Value::Integer(5)]),
        "---\n# DO NOT EDIT\n# Created from template \"t.yml\".\n5".to_string()
    );
}

#[test]
fn end_to_end_mapping_substitution() {
    let outputs = run(
        false,
        false,
        &"out.yml".to_string(),
        &vec![("in.yml".to_string(), "env: SNIPPET_env".to_string())],
        &vec!["key: env\nvalue:\n  name: prod\n  region: us".to_string()],
    )
    .unwrap();
    assert_eq!(outputs.len(), 1);
    assert_eq!(outputs[0].0, "out.yml".to_string());
    assert_eq!(
        outputs[0].1,
        "---\n# DO NOT EDIT\n# Created from template \"in.yml\".\nenv:\n  name: prod\n  region: us"
            .to_string()
    );
}

#[test]
fn end_to_end_sequence_splicing() {
    let outputs = run(
        false,
        false,
        &"out.yml".to_string(),
        &vec![("in.yml".to_string(), "- SNIPPET_list\n- 9".to_string())],
        &vec!["key: list\nvalue:\n- 1\n- 2\n- 3".to_string()],
    )
    .unwrap();
    assert_eq!(outputs.len(), 1);
    assert_eq!(
        outputs[0].1,
        "---\n# DO NOT EDIT\n# Created from template \"in.yml\".\n- 1\n- 2\n- 3\n- 9".to_string()
    );
}

#[test]
fn directory_mode_produces_one_output_per_yaml_input() {
    let listed = vec![
        "a.yml".to_string(),
        "b.yaml".to_string(),
        "c.txt".to_string(),
    ];
    let kept = select_yaml_files(&listed);
    assert_eq!(kept, vec!["a.yml".to_string(), "b.yaml".to_string()]);
    let inputs: Vec<(String, String)> = kept
        .into_iter()
        .map(|name| (name, "v: 1".to_string()))
        .collect();
    let outputs = run(true, true, &"out".to_string(), &inputs, &vec![]).unwrap();
    assert_eq!(outputs.len(), 2);
    assert_eq!(outputs[0].0, "out/a.yml".to_string());
    assert_eq!(outputs[1].0, "out/b.yaml".to_string());
}

#[test]
fn empty_input_writes_only_the_header() {
    let outputs = run(
        false,
        false,
        &"out.yml".to_string(),
        &vec![("in.yml".to_string(), "".to_string())],
        &vec![],
    )
    .unwrap();
    assert_eq!(
        outputs[0].1,
        "---\n# DO NOT EDIT\n# Created from template \"in.yml\".\n".to_string()
    );
}

#[test]
fn only_the_first_document_separator_is_suppressed() {
    let outputs = run(
        false,
        false,
        &"out.yml".to_string(),
        &vec![("in.yml".to_string(), "a: 1\n---\nb: 2".to_string())],
        &vec![],
    )
    .unwrap();
    // The serializer writes each document as `---` plus the document with
    // no trailing newline; only the first separator is dropped, since the
    // header already ends with one.
    assert_eq!(
        outputs[0].1,
        "---\n# DO NOT EDIT\n# Created from template \"in.yml\".\na: 1---\nb: 2".to_string()
    );
}

#[test]
fn unresolved_snippet_aborts_the_run() {
    let err = run(
        false,
        false,
        &"out.yml".to_string(),
        &vec![("in.yml".to_string(), "a: SNIPPET_missing".to_string())],
        &vec![],
    )
    .unwrap_err();
    assert_eq!(err, Error::UnresolvedSnippet("missing".to_string()));
}

#[test]
fn bad_input_yaml_is_a_parse_error() {
    let err = run(
        false,
        false,
        &"out.yml".to_string(),
        &vec![("in.yml".to_string(), "a: [unclosed".to_string())],
        &vec![],
    )
    .unwrap_err();
    assert!(matches!(err, Error::Parse(_)));
}
