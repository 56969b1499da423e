use git_ast::json::canonicalize;
use git_ast::Error;

fn canon(s: &str) -> String {
    String::from_utf8(canonicalize(s.as_bytes()).unwrap()).unwrap()
}

#[test]
fn sorts_keys_and_normalizes_whitespace() {
    assert_eq!(canon(r#"{ "b": 1,    "a": 2 }"#), "{\n  \"a\": 2,\n  \"b\": 1\n}\n");
}

#[test]
fn json_is_idempotent() {
    let once = canonicalize(br#"{"z":[3,2,1],"a":{"d":4,"c":3}}"#).unwrap();
    let twice = canonicalize(&once).unwrap();
    assert_eq!(once, twice);
}

#[test]
fn key_order_in_input_does_not_affect_output() {
    let a = canon(r#"{"k2":2,"k1":1,"k3":{"n":[1,2,3]}}"#);
    let b = canon(r#"{"k3":{"n":[1,2,3]},"k1":1,"k2":2}"#);
    assert_eq!(a, b);
}

#[test]
fn preserves_value_semantics() {
    let src = r#"{ "b": 1, "a": [ {"y": true, "x": null} ], "s": "hi\n" }"#;
    let before: serde_json::Value = serde_json::from_str(src).unwrap();
    let after: serde_json::Value = serde_json::from_slice(&canonicalize(src.as_bytes()).unwrap()).unwrap();
    assert_eq!(before, after);
}

#[test]
fn ends_with_single_newline() {
    let out = canonicalize(br#"{"a":1}"#).unwrap();
    assert_eq!(out.last(), Some(&b'\n'));
    assert_ne!(out[out.len() - 2], b'\n');
}

#[test]
fn rejects_invalid_json() {
    assert!(matches!(canonicalize(b"{not json,}"), Err(Error::Parsing(_))));
}

#[test]
fn parse_error_message_names_invalid_json() {
    match canonicalize(b"[1,") {
        Err(Error::Parsing(m)) => assert!(m.starts_with("invalid JSON: ")),
        other => panic!("unexpected {:?}", other.map(|_| ())),
    }
}

#[test]
fn scalars_and_empty_containers_canonicalize() {
    assert_eq!(canon("  true "), "true\n");
    assert_eq!(canon("[]"), "[]\n");
    assert_eq!(canon("{}"), "{}\n");
}
