use git_ast::diff::{diff, render, Change};
use git_ast::json::JsonValue;
use serde_json::Value;

fn jv(src: &str) -> JsonValue {
    let v: Value = serde_json::from_str(src).unwrap();
    of(&v)
}

fn of(v: &Value) -> JsonValue {
    match v {
        Value::Null => JsonValue::Null,
        Value::Bool(b) => JsonValue::Bool(*b),
        Value::Number(n) => {
            if let Some(u) = n.as_u64() {
                JsonValue::PosInt(u)
            } else if let Some(i) = n.as_i64() {
                JsonValue::NegInt(i)
            } else {
                JsonValue::Float(n.as_f64().unwrap().to_bits(), n.to_string())
            }
        }
        Value::String(s) => JsonValue::Str(s.clone()),
        Value::Array(xs) => JsonValue::Array(xs.iter().map(of).collect()),
        Value::Object(m) => JsonValue::Object(m.iter().map(|(k, x)| (k.clone(), of(x))).collect()),
    }
}

fn rendered(old: &str, new: &str) -> String {
    render(&diff(&jv(old), &jv(new)))
}

#[test]
fn no_change_is_empty() {
    assert_eq!(diff(&jv(r#"{"a": 1}"#), &jv(r#"{"a": 1}"#)), Vec::<Change>::new());
}

#[test]
fn changed_scalar_at_key() {
    assert_eq!(rendered(r#"{"a": 1}"#, r#"{"a": 2}"#), "~ a: 1 -> 2\n");
}

#[test]
fn added_and_removed_keys() {
    assert_eq!(rendered(r#"{"a": 1, "b": 2}"#, r#"{"a": 1, "c": 3}"#), "- b: 2\n+ c: 3\n");
}

#[test]
fn nested_path_is_dotted() {
    assert_eq!(rendered(r#"{"o": {"x": 1, "y": 1}}"#, r#"{"o": {"x": 2, "y": 1}}"#), "~ o.x: 1 -> 2\n");
}

#[test]
fn key_reorder_is_no_diff() {
    assert_eq!(diff(&jv(r#"{"a": 1, "b": 2}"#), &jv(r#"{"b": 2, "a": 1}"#)), Vec::<Change>::new());
}

#[test]
fn array_change_is_whole_value() {
    assert_eq!(rendered(r#"{"a": [1, 2]}"#, r#"{"a": [1, 2, 3]}"#), "~ a: [1,2] -> [1,2,3]\n");
}

#[test]
fn root_scalar_change() {
    assert_eq!(rendered("1", "2"), "~ (root): 1 -> 2\n");
}

#[test]
fn type_change_at_key() {
    assert_eq!(rendered(r#"{"a": 1}"#, r#"{"a": "x"}"#), "~ a: 1 -> \"x\"\n");
}

#[test]
fn diff_reports_structured_changes_in_key_order() {
    let got = diff(&jv(r#"{"a": 1, "b": 2}"#), &jv(r#"{"a": 5, "c": 3}"#));
    assert_eq!(
        got,
        vec![
            Change::Changed { path: "a".to_string(), old: JsonValue::PosInt(1), new: JsonValue::PosInt(5) },
            Change::Removed { path: "b".to_string(), value: JsonValue::PosInt(2) },
            Change::Added { path: "c".to_string(), value: JsonValue::PosInt(3) },
        ]
    );
}

#[test]
fn rendering_escapes_strings_and_writes_objects_compactly() {
    assert_eq!(
        rendered(r#"{"s": "a\"b\n"}"#, r#"{"s": {"k": [true, null, -4]}}"#),
        "~ s: \"a\\\"b\\n\" -> {\"k\":[true,null,-4]}\n"
    );
}

#[test]
fn render_of_no_changes_is_empty() {
    assert_eq!(render(&[]), "");
}

#[test]
fn compact_rendering_matches_serde_json() {
    let docs = [
        r#"null"#,
        r#"true"#,
        r#"-17"#,
        r#"18446744073709551615"#,
        r#"1.5"#,
        r#"-0.0"#,
        r#"1e300"#,
        r#""tab\there \u0001 \u001f quote\" back\\ slash/ é ✓ \ud83d\ude00""#,
        r#"[1, [2, []], {}]"#,
        r#"{"b": {"y": null, "x": [true, false]}, "a": "z"}"#,
    ];
    for old in docs.iter() {
        for new in docs.iter() {
            if old == new {
                continue;
            }
            let o: Value = serde_json::from_str(old).unwrap();
            let n: Value = serde_json::from_str(new).unwrap();
            if o == n {
                continue;
            }
            let got = render(&[Change::Changed { path: String::new(), old: of(&o), new: of(&n) }]);
            let want = format!(
                "~ (root): {} -> {}\n",
                serde_json::to_string(&o).unwrap(),
                serde_json::to_string(&n).unwrap()
            );
            assert_eq!(got, want);
        }
    }
}
