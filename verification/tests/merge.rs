use git_ast::json::JsonValue;
use git_ast::merge::{merge3, Merge3};
use serde_json::Value;

/// A JSON document as the library's value: objects keep serde's sorted key order.
fn jv(src: &str) -> JsonValue {
    let v: Value = serde_json::from_str(src).unwrap();
    of(&v)
}

fn of(v: &Value) -> JsonValue {
    match v {
        Value::Null => JsonValue::Null,
        Value::Bool(b) => JsonValue::Bool(*b),
        Value::Number(n) => {
            if let Some(u) = n.as_u64() {
                JsonValue::PosInt(u)
            } else if let Some(i) = n.as_i64() {
                JsonValue::NegInt(i)
            } else {
                JsonValue::Float(n.as_f64().unwrap().to_bits(), n.to_string())
            }
        }
        Value::String(s) => JsonValue::Str(s.clone()),
        Value::Array(xs) => JsonValue::Array(xs.iter().map(of).collect()),
        Value::Object(m) => JsonValue::Object(m.iter().map(|(k, x)| (k.clone(), of(x))).collect()),
    }
}

fn m(b: &str, o: &str, t: &str) -> Merge3 {
    merge3(&jv(b), &jv(o), &jv(t))
}

fn clean(s: &str) -> Merge3 {
    Merge3::Clean(jv(s))
}

#[test]
fn no_change_is_clean_base() {
    assert_eq!(m(r#"{"a": 1}"#, r#"{"a": 1}"#, r#"{"a": 1}"#), clean(r#"{"a": 1}"#));
}

#[test]
fn only_ours_changed() {
    assert_eq!(m(r#"{"a": 1}"#, r#"{"a": 2}"#, r#"{"a": 1}"#), clean(r#"{"a": 2}"#));
}

#[test]
fn only_theirs_changed() {
    assert_eq!(m(r#"{"a": 1}"#, r#"{"a": 1}"#, r#"{"a": 9}"#), clean(r#"{"a": 9}"#));
}

#[test]
fn different_keys_merge_cleanly() {
    let r = m(r#"{"a": 1, "b": 1}"#, r#"{"a": 2, "b": 1}"#, r#"{"a": 1, "b": 3}"#);
    assert_eq!(r, clean(r#"{"a": 2, "b": 3}"#));
}

#[test]
fn same_key_diverges_conflicts() {
    assert_eq!(m(r#"{"a": 1}"#, r#"{"a": 2}"#, r#"{"a": 3}"#), Merge3::Conflict);
}

#[test]
fn add_distinct_keys_merges() {
    let r = m("{}", r#"{"a": 1}"#, r#"{"b": 2}"#);
    assert_eq!(r, clean(r#"{"a": 1, "b": 2}"#));
}

#[test]
fn add_same_key_differently_conflicts() {
    assert_eq!(m("{}", r#"{"a": 1}"#, r#"{"a": 2}"#), Merge3::Conflict);
}

#[test]
fn delete_one_side_keep_other_unchanged_deletes() {
    let r = m(r#"{"a": 1, "b": 1}"#, r#"{"b": 1}"#, r#"{"a": 1, "b": 1}"#);
    assert_eq!(r, clean(r#"{"b": 1}"#));
}

#[test]
fn edit_delete_conflicts() {
    assert_eq!(m(r#"{"a": 1}"#, r#"{"a": 2}"#, "{}"), Merge3::Conflict);
}

#[test]
fn nested_objects_different_subkeys_merge() {
    let r = m(
        r#"{"o": {"x": 1, "y": 1}}"#,
        r#"{"o": {"x": 2, "y": 1}}"#,
        r#"{"o": {"x": 1, "y": 3}}"#,
    );
    assert_eq!(r, clean(r#"{"o": {"x": 2, "y": 3}}"#));
}

#[test]
fn both_changed_arrays_conflict() {
    assert_eq!(m(r#"{"a": [1]}"#, r#"{"a": [1, 2]}"#, r#"{"a": [1, 3]}"#), Merge3::Conflict);
}

#[test]
fn symmetry_ours_theirs() {
    let cases = [
        (r#"{"a": 1}"#, r#"{"a": 2}"#, r#"{"a": 1}"#),
        (r#"{"a": 1, "b": 1}"#, r#"{"a": 2, "b": 1}"#, r#"{"a": 1, "b": 3}"#),
        (r#"{"a": 1}"#, r#"{"a": 2}"#, r#"{"a": 3}"#),
    ];
    for (b, o, t) in cases {
        assert_eq!(m(b, o, t), m(b, t, o));
    }
}

fn samples() -> Vec<JsonValue> {
    [
        "null",
        "true",
        "1",
        "\"s\"",
        "[1, 2, 3]",
        r#"{"a": 1}"#,
        r#"{"a": 1, "b": {"c": 2}}"#,
        r#"{"x": [1, {"y": 2}], "z": "k"}"#,
    ]
    .iter()
    .map(|s| jv(s))
    .collect()
}

#[test]
fn idempotence_merge3_v_v_v_is_v() {
    for v in samples() {
        assert_eq!(merge3(&v, &v, &v), Merge3::Clean(v.clone()), "merge3(v,v,v) == v");
    }
}

#[test]
fn only_ours_changed_takes_ours() {
    let base = jv(r#"{"k": 0}"#);
    for v in samples() {
        assert_eq!(merge3(&base, &v, &base), Merge3::Clean(v.clone()));
    }
}

#[test]
fn only_theirs_changed_takes_theirs() {
    let base = jv(r#"{"k": 0}"#);
    for v in samples() {
        assert_eq!(merge3(&base, &base, &v), Merge3::Clean(v.clone()));
    }
}

#[test]
fn symmetry_swapping_ours_and_theirs() {
    let base = jv(r#"{"a": 0, "b": 0, "o": {"x": 0, "y": 0}}"#);
    let s = samples();
    for a in &s {
        for b in &s {
            assert_eq!(merge3(&base, a, b), merge3(&base, b, a), "symmetry failed for a={:?}, b={:?}", a, b);
        }
    }
}

#[test]
fn conformance_vectors_match_expectation() {
    // (name, base, ours, theirs, expected clean value or None for a conflict)
    let vectors: [(&str, &str, &str, &str, Option<&str>); 6] = [
        ("identical", r#"{"a":1}"#, r#"{"a":1}"#, r#"{"a":1}"#, Some(r#"{"a":1}"#)),
        ("same change both sides", r#"{"a":1}"#, r#"{"a":5}"#, r#"{"a":5}"#, Some(r#"{"a":5}"#)),
        ("scalar root divergence", "1", "2", "3", None),
        ("type change vs edit", r#"{"a":1}"#, r#"{"a":"x"}"#, r#"{"a":2}"#, None),
        ("delete vs delete", r#"{"a":1,"b":2}"#, r#"{"b":2}"#, r#"{"b":2}"#, Some(r#"{"b":2}"#)),
        ("deep disjoint edits", r#"{"p":{"q":{"r":1,"s":1}}}"#, r#"{"p":{"q":{"r":2,"s":1}}}"#,
            r#"{"p":{"q":{"r":1,"s":2}}}"#, Some(r#"{"p":{"q":{"r":2,"s":2}}}"#)),
    ];
    for (name, b, o, t, want) in vectors {
        match want {
            None => assert_eq!(m(b, o, t), Merge3::Conflict, "vector `{}`: expected conflict", name),
            Some(w) => assert_eq!(m(b, o, t), clean(w), "vector `{}`: expected clean merge", name),
        }
    }
}

#[test]
fn object_against_scalar_base_conflicts_when_both_change() {
    assert_eq!(m("1", r#"{"a":1}"#, r#"{"b":1}"#), Merge3::Conflict);
}

#[test]
fn same_change_on_both_sides_is_clean() {
    assert_eq!(m(r#"{"a":1}"#, r#"{"a":2}"#, r#"{"a":2}"#), clean(r#"{"a":2}"#));
    assert_eq!(
        m(r#"{"a":1,"b":1,"c":1}"#, r#"{"a":2,"b":5,"c":1}"#, r#"{"a":2,"b":1,"c":7}"#),
        clean(r#"{"a":2,"b":5,"c":7}"#)
    );
    assert_eq!(m(r#"{"a":1,"b":1}"#, r#"{"b":1}"#, r#"{"b":3}"#), clean(r#"{"b":3}"#));
}
