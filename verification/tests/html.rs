use git_ast::html::{canonicalize, inspect};
use git_ast::printer::Def;

fn canon(html: &str) -> String {
    String::from_utf8(canonicalize(html.as_bytes()).unwrap()).unwrap()
}

fn defs(html: &str) -> Vec<Def> {
    inspect(html.as_bytes()).unwrap()
}

// ── canonicalize ──────────────────────────────────────────────────────────

#[test]
fn lowercase_tag_names() {
    assert!(canon("<DIV><P>hi</P></DIV>").contains("<div>"));
    assert!(canon("<DIV><P>hi</P></DIV>").contains("<p>"));
}

#[test]
fn attributes_sorted_alphabetically() {
    let out = canon(r#"<button type="button" id="x" aria-pressed="false">ok</button>"#);
    // aria-pressed < id < type
    let ap = out.find("aria-pressed").unwrap();
    let id = out.find("id=").unwrap();
    let ty = out.find("type=").unwrap();
    assert!(ap < id && id < ty, "attrs not sorted: {out}");
}

#[test]
fn values_double_quoted() {
    let out = canon(r#"<a href='/page'>link</a>"#);
    assert!(
        out.contains(r#"href="/page""#),
        "single quotes not converted: {out}"
    );
}

#[test]
fn boolean_attributes_have_no_value() {
    let out = canon(r#"<input disabled type="checkbox" />"#);
    assert!(out.contains(" disabled"), "boolean attr lost: {out}");
    assert!(!out.contains("disabled="), "boolean attr got value: {out}");
}

#[test]
fn canonicalize_is_idempotent() {
    let src = r#"<NAV id="main" aria-label="Main"><a HREF="/home">Home</a></NAV>"#;
    let once = canon(src);
    let twice = canon(&once);
    assert_eq!(once, twice, "not idempotent");
}

#[test]
fn doctype_normalized() {
    let out = canon("<!DOCTYPE HTML><html><body></body></html>");
    assert!(out.starts_with("<!DOCTYPE html>"));
}

#[test]
fn script_and_style_preserved_verbatim() {
    let src = "<script>var x={b:1,a:2};</script>";
    let out = canon(src);
    assert!(
        out.contains("var x={b:1,a:2};"),
        "script was modified: {out}"
    );
}

// ── inspect ───────────────────────────────────────────────────────────────

#[test]
fn finds_landmark_roles() {
    let ds = defs("<html><body><nav><main></main></nav></body></html>");
    let kinds: Vec<&str> = ds.iter().map(|d| d.kind).collect();
    assert!(kinds.contains(&"navigation"), "nav not found: {kinds:?}");
    assert!(kinds.contains(&"main"), "main not found: {kinds:?}");
}

#[test]
fn finds_headings_and_interactive() {
    let ds = defs("<h1>Title</h1><button>Click</button><a href='/'>Go</a>");
    let kinds: Vec<&str> = ds.iter().map(|d| d.kind).collect();
    assert!(kinds.contains(&"heading"));
    assert!(kinds.contains(&"button"));
    assert!(kinds.contains(&"link"));
}

#[test]
fn accessible_name_from_aria_label() {
    let ds = defs(r#"<nav aria-label="Main navigation"></nav>"#);
    assert_eq!(ds[0].name, "Main navigation");
}

#[test]
fn accessible_name_from_text_content() {
    let ds = defs("<button>  Submit  </button>");
    assert_eq!(ds[0].name, "Submit");
}

#[test]
fn accessible_name_from_alt() {
    let ds = defs(r#"<img alt="Company logo" />"#);
    assert_eq!(ds[0].name, "Company logo");
}

#[test]
fn aria_label_beats_text_content() {
    let ds = defs(r#"<button aria-label="Close dialog">X</button>"#);
    assert_eq!(ds[0].name, "Close dialog");
}

#[test]
fn explicit_role_overrides_tag() {
    let ds = defs(r#"<div role="button">Click me</div>"#);
    assert_eq!(ds[0].kind, "button");
}

#[test]
fn non_semantic_elements_skipped() {
    let ds = defs("<div><span>text</span></div>");
    assert!(ds.is_empty(), "div/span should not produce defs: {ds:?}");
}

#[test]
fn nested_elements_each_get_a_def() {
    let ds = defs("<nav><ul><li><a href='/'>Home</a></li></ul></nav>");
    let kinds: Vec<&str> = ds.iter().map(|d| d.kind).collect();
    assert!(kinds.contains(&"navigation"));
    assert!(kinds.contains(&"list"));
    assert!(kinds.contains(&"listitem"));
    assert!(kinds.contains(&"link"));
}

#[test]
fn content_hash_stable_across_formatting() {
    let compact = defs(r#"<button aria-pressed="false">OK</button>"#);
    let spaced = defs(r#"<button  aria-pressed="false" >OK</button>"#);
    assert_eq!(
        compact[0].content_hash, spaced[0].content_hash,
        "hash changed with whitespace"
    );
}

#[test]
fn shape_hash_differs_from_content_hash_when_named() {
    let ds = defs(r#"<nav aria-label="Main"></nav>"#);
    assert_ne!(
        ds[0].content_hash, ds[0].shape_hash,
        "content_hash and shape_hash should differ when there is a name"
    );
}

#[test]
fn shape_hash_equal_for_same_structure_different_label() {
    let a = defs(r#"<nav aria-label="Main navigation"></nav>"#);
    let b = defs(r#"<nav aria-label="Site navigation"></nav>"#);
    assert_eq!(
        a[0].shape_hash, b[0].shape_hash,
        "shape_hash should match for same structure, different label"
    );
    assert_ne!(
        a[0].content_hash, b[0].content_hash,
        "content_hash must differ for different labels"
    );
}

#[test]
fn subtree_hashes_nonempty_for_semantic_elements() {
    let ds = defs(r#"<nav aria-label="Main"><a href="/">Home</a></nav>"#);
    for d in &ds {
        assert!(
            !d.subtree_hashes.is_empty(),
            "no subtree hashes for {}",
            d.kind
        );
    }
}

#[test]
fn duplicate_attribute_keeps_the_last_value() {
    let out = canon(r#"<a href="/one" HREF='/two'>x</a>"#);
    assert!(out.contains(r#"<a href="/two">"#), "{out}");
}

#[test]
fn canonical_output_ends_with_a_line_break() {
    assert!(canon("<p>hi</p>").ends_with('\n'));
    assert!(canon("<p>hi</p>\n").ends_with("</p>\n"));
}

#[test]
fn accessible_name_collapses_inner_white_space() {
    let ds = defs("<button>  Save \n\t changes  </button>");
    assert_eq!(ds[0].name, "Save changes");
}

#[test]
fn title_is_used_when_aria_label_is_blank() {
    let ds = defs(r#"<a aria-label="  " title=" Home page ">x</a>"#);
    assert_eq!(ds[0].name, "Home page");
}

#[test]
fn presentation_role_reads_as_none() {
    let ds = defs(r#"<div role="presentation">x</div>"#);
    assert_eq!(ds[0].kind, "none");
}

#[test]
fn shape_hash_ignores_title_but_not_other_attributes() {
    let a = defs(r#"<button title="one" type="button">x</button>"#);
    let b = defs(r#"<button title="two" type="button">y</button>"#);
    let c = defs(r#"<button title="one" type="submit">x</button>"#);
    assert_eq!(a[0].shape_hash, b[0].shape_hash);
    assert_ne!(a[0].shape_hash, c[0].shape_hash);
    assert_eq!(a[0].content_hash.len(), 16);
}

#[test]
fn quotes_inside_values_are_escaped_and_stay_stable() {
    let once = canon(r#"<a title='say "hi"'>x</a>"#);
    assert!(once.contains("title=\"say &quot;hi&quot;\""), "got {once}");
    assert_eq!(canon(&once), once);
}

#[test]
fn unknown_explicit_role_skips_the_element() {
    assert!(defs(r#"<nav role="custom">x</nav>"#).is_empty());
}
