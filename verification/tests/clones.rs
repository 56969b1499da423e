use git_ast::clones::find_clones;
use git_ast::printer::{inspect, Def};

fn def(kind: &'static str, name: &str, content_hash: &str, shape_hash: &str) -> Def {
    Def {
        kind,
        name: name.to_string(),
        content_hash: content_hash.to_string(),
        shape_hash: shape_hash.to_string(),
        subtree_hashes: vec![],
    }
}

#[test]
fn no_files_gives_no_groups() {
    assert!(find_clones(&[]).is_empty());
}

#[test]
fn single_file_no_duplicates_gives_no_groups() {
    let defs = vec![
        def("fn", "foo", "aaa", "bbb"),
        def("fn", "bar", "ccc", "ddd"),
    ];
    let groups = find_clones(&[("a.rs", &defs)]);
    assert!(groups.is_empty());
}

#[test]
fn same_shape_in_one_file_is_a_clone() {
    let defs = vec![
        def("fn", "foo", "aaa", "shared"),
        def("fn", "bar", "bbb", "shared"),
    ];
    let groups = find_clones(&[("a.rs", &defs)]);
    assert_eq!(groups.len(), 1);
    assert_eq!(groups[0].shape_hash, "shared");
    assert_eq!(groups[0].occurrences.len(), 2);
    assert_eq!(groups[0].occurrences[0].name, "foo");
    assert_eq!(groups[0].occurrences[1].name, "bar");
}

#[test]
fn same_shape_across_two_files_is_a_clone() {
    let a = vec![def("fn", "foo", "aaa", "shared")];
    let b = vec![def("fn", "bar", "bbb", "shared")];
    let groups = find_clones(&[("a.rs", &a), ("b.rs", &b)]);
    assert_eq!(groups.len(), 1);
    assert_eq!(groups[0].occurrences[0].file, "a.rs");
    assert_eq!(groups[0].occurrences[1].file, "b.rs");
}

#[test]
fn content_hash_exact_clone_also_groups_by_shape() {
    // Two fns with identical name AND body → same content_hash AND shape_hash.
    let a = vec![def("fn", "foo", "same", "same")];
    let b = vec![def("fn", "foo", "same", "same")];
    let groups = find_clones(&[("a.rs", &a), ("b.rs", &b)]);
    assert_eq!(groups.len(), 1);
    assert_eq!(groups[0].occurrences.len(), 2);
}

#[test]
fn three_clones_form_one_group() {
    let a = vec![def("fn", "foo", "a1", "s1")];
    let b = vec![def("fn", "bar", "b1", "s1")];
    let c = vec![def("fn", "baz", "c1", "s1")];
    let groups = find_clones(&[("a.rs", &a), ("b.rs", &b), ("c.rs", &c)]);
    assert_eq!(groups.len(), 1);
    assert_eq!(groups[0].occurrences.len(), 3);
}

#[test]
fn different_shapes_produce_separate_groups() {
    let defs = vec![
        def("fn", "foo", "a", "s1"),
        def("fn", "bar", "b", "s1"),
        def("fn", "baz", "c", "s2"),
        def("fn", "qux", "d", "s2"),
    ];
    let groups = find_clones(&[("x.rs", &defs)]);
    assert_eq!(groups.len(), 2);
    assert_eq!(groups[0].shape_hash, "s1");
    assert_eq!(groups[1].shape_hash, "s2");
}

#[test]
fn unique_definitions_are_not_reported() {
    let a = vec![def("fn", "foo", "unique1", "unique1")];
    let b = vec![def("fn", "bar", "unique2", "unique2")];
    let groups = find_clones(&[("a.rs", &a), ("b.rs", &b)]);
    assert!(groups.is_empty());
}

#[test]
fn kind_is_preserved_from_first_occurrence() {
    let a = vec![def("navigation", "Main nav", "h1", "s1")];
    let b = vec![def("navigation", "Site nav", "h2", "s1")];
    let groups = find_clones(&[("a.html", &a), ("b.html", &b)]);
    assert_eq!(groups[0].kind, "navigation");
}

#[test]
fn output_is_sorted_by_shape_hash() {
    let defs = vec![
        def("fn", "a", "x", "zzz"),
        def("fn", "b", "y", "zzz"),
        def("fn", "c", "p", "aaa"),
        def("fn", "d", "q", "aaa"),
    ];
    let groups = find_clones(&[("f.rs", &defs)]);
    assert_eq!(groups[0].shape_hash, "aaa");
    assert_eq!(groups[1].shape_hash, "zzz");
}

#[test]
fn round_trip_through_real_rust_source() {
    let src_a = b"fn helper() -> u32 { 42 }";
    let src_b = b"fn aux() -> u32 { 42 }";
    let defs_a = inspect(src_a).unwrap();
    let defs_b = inspect(src_b).unwrap();
    // Same body, different names → identical shape_hash.
    assert_eq!(defs_a[0].shape_hash, defs_b[0].shape_hash);
    let groups = find_clones(&[("a.rs", &defs_a), ("b.rs", &defs_b)]);
    assert_eq!(groups.len(), 1);
    assert_eq!(groups[0].kind, "fn");
}

#[test]
fn groups_keep_file_then_definition_order_and_skip_singletons() {
    let a = vec![def("fn", "x", "c1", "k"), def("fn", "y", "c2", "m")];
    let b = vec![def("struct", "z", "c3", "k"), def("fn", "w", "c4", "n")];
    let groups = find_clones(&[("a.rs", &a), ("b.rs", &b)]);
    assert_eq!(groups.len(), 1);
    assert_eq!(groups[0].shape_hash, "k");
    assert_eq!(groups[0].kind, "fn");
    let names: Vec<(&str, &str)> =
        groups[0].occurrences.iter().map(|o| (o.file.as_str(), o.name.as_str())).collect();
    assert_eq!(names, vec![("a.rs", "x"), ("b.rs", "z")]);
}
