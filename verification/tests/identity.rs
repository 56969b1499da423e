use git_ast::identity::{match_defs, render, Correspondence};
use git_ast::printer::{inspect, Def};

fn defs(src: &str) -> Vec<Def> {
    inspect(src.as_bytes()).unwrap()
}

fn matched(old: &str, new: &str) -> Vec<Correspondence> {
    match_defs(&defs(old), &defs(new))
}

#[test]
fn unchanged_even_when_reordered() {
    // Same two fns, reversed order, reformatted → both Unchanged (no Moved).
    let cs = matched(
        "fn a()->i32{1}\nfn b()->i32{2}",
        "fn b() -> i32 {\n    2\n}\nfn a()->i32{1}",
    );
    assert_eq!(
        cs,
        vec![
            Correspondence::Unchanged { name: "a".into() },
            Correspondence::Unchanged { name: "b".into() },
        ]
    );
}

#[test]
fn rename_with_unchanged_body() {
    let cs = matched(
        "fn oldName(x: i32) -> i32 { x + 1 }",
        "fn newName(x: i32) -> i32 { x + 1 }",
    );
    assert_eq!(
        cs,
        vec![Correspondence::Renamed {
            from: "oldName".into(),
            to: "newName".into()
        }]
    );
}

#[test]
fn same_name_edited_body_is_modified() {
    let cs = matched("fn f() -> i32 { 1 }", "fn f() -> i32 { 2 }");
    assert_eq!(cs, vec![Correspondence::Modified { name: "f".into() }]);
}

#[test]
fn added_and_removed() {
    // Genuinely dissimilar bodies → below the fuzzy threshold → add/remove.
    let cs = matched(
        "fn gone() -> i32 { 1 }",
        "fn fresh(a: i32, b: i32) -> i32 { a * b - a + b + 42 }",
    );
    assert_eq!(
        cs,
        vec![
            Correspondence::Removed {
                name: "gone".into()
            },
            Correspondence::Added {
                name: "fresh".into()
            },
        ]
    );
}

#[test]
fn renamed_and_edited_is_a_fuzzy_match() {
    // Different name AND a small body edit → recognized as the same node.
    let cs = matched(
        "fn parseConfig(s: i32) -> i32 { let x = s + 1; x * 2 }",
        "fn loadSettings(s: i32) -> i32 { let x = s + 1; x * 3 }",
    );
    match cs.as_slice() {
        [Correspondence::RenamedEdited {
            from,
            to,
            similarity,
        }] => {
            assert_eq!(
                (from.as_str(), to.as_str()),
                ("parseConfig", "loadSettings")
            );
            // Structural Dice: shared subtrees, minus the edited node's
            // ancestor chain. Above the match threshold, below string Dice.
            assert!(*similarity >= 50, "similarity was {similarity}");
        }
        other => panic!("expected one RenamedEdited, got {other:?}"),
    }
}

#[test]
fn reordered_and_edited_matches_structurally() {
    // Statements reordered AND one edited, plus renamed. The Merkle subtree
    // multiset is order-independent, so the moved `let` statements still match
    // — recognized as the same node where string similarity would be shakier.
    let cs = matched(
        "fn f(a: i32, b: i32) -> i32 { let x = a + 1; let y = b + 2; x * y }",
        "fn g(a: i32, b: i32) -> i32 { let y = b + 2; let x = a + 1; x + y }",
    );
    match cs.as_slice() {
        [Correspondence::RenamedEdited { from, to, .. }] => {
            assert_eq!((from.as_str(), to.as_str()), ("f", "g"));
        }
        other => panic!("expected RenamedEdited f -> g, got {other:?}"),
    }
}

#[test]
fn dissimilar_bodies_do_not_fuzzy_match() {
    // Different name and an unrelated body → add/remove, not a fuzzy match.
    let cs = matched(
        "fn alpha() -> i32 { 1 + 2 + 3 }",
        "fn omega(a: i32, b: i32) -> i32 { let p = a + b; let q = a - b; helper(p, q) }",
    );
    assert_eq!(
        cs,
        vec![
            Correspondence::Removed {
                name: "alpha".into()
            },
            Correspondence::Added {
                name: "omega".into()
            },
        ]
    );
}

#[test]
fn mixed_change_set() {
    let cs = matched(
        "fn keep()->i32{1}\nfn edit()->i32{2}\nfn old()->i32{3}\nfn drop()->i32{4}",
        "fn keep()->i32{1}\nfn edit()->i32{9}\nfn renamed()->i32{3}\nfn brand(a:i32,b:i32)->i32{a*b+a-b}",
    );
    assert_eq!(
        cs,
        vec![
            Correspondence::Unchanged {
                name: "keep".into()
            },
            Correspondence::Modified {
                name: "edit".into()
            },
            Correspondence::Renamed {
                from: "old".into(),
                to: "renamed".into()
            },
            Correspondence::Removed {
                name: "drop".into()
            },
            Correspondence::Added {
                name: "brand".into()
            },
        ]
    );
}

#[test]
fn name_match_wins_over_rename_when_ambiguous() {
    // old foo(1); new foo(2) + bar(1). foo stays foo (Modified), bar is Added
    // — name-stability beats the body-shape rename signal.
    let cs = matched("fn foo()->i32{1}", "fn foo()->i32{2}\nfn bar()->i32{1}");
    assert_eq!(
        cs,
        vec![
            Correspondence::Modified { name: "foo".into() },
            Correspondence::Added { name: "bar".into() },
        ]
    );
}

#[test]
fn recursive_rename_is_recovered_by_fuzzy() {
    // A recursive body references the old name, so the *exact* shape hashes
    // differ (the body changed too). The fuzzy pass recovers it: the bodies
    // are still highly similar, so it reads as renamed-and-edited — not a
    // spurious remove/add.
    let cs = matched(
        "fn fac(n: i32) -> i32 { fac(n) }",
        "fn factorial(n: i32) -> i32 { factorial(n) }",
    );
    match cs.as_slice() {
        [Correspondence::RenamedEdited { from, to, .. }] => {
            assert_eq!((from.as_str(), to.as_str()), ("fac", "factorial"));
        }
        other => panic!("expected RenamedEdited, got {other:?}"),
    }
}

fn def(name: &str, content: &str, shape: &str, subtrees: Vec<u64>) -> Def {
    Def {
        kind: "fn",
        name: name.to_string(),
        content_hash: content.to_string(),
        shape_hash: shape.to_string(),
        subtree_hashes: subtrees,
    }
}

#[test]
fn matching_a_version_against_itself_is_all_unchanged() {
    let d = vec![def("a", "1", "s", vec![1]), def("b", "2", "t", vec![2]), def("a2", "1", "s", vec![1])];
    let cs = match_defs(&d, &d);
    assert_eq!(
        cs,
        vec![
            Correspondence::Unchanged { name: "a".into() },
            Correspondence::Unchanged { name: "b".into() },
            Correspondence::Unchanged { name: "a2".into() },
        ]
    );
}

#[test]
fn fuzzy_similarity_is_a_rounded_dice_percentage() {
    // |A| = 3, |B| = 4, |A ∩ B| = 2: Dice = 4/7 = 57.14..% -> 57.
    let old = vec![def("x", "c1", "s1", vec![1, 2, 3])];
    let new = vec![def("y", "c2", "s2", vec![1, 2, 9, 9])];
    assert_eq!(
        match_defs(&old, &new),
        vec![Correspondence::RenamedEdited { from: "x".into(), to: "y".into(), similarity: 57 }]
    );
    // Exactly one half reaches the threshold: |A| = |B| = 2, one shared.
    let old = vec![def("x", "c1", "s1", vec![1, 2])];
    let new = vec![def("y", "c2", "s2", vec![1, 3])];
    assert_eq!(
        match_defs(&old, &new),
        vec![Correspondence::RenamedEdited { from: "x".into(), to: "y".into(), similarity: 50 }]
    );
    // Below one half: removed and added.
    let old = vec![def("x", "c1", "s1", vec![1, 2, 3])];
    let new = vec![def("y", "c2", "s2", vec![1, 4, 5])];
    assert_eq!(
        match_defs(&old, &new),
        vec![Correspondence::Removed { name: "x".into() }, Correspondence::Added { name: "y".into() }]
    );
}

#[test]
fn fuzzy_pass_prefers_the_most_similar_pair() {
    let old = vec![def("p", "c1", "s1", vec![1, 2, 3, 4]), def("q", "c2", "s2", vec![1, 2, 3, 4])];
    let new = vec![def("r", "c3", "s3", vec![1, 2, 7, 8]), def("s", "c4", "s4", vec![1, 2, 3, 9])];
    assert_eq!(
        match_defs(&old, &new),
        vec![
            Correspondence::RenamedEdited { from: "p".into(), to: "s".into(), similarity: 75 },
            Correspondence::RenamedEdited { from: "q".into(), to: "r".into(), similarity: 50 },
        ]
    );
}

#[test]
fn empty_subtree_sets_count_as_identical() {
    let old = vec![def("x", "c1", "s1", vec![])];
    let new = vec![def("y", "c2", "s2", vec![])];
    assert_eq!(
        match_defs(&old, &new),
        vec![Correspondence::RenamedEdited { from: "x".into(), to: "y".into(), similarity: 100 }]
    );
}

#[test]
fn render_lists_one_line_per_correspondence() {
    let cs = vec![
        Correspondence::Unchanged { name: "a".into() },
        Correspondence::Renamed { from: "b".into(), to: "c".into() },
        Correspondence::RenamedEdited { from: "d".into(), to: "e".into(), similarity: 7 },
        Correspondence::Modified { name: "f".into() },
        Correspondence::Added { name: "g".into() },
        Correspondence::Removed { name: "h".into() },
    ];
    assert_eq!(
        render(&cs),
        "unchanged  a\nrenamed    b -> c\nrenamed+   d -> e (7% similar)\nmodified   f\nadded      g\nremoved    h\n"
    );
}

#[test]
fn every_definition_of_each_side_is_accounted_for_once() {
    let old = vec![
        def("a", "c1", "s1", vec![1, 2]),
        def("b", "c2", "s2", vec![3]),
        def("c", "c3", "s3", vec![4, 5, 6]),
        def("gone", "c9", "s9", vec![99]),
    ];
    let new = vec![
        def("a", "c1x", "s1x", vec![1, 2, 7]),
        def("bb", "c2x", "s2", vec![3]),
        def("c", "c3", "s3", vec![4, 5, 6]),
        def("fresh", "c8", "s8", vec![42]),
        def("fresh2", "c7", "s7", vec![43]),
    ];
    let cs = match_defs(&old, &new);
    let olds = cs.iter().filter(|c| !matches!(c, Correspondence::Added { .. })).count();
    let news = cs.iter().filter(|c| !matches!(c, Correspondence::Removed { .. })).count();
    assert_eq!(olds, old.len());
    assert_eq!(news, new.len());
}

#[test]
fn a_permutation_with_duplicate_bodies_is_all_unchanged() {
    let old = vec![
        def("x", "same", "s", vec![1]),
        def("y", "other", "t", vec![2]),
        def("x", "same", "s", vec![1]),
    ];
    let new = vec![old[1].clone(), old[2].clone(), old[0].clone()];
    let cs = match_defs(&old, &new);
    assert_eq!(cs.len(), 3);
    assert!(cs.iter().all(|c| matches!(c, Correspondence::Unchanged { .. })));
}

#[test]
fn leftovers_share_no_exact_signal() {
    let old = defs("fn gone() -> i32 { 1 }\nfn kept() -> i32 { 2 }");
    let new = defs("fn kept() -> i32 { 2 }\nfn fresh(a: i32, b: i32) -> i32 { a * b - a + b + 42 }");
    let cs = match_defs(&old, &new);
    assert_eq!(
        cs,
        vec![
            Correspondence::Unchanged { name: "kept".into() },
            Correspondence::Removed { name: "gone".into() },
            Correspondence::Added { name: "fresh".into() },
        ]
    );
    assert_ne!(old[0].content_hash, new[1].content_hash);
    assert_ne!(old[0].name, new[1].name);
    assert_ne!(old[0].shape_hash, new[1].shape_hash);
}
