use git_ast::printer::{canonicalize, function_statements, inspect};
use git_ast::Error;

/// Canonicalize a source string, panicking on error.
fn canon(s: &str) -> String {
    String::from_utf8(canonicalize(s.as_bytes()).unwrap()).unwrap()
}

const CANONICAL: &str = "fn add(a: i32, b: i32) -> i32 {\n    \
    // Simple addition\n    a + b\n}\n\n\
    fn main() {\n    \
    let x = 5;\n    let y = 10;\n    let sum = add(x, y);\n    \
    println!(\"Sum: {}\", sum);\n}\n";

#[test]
fn canonicalizes_the_example() {
    let messy = b"fn   add(a:i32,b:i32)->i32{\n// Simple addition\n  a+b\n}\nfn main(){let x=5;\nlet y =10;let sum= add(x,y);println!(\"Sum: {}\",sum);}";
    let out = canonicalize(messy).unwrap();
    assert_eq!(String::from_utf8(out).unwrap(), CANONICAL);
}

#[test]
fn printer_is_idempotent() {
    // Canonical input must come back byte-for-byte unchanged.
    let once = canonicalize(CANONICAL.as_bytes()).unwrap();
    assert_eq!(once, CANONICAL.as_bytes());
}

#[test]
fn reformatting_produces_identical_bytes() {
    // The property the whole project rests on: formatting differences vanish.
    let a = canonicalize(b"fn f()->i32{1+2}").unwrap();
    let b = canonicalize(b"fn f( ) -> i32 {\n\n    1  +  2\n}\n").unwrap();
    assert_eq!(a, b);
}

#[test]
fn rejects_syntax_errors() {
    let err = canonicalize(b"fn main( { ").unwrap_err();
    assert!(matches!(err, Error::Parsing(_)));
}

#[test]
fn fails_closed_on_unsupported_constructs() {
    // Still outside the documented subset (traits, tuple structs): error,
    // never silent loss.
    assert!(matches!(
        canonicalize(b"trait T {}\n").unwrap_err(),
        Error::Generation(_)
    ));
    assert!(matches!(
        canonicalize(b"struct T(i32);\n").unwrap_err(),
        Error::Generation(_)
    ));
}

// --- Widened item coverage: use / const / struct / enum / impl ---

#[test]
fn canonicalizes_use_declarations() {
    assert_eq!(canon("use   std::fmt ;"), "use std::fmt;\n");
    assert_eq!(canon("use a::b::* ;"), "use a::b::*;\n");
}

#[test]
fn canonicalizes_const_and_static() {
    assert_eq!(canon("const  MAX:i32=100;"), "const MAX: i32 = 100;\n");
    assert_eq!(canon("static  S:i32=1;"), "static S: i32 = 1;\n");
}

#[test]
fn canonicalizes_structs() {
    assert_eq!(
        canon("struct  Point{x:i32,y:i32}"),
        "struct Point {\n    x: i32,\n    y: i32,\n}\n"
    );
    assert_eq!(canon("struct Unit ;"), "struct Unit;\n");
}

#[test]
fn canonicalizes_enums() {
    assert_eq!(
        canon("enum Color{Red,Green,Blue}"),
        "enum Color {\n    Red,\n    Green,\n    Blue,\n}\n"
    );
}

#[test]
fn canonicalizes_impl_blocks() {
    assert_eq!(
        canon("impl Point{fn sum(&self)->i32{self.x+self.y}}"),
        "impl Point {\n    fn sum(&self) -> i32 {\n        self.x + self.y\n    }\n}\n"
    );
    // trait impl
    assert_eq!(
        canon("impl Default for P{fn d()->i32{0}}"),
        "impl Default for P {\n    fn d() -> i32 {\n        0\n    }\n}\n"
    );
}

#[test]
fn canonicalizes_references_generics_and_struct_literals() {
    assert_eq!(
        canon("fn f(v:&mut Vec<i32>)->i32{0}"),
        "fn f(v: &mut Vec<i32>) -> i32 {\n    0\n}\n"
    );
    assert_eq!(
        canon("fn g()->P{P{x:1,y:2}}"),
        "fn g() -> P {\n    P { x: 1, y: 2 }\n}\n"
    );
}

#[test]
fn module_with_mixed_items_converges_and_is_idempotent() {
    let messy =
        b"use std::fmt;\nstruct P{x:i32}\nenum E{A,B}\nimpl P{fn x(&self)->i32{self.x}}";
    let tidy = b"use std::fmt;\n\nstruct P {\n    x: i32,\n}\n\nenum E {\n    A,\n    B,\n}\n\nimpl P {\n    fn x(&self) -> i32 {\n        self.x\n    }\n}\n";
    let a = canonicalize(messy).unwrap();
    assert_eq!(
        canonicalize(tidy).unwrap(),
        a,
        "messy and tidy must converge"
    );
    assert_eq!(
        canonicalize(&a).unwrap(),
        a,
        "module canonicalization must be idempotent"
    );
}

// --- Determinism contract (see the module-level "Determinism" docs) ---

#[test]
fn convergence_many_formattings_one_program() {
    // Every formatting of the same program must canonicalize to identical
    // bytes — the property that keeps reformatting out of history.
    let variants: &[&[u8]] = &[
        b"fn add(a:i32,b:i32)->i32{a+b}",
        b"fn add( a : i32 , b : i32 ) -> i32 { a + b }",
        b"fn   add(a: i32,b: i32)->i32{\n\n    a  +  b\n\n}\n",
        b"fn add(a: i32, b: i32) -> i32 {\n    a + b\n}\n",
    ];
    let canon = canonicalize(variants[0]).unwrap();
    for v in variants {
        assert_eq!(canonicalize(v).unwrap(), canon, "variant diverged: {v:?}");
    }
}

#[test]
fn idempotent_on_varied_inputs() {
    // canonicalize is a fixed point on its own output: clean(clean(x)) ==
    // clean(x). This is what makes `smudge` safe as identity and prevents
    // edit/checkout/add churn.
    let inputs: &[&[u8]] = &[
        b"fn f()->i32{1+2}",
        b"fn g(a: i32) -> i32 { let x = a; x }",
        b"fn main(){let s=add(x,y);println!(\"{}\",s);}",
        b"// leading comment\nfn h() -> i32 { 42 }",
    ];
    for input in inputs {
        let once = canonicalize(input).unwrap();
        let twice = canonicalize(&once).unwrap();
        assert_eq!(once, twice, "not idempotent for: {input:?}");
    }
}

#[test]
fn inspect_content_hash_is_stable_across_formatting() {
    // The read verb's headline: a definition's content identity survives
    // reformatting (the hash is over canonical form).
    let messy = canonicalize(b"fn add(a:i32,b:i32)->i32{a+b}").unwrap();
    let tidy = inspect(b"fn add( a : i32 , b : i32 ) -> i32 {\n\n    a + b\n}\n").unwrap();
    let from_messy = inspect(&messy).unwrap();
    assert_eq!(from_messy, tidy);
    assert_eq!(from_messy.len(), 1);
    assert_eq!(from_messy[0].name, "add");
}

#[test]
fn inspect_distinguishes_bodies_and_lists_in_order() {
    let defs = inspect(b"fn a()->i32{1+2}\nfn b()->i32{1-2}").unwrap();
    assert_eq!(defs.iter().map(|d| &d.name).collect::<Vec<_>>(), ["a", "b"]);
    assert_ne!(defs[0].content_hash, defs[1].content_hash);
}

#[test]
fn subtree_hashes_are_formatting_invariant_and_share_subexpressions() {
    // Same function, two formattings → identical subtree-hash multisets.
    let a = &inspect(b"fn f(x:i32)->i32{x+1}").unwrap()[0];
    let b = &inspect(b"fn f(x: i32) -> i32 {\n\n    x + 1\n}\n").unwrap()[0];
    assert_eq!(a.subtree_hashes, b.subtree_hashes);
    // Two functions sharing the sub-expression `x + 1` share its subtree hash.
    let c = &inspect(b"fn g(x: i32) -> i32 { x + 1 + 2 }").unwrap()[0];
    let common = a
        .subtree_hashes
        .iter()
        .filter(|h| c.subtree_hashes.contains(h))
        .count();
    assert!(
        common > 0,
        "shared sub-expression should share a subtree hash"
    );
}

#[test]
fn shape_hash_is_name_invariant_but_body_sensitive() {
    // Same body, different name → same shape_hash, different content_hash.
    let a = &inspect(b"fn a(x: i32) -> i32 { x + 1 }").unwrap()[0];
    let b = &inspect(b"fn b(x: i32) -> i32 { x + 1 }").unwrap()[0];
    assert_eq!(a.shape_hash, b.shape_hash, "name must not affect shape");
    assert_ne!(a.content_hash, b.content_hash, "name must affect content");
    // Same name, different body → different shape_hash.
    let c = &inspect(b"fn a(x: i32) -> i32 { x + 2 }").unwrap()[0];
    assert_ne!(a.shape_hash, c.shape_hash, "body must affect shape");
}

#[test]
fn inspect_surfaces_all_top_level_item_kinds() {
    let defs = inspect(
        b"struct S { x: i32 }\nenum E { A }\nconst C: i32 = 1;\nstatic T: i32 = 2;\nfn f() -> i32 { 1 }\nimpl S { fn m(&self) -> i32 { self.x } }",
    )
    .unwrap();
    let kinds: Vec<(&str, &str)> = defs.iter().map(|d| (d.kind, d.name.as_str())).collect();
    assert!(kinds.contains(&("struct", "S")));
    assert!(kinds.contains(&("enum", "E")));
    assert!(kinds.contains(&("const", "C")));
    assert!(kinds.contains(&("static", "T")));
    assert!(kinds.contains(&("fn", "f")));
    assert!(kinds.contains(&("impl", "S"))); // impl identified by its type
}

#[test]
fn struct_rename_with_same_fields_shares_shape_hash() {
    let a = &inspect(b"struct Point { x: i32, y: i32 }").unwrap()[0];
    let b = &inspect(b"struct Coord { x: i32, y: i32 }").unwrap()[0];
    assert_eq!(a.shape_hash, b.shape_hash, "renamed struct, same fields");
    assert_ne!(a.content_hash, b.content_hash);
}

#[test]
fn pure_repeated_calls_are_byte_identical() {
    // No clock/locale/randomness/hash-ordering leaks into the output.
    let input = b"fn main(){let x=5;let y=10;let s=add(x,y);println!(\"{}\",s);}";
    let first = canonicalize(input).unwrap();
    for _ in 0..16 {
        assert_eq!(canonicalize(input).unwrap(), first);
    }
}

#[test]
fn function_statements_lists_each_statement() {
    let a = function_statements(b"fn f(){let x=1;g(x);}", "f").unwrap();
    assert_eq!(a.len(), 2);
    assert_eq!(a[0].text, "let x = 1;");
    assert_eq!(a[1].text, "g(x);");
    let b = function_statements(b"fn f() {\n    let x = 1;\n    g(x);\n}\n", "f").unwrap();
    assert_eq!(a, b);
    assert!(a[0].subtrees.windows(2).all(|w| w[0] <= w[1]));
    assert!(function_statements(b"fn f(){}", "missing").is_none());
    assert!(function_statements(b"fn f( {", "f").is_none());
}

#[test]
fn inspect_rejects_syntax_errors() {
    assert!(matches!(inspect(b"fn main( { ").unwrap_err(), Error::Parsing(_)));
}

#[test]
fn generic_parameters_fail_closed() {
    assert!(matches!(canonicalize(b"fn f<T>(x: T) -> T { x }"), Err(Error::Generation(_))));
    assert!(matches!(canonicalize(b"struct S<T> { x: T }"), Err(Error::Generation(_))));
}

#[test]
fn visibility_fails_closed_rather_than_being_dropped() {
    assert!(matches!(canonicalize(b"pub fn f() -> i32 { 1 }"), Err(Error::Generation(_))));
    assert!(matches!(canonicalize(b"struct S { pub x: i32 }"), Err(Error::Generation(_))));
}

#[test]
fn let_mut_and_type_annotations_are_kept() {
    assert_eq!(
        canon("fn f()->i32{let mut x:i32=1;x}"),
        "fn f() -> i32 {\n    let mut x: i32 = 1;\n    x\n}\n"
    );
}

#[test]
fn receivers_converge_across_formattings() {
    assert_eq!(
        canon("impl P{fn a(& mut self)->i32{1}}"),
        canon("impl P {\n    fn a(&mut   self) -> i32 {\n        1\n    }\n}")
    );
    assert_eq!(canon("impl P{fn a(& mut self)->i32{1}}"), "impl P {\n    fn a(&mut self) -> i32 {\n        1\n    }\n}\n");
}

#[test]
fn patterns_other_than_names_fail_closed() {
    assert!(matches!(canonicalize(b"fn f((a, b): (i32, i32)) -> i32 { a }"), Err(Error::Generation(_))));
    assert!(matches!(canonicalize(b"fn f() { let (a, b) = g(); }"), Err(Error::Generation(_))));
}

#[test]
fn empty_source_is_a_single_line_break() {
    assert_eq!(canon(""), "\n");
    assert_eq!(canon("\n\n"), "\n");
}

#[test]
fn fails_closed_on_function_modifiers() {
    for src in [
        "unsafe fn f() -> i32 { 1 }\n",
        "async fn f() -> i32 { 1 }\n",
        "const fn f() -> i32 { 1 }\n",
    ] {
        assert!(matches!(canonicalize(src.as_bytes()).unwrap_err(), Error::Generation(_)), "{}", src);
    }
}

#[test]
fn every_canonical_output_is_utf8_ending_in_newline() {
    for src in ["", "fn f()->i32{1}", "use a::b;", "// note", "struct S { a: i32 }"] {
        let out = canonicalize(src.as_bytes()).unwrap();
        assert!(String::from_utf8(out.clone()).is_ok());
        assert_eq!(out.last(), Some(&b'\n'), "{:?}", src);
    }
}

#[test]
fn function_statements_has_nothing_for_methods_or_missing_functions() {
    assert!(function_statements(b"impl P { fn m(&self) -> i32 { self.x } }", "m").is_none());
    assert!(function_statements(b"fn a() -> i32 { 1 }", "b").is_none());
    assert!(function_statements(b"fn a( -> i32 { 1 }", "a").is_none());
    assert_eq!(function_statements(b"fn a() { let x = 1; }", "a").unwrap().len(), 1);
}
