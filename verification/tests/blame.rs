use git_ast::blame::{blame, Blame};
use git_ast::Error;

fn entry(commit: &str, kind: &'static str, name: &str) -> Blame {
    Blame { commit: commit.to_string(), kind, name: name.to_string() }
}

#[test]
fn blame_follows_a_function_through_a_rename() {
    // Newest first: c3 renames gamma -> gamma2 and adds delta; c2 edits beta.
    let commits = vec![
        "3333333cafebabe".to_string(),
        "2222222deadbeef".to_string(),
        "1111111f00dfeed".to_string(),
    ];
    let sources = vec![
        b"fn alpha() -> i32 { 1 }\nfn beta() -> i32 { 99 }\nfn gamma2() -> i32 { 3 }\nfn delta() -> i32 { 4 }\n".to_vec(),
        b"fn alpha() -> i32 { 1 }\nfn beta() -> i32 { 99 }\nfn gamma() -> i32 { 3 }\n".to_vec(),
        b"fn alpha() -> i32 { 1 }\nfn beta() -> i32 { 2 }\nfn gamma() -> i32 { 3 }\n".to_vec(),
    ];
    let got = blame("m.rs", &commits, &sources).unwrap();
    assert!(got.contains(&entry("1111111", "fn", "alpha")), "got: {:?}", got);
    assert!(got.contains(&entry("2222222", "fn", "beta")), "got: {:?}", got);
    assert!(got.contains(&entry("1111111", "fn", "gamma2")), "rename must be seen through; got: {:?}", got);
    assert!(got.contains(&entry("3333333", "fn", "delta")), "got: {:?}", got);
    assert_eq!(got.len(), 4);
}

#[test]
fn no_history_is_a_driver_error() {
    let err = blame("m.rs", &Vec::new(), &Vec::new()).unwrap_err();
    assert!(matches!(err, Error::Driver(_)));
    assert_eq!(err.to_string(), "driver error: m.rs: no committed history");
}

#[test]
fn unparseable_newest_version_is_a_parse_error() {
    let commits = vec!["abcdef0123".to_string()];
    let sources = vec![b"fn main( {".to_vec()];
    assert!(matches!(blame("m.rs", &commits, &sources), Err(Error::Parsing(_))));
}

#[test]
fn unparseable_older_version_counts_as_empty() {
    let commits = vec!["bbbbbbbbbb".to_string(), "aaaaaaaaaa".to_string()];
    let sources = vec![b"fn f() {}\n".to_vec(), b"fn (".to_vec()];
    let got = blame("m.rs", &commits, &sources).unwrap();
    assert_eq!(got, vec![entry("bbbbbbb", "fn", "f")]);
}

#[test]
fn a_single_commit_blames_everything_on_it() {
    let commits = vec!["abc".to_string()];
    let sources = vec![b"struct S;\nfn g() {}\n".to_vec()];
    let got = blame("m.rs", &commits, &sources).unwrap();
    assert_eq!(got, vec![entry("abc", "struct", "S"), entry("abc", "fn", "g")]);
}
