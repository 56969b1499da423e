use git_ast::drivers::{conflict_markers, diff_driver_args, json_path, merge_driver_args, unresolved};
use git_ast::Error;

fn strings(xs: &[&str]) -> Vec<String> {
    xs.iter().map(|s| s.to_string()).collect()
}

#[test]
fn diff_driver_takes_path_old_and_new_file() {
    let args = strings(&["a.json", "/tmp/old", "1111", "100644", "/tmp/new", "2222", "100644"]);
    let (path, old, new) = diff_driver_args(&args).unwrap();
    assert_eq!((path.as_str(), old.as_str(), new.as_str()), ("a.json", "/tmp/old", "/tmp/new"));
}

#[test]
fn diff_driver_needs_seven_arguments() {
    match diff_driver_args(&strings(&["a", "b", "c", "d", "e", "f"])) {
        Err(Error::Driver(m)) => assert_eq!(
            m,
            "diff driver expects 7 arguments (path old-file old-hex old-mode new-file new-hex new-mode)"
        ),
        _ => panic!("expected a driver error"),
    }
}

#[test]
fn merge_driver_takes_base_current_other_and_path() {
    let args = strings(&["O", "A", "B", "7", "conf/x.json"]);
    let (b, a, o, p) = merge_driver_args(&args).unwrap();
    assert_eq!((b.as_str(), a.as_str(), o.as_str(), p.as_str()), ("O", "A", "B", "conf/x.json"));
}

#[test]
fn merge_driver_needs_five_arguments() {
    match merge_driver_args(&strings(&["O", "A", "B", "7"])) {
        Err(Error::Driver(m)) => assert_eq!(m, "merge driver expects 5 arguments (%O %A %B %L %P)"),
        _ => panic!("expected a driver error"),
    }
}

#[test]
fn conflict_markers_wrap_both_sides() {
    assert_eq!(
        conflict_markers(b"ours", b"theirs"),
        b"<<<<<<< HEAD\nours\n=======\ntheirs\n>>>>>>> OTHER\n".to_vec()
    );
}

#[test]
fn unresolved_names_the_path() {
    assert_eq!(unresolved("x.json").to_string(), "driver error: x.json: merge left unresolved conflicts");
}

#[test]
fn only_json_paths_are_structural() {
    assert!(json_path("a/b.json"));
    assert!(!json_path("a/b.jsonl"));
    assert!(!json_path("a.rs"));
}
