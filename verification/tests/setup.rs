use git_ast::setup::ensure_attributes;

const ALL: &str = "*.rs filter=git-ast\n*.json filter=git-ast\n*.json merge=git-ast\n*.json diff=git-ast\n*.html filter=git-ast\n*.htm filter=git-ast\n";

#[test]
fn empty_attributes_get_every_line() {
    assert_eq!(ensure_attributes("").unwrap(), ALL);
}

#[test]
fn rerunning_changes_nothing() {
    let once = ensure_attributes("*.md text\n").unwrap();
    assert_eq!(ensure_attributes(&once), None);
}

#[test]
fn missing_final_newline_is_added_before_appending() {
    let got = ensure_attributes("*.md text").unwrap();
    assert_eq!(got, format!("*.md text\n{}", ALL));
}

#[test]
fn present_lines_are_recognised_through_surrounding_whitespace() {
    let existing = "  *.rs filter=git-ast  \n*.json filter=git-ast\n";
    let got = ensure_attributes(existing).unwrap();
    assert_eq!(
        got,
        format!("{}*.json merge=git-ast\n*.json diff=git-ast\n*.html filter=git-ast\n*.htm filter=git-ast\n", existing)
    );
}

#[test]
fn complete_file_is_left_alone() {
    assert_eq!(ensure_attributes(ALL), None);
}
