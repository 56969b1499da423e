use git_ast::filters::converse;
use git_ast::pktline::{read_until_flush, write_content, write_flush, write_text_packet};

/// A complete client conversation: handshake, capabilities, one blob request.
fn client_stream(command: &str, pathname: &str, content: &[u8]) -> Vec<u8> {
    let mut w = Vec::new();
    write_text_packet(&mut w, "git-filter-client").unwrap();
    write_text_packet(&mut w, "version=2").unwrap();
    write_flush(&mut w).unwrap();
    write_text_packet(&mut w, "capability=clean").unwrap();
    write_text_packet(&mut w, "capability=smudge").unwrap();
    write_flush(&mut w).unwrap();
    write_text_packet(&mut w, &format!("command={}", command)).unwrap();
    write_text_packet(&mut w, &format!("pathname={}", pathname)).unwrap();
    write_flush(&mut w).unwrap();
    write_content(&mut w, content).unwrap();
    w
}

/// The content of the single blob response, past handshake, capabilities and status.
fn response_content(reply: &[u8]) -> Vec<u8> {
    let mut r = reply;
    read_until_flush(&mut r).unwrap();
    read_until_flush(&mut r).unwrap();
    read_until_flush(&mut r).unwrap();
    read_until_flush(&mut r).unwrap().unwrap()
}

#[test]
fn clean_canonicalizes_rust() {
    let req = client_stream("clean", "a.rs", b"fn f()->i32{1+2}");
    let mut out = Vec::new();
    converse(&mut &req[..], &mut out).unwrap();
    assert_eq!(response_content(&out), b"fn f() -> i32 {\n    1 + 2\n}\n");
}

#[test]
fn smudge_is_identity() {
    let canonical = b"fn f() -> i32 {\n    1 + 2\n}\n";
    let req = client_stream("smudge", "a.rs", canonical);
    let mut out = Vec::new();
    converse(&mut &req[..], &mut out).unwrap();
    assert_eq!(response_content(&out), canonical);
}

#[test]
fn non_rust_passes_through_clean() {
    let req = client_stream("clean", "notes.txt", b"  unchanged  ");
    let mut out = Vec::new();
    converse(&mut &req[..], &mut out).unwrap();
    assert_eq!(response_content(&out), b"  unchanged  ");
}

#[test]
fn clean_reports_error_on_unparseable_rust() {
    let req = client_stream("clean", "bad.rs", b"fn main( {");
    let mut out = Vec::new();
    converse(&mut &req[..], &mut out).unwrap();
    let mut r = &out[..];
    read_until_flush(&mut r).unwrap();
    read_until_flush(&mut r).unwrap();
    let status = read_until_flush(&mut r).unwrap().unwrap();
    assert_eq!(String::from_utf8_lossy(&status).trim_end(), "status=error");
}

#[test]
fn server_greets_and_announces_both_capabilities() {
    let req = client_stream("smudge", "x.rs", b"");
    let mut out = Vec::new();
    converse(&mut &req[..], &mut out).unwrap();
    let mut r = &out[..];
    assert_eq!(read_until_flush(&mut r).unwrap().unwrap(), b"git-filter-server\nversion=2\n");
    assert_eq!(read_until_flush(&mut r).unwrap().unwrap(), b"capability=clean\ncapability=smudge\n");
    assert_eq!(read_until_flush(&mut r).unwrap().unwrap(), b"status=success\n");
}

#[test]
fn wrong_greeting_is_a_protocol_error() {
    let mut w = Vec::new();
    write_text_packet(&mut w, "git-filter-server").unwrap();
    write_text_packet(&mut w, "version=2").unwrap();
    write_flush(&mut w).unwrap();
    let mut out = Vec::new();
    let err = converse(&mut &w[..], &mut out).unwrap_err();
    assert!(err.to_string().starts_with("driver error: filter protocol: "));
    assert!(out.is_empty());
}

#[test]
fn two_blobs_are_served_in_turn() {
    let mut req = client_stream("clean", "n.txt", b"one");
    write_text_packet(&mut req, "command=clean").unwrap();
    write_text_packet(&mut req, "pathname=m.txt").unwrap();
    write_flush(&mut req).unwrap();
    write_content(&mut req, b"two").unwrap();
    let mut out = Vec::new();
    converse(&mut &req[..], &mut out).unwrap();
    let mut r = &out[..];
    read_until_flush(&mut r).unwrap();
    read_until_flush(&mut r).unwrap();
    read_until_flush(&mut r).unwrap();
    assert_eq!(read_until_flush(&mut r).unwrap().unwrap(), b"one");
    assert_eq!(read_until_flush(&mut r).unwrap().unwrap(), b"");
    assert_eq!(read_until_flush(&mut r).unwrap().unwrap(), b"status=success\n");
    assert_eq!(read_until_flush(&mut r).unwrap().unwrap(), b"two");
    assert_eq!(read_until_flush(&mut r).unwrap().unwrap(), b"");
    assert!(r.is_empty());
}

#[test]
fn clean_canonicalizes_json() {
    let req = client_stream("clean", "c.json", br#"{"b":1,"a":2}"#);
    let mut out = Vec::new();
    converse(&mut &req[..], &mut out).unwrap();
    assert_eq!(response_content(&out), b"{\n  \"a\": 2,\n  \"b\": 1\n}\n");
}

#[test]
fn unknown_command_answers_status_error() {
    let req = client_stream("frobnicate", "a.txt", b"x");
    let mut out = Vec::new();
    converse(&mut &req[..], &mut out).unwrap();
    let mut r = &out[..];
    read_until_flush(&mut r).unwrap();
    read_until_flush(&mut r).unwrap();
    assert_eq!(read_until_flush(&mut r).unwrap().unwrap(), b"status=error\n");
    assert!(r.is_empty());
}

#[test]
fn a_file_named_only_dot_rs_passes_through_clean() {
    let src = b"fn   f( ) -> i32 { 1 }";
    let req = client_stream("clean", "dir/.rs", src);
    let mut out = Vec::new();
    converse(&mut &req[..], &mut out).unwrap();
    assert_eq!(response_content(&out), src);
}

#[test]
fn clean_canonicalizes_json_by_extension_only() {
    let req = client_stream("clean", "data/.json", br#"{"b":1}"#);
    let mut out = Vec::new();
    converse(&mut &req[..], &mut out).unwrap();
    assert_eq!(response_content(&out), br#"{"b":1}"#);
    let req = client_stream("clean", "x.tar.json", br#"[1,  2]"#);
    let mut out = Vec::new();
    converse(&mut &req[..], &mut out).unwrap();
    assert_eq!(response_content(&out), b"[\n  1,\n  2\n]\n");
}
