use git_ast::Error;

#[test]
fn error_display_is_human_readable() {
    let e = Error::Config("missing driver".to_string());
    assert_eq!(e.to_string(), "config error: missing driver");
}

#[test]
fn io_error_converts_and_chains_source() {
    let io = std::io::Error::new(std::io::ErrorKind::NotFound, "nope");
    let e: Error = io.into();
    assert!(matches!(e, Error::Io(_)));
    assert!(e.source().is_some());
}

#[test]
fn every_error_kind_has_its_prefix() {
    assert_eq!(Error::Parsing("x".into()).to_string(), "parse error: x");
    assert_eq!(Error::Serialization("x".into()).to_string(), "serialization error: x");
    assert_eq!(Error::Generation("x".into()).to_string(), "generation error: x");
    assert_eq!(Error::Driver("x".into()).to_string(), "driver error: x");
    let io: Error = std::io::Error::new(std::io::ErrorKind::Other, "boom").into();
    assert_eq!(io.to_string(), "io error: boom");
    assert!(Error::Driver("x".into()).source().is_none());
}
