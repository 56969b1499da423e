use git_ast::config::{get_config_for_path, FileConfig};

#[test]
fn source_files_are_managed() {
    let cfg = get_config_for_path("src/main.rs").unwrap();
    assert!(cfg.use_filter && cfg.use_diff_driver && cfg.use_merge_driver);
}

#[test]
fn other_files_are_passthrough() {
    assert_eq!(get_config_for_path("README.md").unwrap(), FileConfig::default());
}

#[test]
fn python_and_javascript_are_managed_too() {
    assert!(get_config_for_path("a/b.py").unwrap().use_filter);
    assert!(get_config_for_path("x.js").unwrap().use_merge_driver);
}

#[test]
fn a_bare_extension_or_lookalike_is_not_managed() {
    assert_eq!(get_config_for_path("rs").unwrap(), FileConfig::default());
    assert_eq!(get_config_for_path("main.rsx").unwrap(), FileConfig::default());
    assert!(get_config_for_path(".rs").unwrap().use_filter);
}
