use gitsync::paths::{path_starts_with_exec, resolve_existing_under, safe_relative_path};
use std::path::PathBuf;

#[test]
fn safe_relative_path_accepts_normal_paths() {
    assert_eq!(
        PathBuf::from(safe_relative_path("pre-commit").unwrap()),
        PathBuf::from("pre-commit")
    );
    assert_eq!(
        PathBuf::from(safe_relative_path("src/main.rs").unwrap()),
        PathBuf::from("src/main.rs")
    );
}

#[test]
fn safe_relative_path_rejects_traversal() {
    assert!(safe_relative_path("../evil").is_err());
    assert!(safe_relative_path("a/../../evil").is_err());
    assert!(safe_relative_path("sub/../ok").is_err());
    assert!(safe_relative_path("/etc/passwd").is_err());
    assert!(safe_relative_path(".").is_err());
    assert!(safe_relative_path("..").is_err());
    assert!(safe_relative_path("").is_err());
}

#[test]
fn safe_relative_path_normalizes_separators_and_inner_dots() {
    assert_eq!(safe_relative_path("a//b/./c/").unwrap(), "a/b/c");
    assert!(safe_relative_path("./a").is_err());
}

#[test]
fn safe_relative_path_error_messages() {
    assert_eq!(safe_relative_path("/etc/passwd").unwrap_err(), "拒绝绝对路径: /etc/passwd");
    assert_eq!(safe_relative_path("a/../b").unwrap_err(), "路径包含非法组件: a/../b");
    assert_eq!(safe_relative_path("").unwrap_err(), "路径不能为空");
    assert_eq!(safe_relative_path("//").unwrap_err(), "拒绝绝对路径: //");
    assert_eq!(safe_relative_path("a/./").unwrap(), "a");
    assert_eq!(safe_relative_path("./").unwrap_err(), "路径包含非法组件: ./");
}

#[test]
fn resolve_existing_under_rejects_escape() {
    let base = "/tmp/work";
    assert_eq!(resolve_existing_under(base, "/tmp/work/inside.txt").unwrap(), "/tmp/work/inside.txt");
    assert!(resolve_existing_under(base, "/tmp/outside.txt").is_err());
    assert_eq!(
        resolve_existing_under(base, "/tmp/workshop/x").unwrap_err(),
        "拒绝访问目标目录之外的文件"
    );
    assert!(resolve_existing_under(base, "/tmp/work").is_ok());
}

#[test]
fn path_starts_with_compares_whole_components() {
    assert!(path_starts_with_exec("/etc/passwd", "/etc"));
    assert!(path_starts_with_exec("/etc/passwd", "/etc/"));
    assert!(!path_starts_with_exec("/etcfoo", "/etc"));
    assert!(path_starts_with_exec("a//b", "a"));
    assert!(!path_starts_with_exec("a", "/a"));
}

#[test]
fn script_names_outside_the_scripts_directory_are_refused() {
    assert!(safe_relative_path("../../usr/bin/env").is_err());
    assert!(safe_relative_path("/bin/sh").is_err());
    assert_eq!(safe_relative_path("cleanup.sh").unwrap(), "cleanup.sh");
}

#[test]
fn accepted_paths_are_accepted_again_unchanged() {
    for p in ["a//b/./c/", "src/main.rs", "x/"] {
        let once = safe_relative_path(p).unwrap();
        assert_eq!(safe_relative_path(&once).unwrap(), once);
        assert!(!once.starts_with('/'));
        assert!(once.split('/').all(|c| c != ".." && c != "." && !c.is_empty()));
    }
}
