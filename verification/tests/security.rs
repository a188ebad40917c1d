use simple_http_server::security::{path_starts_with, percent_decode, resolve_path};

#[test]
fn percent_decode_basic() {
    assert_eq!(percent_decode("a%20b"), "a b");
    assert_eq!(percent_decode("no-escape"), "no-escape");
}

#[test]
fn resolve_path_rejects_parent_dir() {
    let root = "/tmp/root";
    assert!(resolve_path(root, "/../etc/passwd").is_none());
}

#[test]
fn resolve_path_joins_normal_comonents() {
    let root = "/tmp/root";
    assert_eq!(
        resolve_path(root, "/sub/a.txt"),
        Some("/tmp/root/sub/a.txt".to_string())
    );
}

#[test]
fn percent_decode_edge_cases() {
    assert_eq!(percent_decode("%41%62c"), "Abc");
    assert_eq!(percent_decode("100%"), "100%");
    assert_eq!(percent_decode("%4"), "%4");
    assert_eq!(percent_decode("%zz"), "%zz");
    assert_eq!(percent_decode("%+5x"), "\u{5}x");
    assert_eq!(percent_decode("%C3%A9"), "é");
    assert_eq!(percent_decode("é%20"), "é ");
}

#[test]
fn percent_decode_replaces_invalid_utf8() {
    assert_eq!(percent_decode("a%FFb"), "a\u{FFFD}b");
}

#[test]
fn resolve_path_rejects_encoded_parent_dir() {
    assert!(resolve_path("/srv", "/a/%2e%2e/b").is_none());
    assert!(resolve_path("/srv", "/a/..").is_none());
}

#[test]
fn resolve_path_skips_empty_and_current_components() {
    assert_eq!(
        resolve_path("/srv", "//a/./b//"),
        Some("/srv/a/b".to_string())
    );
    assert_eq!(resolve_path("/srv/", "/x"), Some("/srv/x".to_string()));
    assert_eq!(resolve_path("/srv", "/"), Some("/srv".to_string()));
    assert_eq!(
        resolve_path("/srv", "/a%20b/c%2Fd"),
        Some("/srv/a b/c/d".to_string())
    );
    assert_eq!(resolve_path("/srv", "/...x"), Some("/srv/...x".to_string()));
}

#[test]
fn resolved_paths_stay_within_root() {
    for url in ["/a", "/a/b/c", "/%2E/x", "//", "/a/./b"] {
        let t = resolve_path("/srv/www", url).unwrap();
        assert!(t.starts_with("/srv/www"));
        assert!(path_starts_with(&t, "/srv/www"));
    }
}

#[test]
fn path_starts_with_compares_components() {
    assert!(path_starts_with("/srv/www/a", "/srv/www"));
    assert!(path_starts_with("/srv/www", "/srv/www/"));
    assert!(path_starts_with("/srv//www/./a", "/srv/www"));
    assert!(!path_starts_with("/srv/wwwx", "/srv/www"));
    assert!(!path_starts_with("/srv", "/srv/www"));
    assert!(!path_starts_with("srv/www", "/srv"));
    assert!(!path_starts_with("./a", "a"));
    assert!(path_starts_with("./a", "."));
}
