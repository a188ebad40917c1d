use simple_http_server::content::{directory_listing, html_escape, mime_type, ListingEntry};

#[test]
fn mime_type_known_extension() {
    assert_eq!(mime_type("a.html"), "text/html; charset=utf-8");
    assert_eq!(mime_type("a.unknown"), "application/octet-stream");
}

#[test]
fn html_escape_escapes_special_chars() {
    assert_eq!(html_escape("<a>&\"b\""), "&lt;a&gt;&amp;&quot;b&quot;");
}

#[test]
fn mime_type_follows_path_extension_rules() {
    assert_eq!(mime_type("/srv/site/style.css"), "text/css; charset=utf-8");
    assert_eq!(mime_type("archive.tar.zip"), "application/zip");
    assert_eq!(mime_type("page.HTM"), "application/octet-stream");
    assert_eq!(mime_type("dir/.htm"), "application/octet-stream");
    assert_eq!(mime_type("notes"), "application/octet-stream");
    assert_eq!(mime_type("a/b.mp3/"), "audio/mpeg");
    assert_eq!(mime_type("a/b.jpeg/."), "image/jpeg");
    assert_eq!(mime_type("x.wasm/.."), "application/octet-stream");
    assert_eq!(mime_type("trailing."), "application/octet-stream");
    assert_eq!(mime_type(""), "application/octet-stream");
}

#[test]
fn html_escape_leaves_plain_text_alone() {
    assert_eq!(html_escape("plain text 123"), "plain text 123");
    assert_eq!(html_escape("é'x"), "é'x");
}

#[test]
fn html_escape_output_is_inert() {
    let out = html_escape("<script>alert(\"x\")</script>");
    assert!(!out.contains('<') && !out.contains('>') && !out.contains('"'));
    assert_eq!(out, "&lt;script&gt;alert(&quot;x&quot;)&lt;/script&gt;");
}

fn entry(name: &str, is_dir: bool) -> ListingEntry {
    ListingEntry::from_name(name, is_dir)
}

#[test]
fn directory_listing_is_sorted_and_exact() {
    let entries = vec![entry("zeta.txt", false), entry("a&b", false), entry("sub", true)];
    let html = directory_listing("/docs/", &entries);
    assert_eq!(
        html,
        "<!DOCTYPE html><html><head><meta charset=\"utf-8\"><title>Index of /docs/</title></head><body>\
<h1>Index of /docs/</h1><ul><li><a href=\"../\">../</a></li>\
<li><a href=\"a&b\">a&amp;b</a></li>\
<li><a href=\"sub/\">sub/</a></li>\
<li><a href=\"zeta.txt\">zeta.txt</a></li>\
</ul></body></html>"
    );
}

#[test]
fn directory_listing_at_root_has_no_parent_link() {
    let html = directory_listing("/", &vec![entry("hello.txt", false), entry("sub", true)]);
    assert!(!html.contains("../"));
    assert!(html.contains("<li><a href=\"hello.txt\">hello.txt</a></li>"));
    assert!(html.contains("<li><a href=\"sub/\">sub/</a></li>"));
    assert!(html.find("hello.txt").unwrap() < html.find("sub/").unwrap());
}

#[test]
fn directory_listing_escapes_the_request_path() {
    let html = directory_listing("/<x>", &Vec::new());
    assert!(html.contains("<title>Index of /&lt;x&gt;</title>"));
    assert!(html.ends_with("<li><a href=\"../\">../</a></li></ul></body></html>"));
}

#[test]
fn directory_listing_orders_by_raw_name_bytes() {
    // Two names that are not valid UTF-8 show the same replacement text but
    // are listed in the order of their bytes.
    let high = ListingEntry {
        name: "\u{FFFD}b".to_string(),
        is_dir: false,
        key: vec![0xFF, b'b'],
    };
    let low = ListingEntry {
        name: "\u{FFFD}a".to_string(),
        is_dir: false,
        key: vec![0xFE, b'a'],
    };
    let plain = entry("\u{FFFD}0", false);
    let html = directory_listing("/", &vec![high, plain, low]);
    let a = html.find("\u{FFFD}a<").unwrap();
    let b = html.find("\u{FFFD}b<").unwrap();
    let z = html.find("\u{FFFD}0<").unwrap();
    // The valid name's bytes start with 0xEF, below 0xFE and 0xFF.
    assert!(z < a && a < b);
}

#[test]
fn entry_from_name_keys_by_utf8_bytes() {
    let e = ListingEntry::from_name("é", true);
    assert_eq!(e.key, "é".as_bytes().to_vec());
    assert!(e.is_dir);
}
