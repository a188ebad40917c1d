use simple_http_server::content::ListingEntry;
use simple_http_server::server::{parse_request_line, step, Command, Event, Exchange, Response};

const ROOT: &str = "/srv/www";

fn start(line: &str) -> (Exchange, Command) {
    step(ROOT, Exchange::AwaitRequest, Event::RequestLine(Some(line.to_string())))
}

fn sent(c: Command) -> Response {
    match c {
        Command::Send(r) => r,
        _ => panic!("expected a response"),
    }
}

fn path_of(c: &Command) -> String {
    match c {
        Command::ProbeTarget(p)
        | Command::ProbeIndex(p)
        | Command::ReadFile(p)
        | Command::ReadDirectory(p) => p.clone(),
        _ => panic!("expected a file-system command"),
    }
}

#[test]
fn request_line_parts() {
    assert_eq!(
        parse_request_line("GET /a/b?x=1 HTTP/1.1\r\n"),
        Some(("GET".to_string(), "/a/b".to_string()))
    );
    assert_eq!(
        parse_request_line("  HEAD\t/  "),
        Some(("HEAD".to_string(), "/".to_string()))
    );
    assert_eq!(parse_request_line("GET\r\n"), None);
    assert_eq!(parse_request_line(""), None);
}

#[test]
fn exchange_serves_existing_file() {
    let (s, c) = start("GET /hello.txt HTTP/1.1\r\n");
    assert_eq!(path_of(&c), "/srv/www/hello.txt");
    let (s, c) = step(
        ROOT,
        s,
        Event::TargetProbed {
            canonical: Some("/srv/www/hello.txt".to_string()),
            exists: true,
            is_dir: false,
        },
    );
    assert!(matches!(c, Command::ReadFile(ref p) if p == "/srv/www/hello.txt"));
    let (s, c) = step(ROOT, s, Event::FileRead(Some(b"hello world".to_vec())));
    assert!(matches!(s, Exchange::Finished));
    let r = sent(c);
    assert_eq!(r.status, "200 OK");
    assert_eq!(r.content_type, "text/plain; charset=utf-8");
    assert_eq!(r.body, b"hello world".to_vec());
    assert_eq!(r.method, "GET");
    assert_eq!(r.path, "/hello.txt");
}

#[test]
fn exchange_head_has_no_body() {
    let (s, _) = start("HEAD /hello.txt HTTP/1.1");
    let (s, _) = step(
        ROOT,
        s,
        Event::TargetProbed {
            canonical: Some("/srv/www/hello.txt".to_string()),
            exists: true,
            is_dir: false,
        },
    );
    let (_, c) = step(ROOT, s, Event::FileRead(Some(b"hello world".to_vec())));
    let r = sent(c);
    assert_eq!(r.status, "200 OK");
    assert!(r.body.is_empty());
}

#[test]
fn exchange_missing_file_is_404() {
    let (s, _) = start("GET /does-not-exist.txt HTTP/1.1");
    let (s, c) = step(
        ROOT,
        s,
        Event::TargetProbed {
            canonical: None,
            exists: false,
            is_dir: false,
        },
    );
    assert!(matches!(s, Exchange::Finished));
    let r = sent(c);
    assert_eq!(r.status, "404 Not Found");
    assert_eq!(r.body, b"404 Not Found".to_vec());
}

#[test]
fn exchange_symlink_outside_root_is_404() {
    let (s, _) = start("GET /link HTTP/1.1");
    let (_, c) = step(
        ROOT,
        s,
        Event::TargetProbed {
            canonical: Some("/etc/passwd".to_string()),
            exists: true,
            is_dir: false,
        },
    );
    assert_eq!(sent(c).status, "404 Not Found");
}

#[test]
fn exchange_post_is_405() {
    let (s, c) = start("POST / HTTP/1.1");
    assert!(matches!(s, Exchange::Finished));
    let r = sent(c);
    assert_eq!(r.status, "405 Method Not Allowed");
    assert_eq!(r.body, b"Method Not Allowed".to_vec());
    assert_eq!(r.method, "POST");
}

#[test]
fn exchange_traversal_is_400() {
    let (s, c) = start("GET /../../etc/passwd HTTP/1.1");
    assert!(matches!(s, Exchange::Finished));
    let r = sent(c);
    assert_eq!(r.status, "400 Bad Request");
    assert_eq!(r.path, "/../../etc/passwd");
}

#[test]
fn exchange_short_request_line_is_400() {
    let (_, c) = start("GET");
    let r = sent(c);
    assert_eq!(r.status, "400 Bad Request");
    assert_eq!(r.body, b"Bad Request".to_vec());
    assert_eq!(r.method, "-");
    assert_eq!(r.path, "-");
}

#[test]
fn exchange_closed_connection_sends_nothing() {
    let (s, c) = step(ROOT, Exchange::AwaitRequest, Event::RequestLine(None));
    assert!(matches!(s, Exchange::Finished));
    assert!(matches!(c, Command::Close));
}

#[test]
fn exchange_serves_index_html_for_directory() {
    let (s, _) = start("GET / HTTP/1.1");
    let (s, c) = step(
        ROOT,
        s,
        Event::TargetProbed {
            canonical: Some(ROOT.to_string()),
            exists: true,
            is_dir: true,
        },
    );
    assert!(matches!(c, Command::ProbeIndex(ref p) if p == "/srv/www/index.html"));
    let (s, c) = step(ROOT, s, Event::IndexProbed { is_file: true });
    assert!(matches!(c, Command::ReadFile(ref p) if p == "/srv/www/index.html"));
    let (_, c) = step(ROOT, s, Event::FileRead(Some(b"<h1>welcome</h1>".to_vec())));
    let r = sent(c);
    assert_eq!(r.status, "200 OK");
    assert_eq!(r.content_type, "text/html; charset=utf-8");
    assert_eq!(r.body, b"<h1>welcome</h1>".to_vec());
}

#[test]
fn exchange_lists_directory_without_index() {
    let (s, _) = start("GET /sub/ HTTP/1.1");
    let (s, _) = step(
        ROOT,
        s,
        Event::TargetProbed {
            canonical: Some("/srv/www/sub".to_string()),
            exists: true,
            is_dir: true,
        },
    );
    let (s, c) = step(ROOT, s, Event::IndexProbed { is_file: false });
    assert!(matches!(c, Command::ReadDirectory(ref p) if p == "/srv/www/sub"));
    let entries = vec![
        ListingEntry::from_name("nested.txt", false),
        ListingEntry::from_name("inner", true),
    ];
    let (_, c) = step(ROOT, s, Event::DirectoryRead(entries));
    let r = sent(c);
    assert_eq!(r.status, "200 OK");
    assert_eq!(r.content_type, "text/html; charset=utf-8");
    let body = String::from_utf8(r.body).unwrap();
    assert!(body.contains("<li><a href=\"inner/\">inner/</a></li><li><a href=\"nested.txt\">nested.txt</a></li>"));
    assert!(body.contains("<h1>Index of /sub/</h1>"));
}

#[test]
fn exchange_unreadable_file_is_500() {
    let (s, _) = start("GET /secret HTTP/1.1");
    let (s, _) = step(
        ROOT,
        s,
        Event::TargetProbed {
            canonical: Some("/srv/www/secret".to_string()),
            exists: true,
            is_dir: false,
        },
    );
    let (_, c) = step(ROOT, s, Event::FileRead(None));
    let r = sent(c);
    assert_eq!(r.status, "500 Internal Server Error");
    assert_eq!(r.body, b"Internal Server Error".to_vec());
}

#[test]
fn exchange_mismatched_event_closes() {
    let (s, c) = step(ROOT, Exchange::AwaitRequest, Event::IndexProbed { is_file: true });
    assert!(matches!(s, Exchange::Finished));
    assert!(matches!(c, Command::Close));
}
