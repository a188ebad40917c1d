use simple_http_server::response::{format_response_head, render_response};

#[test]
fn response_head_exact() {
    assert_eq!(
        format_response_head("404 Not Found", "text/plain", 13),
        "HTTP/1.1 404 Not Found\r\nContent-Type: text/plain\r\nContent-Length: 13\r\nConnection: close\r\n\r\n"
    );
}

#[test]
fn rendered_response_is_head_then_body() {
    let bytes = render_response("200 OK", "text/plain", b"hello world");
    let expected = b"HTTP/1.1 200 OK\r\nContent-Type: text/plain\r\nContent-Length: 11\r\nConnection: close\r\n\r\nhello world";
    assert_eq!(bytes, expected.to_vec());
}

#[test]
fn empty_body_has_zero_length() {
    let bytes = render_response("200 OK", "text/html; charset=utf-8", b"");
    assert!(String::from_utf8(bytes).unwrap().contains("Content-Length: 0\r\n"));
}
