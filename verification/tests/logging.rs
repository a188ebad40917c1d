use chrono::{Local, Offset, TimeZone};
use simple_http_server::logging::{display_path, format_access_log_line, format_clf_timestamp};

#[test]
fn format_clf_timestamp_known_value() {
    let dt = Local.with_ymd_and_hms(2026, 9, 23, 8, 3, 36).unwrap();
    let formatted = format_clf_timestamp(dt.timestamp(), dt.offset().fix().local_minus_utc());

    assert!(formatted.starts_with("23/Sep/2026:08:03:36"))
}

#[test]
fn clf_timestamp_has_log_shape_for_four_digit_years() {
    for (secs, offset) in [(0i64, 0i32), (1_790_150_616, 32_400), (-30_610_224_000, 0), (253_402_300_799, 0), (1, -86_399)] {
        let ts = format_clf_timestamp(secs, offset);
        let b = ts.as_bytes();
        assert_eq!(b.len(), 26, "{ts}");
        assert_eq!((b[2], b[6], b[11], b[14], b[17], b[20]), (b'/', b'/', b':', b':', b':', b' '), "{ts}");
        assert!(b[21] == b'+' || b[21] == b'-', "{ts}");
    }
}

#[test]
fn clf_timestamp_exact_values() {
    assert_eq!(format_clf_timestamp(0, 0), "01/Jan/1970:00:00:00 +0000");
    assert_eq!(format_clf_timestamp(0, 3600), "01/Jan/1970:01:00:00 +0100");
    assert_eq!(
        format_clf_timestamp(1_790_150_616, -19_800),
        "23/Sep/2026:02:33:36 -0530"
    );
}

#[test]
fn access_log_line_exact() {
    let line = format_access_log_line(
        "23/Sep/2026:08:03:36 +0900",
        "127.0.0.1:12345",
        "GET",
        "/index.html",
        "200 OK",
        1234,
        "curl/8.5.0",
    );
    assert_eq!(
        line,
        "127.0.0.1:12345 - - [23/Sep/2026:08:03:36 +0900] \"GET /index.html HTTP/1.1\" 200 1234 \"-\" \"curl/8.5.0\""
    );
}

#[test]
fn access_log_line_with_empty_status() {
    let line = format_access_log_line("t", "-", "-", "-", "  ", 0, "-");
    assert_eq!(line, "- - - [t] \"- - HTTP/1.1\" - 0 \"-\" \"-\"");
}

#[test]
fn display_path_shows_the_text() {
    assert_eq!(display_path("/srv/www"), "/srv/www");
}

#[test]
fn clf_timestamp_at_the_ends_of_chronos_range() {
    assert_eq!(
        format_clf_timestamp(-8_334_601_228_800, -86_399),
        "31/Dec/-262144:00:00:01 -2400"
    );
    assert_eq!(
        format_clf_timestamp(8_210_266_876_799, 86_399),
        "01/Jan/+262143:23:59:58 +2400"
    );
    assert_eq!(
        format_clf_timestamp(8_210_266_876_799, 0),
        "31/Dec/+262142:23:59:59 +0000"
    );
}

#[test]
fn clf_timestamp_layout_for_every_year() {
    for (secs, offset) in [
        (-8_334_601_228_800i64, -86_399i32),
        (-62_135_596_800, 0),
        (-62_167_219_200, 3_600),
        (0, 0),
        (253_402_300_800, 0),
        (8_210_266_876_799, 86_399),
    ] {
        let ts = format_clf_timestamp(secs, offset);
        let parts: Vec<&str> = ts.split(' ').collect();
        assert_eq!(parts.len(), 2, "{ts}");
        assert_eq!(parts[1].len(), 5, "{ts}");
        assert_eq!(parts[0].split(':').count(), 4, "{ts}");
    }
    assert_eq!(format_clf_timestamp(-62_135_596_800, 0), "01/Jan/0001:00:00:00 +0000");
    assert_eq!(format_clf_timestamp(253_402_300_800, 0), "01/Jan/+10000:00:00:00 +0000");
}
