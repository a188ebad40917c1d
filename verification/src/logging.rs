//! Access-log lines in the Common Log Format style, and their timestamps.

use std::fmt::Write;
use vstd::prelude::*;
use crate::text::{split_on, lemma_split_on_nonempty, words, split_words, push_str, push_chars, push_decimal, decimal, str_chars, string_of, http_version, push_http_version};

verus! {

/// How a path is shown in messages: its text.
pub fn display_path(path: &str) -> (r: String)
    ensures
        r@ == path@,
{
    string_of(path)
}

/// The status code of a status line such as `200 OK`: its first word, or `-`
/// when it has none.
pub open spec fn status_code(status: Seq<char>) -> Seq<char> {
    let w = words(status);
    if w.len() > 0 {
        w[0]
    } else {
        "-"@
    }
}

/// One access-log line:
/// `CLIENT - - [TIMESTAMP] "METHOD PATH HTTP/1.1" CODE LENGTH "-" "AGENT"`.
pub open spec fn access_log_line(
    timestamp: Seq<char>,
    client: Seq<char>,
    method: Seq<char>,
    path: Seq<char>,
    status: Seq<char>,
    body_len: nat,
    user_agent: Seq<char>,
) -> Seq<char> {
    client + " - - ["@ + timestamp + "] \""@ + method + " "@ + path + " "@ + http_version() + "\" "@
        + status_code(status) + " "@ + decimal(body_len) + " \"-\" \""@ + user_agent + "\""@
}

/// Formats one access-log line (see [`access_log_line`]); only the code of
/// the status line is logged.
pub fn format_access_log_line(
    timestamp: &str,
    client: &str,
    method: &str,
    path: &str,
    status: &str,
    body_len: usize,
    user_agent: &str,
) -> (r: String)
    ensures
        r@ == access_log_line(
            timestamp@,
            client@,
            method@,
            path@,
            status@,
            body_len as nat,
            user_agent@,
        ),
{
    let sw = split_words(str_chars(status).as_slice());
    let mut out = string_of(client);
    push_str(&mut out, " - - [");
    push_str(&mut out, timestamp);
    push_str(&mut out, "] \"");
    push_str(&mut out, method);
    push_str(&mut out, " ");
    push_str(&mut out, path);
    push_str(&mut out, " ");
    push_http_version(&mut out);
    push_str(&mut out, "\" ");
    if sw.len() > 0 {
        push_chars(&mut out, sw[0].as_slice());
    } else {
        push_str(&mut out, "-");
    }
    push_str(&mut out, " ");
    push_decimal(&mut out, body_len);
    push_str(&mut out, " \"-\" \"");
    push_str(&mut out, user_agent);
    push_str(&mut out, "\"");
    out
}

/// The `strftime`-style pattern of log timestamps: `23/Sep/2026:08:03:36 +0900`.
pub open spec fn clf_pattern() -> Seq<char> {
    "%d/%b/%Y:%H:%M:%S %z"@
}

/// The earliest instant chrono represents, in seconds from the Unix epoch:
/// the start of January 1 of the year -262143.
pub open spec fn timestamp_min() -> int {
    -8_334_601_228_800
}

/// The latest whole second chrono represents, in seconds from the Unix epoch:
/// the last second of December 31 of the year 262142.
pub open spec fn timestamp_max() -> int {
    8_210_266_876_799
}

/// The first local instant of the year 1000, in seconds from the Unix epoch.
pub open spec fn year_1000_start() -> int {
    -30_610_224_000
}

/// The last local second of the year 9999, in seconds from the Unix epoch.
pub open spec fn year_9999_end() -> int {
    253_402_300_799
}

/// The English abbreviation of a month, as `%b` writes it.
pub open spec fn is_month_abbreviation(m: Seq<char>) -> bool {
    ||| m == "Jan"@
    ||| m == "Feb"@
    ||| m == "Mar"@
    ||| m == "Apr"@
    ||| m == "May"@
    ||| m == "Jun"@
    ||| m == "Jul"@
    ||| m == "Aug"@
    ||| m == "Sep"@
    ||| m == "Oct"@
    ||| m == "Nov"@
    ||| m == "Dec"@
}

/// An ASCII decimal digit.
pub open spec fn is_digit(c: char) -> bool {
    '0' <= c <= '9'
}

/// The shape of a log timestamp, `DD/Mon/YYYY:HH:MM:SS +HHMM`: two-digit day,
/// month abbreviation, four-digit year, two-digit hour, minute and second,
/// and the offset as a sign and four digits.
pub open spec fn has_clf_shape(t: Seq<char>) -> bool {
    &&& t.len() == 26
    &&& is_digit(t[0]) && is_digit(t[1])
    &&& t[2] == '/'
    &&& is_month_abbreviation(t.subrange(3, 6))
    &&& t[6] == '/'
    &&& is_digit(t[7]) && is_digit(t[8]) && is_digit(t[9]) && is_digit(t[10])
    &&& t[11] == ':'
    &&& is_digit(t[12]) && is_digit(t[13])
    &&& t[14] == ':'
    &&& is_digit(t[15]) && is_digit(t[16])
    &&& t[17] == ':'
    &&& is_digit(t[18]) && is_digit(t[19])
    &&& t[20] == ' '
    &&& (t[21] == '+' || t[21] == '-')
    &&& is_digit(t[22]) && is_digit(t[23]) && is_digit(t[24]) && is_digit(t[25])
}

/// The layout of every log timestamp, `DD/Mon/YEAR:HH:MM:SS +HHMM`: two-digit
/// day, month abbreviation, a year of at least four digits (with a sign
/// when it lies outside 0 to 9999), two-digit hour, minute and second, one
/// space, and the offset as a sign and four digits. So the text has exactly
/// one space, five characters after it, and four `:`-separated fields before it.
pub open spec fn has_clf_layout(t: Seq<char>) -> bool {
    let k = t.len() - 6;
    &&& t.len() >= 26
    &&& is_digit(t[0]) && is_digit(t[1])
    &&& t[2] == '/'
    &&& is_month_abbreviation(t.subrange(3, 6))
    &&& t[6] == '/'
    &&& forall|i: int|
        7 <= i < k - 9 ==> is_digit(#[trigger] t[i]) || (i == 7 && (t[i] == '+' || t[i] == '-'))
    &&& t[k - 9] == ':'
    &&& is_digit(t[k - 8]) && is_digit(t[k - 7])
    &&& t[k - 6] == ':'
    &&& is_digit(t[k - 5]) && is_digit(t[k - 4])
    &&& t[k - 3] == ':'
    &&& is_digit(t[k - 2]) && is_digit(t[k - 1])
    &&& t[k] == ' '
    &&& (t[k + 1] == '+' || t[k + 1] == '-')
    &&& is_digit(t[k + 2]) && is_digit(t[k + 3]) && is_digit(t[k + 4]) && is_digit(t[k + 5])
}

proof fn lemma_month_letters(m: Seq<char>)
    requires
        is_month_abbreviation(m),
    ensures
        m.len() == 3,
        forall|i: int| 0 <= i < 3 ==> ('A' <= #[trigger] m[i] <= 'Z' || 'a' <= m[i] <= 'z'),
{
    reveal_strlit("Jan");
    reveal_strlit("Feb");
    reveal_strlit("Mar");
    reveal_strlit("Apr");
    reveal_strlit("May");
    reveal_strlit("Jun");
    reveal_strlit("Jul");
    reveal_strlit("Aug");
    reveal_strlit("Sep");
    reveal_strlit("Oct");
    reveal_strlit("Nov");
    reveal_strlit("Dec");
}

/// Splitting `x`, a separator and `y` (with `y` free of the separator) gives
/// the pieces of `x` and then `y`.
proof fn lemma_split_on_join(x: Seq<char>, sep: char, y: Seq<char>)
    requires
        !y.contains(sep),
    ensures
        split_on(x + seq![sep] + y, sep) == split_on(x, sep).push(y),
{
    let xs = x + seq![sep];
    assert(xs.drop_last() =~= x);
    crate::security::lemma_split_on_append_plain(xs, y, sep);
    lemma_split_on_nonempty(x, sep);
    assert(Seq::<char>::empty() + y =~= y);
    assert(split_on(xs, sep).update(split_on(xs, sep).len() - 1, split_on(xs, sep).last() + y)
        =~= split_on(x, sep).push(y));
}

proof fn lemma_split_on_plain(y: Seq<char>, sep: char)
    requires
        !y.contains(sep),
    ensures
        split_on(y, sep) == seq![y],
{
    crate::security::lemma_split_on_append_plain(Seq::<char>::empty(), y, sep);
    assert(Seq::<char>::empty() + y =~= y);
    assert(split_on(Seq::<char>::empty(), sep) =~= seq![Seq::<char>::empty()]);
}

/// A timestamp with the log layout splits at its one space into two parts,
/// the second five characters long, and its first part splits at `:` into
/// four fields (`DD/Mon/YEAR`, `HH`, `MM`, `SS`).
pub proof fn lemma_clf_layout_fields(t: Seq<char>)
    requires
        has_clf_layout(t),
    ensures
        split_on(t, ' ').len() == 2,
        split_on(t, ' ')[1].len() == 5,
        split_on(split_on(t, ' ')[0], ':').len() == 4,
{
    let k = t.len() - 6;
    lemma_month_letters(t.subrange(3, 6));
    assert forall|i: int| 3 <= i < 6 implies ('A' <= #[trigger] t[i] <= 'Z' || 'a' <= t[i]
        <= 'z') by {
        assert(t[i] == t.subrange(3, 6)[i - 3]);
    }
    let a = t.take(k);
    let b = t.subrange(k + 1, t.len() as int);
    assert(t =~= a + seq![' '] + b);
    assert(!a.contains(' ')) by {
        if a.contains(' ') {
            let i = choose|i: int| 0 <= i < a.len() && a[i] == ' ';
            assert(t[i] == ' ');
            if 7 <= i < k - 9 {
                assert(is_digit(t[i]) || (i == 7 && (t[i] == '+' || t[i] == '-')));
            }
        }
    }
    assert(!b.contains(' ')) by {
        if b.contains(' ') {
            let i = choose|i: int| 0 <= i < b.len() && b[i] == ' ';
            assert(t[k + 1 + i] == ' ');
        }
    }
    lemma_split_on_plain(a, ' ');
    lemma_split_on_join(a, ' ', b);
    assert(split_on(t, ' ') =~= seq![a, b]);
    let y = t.take(k - 9);
    let hh = t.subrange(k - 8, k - 6);
    let mm = t.subrange(k - 5, k - 3);
    let ss = t.subrange(k - 2, k);
    assert(a =~= y + seq![':'] + hh + seq![':'] + mm + seq![':'] + ss);
    assert(!y.contains(':')) by {
        if y.contains(':') {
            let i = choose|i: int| 0 <= i < y.len() && y[i] == ':';
            assert(t[i] == ':');
            if 7 <= i < k - 9 {
                assert(is_digit(t[i]) || (i == 7 && (t[i] == '+' || t[i] == '-')));
            }
        }
    }
    assert(!hh.contains(':')) by {
        if hh.contains(':') {
            let i = choose|i: int| 0 <= i < hh.len() && hh[i] == ':';
            assert(t[k - 8 + i] == ':');
        }
    }
    assert(!mm.contains(':')) by {
        if mm.contains(':') {
            let i = choose|i: int| 0 <= i < mm.len() && mm[i] == ':';
            assert(t[k - 5 + i] == ':');
        }
    }
    assert(!ss.contains(':')) by {
        if ss.contains(':') {
            let i = choose|i: int| 0 <= i < ss.len() && ss[i] == ':';
            assert(t[k - 2 + i] == ':');
        }
    }
    lemma_split_on_plain(y, ':');
    lemma_split_on_join(y, ':', hh);
    lemma_split_on_join(y + seq![':'] + hh, ':', mm);
    lemma_split_on_join(y + seq![':'] + hh + seq![':'] + mm, ':', ss);
}

/// What chrono's `format(fmt)` writes for the instant `secs` seconds after the
/// Unix epoch, shown at a fixed offset of `offset` seconds east of UTC.
pub uninterp spec fn spec_chrono_format(secs: int, offset: int, fmt: Seq<char>) -> Seq<char>;

/// chrono: `FixedOffset::east_opt(offset)`, `TimeZone::timestamp_opt(secs, 0)`
/// and `DateTime::format(fmt)` written into a `String`. The text is named by
/// [`spec_chrono_format`]. `None` when the offset is a day or more, the
/// instant is outside chrono's range, or the pattern cannot be written; the
/// source shows that for offsets under a day, instants from [`timestamp_min`]
/// to [`timestamp_max`] and the log pattern the text is always produced; that
/// the log pattern's text always has the layout [`has_clf_layout`]; and that
/// it has the exact shape [`has_clf_shape`] when the local time falls in the
/// years 1000 to 9999 (four-digit years).
#[verifier::external_body]
fn chrono_format(secs: i64, offset: i32, fmt: &str) -> (res: Option<String>)
    ensures
        res matches Some(s) ==> s@ == spec_chrono_format(secs as int, offset as int, fmt@),
        (-86_400 < offset < 86_400 && timestamp_min() <= secs <= timestamp_max() && fmt@
            == clf_pattern()) ==> res is Some,
        res matches Some(s) ==> (fmt@ == clf_pattern() ==> has_clf_layout(s@)),
        res matches Some(s) ==> (fmt@ == clf_pattern() && year_1000_start() <= secs + offset
            <= year_9999_end() ==> has_clf_shape(s@)),
{
    let tz = chrono::FixedOffset::east_opt(offset)?;
    let dt = chrono::TimeZone::timestamp_opt(&tz, secs, 0).single()?;
    let mut out = String::new();
    write!(out, "{}", dt.format(fmt)).ok()?;
    Some(out)
}

/// Formats an instant for the access log, `DD/Mon/YYYY:HH:MM:SS +HHMM`, at the
/// given offset from UTC (see [`clf_pattern`]).
pub fn format_clf_timestamp(unix_secs: i64, utc_offset_secs: i32) -> (r: String)
    requires
        -86_400 < utc_offset_secs < 86_400,
        timestamp_min() <= unix_secs <= timestamp_max(),
    ensures
        r@ == spec_chrono_format(unix_secs as int, utc_offset_secs as int, clf_pattern()),
        has_clf_layout(r@),
        year_1000_start() <= unix_secs + utc_offset_secs <= year_9999_end() ==> has_clf_shape(r@),
{
    let pattern = "%d/%b/%Y:%H:%M:%S %z";
    match chrono_format(unix_secs, utc_offset_secs, pattern) {
        Some(s) => s,
        None => String::new(),
    }
}

} // verus!
