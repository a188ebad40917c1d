//! The bytes of an HTTP response: status line, headers and body.

use vstd::prelude::*;
use vstd::utf8::encode_utf8;
use crate::text::{lemma_decimal_is_numeral, push_str, push_decimal, decimal, http_version, push_http_version};

verus! {

/// The status line and headers of a response whose body has `body_len`
/// bytes, ending with the empty line that precedes the body.
pub open spec fn response_head(status: Seq<char>, content_type: Seq<char>, body_len: nat) -> Seq<
    char,
> {
    http_version() + " "@ + status + "\r\nContent-Type: "@ + content_type
        + "\r\nContent-Length: "@ + decimal(body_len) + "\r\nConnection: close\r\n\r\n"@
}

/// The `Content-Length` header of a response head is the body's length: the
/// field is a numeral of decimal digits without a leading zero that reads
/// back as `body_len`, and it is followed by the closing headers.
pub proof fn lemma_content_length_reads_back(
    status: Seq<char>,
    content_type: Seq<char>,
    body_len: nat,
)
    ensures
        exists|head: Seq<char>, field: Seq<char>|
            {
                &&& response_head(status, content_type, body_len) == head
                    + "\r\nContent-Length: "@ + field + "\r\nConnection: close\r\n\r\n"@
                &&& crate::config::digits_value(field) == body_len
                &&& field.len() >= 1
                &&& (forall|i: int| 0 <= i < field.len() ==> '0' <= #[trigger] field[i] <= '9')
                &&& (field[0] == '0' ==> body_len == 0)
            },
{
    lemma_decimal_is_numeral(body_len);
    let head = http_version() + " "@ + status + "\r\nContent-Type: "@ + content_type;
    let field = decimal(body_len);
    assert(response_head(status, content_type, body_len) == head + "\r\nContent-Length: "@
        + field + "\r\nConnection: close\r\n\r\n"@);
}

/// Formats the status line and headers of a response (see [`response_head`]).
pub fn format_response_head(status: &str, content_type: &str, body_len: usize) -> (r: String)
    ensures
        r@ == response_head(status@, content_type@, body_len as nat),
{
    let mut out = String::new();
    push_http_version(&mut out);
    push_str(&mut out, " ");
    push_str(&mut out, status);
    push_str(&mut out, "\r\nContent-Type: ");
    push_str(&mut out, content_type);
    push_str(&mut out, "\r\nContent-Length: ");
    push_decimal(&mut out, body_len);
    push_str(&mut out, "\r\nConnection: close\r\n\r\n");
    assert(out@ =~= response_head(status@, content_type@, body_len as nat));
    out
}

/// The bytes of a complete response: the UTF-8 encoded head, whose
/// `Content-Length` is the body's length, followed by the body.
pub fn render_response(status: &str, content_type: &str, body: &[u8]) -> (r: Vec<u8>)
    ensures
        r@ == encode_utf8(response_head(status@, content_type@, body@.len())) + body@,
{
    let head = format_response_head(status, content_type, body.len());
    let hb = head.as_str().as_bytes();
    let mut out: Vec<u8> = Vec::with_capacity(hb.len());
    let mut i: usize = 0;
    while i < hb.len()
        invariant
            i <= hb@.len(),
            out@ == hb@.take(i as int),
        decreases hb@.len() - i,
    {
        out.push(hb[i]);
        i = i + 1;
        assert(hb@.take(i as int) =~= hb@.take(i - 1).push(hb@[i - 1]));
    }
    let ghost h = out@;
    assert(h =~= hb@);
    let mut j: usize = 0;
    while j < body.len()
        invariant
            j <= body@.len(),
            out@ == h + body@.take(j as int),
        decreases body@.len() - j,
    {
        out.push(body[j]);
        j = j + 1;
        assert(body@.take(j as int) =~= body@.take(j - 1).push(body@[j - 1]));
    }
    assert(body@.take(j as int) =~= body@);
    out
}

} // verus!
