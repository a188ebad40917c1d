//! What a response holds: content types by file extension, HTML escaping,
//! and the HTML listing of a directory.

use vstd::prelude::*;
use crate::security::{body_components, parent_dir, path_body_components};
use crate::text::{push_char, push_str, push_chars, str_chars, chars_eq_str, seqs, string_of, bytes_of};

verus! {

/// The last component of a path, when it is a name (`Path::file_name`).
pub open spec fn file_name(p: Seq<char>) -> Option<Seq<char>> {
    let b = body_components(p);
    if b.len() > 0 && b.last() != parent_dir() {
        Some(b.last())
    } else {
        None
    }
}

/// The index of the last `.` in `s`, or -1 when there is none.
pub open spec fn last_dot(s: Seq<char>) -> int
    decreases s.len(),
{
    if s.len() == 0 {
        -1
    } else if s.last() == '.' {
        s.len() - 1
    } else {
        last_dot(s.drop_last())
    }
}

/// The extension of a path (`Path::extension`): what follows the last `.` of
/// its file name, provided that this `.` is not the name's first character.
pub open spec fn extension(p: Seq<char>) -> Option<Seq<char>> {
    match file_name(p) {
        Some(name) => {
            let k = last_dot(name);
            if k > 0 {
                Some(name.subrange(k + 1, name.len() as int))
            } else {
                None
            }
        },
        None => None,
    }
}

/// The content type served for a file with the given extension.
pub open spec fn mime_for_extension(e: Seq<char>) -> Seq<char> {
    if e == "html"@ || e == "htm"@ {
        "text/html; charset=utf-8"@
    } else if e == "css"@ {
        "text/css; charset=utf-8"@
    } else if e == "js"@ {
        "application/javascript; charset=utf-8"@
    } else if e == "json"@ {
        "application/json; charset=utf-8"@
    } else if e == "png"@ {
        "image/png"@
    } else if e == "jpg"@ || e == "jpeg"@ {
        "image/jpeg"@
    } else if e == "gif"@ {
        "image/gif"@
    } else if e == "svg"@ {
        "image/svg+xml"@
    } else if e == "ico"@ {
        "image/x-icon"@
    } else if e == "txt"@ {
        "text/plain; charset=utf-8"@
    } else if e == "pdf"@ {
        "application/pdf"@
    } else if e == "zip"@ {
        "application/zip"@
    } else if e == "mp4"@ {
        "video/mp4"@
    } else if e == "mp3"@ {
        "audio/mpeg"@
    } else if e == "wasm"@ {
        "application/wasm"@
    } else {
        "application/octet-stream"@
    }
}

/// The content type served for a path: by its extension, an absent extension
/// counting as the empty one.
pub open spec fn mime_for_path(p: Seq<char>) -> Seq<char> {
    match extension(p) {
        Some(e) => mime_for_extension(e),
        None => mime_for_extension(seq![]),
    }
}

/// The content types served, by extension: each row of the table, and
/// `application/octet-stream` for a path with no extension or any other one.
pub proof fn lemma_content_type_table(p: Seq<char>)
    ensures
        extension(p) == Some("html"@) ==> mime_for_path(p) == "text/html; charset=utf-8"@,
        extension(p) == Some("htm"@) ==> mime_for_path(p) == "text/html; charset=utf-8"@,
        extension(p) == Some("css"@) ==> mime_for_path(p) == "text/css; charset=utf-8"@,
        extension(p) == Some("js"@) ==> mime_for_path(p) == "application/javascript; charset=utf-8"@,
        extension(p) == Some("json"@) ==> mime_for_path(p) == "application/json; charset=utf-8"@,
        extension(p) == Some("png"@) ==> mime_for_path(p) == "image/png"@,
        extension(p) == Some("jpg"@) ==> mime_for_path(p) == "image/jpeg"@,
        extension(p) == Some("jpeg"@) ==> mime_for_path(p) == "image/jpeg"@,
        extension(p) == Some("gif"@) ==> mime_for_path(p) == "image/gif"@,
        extension(p) == Some("svg"@) ==> mime_for_path(p) == "image/svg+xml"@,
        extension(p) == Some("ico"@) ==> mime_for_path(p) == "image/x-icon"@,
        extension(p) == Some("txt"@) ==> mime_for_path(p) == "text/plain; charset=utf-8"@,
        extension(p) == Some("pdf"@) ==> mime_for_path(p) == "application/pdf"@,
        extension(p) == Some("zip"@) ==> mime_for_path(p) == "application/zip"@,
        extension(p) == Some("mp4"@) ==> mime_for_path(p) == "video/mp4"@,
        extension(p) == Some("mp3"@) ==> mime_for_path(p) == "audio/mpeg"@,
        extension(p) == Some("wasm"@) ==> mime_for_path(p) == "application/wasm"@,
        extension(p) is None ==> mime_for_path(p) == "application/octet-stream"@,
        (extension(p) matches Some(e) && !is_known_extension(e)) ==> mime_for_path(p)
            == "application/octet-stream"@,
{
    reveal_strlit("html");
    reveal_strlit("htm");
    reveal_strlit("css");
    reveal_strlit("js");
    reveal_strlit("json");
    reveal_strlit("png");
    reveal_strlit("jpg");
    reveal_strlit("jpeg");
    reveal_strlit("gif");
    reveal_strlit("svg");
    reveal_strlit("ico");
    reveal_strlit("txt");
    reveal_strlit("pdf");
    reveal_strlit("zip");
    reveal_strlit("mp4");
    reveal_strlit("mp3");
    reveal_strlit("wasm");
    assert("css"@[0] != "htm"@[0]);
    assert("json"@[0] != "html"@[0]);
    assert("png"@[0] != "htm"@[0]);
    assert("png"@[0] != "css"@[0]);
    assert("jpg"@[0] != "htm"@[0]);
    assert("jpg"@[0] != "css"@[0]);
    assert("jpg"@[0] != "png"@[0]);
    assert("jpeg"@[0] != "html"@[0]);
    assert("jpeg"@[1] != "json"@[1]);
    assert("gif"@[0] != "htm"@[0]);
    assert("gif"@[0] != "css"@[0]);
    assert("gif"@[0] != "png"@[0]);
    assert("gif"@[0] != "jpg"@[0]);
    assert("svg"@[0] != "htm"@[0]);
    assert("svg"@[0] != "css"@[0]);
    assert("svg"@[0] != "png"@[0]);
    assert("svg"@[0] != "jpg"@[0]);
    assert("svg"@[0] != "gif"@[0]);
    assert("ico"@[0] != "htm"@[0]);
    assert("ico"@[0] != "css"@[0]);
    assert("ico"@[0] != "png"@[0]);
    assert("ico"@[0] != "jpg"@[0]);
    assert("ico"@[0] != "gif"@[0]);
    assert("ico"@[0] != "svg"@[0]);
    assert("txt"@[0] != "htm"@[0]);
    assert("txt"@[0] != "css"@[0]);
    assert("txt"@[0] != "png"@[0]);
    assert("txt"@[0] != "jpg"@[0]);
    assert("txt"@[0] != "gif"@[0]);
    assert("txt"@[0] != "svg"@[0]);
    assert("txt"@[0] != "ico"@[0]);
    assert("pdf"@[0] != "htm"@[0]);
    assert("pdf"@[0] != "css"@[0]);
    assert("pdf"@[1] != "png"@[1]);
    assert("pdf"@[0] != "jpg"@[0]);
    assert("pdf"@[0] != "gif"@[0]);
    assert("pdf"@[0] != "svg"@[0]);
    assert("pdf"@[0] != "ico"@[0]);
    assert("pdf"@[0] != "txt"@[0]);
    assert("zip"@[0] != "htm"@[0]);
    assert("zip"@[0] != "css"@[0]);
    assert("zip"@[0] != "png"@[0]);
    assert("zip"@[0] != "jpg"@[0]);
    assert("zip"@[0] != "gif"@[0]);
    assert("zip"@[0] != "svg"@[0]);
    assert("zip"@[0] != "ico"@[0]);
    assert("zip"@[0] != "txt"@[0]);
    assert("zip"@[0] != "pdf"@[0]);
    assert("mp4"@[0] != "htm"@[0]);
    assert("mp4"@[0] != "css"@[0]);
    assert("mp4"@[0] != "png"@[0]);
    assert("mp4"@[0] != "jpg"@[0]);
    assert("mp4"@[0] != "gif"@[0]);
    assert("mp4"@[0] != "svg"@[0]);
    assert("mp4"@[0] != "ico"@[0]);
    assert("mp4"@[0] != "txt"@[0]);
    assert("mp4"@[0] != "pdf"@[0]);
    assert("mp4"@[0] != "zip"@[0]);
    assert("mp3"@[0] != "htm"@[0]);
    assert("mp3"@[0] != "css"@[0]);
    assert("mp3"@[0] != "png"@[0]);
    assert("mp3"@[0] != "jpg"@[0]);
    assert("mp3"@[0] != "gif"@[0]);
    assert("mp3"@[0] != "svg"@[0]);
    assert("mp3"@[0] != "ico"@[0]);
    assert("mp3"@[0] != "txt"@[0]);
    assert("mp3"@[0] != "pdf"@[0]);
    assert("mp3"@[0] != "zip"@[0]);
    assert("mp3"@[2] != "mp4"@[2]);
    assert("wasm"@[0] != "html"@[0]);
    assert("wasm"@[0] != "json"@[0]);
    assert("wasm"@[0] != "jpeg"@[0]);
    assert("json"@ != "js"@) by {
        assert("json"@.len() != "js"@.len());
    }
    assert("jpg"@ != "js"@) by {
        assert("jpg"@.len() != "js"@.len());
    }
    if extension(p) is None {
        assert(Seq::<char>::empty().len() == 0);
    }
}

/// The extensions the table names.
pub open spec fn is_known_extension(e: Seq<char>) -> bool {
    e == "html"@ || e == "htm"@ || e == "css"@ || e == "js"@ || e == "json"@ || e == "png"@ || e == "jpg"@ || e == "jpeg"@ || e == "gif"@ || e == "svg"@ || e == "ico"@ || e == "txt"@ || e == "pdf"@ || e == "zip"@ || e == "mp4"@ || e == "mp3"@ || e == "wasm"@
}

fn last_dot_index(s: &[char]) -> (r: Option<usize>)
    ensures
        r is None <==> last_dot(s@) == -1,
        r matches Some(k) ==> k == last_dot(s@),
        last_dot(s@) < s@.len(),
{
    let mut i = s.len();
    assert(s@.take(i as int) =~= s@);
    while i > 0
        invariant
            i <= s@.len(),
            last_dot(s@) == last_dot(s@.take(i as int)),
        decreases i,
    {
        let ghost t = s@.take(i as int);
        assert(t.drop_last() =~= s@.take(i - 1));
        if s[i - 1] == '.' {
            return Some(i - 1);
        }
        i = i - 1;
    }
    assert(s@.take(0) =~= Seq::<char>::empty());
    proof {
        lemma_last_dot_bound(s@);
    }
    None
}

proof fn lemma_last_dot_bound(s: Seq<char>)
    ensures
        -1 <= last_dot(s) < s.len(),
        last_dot(s) >= 0 ==> s[last_dot(s)] == '.',
    decreases s.len(),
{
    if s.len() > 0 && s.last() != '.' {
        lemma_last_dot_bound(s.drop_last());
    }
}

fn mime_for_ext(e: &[char]) -> (r: &'static str)
    ensures
        r@ == mime_for_extension(e@),
{
    if chars_eq_str(e, "html") || chars_eq_str(e, "htm") {
        "text/html; charset=utf-8"
    } else if chars_eq_str(e, "css") {
        "text/css; charset=utf-8"
    } else if chars_eq_str(e, "js") {
        "application/javascript; charset=utf-8"
    } else if chars_eq_str(e, "json") {
        "application/json; charset=utf-8"
    } else if chars_eq_str(e, "png") {
        "image/png"
    } else if chars_eq_str(e, "jpg") || chars_eq_str(e, "jpeg") {
        "image/jpeg"
    } else if chars_eq_str(e, "gif") {
        "image/gif"
    } else if chars_eq_str(e, "svg") {
        "image/svg+xml"
    } else if chars_eq_str(e, "ico") {
        "image/x-icon"
    } else if chars_eq_str(e, "txt") {
        "text/plain; charset=utf-8"
    } else if chars_eq_str(e, "pdf") {
        "application/pdf"
    } else if chars_eq_str(e, "zip") {
        "application/zip"
    } else if chars_eq_str(e, "mp4") {
        "video/mp4"
    } else if chars_eq_str(e, "mp3") {
        "audio/mpeg"
    } else if chars_eq_str(e, "wasm") {
        "application/wasm"
    } else {
        "application/octet-stream"
    }
}

/// The content type of a file, chosen by the extension of its path; unknown
/// or absent extensions give `application/octet-stream`.
pub fn mime_type(path: &str) -> (r: &'static str)
    ensures
        r@ == mime_for_path(path@),
{
    let pc = str_chars(path);
    let body = path_body_components(pc.as_slice());
    let ghost b = seqs(body@);
    let empty: Vec<char> = Vec::new();
    if body.len() == 0 {
        assert(empty@ =~= Seq::<char>::empty());
        return mime_for_ext(empty.as_slice());
    }
    let name = &body[body.len() - 1];
    assert(name@ == b.last());
    let is_parent = name.len() == 2 && name[0] == '.' && name[1] == '.';
    assert(is_parent == (name@ == parent_dir())) by {
        if name.len() == 2 && name@[0] == '.' && name@[1] == '.' {
            assert(name@ =~= parent_dir());
        }
    }
    if is_parent {
        assert(empty@ =~= Seq::<char>::empty());
        return mime_for_ext(empty.as_slice());
    }
    match last_dot_index(name.as_slice()) {
        Some(k) => {
            if k > 0 {
                let ext = &name.as_slice()[k + 1..name.len()];
                mime_for_ext(ext)
            } else {
                assert(empty@ =~= Seq::<char>::empty());
                mime_for_ext(empty.as_slice())
            }
        },
        None => {
            assert(empty@ =~= Seq::<char>::empty());
            mime_for_ext(empty.as_slice())
        },
    }
}

/// The HTML text for one character: `&`, `<`, `>` and `"` become the entities
/// `&amp;`, `&lt;`, `&gt;` and `&quot;`; every other character stands for itself.
pub open spec fn escape_char(c: char) -> Seq<char> {
    if c == '&' {
        seq!['&', 'a', 'm', 'p', ';']
    } else if c == '<' {
        seq!['&', 'l', 't', ';']
    } else if c == '>' {
        seq!['&', 'g', 't', ';']
    } else if c == '"' {
        seq!['&', 'q', 'u', 'o', 't', ';']
    } else {
        seq![c]
    }
}

/// `s` with each character replaced by its HTML text (see [`escape_char`]).
pub open spec fn html_escaped(s: Seq<char>) -> Seq<char>
    decreases s.len(),
{
    if s.len() == 0 {
        seq![]
    } else {
        html_escaped(s.drop_last()) + escape_char(s.last())
    }
}

fn push_escaped_char(out: &mut String, c: char)
    ensures
        final(out)@ == old(out)@ + escape_char(c),
{
    let ghost o = out@;
    if c == '&' {
        push_char(out, '&');
        push_char(out, 'a');
        push_char(out, 'm');
        push_char(out, 'p');
        push_char(out, ';');
    } else if c == '<' {
        push_char(out, '&');
        push_char(out, 'l');
        push_char(out, 't');
        push_char(out, ';');
    } else if c == '>' {
        push_char(out, '&');
        push_char(out, 'g');
        push_char(out, 't');
        push_char(out, ';');
    } else if c == '"' {
        push_char(out, '&');
        push_char(out, 'q');
        push_char(out, 'u');
        push_char(out, 'o');
        push_char(out, 't');
        push_char(out, ';');
    } else {
        push_char(out, c);
    }
    assert(out@ =~= o + escape_char(c));
}

/// Appends the HTML-escaped text of `s` to `out`.
pub fn push_html_escaped(out: &mut String, s: &str)
    ensures
        final(out)@ == old(out)@ + html_escaped(s@),
{
    let cs = str_chars(s);
    let ghost o = out@;
    let mut i: usize = 0;
    assert(cs@.take(0) =~= Seq::<char>::empty());
    assert(o + html_escaped(Seq::<char>::empty()) =~= o);
    while i < cs.len()
        invariant
            i <= cs@.len(),
            cs@ == s@,
            out@ == o + html_escaped(cs@.take(i as int)),
        decreases cs@.len() - i,
    {
        push_escaped_char(out, cs[i]);
        assert(cs@.take(i + 1).drop_last() =~= cs@.take(i as int));
        i = i + 1;
    }
    assert(cs@.take(i as int) =~= cs@);
}

/// Escapes `&`, `<`, `>` and `"` for inclusion in HTML text and attribute values.
pub fn html_escape(s: &str) -> (r: String)
    ensures
        r@ == html_escaped(s@),
{
    let mut r = String::new();
    push_html_escaped(&mut r, s);
    assert(Seq::<char>::empty() + html_escaped(s@) =~= html_escaped(s@));
    r
}

/// Escaped text holds no `<`, `>` or `"`, so it can neither open a tag nor
/// close an attribute value.
pub proof fn lemma_html_escaped_is_inert(s: Seq<char>)
    ensures
        !html_escaped(s).contains('<'),
        !html_escaped(s).contains('>'),
        !html_escaped(s).contains('"'),
    decreases s.len(),
{
    if s.len() > 0 {
        lemma_html_escaped_is_inert(s.drop_last());
        let a = html_escaped(s.drop_last());
        let e = escape_char(s.last());
        assert forall|i: int| 0 <= i < (a + e).len() implies (a + e)[i] != '<' && (a + e)[i]
            != '>' && (a + e)[i] != '"' by {
            if i < a.len() {
                assert((a + e)[i] == a[i]);
            } else {
                assert((a + e)[i] == e[i - a.len()]);
            }
        }
    }
}

/// Text free of `&`, `<`, `>` and `"` is left unchanged by escaping.
pub proof fn lemma_html_escaped_plain(s: Seq<char>)
    requires
        !s.contains('&'),
        !s.contains('<'),
        !s.contains('>'),
        !s.contains('"'),
    ensures
        html_escaped(s) == s,
    decreases s.len(),
{
    if s.len() > 0 {
        let d = s.drop_last();
        assert(!d.contains('&') && !d.contains('<') && !d.contains('>') && !d.contains('"')) by {
            assert forall|i: int| 0 <= i < d.len() implies d[i] == s[i] by {}
        }
        lemma_html_escaped_plain(d);
        assert(s[s.len() - 1] == s.last());
        assert(d + seq![s.last()] =~= s);
    }
}

/// One entry of a directory as the listing shows it.
#[derive(Debug)]
pub struct ListingEntry {
    /// The entry's file name as text (invalid UTF-8 replaced).
    pub name: String,
    /// Whether the entry is a directory.
    pub is_dir: bool,
    /// The entry's file name as the raw bytes the file system gives; entries
    /// are listed in the order of these bytes.
    pub key: Vec<u8>,
}

/// The meaning of a [`ListingEntry`]: its name as text, whether it is a
/// directory, and its name's raw bytes.
pub type EntryView = (Seq<char>, bool, Seq<u8>);

impl View for ListingEntry {
    type V = (Seq<char>, bool, Seq<u8>);

    open spec fn view(&self) -> (Seq<char>, bool, Seq<u8>) {
        (self.name@, self.is_dir, self.key@)
    }
}

fn copy_bytes(b: &Vec<u8>) -> (r: Vec<u8>)
    ensures
        r@ == b@,
{
    let mut out: Vec<u8> = Vec::with_capacity(b.len());
    let mut i: usize = 0;
    while i < b.len()
        invariant
            i <= b@.len(),
            out@ == b@.take(i as int),
        decreases b@.len() - i,
    {
        out.push(b[i]);
        i = i + 1;
        assert(b@.take(i as int) =~= b@.take(i - 1).push(b@[i - 1]));
    }
    assert(b@.take(i as int) =~= b@);
    out
}

impl ListingEntry {
    /// An entry whose name is valid text, so that its raw bytes are the
    /// name's UTF-8 encoding.
    pub fn from_name(name: &str, is_dir: bool) -> (r: ListingEntry)
        ensures
            r@ == (name@, is_dir, vstd::utf8::encode_utf8(name@)),
    {
        ListingEntry { name: string_of(name), is_dir, key: bytes_of(name) }
    }

    /// A copy of this entry.
    pub fn copy(&self) -> (r: ListingEntry)
        ensures
            r@ == self@,
    {
        ListingEntry { name: self.name.clone(), is_dir: self.is_dir, key: copy_bytes(&self.key) }
    }
}

/// The views of a sequence of entries.
pub open spec fn entry_views(v: Seq<ListingEntry>) -> Seq<EntryView> {
    v.map_values(|e: ListingEntry| e@)
}

/// Lexicographic order of byte strings, the order in which file names
/// (`OsString`) compare.
pub open spec fn lex_le(a: Seq<u8>, b: Seq<u8>) -> bool
    decreases a.len(),
{
    if a.len() == 0 {
        true
    } else if b.len() == 0 {
        false
    } else if a[0] < b[0] {
        true
    } else if a[0] == b[0] {
        lex_le(a.drop_first(), b.drop_first())
    } else {
        false
    }
}

/// Any two byte strings are ordered one way or the other.
pub proof fn lemma_lex_total(a: Seq<u8>, b: Seq<u8>)
    ensures
        lex_le(a, b) || lex_le(b, a),
    decreases a.len(),
{
    if a.len() > 0 && b.len() > 0 && a[0] == b[0] {
        lemma_lex_total(a.drop_first(), b.drop_first());
    }
}

/// The order is transitive.
pub proof fn lemma_lex_trans(a: Seq<u8>, b: Seq<u8>, c: Seq<u8>)
    requires
        lex_le(a, b),
        lex_le(b, c),
    ensures
        lex_le(a, c),
    decreases a.len(),
{
    if a.len() > 0 && b.len() > 0 && c.len() > 0 && a[0] == b[0] && b[0] == c[0] {
        lemma_lex_trans(a.drop_first(), b.drop_first(), c.drop_first());
    }
}

/// Byte strings are ordered by their first differing byte, compared as
/// unsigned values: where `x` and `y` agree on their first `i` bytes and
/// `x[i] < y[i]`, `x` comes strictly before `y`.
pub proof fn lemma_lex_first_difference(x: Seq<u8>, y: Seq<u8>, i: int)
    requires
        0 <= i < x.len(),
        i < y.len(),
        x.subrange(0, i) == y.subrange(0, i),
        x[i] < y[i],
    ensures
        lex_le(x, y),
        !lex_le(y, x),
    decreases i,
{
    if i > 0 {
        assert(x[0] == x.subrange(0, i)[0]);
        assert(y[0] == y.subrange(0, i)[0]);
        assert(x.drop_first().subrange(0, i - 1) =~= x.subrange(1, i));
        assert(y.drop_first().subrange(0, i - 1) =~= y.subrange(1, i));
        assert(x.subrange(1, i) =~= x.subrange(0, i).drop_first());
        assert(y.subrange(1, i) =~= y.subrange(0, i).drop_first());
        lemma_lex_first_difference(x.drop_first(), y.drop_first(), i - 1);
    }
}

/// A byte string comes before every extension of it.
pub proof fn lemma_lex_prefix(x: Seq<u8>, z: Seq<u8>)
    ensures
        lex_le(x, x + z),
    decreases x.len(),
{
    if x.len() > 0 {
        assert((x + z).drop_first() =~= x.drop_first() + z);
        lemma_lex_prefix(x.drop_first(), z);
    }
}

fn bytes_lex_le(a: &[u8], b: &[u8]) -> (r: bool)
    ensures
        r == lex_le(a@, b@),
{
    let mut i: usize = 0;
    assert(a@.skip(0) =~= a@ && b@.skip(0) =~= b@);
    loop
        invariant
            i <= a@.len(),
            i <= b@.len(),
            lex_le(a@, b@) == lex_le(a@.skip(i as int), b@.skip(i as int)),
        decreases a@.len() - i,
    {
        if i == a.len() {
            return true;
        }
        if i == b.len() {
            return false;
        }
        if a[i] < b[i] {
            return true;
        }
        if a[i] != b[i] {
            return false;
        }
        assert(a@.skip(i as int).drop_first() =~= a@.skip(i + 1));
        assert(b@.skip(i as int).drop_first() =~= b@.skip(i + 1));
        i = i + 1;
    }
}

/// Entries in the order of their names' raw bytes.
pub open spec fn sorted_by_name(v: Seq<EntryView>) -> bool {
    forall|i: int, j: int| 0 <= i < j < v.len() ==> lex_le(v[i].2, v[j].2)
}

/// In entries sorted by name, an entry whose name starts with a smaller byte
/// (as an unsigned value) comes first; so names starting with an ASCII byte
/// come before names starting with a byte of 0x80 or more.
pub proof fn lemma_sorted_by_first_byte(p: Seq<EntryView>, i: int, j: int)
    requires
        sorted_by_name(p),
        0 <= i < p.len(),
        0 <= j < p.len(),
        p[i].2.len() > 0,
        p[j].2.len() > 0,
        p[j].2[0] < p[i].2[0],
    ensures
        j < i,
{
    assert(p[j].2.subrange(0, 0) =~= p[i].2.subrange(0, 0));
    lemma_lex_first_difference(p[j].2, p[i].2, 0);
    if i < j {
        assert(lex_le(p[i].2, p[j].2));
    }
}

/// The entries ordered by name: a permutation of the input, sorted by the
/// names' raw bytes.
pub fn sort_entries(entries: &Vec<ListingEntry>) -> (r: Vec<ListingEntry>)
    ensures
        sorted_by_name(entry_views(r@)),
        entry_views(r@).to_multiset() == entry_views(entries@).to_multiset(),
{
    let mut out: Vec<ListingEntry> = Vec::new();
    let mut i: usize = 0;
    assert(entry_views(entries@).take(0) =~= Seq::<EntryView>::empty());
    assert(entry_views(out@) =~= Seq::<EntryView>::empty());
    while i < entries.len()
        invariant
            i <= entries@.len(),
            sorted_by_name(entry_views(out@)),
            entry_views(out@).to_multiset() == entry_views(entries@).take(i as int).to_multiset(),
        decreases entries@.len() - i,
    {
        let e = entries[i].copy();
        let key = copy_bytes(&e.key);
        let ghost ov = entry_views(out@);
        let mut j: usize = 0;
        while j < out.len()
            invariant
                j <= out@.len(),
                key@ == e@.2,
                ov == entry_views(out@),
                forall|k: int| 0 <= k < j ==> lex_le(ov[k].2, key@),
            ensures
                j <= out@.len(),
                forall|k: int| 0 <= k < j ==> lex_le(ov[k].2, key@),
                j < out@.len() ==> !lex_le(ov[j as int].2, key@),
            decreases out@.len() - j,
        {
            assert(out[j as int].key@ == ov[j as int].2);
            if !bytes_lex_le(out[j].key.as_slice(), key.as_slice()) {
                break;
            }
            j = j + 1;
        }
        let ghost ev = e@;
        out.insert(j, e);
        let ghost nv = entry_views(out@);
        assert(nv =~= ov.insert(j as int, ev));
        assert(sorted_by_name(nv)) by {
            assert forall|a: int, b: int| 0 <= a < b < nv.len() implies lex_le(nv[a].2, nv[b].2) by {
                if b < j {
                    assert(nv[a] == ov[a] && nv[b] == ov[b]);
                } else if b == j {
                    assert(nv[a] == ov[a]);
                } else if a == j {
                    assert(nv[b] == ov[b - 1]);
                    if j < ov.len() {
                        lemma_lex_total(ov[j as int].2, ev.2);
                        if b - 1 > j {
                            lemma_lex_trans(ev.2, ov[j as int].2, ov[b - 1].2);
                        }
                    }
                } else if a < j {
                    assert(nv[a] == ov[a] && nv[b] == ov[b - 1]);
                } else {
                    assert(nv[a] == ov[a - 1] && nv[b] == ov[b - 1]);
                }
            }
        }
        proof {
            broadcast use vstd::seq_lib::group_to_multiset_ensures;
            let src = entry_views(entries@);
            assert(src.take(i + 1) =~= src.take(i as int).push(src[i as int]));
            assert(src[i as int] == ev);
            assert(nv.remove(j as int) =~= ov);
            assert(nv[j as int] == ev);
            assert(nv.contains(ev));
            assert(nv.to_multiset() =~= ov.to_multiset().insert(ev));
        }
        i = i + 1;
    }
    assert(entry_views(entries@).take(i as int) =~= entry_views(entries@));
    out
}

/// The text that marks a directory entry: `/` for a directory, nothing otherwise.
pub open spec fn dir_suffix(is_dir: bool) -> Seq<char> {
    if is_dir {
        "/"@
    } else {
        seq![]
    }
}

/// The list item for one entry: a link to the entry's name (with a trailing
/// `/` for a directory) showing its escaped name.
pub open spec fn entry_html(e: EntryView) -> Seq<char> {
    "<li><a href=\""@ + e.0 + dir_suffix(e.1) + "\">"@ + html_escaped(e.0) + dir_suffix(e.1)
        + "</a></li>"@
}

/// The list items for the entries, in order.
pub open spec fn entries_html(es: Seq<EntryView>) -> Seq<char>
    decreases es.len(),
{
    if es.len() == 0 {
        seq![]
    } else {
        entries_html(es.drop_last()) + entry_html(es.last())
    }
}

/// The link to the parent directory, shown everywhere but at `/`.
pub open spec fn parent_link(url: Seq<char>) -> Seq<char> {
    if url != "/"@ {
        "<li><a href=\"../\">../</a></li>"@
    } else {
        seq![]
    }
}

/// The HTML page listing the entries `es` (in the given order) of the
/// directory requested as `url`.
pub open spec fn listing_html(url: Seq<char>, es: Seq<EntryView>) -> Seq<char> {
    "<!DOCTYPE html><html><head><meta charset=\"utf-8\">"@ + "<title>Index of "@
        + html_escaped(url) + "</title></head><body>"@ + "<h1>Index of "@ + html_escaped(url)
        + "</h1><ul>"@ + parent_link(url) + entries_html(es) + "</ul></body></html>"@
}

fn push_entry(out: &mut String, e: &ListingEntry)
    ensures
        final(out)@ == old(out)@ + entry_html(e@),
{
    let ghost o = out@;
    push_str(out, "<li><a href=\"");
    push_str(out, e.name.as_str());
    if e.is_dir {
        push_str(out, "/");
    }
    push_str(out, "\">");
    push_html_escaped(out, e.name.as_str());
    if e.is_dir {
        push_str(out, "/");
    }
    push_str(out, "</a></li>");
    assert(out@ =~= o + entry_html(e@));
}

/// The HTML listing of a directory whose entries are given in display order.
pub fn render_listing(url_path: &str, entries: &Vec<ListingEntry>) -> (r: String)
    ensures
        r@ == listing_html(url_path@, entry_views(entries@)),
{
    let mut out = String::new();
    push_str(&mut out, "<!DOCTYPE html><html><head><meta charset=\"utf-8\">");
    push_str(&mut out, "<title>Index of ");
    push_html_escaped(&mut out, url_path);
    push_str(&mut out, "</title></head><body>");
    push_str(&mut out, "<h1>Index of ");
    push_html_escaped(&mut out, url_path);
    push_str(&mut out, "</h1><ul>");
    let url = str_chars(url_path);
    if !chars_eq_str(url.as_slice(), "/") {
        push_str(&mut out, "<li><a href=\"../\">../</a></li>");
    }
    let ghost head = out@;
    assert(head =~= Seq::<char>::empty() + "<!DOCTYPE html><html><head><meta charset=\"utf-8\">"@
        + "<title>Index of "@ + html_escaped(url_path@) + "</title></head><body>"@
        + "<h1>Index of "@ + html_escaped(url_path@) + "</h1><ul>"@ + parent_link(url_path@));
    let ghost ev = entry_views(entries@);
    let mut i: usize = 0;
    assert(ev.take(0) =~= Seq::<EntryView>::empty());
    assert(head + entries_html(ev.take(0)) =~= head);
    while i < entries.len()
        invariant
            i <= entries@.len(),
            ev == entry_views(entries@),
            out@ == head + entries_html(ev.take(i as int)),
        decreases entries@.len() - i,
    {
        push_entry(&mut out, &entries[i]);
        assert(ev.take(i + 1).drop_last() =~= ev.take(i as int));
        assert(ev[i as int] == entries@[i as int]@);
        i = i + 1;
    }
    assert(ev.take(i as int) =~= ev);
    push_str(&mut out, "</ul></body></html>");
    assert(out@ =~= listing_html(url_path@, ev));
    out
}

/// The HTML listing of a directory: the entries sorted by their names' raw
/// bytes, each linked
/// by its name, below the escaped request path (and a link to the parent
/// directory everywhere but at `/`).
pub fn directory_listing(url_path: &str, entries: &Vec<ListingEntry>) -> (r: String)
    ensures
        exists|p: Seq<EntryView>|
            {
                &&& sorted_by_name(p)
                &&& p.to_multiset() == entry_views(entries@).to_multiset()
                &&& r@ == listing_html(url_path@, p)
            },
{
    let sorted = sort_entries(entries);
    render_listing(url_path, &sorted)
}

/// `small` occurs in `big` as a contiguous piece.
pub open spec fn is_infix(small: Seq<char>, big: Seq<char>) -> bool {
    exists|k: int|
        0 <= k && k + small.len() <= big.len() && #[trigger] big.subrange(k, k + small.len())
            == small
}

proof fn lemma_infix_extend(small: Seq<char>, a: Seq<char>, b: Seq<char>)
    requires
        is_infix(small, a),
    ensures
        is_infix(small, a + b),
        is_infix(small, b + a),
{
    let k = choose|k: int|
        0 <= k && k + small.len() <= a.len() && #[trigger] a.subrange(k, k + small.len()) == small;
    assert((a + b).subrange(k, k + small.len()) =~= a.subrange(k, k + small.len()));
    assert((b + a).subrange(b.len() + k, b.len() + k + small.len()) =~= a.subrange(
        k,
        k + small.len(),
    ));
}

proof fn lemma_entries_html_has_entry(es: Seq<EntryView>, i: int)
    requires
        0 <= i < es.len(),
    ensures
        is_infix(entry_html(es[i]), entries_html(es)),
    decreases es.len(),
{
    let d = es.drop_last();
    let a = entries_html(d);
    let x = entry_html(es.last());
    if i == es.len() - 1 {
        assert((a + x).subrange(a.len() as int, (a.len() + x.len()) as int) =~= x);
        assert(es[i] == es.last());
    } else {
        lemma_entries_html_has_entry(d, i);
        assert(d[i] == es[i]);
        lemma_infix_extend(entry_html(es[i]), a, x);
    }
}

/// A directory listing shows every entry of the directory: its list item
/// (a link to the name, with the escaped name as text) occurs in the page.
pub proof fn lemma_listing_shows_every_entry(
    url: Seq<char>,
    p: Seq<EntryView>,
    es: Seq<EntryView>,
    e: EntryView,
)
    requires
        p.to_multiset() == es.to_multiset(),
        es.contains(e),
    ensures
        is_infix(entry_html(e), listing_html(url, p)),
{
    broadcast use vstd::seq_lib::group_to_multiset_ensures;
    assert(es.to_multiset().count(e) > 0);
    assert(p.contains(e));
    let i = choose|i: int| 0 <= i < p.len() && p[i] == e;
    lemma_entries_html_has_entry(p, i);
    let pre = "<!DOCTYPE html><html><head><meta charset=\"utf-8\">"@ + "<title>Index of "@
        + html_escaped(url) + "</title></head><body>"@ + "<h1>Index of "@ + html_escaped(url)
        + "</h1><ul>"@ + parent_link(url);
    lemma_infix_extend(entry_html(e), entries_html(p), pre);
    lemma_infix_extend(entry_html(e), pre + entries_html(p), "</ul></body></html>"@);
    assert(listing_html(url, p) =~= pre + entries_html(p) + "</ul></body></html>"@);
}

} // verus!
