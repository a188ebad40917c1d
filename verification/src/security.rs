//! Turning a request path into a file-system path below the served root:
//! percent-decoding, path components, joining, and the containment check.

use vstd::prelude::*;
use vstd::utf8::*;
use crate::text::{split_on, lemma_split_on_nonempty, split_chars, seqs, str_chars, chars_to_string, chars_eq};

verus! {

/// What `String::from_utf8_lossy` makes of a byte sequence: the decoded text,
/// with each invalid sequence replaced by U+FFFD.
pub uninterp spec fn spec_utf8_lossy(bytes: Seq<u8>) -> Seq<char>;

/// std `String::from_utf8_lossy(bytes).into_owned()`. The result is named by
/// [`spec_utf8_lossy`]; on valid UTF-8 it is the decoded text (as the std
/// documentation states). What it yields for invalid sequences is left unsaid.
#[verifier::external_body]
fn utf8_lossy(bytes: &[u8]) -> (res: String)
    ensures
        res@ == spec_utf8_lossy(bytes@),
        valid_utf8(bytes@) ==> res@ == decode_utf8(bytes@),
{
    String::from_utf8_lossy(bytes).into_owned()
}

/// An ASCII hexadecimal digit: `0-9`, `a-f` or `A-F`.
pub open spec fn is_hex_digit(b: u8) -> bool {
    (48 <= b <= 57) || (97 <= b <= 102) || (65 <= b <= 70)
}

/// The value of a hexadecimal digit.
pub open spec fn hex_value(b: u8) -> int {
    if 48 <= b <= 57 {
        b - 48
    } else if 97 <= b <= 102 {
        b - 87
    } else {
        b - 55
    }
}

/// The byte that the two bytes after a `%` stand for, read as `u8::from_str_radix`
/// reads them in base 16: two hex digits, or a `+` sign and one hex digit;
/// `None` for anything else.
pub open spec fn escape_value(b1: u8, b2: u8) -> Option<u8> {
    if is_hex_digit(b1) && is_hex_digit(b2) {
        Some((hex_value(b1) * 16 + hex_value(b2)) as u8)
    } else if b1 == 43 && is_hex_digit(b2) {
        Some(hex_value(b2) as u8)
    } else {
        None
    }
}

/// Percent-decoding of a byte string, left to right: `%` followed by two bytes
/// with an escape value becomes that byte; every other byte stays.
pub open spec fn percent_decode_bytes(s: Seq<u8>) -> Seq<u8>
    decreases s.len(),
{
    if s.len() == 0 {
        seq![]
    } else if s[0] == 37 && s.len() >= 3 && escape_value(s[1], s[2]) is Some {
        seq![escape_value(s[1], s[2])->0] + percent_decode_bytes(s.subrange(3, s.len() as int))
    } else {
        seq![s[0]] + percent_decode_bytes(s.drop_first())
    }
}

/// The bytes that `percent_decode` decodes `s` to.
pub open spec fn percent_decoded_bytes(s: Seq<char>) -> Seq<u8> {
    percent_decode_bytes(encode_utf8(s))
}

/// The text that `percent_decode` makes of `s`: the decoded bytes read as
/// UTF-8; where they are not valid UTF-8, what `String::from_utf8_lossy`
/// makes of them.
pub open spec fn percent_decoded(s: Seq<char>) -> Seq<char> {
    let b = percent_decoded_bytes(s);
    if valid_utf8(b) {
        decode_utf8(b)
    } else {
        spec_utf8_lossy(b)
    }
}

/// The characters whose code points are the given bytes.
pub open spec fn ascii_text(b: Seq<u8>) -> Seq<char> {
    Seq::new(b.len(), |i: int| (b[i] as u32) as char)
}

/// Bytes below 128 are valid UTF-8, and each decodes to the character with
/// its value.
pub proof fn lemma_ascii_bytes_decode(b: Seq<u8>)
    requires
        forall|i: int| 0 <= i < b.len() ==> b[i] < 128,
    ensures
        valid_utf8(b),
        decode_utf8(b) == ascii_text(b),
    decreases b.len(),
{
    if b.len() > 0 {
        let b0 = b[0];
        assert((b0 & 0x7F) as u32 == b0 as u32) by (bit_vector)
            requires
                b0 < 128,
        ;
        assert(valid_first_scalar(b));
        let r = pop_first_scalar(b);
        assert(r =~= b.drop_first());
        lemma_ascii_bytes_decode(r);
        assert(decode_utf8(b) =~= ascii_text(b));
    }
}

fn hex_digit_value(b: u8) -> (r: Option<u8>)
    ensures
        r is Some <==> is_hex_digit(b),
        r matches Some(v) ==> v == hex_value(b),
{
    if 48 <= b && b <= 57 {
        Some(b - 48)
    } else if 97 <= b && b <= 102 {
        Some(b - 87)
    } else if 65 <= b && b <= 70 {
        Some(b - 55)
    } else {
        None
    }
}

fn escape_byte(b1: u8, b2: u8) -> (r: Option<u8>)
    ensures
        r == escape_value(b1, b2),
{
    match (hex_digit_value(b1), hex_digit_value(b2)) {
        (Some(h), Some(l)) => Some(h * 16 + l),
        (None, Some(l)) => {
            if b1 == 43 {
                Some(l)
            } else {
                None
            }
        },
        _ => None,
    }
}

proof fn lemma_percent_decode_bytes_plain(b: Seq<u8>)
    requires
        !b.contains(37u8),
    ensures
        percent_decode_bytes(b) == b,
    decreases b.len(),
{
    if b.len() > 0 {
        assert(b[0] != 37u8);
        let r = b.drop_first();
        assert(!r.contains(37u8)) by {
            if r.contains(37u8) {
                let k = choose|k: int| 0 <= k < r.len() && r[k] == 37u8;
                assert(b[k + 1] == 37u8);
            }
        }
        lemma_percent_decode_bytes_plain(r);
        assert(seq![b[0]] + r =~= b);
    }
}

proof fn lemma_scalar_bytes(c: u32)
    requires
        is_scalar(c),
        c != 37,
    ensures
        !encode_scalar(c).contains(37u8),
{
    if has_width_1_encoding(c) {
        assert((c & 0x7F) as u8 != 37u8) by (bit_vector)
            requires
                c <= 0x7F,
                c != 37,
        ;
        assert(encode_scalar(c) =~= seq![leading_byte_width_1(c)]);
    } else {
        assert(forall|x: u8| #![trigger (0xC0u8 | x)] (0xC0u8 | x) != 37u8) by (bit_vector);
        assert(forall|x: u8| #![trigger (0xE0u8 | x)] (0xE0u8 | x) != 37u8) by (bit_vector);
        assert(forall|x: u8| #![trigger (0xF0u8 | x)] (0xF0u8 | x) != 37u8) by (bit_vector);
        assert(forall|x: u8| #![trigger (0x80u8 | x)] (0x80u8 | x) != 37u8) by (bit_vector);
        let e = encode_scalar(c);
        assert forall|i: int| 0 <= i < e.len() implies e[i] != 37u8 by {
            if has_width_2_encoding(c) {
                assert(e[0] == leading_byte_width_2(c));
                assert(e[1] == last_continuation_byte(c));
            } else if has_width_3_encoding(c) {
                assert(e[0] == leading_byte_width_3(c));
                assert(e[1] == second_last_continuation_byte(c));
                assert(e[2] == last_continuation_byte(c));
            } else {
                assert(e[0] == leading_byte_width_4(c));
                assert(e[1] == third_last_continuation_byte(c));
                assert(e[2] == second_last_continuation_byte(c));
                assert(e[3] == last_continuation_byte(c));
            }
        }
    }
}

/// The UTF-8 encoding of a text without `%` holds no `%` byte.
proof fn lemma_encode_without_percent(s: Seq<char>)
    requires
        !s.contains('%'),
    ensures
        !encode_utf8(s).contains(37u8),
    decreases s.len(),
{
    if s.len() > 0 {
        let r = s.drop_first();
        assert(!r.contains('%')) by {
            if r.contains('%') {
                let k = choose|k: int| 0 <= k < r.len() && r[k] == '%';
                assert(s[k + 1] == '%');
            }
        }
        lemma_encode_without_percent(r);
        assert(s[0] != '%');
        char_is_scalar(s[0]);
        assert((s[0] as u32) != 37) by {
            if (s[0] as u32) == 37 {
                char_u32_cast(s[0], 37u32);
                assert(('%' as u32) == 37);
                char_u32_cast('%', 37u32);
            }
        }
        lemma_scalar_bytes(s[0] as u32);
        let a = encode_scalar(s[0] as u32);
        let b = encode_utf8(r);
        assert(encode_utf8(s) == a + b);
        assert forall|i: int| 0 <= i < (a + b).len() implies (a + b)[i] != 37u8 by {
            if i < a.len() {
                assert((a + b)[i] == a[i]);
            } else {
                assert((a + b)[i] == b[i - a.len()]);
            }
        }
    }
}

/// Decodes `%XX` escapes in a request path. The decoded bytes are read as
/// UTF-8, invalid sequences becoming U+FFFD.
pub fn percent_decode(s: &str) -> (res: String)
    ensures
        res@ == percent_decoded(s@),
        valid_utf8(percent_decoded_bytes(s@)) ==> res@ == decode_utf8(percent_decoded_bytes(s@)),
        (forall|i: int|
            0 <= i < percent_decoded_bytes(s@).len() ==> #[trigger] percent_decoded_bytes(s@)[i]
                < 128) ==> res@ == ascii_text(percent_decoded_bytes(s@)),
        !s@.contains('%') ==> res@ == s@,
{
    let bytes = s.as_bytes();
    let mut out: Vec<u8> = Vec::with_capacity(bytes.len());
    let mut i: usize = 0;
    let ghost b = bytes@;
    assert(b.subrange(0, b.len() as int) =~= b);
    while i < bytes.len()
        invariant
            b == bytes@,
            i <= b.len(),
            out@ + percent_decode_bytes(b.subrange(i as int, b.len() as int))
                == percent_decode_bytes(b),
        decreases b.len() - i,
    {
        let ghost rest = b.subrange(i as int, b.len() as int);
        let ghost out0 = out@;
        if bytes[i] == 37 && bytes.len() - i > 2 {
            if let Some(v) = escape_byte(bytes[i + 1], bytes[i + 2]) {
                out.push(v);
                assert(rest.subrange(3, rest.len() as int) =~= b.subrange(i + 3, b.len() as int));
                assert(out0 + percent_decode_bytes(rest) =~= out@ + percent_decode_bytes(
                    b.subrange(i + 3, b.len() as int),
                ));
                i = i + 3;
                continue;
            }
        }
        out.push(bytes[i]);
        assert(rest.drop_first() =~= b.subrange(i + 1, b.len() as int));
        assert(out0 + percent_decode_bytes(rest) =~= out@ + percent_decode_bytes(
            b.subrange(i + 1, b.len() as int),
        ));
        i = i + 1;
    }
    assert(out@ =~= out@ + percent_decode_bytes(b.subrange(i as int, b.len() as int)));
    proof {
        if forall|i: int| 0 <= i < out@.len() ==> #[trigger] out@[i] < 128 {
            lemma_ascii_bytes_decode(out@);
        }
        if !s@.contains('%') {
            lemma_encode_without_percent(s@);
            lemma_percent_decode_bytes_plain(b);
            encode_utf8_valid_utf8(s@);
            encode_utf8_decode_utf8(s@);
        }
    }
    utf8_lossy(out.as_slice())
}

/// The pieces of a path between `/` separators that name something: the empty
/// pieces (from repeated, leading or trailing separators) and `.` are dropped.
pub open spec fn kept_pieces(pieces: Seq<Seq<char>>) -> Seq<Seq<char>>
    decreases pieces.len(),
{
    if pieces.len() == 0 {
        seq![]
    } else {
        let k = kept_pieces(pieces.drop_last());
        let p = pieces.last();
        if p.len() == 0 || p == seq!['.'] {
            k
        } else {
            k.push(p)
        }
    }
}

/// The components of a Unix path after its root or current-directory marker:
/// normal names and `..`.
pub open spec fn body_components(p: Seq<char>) -> Seq<Seq<char>> {
    kept_pieces(split_on(p, '/'))
}

/// Whether a path is absolute (has a root).
pub open spec fn has_root(p: Seq<char>) -> bool {
    p.len() > 0 && p[0] == '/'
}

/// Whether a relative path begins with a `.` component (`.` alone or `./...`).
pub open spec fn has_leading_cur_dir(p: Seq<char>) -> bool {
    !has_root(p) && p.len() > 0 && p[0] == '.' && (p.len() == 1 || p[1] == '/')
}

/// The components of a Unix path, as `std::path::Path::components` yields
/// them, each written as text: `/` for the root, `.` for a leading current
/// directory, `..` for a parent directory, and the names in between.
pub open spec fn components(p: Seq<char>) -> Seq<Seq<char>> {
    let head: Seq<Seq<char>> = if has_root(p) {
        seq![seq!['/']]
    } else if has_leading_cur_dir(p) {
        seq![seq!['.']]
    } else {
        seq![]
    };
    head + body_components(p)
}

/// `PathBuf::push` of a relative component: a `/` is put in between unless
/// the path is empty or already ends with one.
pub open spec fn push_path(buf: Seq<char>, part: Seq<char>) -> Seq<char> {
    if buf.len() > 0 && buf.last() != '/' {
        buf + seq!['/'] + part
    } else {
        buf + part
    }
}

/// Pushing several components in order.
pub open spec fn push_all(buf: Seq<char>, parts: Seq<Seq<char>>) -> Seq<char>
    decreases parts.len(),
{
    if parts.len() == 0 {
        buf
    } else {
        push_path(push_all(buf, parts.drop_last()), parts.last())
    }
}

/// The text `..`.
pub open spec fn parent_dir() -> Seq<char> {
    seq!['.', '.']
}

/// Where a decoded request path leads below `root`: nowhere if any of its
/// components is `..`; otherwise `root` with each of its names pushed in turn
/// (the root and `.` components are skipped).
pub open spec fn resolve_decoded(root: Seq<char>, decoded: Seq<char>) -> Option<Seq<char>> {
    let parts = body_components(decoded);
    if parts.contains(parent_dir()) {
        None
    } else {
        Some(push_all(root, parts))
    }
}

/// `Path::starts_with`: the components of `base` are the first components of `path`.
pub open spec fn path_starts_with_spec(path: Seq<char>, base: Seq<char>) -> bool {
    let cp = components(path);
    let cb = components(base);
    cb.len() <= cp.len() && cp.subrange(0, cb.len() as int) == cb
}

/// Appends a relative component to a path (see [`push_path`]).
pub fn push_component(buf: &mut Vec<char>, part: &[char])
    ensures
        final(buf)@ == push_path(old(buf)@, part@),
{
    if buf.len() > 0 && buf[buf.len() - 1] != '/' {
        buf.push('/');
    }
    let ghost b0 = buf@;
    let mut i: usize = 0;
    while i < part.len()
        invariant
            i <= part@.len(),
            buf@ == b0 + part@.take(i as int),
        decreases part@.len() - i,
    {
        buf.push(part[i]);
        i = i + 1;
        assert(part@.take(i as int) =~= part@.take(i - 1).push(part@[i - 1]));
    }
    assert(part@.take(i as int) =~= part@);
    assert(buf@ =~= push_path(old(buf)@, part@));
}

fn is_single_dot(p: &[char]) -> (r: bool)
    ensures
        r == (p@ == seq!['.']),
{
    if p.len() == 1 {
        let r = p[0] == '.';
        assert(r ==> p@ =~= seq!['.']);
        r
    } else {
        false
    }
}

fn is_parent_dir(p: &[char]) -> (r: bool)
    ensures
        r == (p@ == parent_dir()),
{
    if p.len() == 2 {
        let r = p[0] == '.' && p[1] == '.';
        assert(r ==> p@ =~= parent_dir());
        r
    } else {
        false
    }
}

/// The components of a path after its root or current-directory marker (see
/// [`body_components`]).
pub fn path_body_components(p: &[char]) -> (r: Vec<Vec<char>>)
    ensures
        seqs(r@) == body_components(p@),
{
    let pieces = split_chars(p, '/');
    let ghost ps = seqs(pieces@);
    let mut out: Vec<Vec<char>> = Vec::new();
    let mut i: usize = 0;
    assert(ps.take(0) =~= Seq::<Seq<char>>::empty());
    assert(seqs(out@) =~= Seq::<Seq<char>>::empty());
    while i < pieces.len()
        invariant
            ps == seqs(pieces@),
            i <= pieces@.len(),
            seqs(out@) == kept_pieces(ps.take(i as int)),
        decreases pieces@.len() - i,
    {
        let piece = &pieces[i];
        assert(ps.take(i + 1).drop_last() =~= ps.take(i as int));
        assert(piece@ == ps[i as int]);
        if piece.len() != 0 && !is_single_dot(piece.as_slice()) {
            let ghost o0 = seqs(out@);
            out.push(piece.clone());
            assert(seqs(out@) =~= o0.push(piece@));
        }
        i = i + 1;
    }
    assert(ps.take(i as int) =~= ps);
    out
}

/// The components of a path (see [`components`]).
pub fn path_components(p: &[char]) -> (r: Vec<Vec<char>>)
    ensures
        seqs(r@) == components(p@),
{
    let mut out: Vec<Vec<char>> = Vec::new();
    if p.len() > 0 && p[0] == '/' {
        let mut r: Vec<char> = Vec::new();
        r.push('/');
        out.push(r);
        assert(seqs(out@) =~= seq![seq!['/']]);
    } else if p.len() > 0 && p[0] == '.' && (p.len() == 1 || p[1] == '/') {
        let mut d: Vec<char> = Vec::new();
        d.push('.');
        out.push(d);
        assert(seqs(out@) =~= seq![seq!['.']]);
    } else {
        assert(seqs(out@) =~= Seq::<Seq<char>>::empty());
    }
    let ghost head = seqs(out@);
    let ghost out0 = out@;
    let mut body = path_body_components(p);
    let ghost body0 = body@;
    out.append(&mut body);
    assert(out@ == out0 + body0);
    assert(seqs(out@) =~= head + body_components(p@));
    out
}

/// Maps a request path to a file-system path below `root`: the path is
/// percent-decoded and split into components; a `..` component anywhere
/// rejects it (`None`); otherwise each name is pushed onto `root` in turn.
pub fn resolve_path(root: &str, url_path: &str) -> (res: Option<String>)
    ensures
        res matches Some(r) ==> resolve_decoded(root@, percent_decoded(url_path@)) == Some(r@),
        res is None ==> resolve_decoded(root@, percent_decoded(url_path@)) is None,
{
    let decoded = percent_decode(url_path);
    let dchars = str_chars(decoded.as_str());
    let parts = path_body_components(dchars.as_slice());
    let ghost ps = seqs(parts@);
    let mut result = str_chars(root);
    let mut i: usize = 0;
    while i < parts.len()
        invariant
            ps == seqs(parts@),
            ps == body_components(percent_decoded(url_path@)),
            i <= parts@.len(),
            !ps.take(i as int).contains(parent_dir()),
            result@ == push_all(root@, ps.take(i as int)),
        decreases parts@.len() - i,
    {
        let part = &parts[i];
        assert(part@ == ps[i as int]);
        if is_parent_dir(part.as_slice()) {
            assert(ps.contains(parent_dir()));
            return None;
        }
        push_component(&mut result, part.as_slice());
        assert(ps.take(i + 1).drop_last() =~= ps.take(i as int));
        assert forall|k: int| 0 <= k < i + 1 implies #[trigger] ps.take(i + 1)[k] != parent_dir() by {
            if k < i {
                assert(ps.take(i + 1)[k] == ps.take(i as int)[k]);
            }
        }
        i = i + 1;
    }
    assert(ps.take(i as int) =~= ps);
    Some(chars_to_string(result.as_slice()))
}

/// Whether `path` lies within `base`, compared component by component as
/// `Path::starts_with` does.
pub fn path_starts_with(path: &str, base: &str) -> (r: bool)
    ensures
        r == path_starts_with_spec(path@, base@),
{
    let cp = path_components(str_chars(path).as_slice());
    let cb = path_components(str_chars(base).as_slice());
    let ghost sp = seqs(cp@);
    let ghost sb = seqs(cb@);
    assert(sp.len() == cp@.len() && sb.len() == cb@.len());
    if cb.len() > cp.len() {
        return false;
    }
    let mut i: usize = 0;
    while i < cb.len()
        invariant
            sp == seqs(cp@),
            sb == seqs(cb@),
            sp == components(path@),
            sb == components(base@),
            cb@.len() <= cp@.len(),
            i <= cb@.len(),
            forall|j: int| 0 <= j < i ==> sp[j] == sb[j],
            sp.len() == cp@.len(),
            sb.len() == cb@.len(),
        decreases cb@.len() - i,
    {
        assert(sp[i as int] == cp@[i as int]@ && sb[i as int] == cb@[i as int]@);
        if !chars_eq(cp[i].as_slice(), cb[i].as_slice()) {
            assert(sp.subrange(0, sb.len() as int)[i as int] != sb[i as int]);
            return false;
        }
        i = i + 1;
    }
    assert(sp.subrange(0, sb.len() as int) =~= sb);
    true
}

/// A path component that can be pushed as a name: non-empty, free of `/`,
/// and not `.`.
pub open spec fn is_name(p: Seq<char>) -> bool {
    p.len() > 0 && !p.contains('/') && p != seq!['.']
}

/// Appending text free of the separator extends the last piece.
pub proof fn lemma_split_on_append_plain(s: Seq<char>, t: Seq<char>, sep: char)
    requires
        !t.contains(sep),
    ensures
        split_on(s + t, sep) == split_on(s, sep).update(
            split_on(s, sep).len() - 1,
            split_on(s, sep).last() + t,
        ),
    decreases t.len(),
{
    lemma_split_on_nonempty(s, sep);
    let base = split_on(s, sep);
    if t.len() == 0 {
        assert(s + t =~= s);
        assert(base.last() + t =~= base.last());
        assert(base.update(base.len() - 1, base.last() + t) =~= base);
    } else {
        let t0 = t.drop_last();
        assert(!t0.contains(sep)) by {
            if t0.contains(sep) {
                let k = choose|k: int| 0 <= k < t0.len() && t0[k] == sep;
                assert(t[k] == sep);
            }
        }
        lemma_split_on_append_plain(s, t0, sep);
        assert((s + t).drop_last() =~= s + t0);
        assert((s + t).last() == t.last());
        assert(t.last() != sep) by {
            assert(t[t.len() - 1] == t.last());
        }
        let w = split_on(s + t0, sep);
        assert(w.len() == base.len());
        assert(w.last() == base.last() + t0);
        assert((base.last() + t0).push(t.last()) =~= base.last() + t);
        assert(w.update(w.len() - 1, w.last().push(t.last())) =~= base.update(
            base.len() - 1,
            base.last() + t,
        ));
    }
}

/// No piece produced by `split_on` contains the separator.
pub proof fn lemma_split_on_pieces_plain(s: Seq<char>, sep: char)
    ensures
        forall|i: int|
            0 <= i < split_on(s, sep).len() ==> !(#[trigger] split_on(s, sep)[i]).contains(sep),
    decreases s.len(),
{
    if s.len() > 0 {
        lemma_split_on_pieces_plain(s.drop_last(), sep);
        lemma_split_on_nonempty(s.drop_last(), sep);
        let w = split_on(s.drop_last(), sep);
        if s.last() != sep {
            let l = w.last().push(s.last());
            assert(!l.contains(sep)) by {
                if l.contains(sep) {
                    let k = choose|k: int| 0 <= k < l.len() && l[k] == sep;
                    assert(w[w.len() - 1] == w.last());
                    if k < w.last().len() {
                        assert(w.last()[k] == sep);
                    }
                }
            }
        } else {
            assert(!Seq::<char>::empty().contains(sep));
        }
    }
}

/// Every component kept by `kept_pieces` comes from the pieces and is
/// non-empty and not `.`.
proof fn lemma_kept_pieces_names(pieces: Seq<Seq<char>>, sep: char)
    requires
        forall|i: int| 0 <= i < pieces.len() ==> !(#[trigger] pieces[i]).contains(sep),
        sep == '/',
    ensures
        forall|i: int| 0 <= i < kept_pieces(pieces).len() ==> is_name(#[trigger] kept_pieces(pieces)[i]),
    decreases pieces.len(),
{
    if pieces.len() > 0 {
        let d = pieces.drop_last();
        assert forall|i: int| 0 <= i < d.len() implies !(#[trigger] d[i]).contains(sep) by {
            assert(d[i] == pieces[i]);
        }
        lemma_kept_pieces_names(d, sep);
        assert(pieces[pieces.len() - 1] == pieces.last());
        let k = kept_pieces(d);
        let l = pieces.last();
        if !(l.len() == 0 || l == seq!['.']) {
            assert forall|i: int| 0 <= i < k.push(l).len() implies is_name(#[trigger] k.push(l)[i]) by {
                if i < k.len() {
                    assert(k.push(l)[i] == k[i]);
                }
            }
        }
    }
}

/// The components of a path body are names or `..`.
pub proof fn lemma_body_components_names(p: Seq<char>)
    ensures
        forall|i: int|
            0 <= i < body_components(p).len() ==> is_name(#[trigger] body_components(p)[i]),
{
    lemma_split_on_pieces_plain(p, '/');
    lemma_kept_pieces_names(split_on(p, '/'), '/');
}

proof fn lemma_split_on_empty(sep: char)
    ensures
        split_on(Seq::<char>::empty(), sep) == seq![Seq::<char>::empty()],
{
}

proof fn lemma_kept_pieces_push(pieces: Seq<Seq<char>>, p: Seq<char>)
    ensures
        kept_pieces(pieces.push(p)) == if p.len() == 0 || p == seq!['.'] {
            kept_pieces(pieces)
        } else {
            kept_pieces(pieces).push(p)
        },
{
    assert(pieces.push(p).drop_last() =~= pieces);
}

/// Pushing a name onto a path adds exactly that name to its components.
pub proof fn lemma_components_push(b: Seq<char>, p: Seq<char>)
    requires
        is_name(p),
    ensures
        components(push_path(b, p)) == components(b).push(p),
{
    let t = push_path(b, p);
    lemma_split_on_nonempty(b, '/');
    if b.len() > 0 && b.last() != '/' {
        let bs = b + seq!['/'];
        assert(t =~= bs + p);
        lemma_split_on_append_plain(bs, p, '/');
        assert(bs.drop_last() =~= b);
        assert(split_on(bs, '/') == split_on(b, '/').push(seq![]));
        assert(Seq::<char>::empty() + p =~= p);
        assert(split_on(t, '/') =~= split_on(b, '/').push(p));
        lemma_kept_pieces_push(split_on(b, '/'), p);
        assert(t[0] == b[0]);
        if b.len() >= 2 {
            assert(t[1] == b[1]);
        } else {
            assert(t[1] == '/');
        }
        assert(components(t) =~= components(b).push(p));
    } else if b.len() == 0 {
        assert(t =~= Seq::<char>::empty() + p);
        lemma_split_on_append_plain(Seq::<char>::empty(), p, '/');
        lemma_split_on_empty('/');
        assert(Seq::<char>::empty() + p =~= p);
        assert(split_on(t, '/') =~= seq![p]);
        lemma_kept_pieces_push(Seq::<Seq<char>>::empty(), p);
        assert(seq![p] =~= Seq::<Seq<char>>::empty().push(p));
        assert(!has_root(t)) by {
            assert(t[0] == p[0]);
            if p[0] == '/' {
                assert(p.contains('/'));
            }
        }
        assert(!has_leading_cur_dir(t)) by {
            if has_leading_cur_dir(t) {
                if t.len() == 1 {
                    assert(p =~= seq!['.']);
                } else {
                    assert(p[1] == '/');
                    assert(p.contains('/'));
                }
            }
        }
        assert(split_on(b, '/') =~= seq![Seq::<char>::empty()]);
        assert(seq![Seq::<char>::empty()] =~= Seq::<Seq<char>>::empty().push(Seq::<char>::empty()));
        lemma_kept_pieces_push(Seq::<Seq<char>>::empty(), Seq::<char>::empty());
        assert(components(b) =~= Seq::<Seq<char>>::empty());
        assert(components(t) =~= components(b).push(p));
    } else {
        assert(t =~= b + p);
        lemma_split_on_append_plain(b, p, '/');
        let w = split_on(b, '/');
        assert(b.drop_last() + seq!['/'] =~= b);
        assert(w == split_on(b.drop_last(), '/').push(seq![]));
        assert(w.last() == Seq::<char>::empty());
        assert(Seq::<char>::empty() + p =~= p);
        assert(split_on(t, '/') =~= split_on(b.drop_last(), '/').push(p));
        lemma_kept_pieces_push(split_on(b.drop_last(), '/'), p);
        lemma_kept_pieces_push(split_on(b.drop_last(), '/'), Seq::<char>::empty());
        assert(t[0] == b[0]);
        if b.len() >= 2 {
            assert(t[1] == b[1]);
        }
        assert(components(t) =~= components(b).push(p));
    }
}

/// Pushing names onto a path appends exactly those names to its components,
/// and keeps the path's text as a prefix.
pub proof fn lemma_components_push_all(root: Seq<char>, parts: Seq<Seq<char>>)
    requires
        forall|i: int| 0 <= i < parts.len() ==> is_name(#[trigger] parts[i]),
    ensures
        components(push_all(root, parts)) == components(root) + parts,
        root.len() <= push_all(root, parts).len(),
        push_all(root, parts).subrange(0, root.len() as int) == root,
    decreases parts.len(),
{
    if parts.len() == 0 {
        assert(components(root) + parts =~= components(root));
        assert(root.subrange(0, root.len() as int) =~= root);
    } else {
        let d = parts.drop_last();
        assert forall|i: int| 0 <= i < d.len() implies is_name(#[trigger] d[i]) by {
            assert(d[i] == parts[i]);
        }
        lemma_components_push_all(root, d);
        assert(parts[parts.len() - 1] == parts.last());
        lemma_components_push(push_all(root, d), parts.last());
        assert((components(root) + d).push(parts.last()) =~= components(root) + parts);
        let b = push_all(root, d);
        let t = push_path(b, parts.last());
        assert(t.subrange(0, b.len() as int) =~= b);
        assert(t.subrange(0, root.len() as int) =~= b.subrange(0, root.len() as int));
    }
}

/// A request path that resolves leads to a path inside the root: the root's
/// text is a prefix of it, the root's components are its first components,
/// and every further component is a plain name (none is `..`).
pub proof fn lemma_resolved_path_within_root(root: Seq<char>, decoded: Seq<char>)
    ensures
        resolve_decoded(root, decoded) matches Some(t) ==> {
            &&& path_starts_with_spec(t, root)
            &&& t.subrange(0, root.len() as int) == root
            &&& components(t) == components(root) + body_components(decoded)
            &&& forall|i: int|
                components(root).len() <= i < components(t).len() ==> is_name(
                    #[trigger] components(t)[i],
                ) && components(t)[i] != parent_dir()
        },
{
    let parts = body_components(decoded);
    if !parts.contains(parent_dir()) {
        lemma_body_components_names(decoded);
        lemma_components_push_all(root, parts);
        let t = push_all(root, parts);
        let cr = components(root);
        assert(components(t).subrange(0, cr.len() as int) =~= cr);
        assert forall|i: int| cr.len() <= i < components(t).len() implies is_name(
            #[trigger] components(t)[i],
        ) && components(t)[i] != parent_dir() by {
            assert(components(t)[i] == parts[i - cr.len()]);
        }
    }
}

/// A decoded request path with a `..` component is never resolved.
pub proof fn lemma_parent_dir_rejected(root: Seq<char>, decoded: Seq<char>)
    requires
        body_components(decoded).contains(parent_dir()),
    ensures
        resolve_decoded(root, decoded) is None,
{
}

} // verus!
