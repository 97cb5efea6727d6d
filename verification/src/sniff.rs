//! Format guessing from a file's extension and from its first bytes, in
//! place of a learned content classifier. The text heuristics may guess
//! wrong; the conversion chain then falls back to plain text.

use vstd::prelude::*;
use vstd::utf8::{decode_utf8, encode_utf8, is_char_boundary, valid_utf8};
use crate::text::{
    ascii_lowercase, ascii_lowercase_from, chars_of, range_is, contains, contains_str, find_char, find_last,
    equals_str, first_index, last_index, lossy_chars, push_range, starts_with, starts_with_at, string_of, trim_end,
    trim_end_at, trim_start, trim_start_at, utf8_chars, utf8_lossy,
};

verus! {

broadcast use vstd::string::group_string_axioms;

/// A document format the engine knows about.
#[derive(Debug, Clone, Copy)]
pub enum Format {
    Docx,
    Html,
    Json,
    Csv,
    Plain,
    /// Recognised but not converted yet (pdf, zip, audio, ...).
    Unsupported(&'static str),
}

/// Two formats are the same: the same variant, and for `Unsupported` the
/// same description.
pub open spec fn same_format(a: Format, b: Format) -> bool {
    match (a, b) {
        (Format::Docx, Format::Docx) => true,
        (Format::Html, Format::Html) => true,
        (Format::Json, Format::Json) => true,
        (Format::Csv, Format::Csv) => true,
        (Format::Plain, Format::Plain) => true,
        (Format::Unsupported(x), Format::Unsupported(y)) => x@ == y@,
        _ => false,
    }
}

impl PartialEq for Format {
    fn eq(&self, other: &Self) -> (r: bool) {
        match (self, other) {
            (Format::Docx, Format::Docx) => true,
            (Format::Html, Format::Html) => true,
            (Format::Json, Format::Json) => true,
            (Format::Csv, Format::Csv) => true,
            (Format::Plain, Format::Plain) => true,
            (Format::Unsupported(x), Format::Unsupported(y)) => str_eq(x, y),
            _ => false,
        }
    }
}

impl vstd::std_specs::cmp::PartialEqSpecImpl for Format {
    open spec fn obeys_eq_spec() -> bool {
        true
    }

    open spec fn eq_spec(&self, other: &Self) -> bool {
        same_format(*self, *other)
    }
}

impl Eq for Format {

}

/// Whether `a` and `b` hold the same characters.
fn str_eq(a: &str, b: &str) -> (r: bool)
    ensures
        r == (a@ == b@),
{
    let va = chars_of(a);
    let vb = chars_of(b);
    if va.len() != vb.len() {
        return false;
    }
    let r = range_is(&va, 0, va.len(), b);
    assert(va@.subrange(0, va.len() as int) =~= va@);
    r
}

/// The extension of `path`: what follows its last `'.'` (all of `path` when
/// it has none), in ASCII lowercase.
pub open spec fn extension(path: Seq<char>) -> Seq<char> {
    ascii_lowercase(path.skip(last_index(path, '.') + 1))
}

/// The format that the lowercase extension `e` names, if any.
pub open spec fn format_of_extension(e: Seq<char>) -> Option<Format> {
    if e == "docx"@ {
        Some(Format::Docx)
    } else if e == "htm"@ || e == "html"@ {
        Some(Format::Html)
    } else if e == "json"@ {
        Some(Format::Json)
    } else if e == "csv"@ || e == "tsv"@ {
        Some(Format::Csv)
    } else if e == "txt"@ || e == "md"@ || e == "log"@ {
        Some(Format::Plain)
    } else if e == "pdf"@ {
        Some(Format::Unsupported("pdf"))
    } else if e == "zip"@ {
        Some(Format::Unsupported("zip"))
    } else if e == "xlsx"@ || e == "xls"@ || e == "pptx"@ || e == "epub"@ {
        Some(Format::Unsupported("office-other"))
    } else if e == "mp3"@ || e == "wav"@ {
        Some(Format::Unsupported("audio"))
    } else {
        None
    }
}

/// `b` starts with the bytes `p`.
pub open spec fn bytes_start(b: Seq<u8>, p: Seq<u8>) -> bool {
    p.len() <= b.len() && b.take(p.len() as int) == p
}

/// The text of `b` that content sniffing reads: after a UTF-8 byte order
/// mark, the lossily decoded rest (which is the decoded rest where it is
/// valid UTF-8); otherwise the decoded bytes when they are valid UTF-8, and
/// `None` when they are not.
pub open spec fn sniffed_text(b: Seq<u8>) -> Option<Seq<char>> {
    if bytes_start(b, seq![0xefu8, 0xbbu8, 0xbfu8]) {
        Some(crate::lossy_text(b.skip(3)))
    } else if valid_utf8(b) {
        Some(decode_utf8(b))
    } else {
        None
    }
}

/// How many bytes of the trimmed text `t` the `<html` search looks at.
pub open spec fn head_len(t: Seq<char>) -> int {
    let n = encode_utf8(t).len();
    if n < 512 {
        n as int
    } else {
        512
    }
}

/// The first (at most) 512 bytes of `t`, as text.
pub open spec fn head(t: Seq<char>) -> Seq<char> {
    decode_utf8(encode_utf8(t).take(head_len(t)))
}

/// The 512-byte cut of `t` falls between two characters, so that the cut
/// text can be sliced out of `t` (a cut inside a character cannot).
pub open spec fn head_cut_ok(t: Seq<char>) -> bool {
    is_char_boundary(encode_utf8(t), head_len(t))
}

/// The first line of `t` as `str::lines` yields it (`""` for empty `t`).
pub open spec fn first_line(t: Seq<char>) -> Seq<char> {
    let j = first_index(t, '\n');
    let l = t.take(j);
    if j < t.len() && l.len() > 0 && l.last() == '\r' {
        l.drop_last()
    } else {
        l
    }
}

/// Whether `c` is JSON whitespace (space, tab, line feed, carriage return).
pub open spec fn is_json_space(c: char) -> bool {
    c == ' ' || c == '\t' || c == '\n' || c == '\r'
}

/// The position of the first character of `t` at or after `k` that is not
/// JSON whitespace (the length of `t` when there is none).
pub open spec fn json_space_end(t: Seq<char>, k: int) -> int
    decreases t.len() - k,
{
    if 0 <= k < t.len() && is_json_space(t[k]) {
        json_space_end(t, k + 1)
    } else {
        k
    }
}

/// Whether `t` opens a JSON array whose first element is an object: it
/// starts with `[`, and the first character after that which is not JSON
/// whitespace is `{`.
pub open spec fn json_array_hint(t: Seq<char>) -> bool {
    t.len() > 0 && t[0] == '[' && json_space_end(t, 1) < t.len() && t[json_space_end(t, 1)] == '{'
}

/// The format that the text `t` (with leading whitespace removed) looks like.
pub open spec fn text_format(t: Seq<char>) -> Format {
    let lt = t.len() > 0 && t[0] == '<';
    if lt && (contains(head(t), "<html"@) || starts_with(t, "<!doctype html"@) || starts_with(
        t,
        "<h1"@,
    ) || starts_with(t, "<p>"@) || starts_with(t, "<table"@) || starts_with(t, "<div"@)
        || starts_with(t, "<!DOCTYPE"@)) {
        Format::Html
    } else if lt {
        Format::Plain
    } else if t.len() > 0 && t[0] == '[' && json_array_hint(t) {
        Format::Json
    } else if t.len() > 0 && (t[0] == '{' || t[0] == '[') {
        Format::Json
    } else {
        let fl = first_line(t);
        let tl = trim_end(fl);
        if contains(t, "\n"@) && contains(fl, ","@) && !(tl.len() > 0 && tl.last() == ',') {
            Format::Csv
        } else {
            Format::Plain
        }
    }
}

/// The format that the bytes `b` look like.
pub open spec fn magic_format(b: Seq<u8>) -> Format {
    if bytes_start(b, seq![0x25u8, 0x50u8, 0x44u8, 0x46u8]) {
        Format::Unsupported("pdf")
    } else if bytes_start(b, seq![0x50u8, 0x4bu8, 0x03u8, 0x04u8]) {
        let n = if b.len() < 4096 {
            b.len() as int
        } else {
            4096
        };
        if contains(utf8_lossy(b.take(n)), "word/document"@) {
            Format::Docx
        } else {
            Format::Unsupported("zip")
        }
    } else if bytes_start(b, seq![0x1fu8, 0x8bu8]) {
        Format::Unsupported("gz")
    } else {
        match sniffed_text(b) {
            None => Format::Plain,
            Some(text) => text_format(trim_start(text)),
        }
    }
}

/// Content sniffing of `b` does not cut a character in two. (The engine
/// slices the trimmed text at byte 512 when it starts with `<`; a slice
/// that splits a character panics, so `guesses` is only for such `b`.)
pub open spec fn sniff_ok(b: Seq<u8>) -> bool {
    match sniffed_text(b) {
        Some(text) => {
            let t = trim_start(text);
            (t.len() > 0 && t[0] == '<') ==> head_cut_ok(t)
        },
        None => true,
    }
}

} // verus!

verus! {

/// The format that the lowercase extension `e` names, if any.
fn ext_format(e: &Vec<char>) -> (r: Option<Format>)
    ensures
        r == format_of_extension(e@),
{
    if equals_str(e, "docx") {
        Some(Format::Docx)
    } else if equals_str(e, "htm") || equals_str(e, "html") {
        Some(Format::Html)
    } else if equals_str(e, "json") {
        Some(Format::Json)
    } else if equals_str(e, "csv") || equals_str(e, "tsv") {
        Some(Format::Csv)
    } else if equals_str(e, "txt") || equals_str(e, "md") || equals_str(e, "log") {
        Some(Format::Plain)
    } else if equals_str(e, "pdf") {
        Some(Format::Unsupported("pdf"))
    } else if equals_str(e, "zip") {
        Some(Format::Unsupported("zip"))
    } else if equals_str(e, "xlsx") || equals_str(e, "xls") || equals_str(e, "pptx")
        || equals_str(e, "epub") {
        Some(Format::Unsupported("office-other"))
    } else if equals_str(e, "mp3") || equals_str(e, "wav") {
        Some(Format::Unsupported("audio"))
    } else {
        None
    }
}

/// The format that the extension of `path` names, if any. The extension is
/// what follows the last `'.'`, or the whole path when there is no `'.'`.
fn from_ext(path: &str) -> (r: Option<Format>)
    ensures
        r == format_of_extension(extension(path@)),
{
    let v = chars_of(path);
    let start = match find_last(&v, '.') {
        Some(k) => k + 1,
        None => 0,
    };
    let e = ascii_lowercase_from(&v, start);
    ext_format(&e)
}

/// Whether `t` is an array whose first element is an object: `t` starts
/// with `[` and, after any JSON whitespace, `{` follows (decides between a
/// JSON table and a JSON list).
pub fn looks_like_json_object_array(t: &str) -> (r: bool)
    ensures
        r == json_array_hint(t@),
{
    let v = chars_of(t);
    if v.len() == 0 || v[0] != '[' {
        return false;
    }
    let mut k: usize = 1;
    while k < v.len() && (v[k] == ' ' || v[k] == '\t' || v[k] == '\n' || v[k] == '\r')
        invariant
            1 <= k <= v.len(),
            v@ == t@,
            json_space_end(v@, 1) == json_space_end(v@, k as int),
        decreases v.len() - k,
    {
        k = k + 1;
    }
    k < v.len() && v[k] == '{'
}

/// The format that the trimmed text `t` looks like.
pub fn text_format_of(t: &Vec<char>) -> (r: Format)
    requires
        (t@.len() > 0 && t@[0] == '<') ==> head_cut_ok(t@),
    ensures
        r == text_format(t@),
{
    let lt = t.len() > 0 && t[0] == '<';
    if lt {
        let s = string_of(t);
        let tb = s.as_str().as_bytes();
        let m = if tb.len() < 512 {
            tb.len()
        } else {
            512
        };
        proof {
            vstd::utf8::encode_utf8_valid_utf8(t@);
            vstd::utf8::valid_utf8_split(tb@, m as int);
            assert(tb@.take(m as int) =~= tb@.subrange(0, m as int));
        }
        let hv = match utf8_chars(tb, 0, m) {
            Some(x) => x,
            None => {
                assert(false);
                Vec::new()
            },
        };
        if contains_str(&hv, "<html") || starts_with_at(t, 0, "<!doctype html") || starts_with_at(
            t,
            0,
            "<h1",
        ) || starts_with_at(t, 0, "<p>") || starts_with_at(t, 0, "<table") || starts_with_at(
            t,
            0,
            "<div",
        ) || starts_with_at(t, 0, "<!DOCTYPE") {
            assert(t@.skip(0) =~= t@);
            return Format::Html;
        }
        assert(t@.skip(0) =~= t@);
        return Format::Plain;
    }
    if t.len() > 0 && t[0] == '[' {
        let s = string_of(t);
        if looks_like_json_object_array(s.as_str()) {
            return Format::Json;
        }
    }
    if t.len() > 0 && (t[0] == '{' || t[0] == '[') {
        return Format::Json;
    }
    let n = t.len();
    let j = find_char(t, 0, '\n');
    assert(t@.skip(0) =~= t@);
    let lend = if j < n && j > 0 && t[j - 1] == '\r' {
        j - 1
    } else {
        j
    };
    let mut fl: Vec<char> = Vec::new();
    push_range(&mut fl, t, 0, lend);
    assert(fl@ =~= first_line(t@));
    let e = trim_end_at(&fl, 0, fl.len());
    assert(fl@.subrange(0, fl.len() as int) =~= fl@);
    if contains_str(t, "\n") && contains_str(&fl, ",") && !(e > 0 && fl[e - 1] == ',') {
        Format::Csv
    } else {
        Format::Plain
    }
}

/// The format that the first bytes of `bytes` point to: magic numbers
/// first, then text features.
fn from_magic(bytes: &[u8]) -> (r: Option<Format>)
    requires
        sniff_ok(bytes@),
    ensures
        r == Some(magic_format(bytes@)),
{
    let n = bytes.len();
    if n >= 4 && bytes[0] == 0x25 && bytes[1] == 0x50 && bytes[2] == 0x44 && bytes[3] == 0x46 {
        assert(bytes@.take(4) =~= seq![0x25u8, 0x50u8, 0x44u8, 0x46u8]);
        return Some(Format::Unsupported("pdf"));
    }
    assert(bytes_start(bytes@, seq![0x25u8, 0x50u8, 0x44u8, 0x46u8]) ==> (bytes@[0] == 0x25
        && bytes@[1] == 0x50 && bytes@[2] == 0x44 && bytes@[3] == 0x46));
    if n >= 4 && bytes[0] == 0x50 && bytes[1] == 0x4b && bytes[2] == 0x03 && bytes[3] == 0x04 {
        assert(bytes@.take(4) =~= seq![0x50u8, 0x4bu8, 0x03u8, 0x04u8]);
        let m = if n < 4096 {
            n
        } else {
            4096
        };
        let head = lossy_chars(bytes, 0, m);
        assert(bytes@.take(m as int) =~= bytes@.subrange(0, m as int));
        if contains_str(&head, "word/document") {
            return Some(Format::Docx);
        }
        return Some(Format::Unsupported("zip"));
    }
    assert(bytes_start(bytes@, seq![0x50u8, 0x4bu8, 0x03u8, 0x04u8]) ==> (bytes@[0] == 0x50
        && bytes@[1] == 0x4b && bytes@[2] == 0x03 && bytes@[3] == 0x04));
    if n >= 2 && bytes[0] == 0x1f && bytes[1] == 0x8b {
        assert(bytes@.take(2) =~= seq![0x1fu8, 0x8bu8]);
        return Some(Format::Unsupported("gz"));
    }
    assert(bytes_start(bytes@, seq![0x1fu8, 0x8bu8]) ==> (bytes@[0] == 0x1f && bytes@[1]
        == 0x8b));
    let text = if n >= 3 && bytes[0] == 0xef && bytes[1] == 0xbb && bytes[2] == 0xbf {
        assert(bytes@.take(3) =~= seq![0xefu8, 0xbbu8, 0xbfu8]);
        assert(bytes@.subrange(3, n as int) =~= bytes@.skip(3));
        lossy_chars(bytes, 3, n)
    } else {
        assert(bytes_start(bytes@, seq![0xefu8, 0xbbu8, 0xbfu8]) ==> (bytes@[0] == 0xef
            && bytes@[1] == 0xbb && bytes@[2] == 0xbf));
        assert(bytes@.subrange(0, n as int) =~= bytes@);
        match utf8_chars(bytes, 0, n) {
            Some(v) => v,
            None => {
                return Some(Format::Plain);
            },
        }
    };
    assert(sniffed_text(bytes@) == Some(text@));
    let a = trim_start_at(&text, 0, text.len());
    assert(text@.subrange(0, text.len() as int) =~= text@);
    let mut t: Vec<char> = Vec::new();
    push_range(&mut t, &text, a, text.len());
    assert(t@ =~= trim_start(text@));
    Some(text_format_of(&t))
}

/// The two guesses for a file: by its extension and by its content. The
/// caller tries both when they differ.
pub fn guesses(path: &str, bytes: &[u8]) -> (r: (Option<Format>, Option<Format>))
    requires
        sniff_ok(bytes@),
    ensures
        r.0 == format_of_extension(extension(path@)),
        r.1 == Some(magic_format(bytes@)),
{
    (from_ext(path), from_magic(bytes))
}

} // verus!

verus! {

/// Whether content sniffing can read `bytes` without cutting a character
/// in two at the 512-byte mark (`guesses` needs it).
pub fn sniff_safe(bytes: &[u8]) -> (b: bool)
    ensures
        b == sniff_ok(bytes@),
{
    let n = bytes.len();
    let text = if n >= 3 && bytes[0] == 0xef && bytes[1] == 0xbb && bytes[2] == 0xbf {
        assert(bytes@.take(3) =~= seq![0xefu8, 0xbbu8, 0xbfu8]);
        assert(bytes@.subrange(3, n as int) =~= bytes@.skip(3));
        lossy_chars(bytes, 3, n)
    } else {
        assert(bytes_start(bytes@, seq![0xefu8, 0xbbu8, 0xbfu8]) ==> (bytes@[0] == 0xef
            && bytes@[1] == 0xbb && bytes@[2] == 0xbf));
        assert(bytes@.subrange(0, n as int) =~= bytes@);
        match utf8_chars(bytes, 0, n) {
            Some(v) => v,
            None => {
                return true;
            },
        }
    };
    assert(sniffed_text(bytes@) == Some(text@));
    let a = trim_start_at(&text, 0, text.len());
    assert(text@.subrange(0, text.len() as int) =~= text@);
    let mut t: Vec<char> = Vec::new();
    push_range(&mut t, &text, a, text.len());
    assert(t@ =~= trim_start(text@));
    if t.len() > 0 && t[0] == '<' {
        let s = string_of(&t);
        let ss = s.as_str();
        let tb = ss.as_bytes();
        assert(tb@ == encode_utf8(t@));
        let m = if tb.len() < 512 {
            tb.len()
        } else {
            512
        };
        assert(m == head_len(t@));
        ss.is_char_boundary(m)
    } else {
        true
    }
}

} // verus!

verus! {

/// The extensions the app offers for conversion.
pub open spec fn supported_extension(e: Seq<char>) -> bool {
    e == "docx"@ || e == "html"@ || e == "htm"@ || e == "csv"@ || e == "json"@ || e == "txt"@
        || e == "md"@
}

/// Whether the app offers files with the extension `ext` (exactly as
/// written, lowercase) for conversion; the front end greys out the others.
pub fn is_supported(ext: &str) -> (b: bool)
    ensures
        b == supported_extension(ext@),
{
    let v = chars_of(ext);
    equals_str(&v, "docx") || equals_str(&v, "html") || equals_str(&v, "htm") || equals_str(
        &v,
        "csv",
    ) || equals_str(&v, "json") || equals_str(&v, "txt") || equals_str(&v, "md")
}

} // verus!
