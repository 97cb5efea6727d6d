//! Laws that span the converters and the conversion chain.

use vstd::prelude::*;
use crate::html::{
    blank_line_after, escape_cell, html_markdown, initial_state, normalized, run, tag_closes,
    tag_step, text_step, HtmlState,
};
use crate::normal_form::{is_normal, lemma_normal_is_fixed, lemma_normalized_is_normal};
use crate::sniff::{
    bytes_start, extension, first_line, format_of_extension, head, magic_format, same_format,
    sniffed_text, text_format,
};
use crate::text::{
    ascii_lower, ascii_lowercase, contains, is_white, last_index, trim_start, utf8_lossy,
};
use vstd::utf8::{encode_scalar, encode_utf8};
use crate::archive::{EntryView, FileView, zip_listing};
use crate::converters::{
    csv_result, docx_result, document_part, find_document, heading_level, heading_mark,
    no_document_message, no_rows_message, paragraph_markdown, rows_result, run_texts, xml_decoded,
};
use crate::json::{
    all_objects, array_pieces, is_container, json_parse, json_result, lookup, object_pieces, pad,
    render, row_cells,
    scalar_text, JsonSpec,
};
use crate::records::{csv_records, RecordView};
use crate::text::{
    alnum_prefix, concat_all, find_seq, lowercase, repeat, starts_with, strip_leading, trim,
    trim_end,
};
use crate::{attempt, chain, claims, conversion, guess_list, Format, Outcome, Step};

verus! {

proof fn lemma_chain_normal(gs: Seq<Format>, tried: Seq<Format>, b: Seq<u8>)
    ensures
        chain(gs, tried, b) matches Outcome::Markdown(m) ==> is_normal(m),
    decreases gs.len(),
{
    if gs.len() > 0 {
        let g = gs[0];
        lemma_chain_normal(gs.drop_first(), tried, b);
        lemma_chain_normal(gs.drop_first(), tried.push(g), b);
        if let Step::Done(md) = attempt(g, b) {
            lemma_normalized_is_normal(md);
        }
    }
}

/// Law: every successful conversion gives Markdown in normal form.
pub proof fn lemma_conversion_is_normal(path: Seq<char>, b: Seq<u8>)
    ensures
        conversion(path, b) matches Outcome::Markdown(m) ==> is_normal(m),
{
    lemma_chain_normal(guess_list(path, b), seq![], b);
}

/// Law: the Markdown of any HTML is in normal form.
pub proof fn lemma_html_is_normal(html: Seq<char>)
    ensures
        is_normal(html_markdown(html)),
{
    lemma_normalized_is_normal(run(initial_state(), html).out);
}

proof fn lemma_same_format_attempt(a: Format, g: Format, b: Seq<u8>)
    requires
        same_format(a, g),
    ensures
        attempt(a, b) == attempt(g, b),
{
}

proof fn lemma_chain_unsupported(gs: Seq<Format>, tried: Seq<Format>, b: Seq<u8>)
    requires
        forall|k: int| 0 <= k < tried.len() ==> attempt(#[trigger] tried[k], b) is Skip,
        chain(gs, tried, b) is Unsupported,
    ensures
        forall|i: int| 0 <= i < gs.len() ==> attempt(#[trigger] gs[i], b) is Skip,
    decreases gs.len(),
{
    if gs.len() > 0 {
        let g = gs[0];
        let rest = gs.drop_first();
        if exists|k: int| 0 <= k < tried.len() && same_format(#[trigger] tried[k], g) {
            let k = choose|k: int| 0 <= k < tried.len() && same_format(#[trigger] tried[k], g);
            lemma_same_format_attempt(tried[k], g, b);
            lemma_chain_unsupported(rest, tried, b);
        } else {
            let t2 = tried.push(g);
            assert(attempt(g, b) is Skip || (attempt(g, b) is Failed && !claims(g)));
            assert(!(attempt(g, b) is Failed && !claims(g)));
            assert forall|k: int| 0 <= k < t2.len() implies attempt(#[trigger] t2[k], b) is Skip by {
                if k < tried.len() {
                    assert(t2[k] == tried[k]);
                }
            }
            lemma_chain_unsupported(rest, t2, b);
        }
        assert forall|i: int| 0 <= i < gs.len() implies attempt(#[trigger] gs[i], b) is Skip by {
            if i > 0 {
                assert(gs[i] == rest[i - 1]);
            }
        }
    }
}

/// Law: a file is reported unsupported only when every guess for it was
/// passed over by its converter.
pub proof fn lemma_unsupported_only_when_all_skip(path: Seq<char>, b: Seq<u8>)
    requires
        conversion(path, b) is Unsupported,
    ensures
        forall|i: int|
            0 <= i < guess_list(path, b).len() ==> attempt(#[trigger] guess_list(path, b)[i], b) is Skip,
{
    lemma_chain_unsupported(guess_list(path, b), seq![], b);
}

/// Law: an escaped table cell holds no newline, and each `|` in it comes
/// right after a backslash, so a cell never breaks its table row.
pub proof fn lemma_escaped_cell_is_safe(s: Seq<char>)
    ensures
        forall|i: int| 0 <= i < escape_cell(s).len() ==> #[trigger] escape_cell(s)[i] != '\n',
        forall|i: int|
            0 <= i < escape_cell(s).len() && #[trigger] escape_cell(s)[i] == '|' ==> i > 0
                && escape_cell(s)[i - 1] == '\\',
    decreases s.len(),
{
    if s.len() > 0 {
        lemma_escaped_cell_is_safe(s.drop_last());
        let a = escape_cell(s.drop_last());
        let e = escape_cell(s);
        assert forall|i: int| 0 <= i < e.len() implies #[trigger] e[i] != '\n' by {
            if i < a.len() {
                assert(e[i] == a[i]);
            }
        }
        assert forall|i: int| 0 <= i < e.len() && #[trigger] e[i] == '|' implies i > 0 && e[i - 1]
            == '\\' by {
            if i < a.len() {
                assert(e[i] == a[i]);
                assert(e[i - 1] == a[i - 1]);
            } else if i > a.len() {
                assert(e[i - 1] == '\\');
            }
        }
    }
}

proof fn lemma_last_index_lower(p: Seq<char>)
    ensures
        last_index(ascii_lowercase(p), '.') == last_index(p, '.'),
    decreases p.len(),
{
    if p.len() > 0 {
        assert(ascii_lowercase(p).drop_last() =~= ascii_lowercase(p.drop_last()));
        lemma_last_index_lower(p.drop_last());
    }
}

/// Law: the extension is read without regard to ASCII case: a path and its
/// ASCII-lowercase form have the same extension (so `a.DOCX` is a docx).
pub proof fn lemma_extension_ignores_case(p: Seq<char>)
    ensures
        extension(ascii_lowercase(p)) == extension(p),
{
    lemma_last_index_lower(p);
    let k = last_index(p, '.') + 1;
    lemma_last_index_bounds(p);
    let a = ascii_lowercase(ascii_lowercase(p).skip(k));
    let b = ascii_lowercase(p.skip(k));
    assert(a.len() == b.len());
    assert forall|i: int| 0 <= i < a.len() implies a[i] == b[i] by {
        assert(ascii_lowercase(p).skip(k)[i] == ascii_lower(p[k + i]));
        assert(b[i] == ascii_lower(p[k + i]));
        lemma_lower_twice(p[k + i]);
    }
    assert(a =~= b);
}

proof fn lemma_lower_twice(c: char)
    ensures
        ascii_lower(ascii_lower(c)) == ascii_lower(c),
{
    if 'A' as u32 <= c as u32 <= 'Z' as u32 {
        let x = (c as u32 + 32) as u8;
        assert((x as char) as u32 == x as u32);
    }
}

proof fn lemma_last_index_bounds(p: Seq<char>)
    ensures
        -1 <= last_index(p, '.') < p.len(),
    decreases p.len(),
{
    if p.len() > 0 {
        lemma_last_index_bounds(p.drop_last());
    }
}

proof fn lemma_text_kept(st: HtmlState, s: Seq<char>)
    requires
        !st.in_script,
        !st.in_td,
        forall|i: int| 0 <= i < s.len() ==> s[i] != '<',
    ensures
        run(st, s) == (HtmlState { out: st.out + s, ..st }),
    decreases s.len(),
{
    if s.len() == 0 {
        assert(st.out + s =~= st.out);
    } else {
        let st1 = text_step(st, s[0]);
        assert forall|i: int| 0 <= i < s.drop_first().len() implies s.drop_first()[i] != '<' by {
            assert(s.drop_first()[i] == s[i + 1]);
        }
        lemma_text_kept(st1, s.drop_first());
        assert(st1.out + s.drop_first() =~= st.out + s);
    }
}

/// Law: HTML without any tag is kept as its text: the converter writes
/// each character as it comes and normalises.
pub proof fn lemma_untagged_text_kept(s: Seq<char>)
    requires
        forall|i: int| 0 <= i < s.len() ==> s[i] != '<',
    ensures
        run(initial_state(), s).out == s,
        html_markdown(s) == normalized(s),
{
    lemma_text_kept(initial_state(), s);
    assert(initial_state().out + s =~= s);
}

} // verus!

verus! {

/// Law: guesses are deduplicated: when the content guess names the same
/// format as the extension guess, the file goes through that format's
/// converter once, as if it had been the only guess.
pub proof fn lemma_same_guess_tried_once(path: Seq<char>, b: Seq<u8>)
    requires
        guess_list(path, b).len() == 2,
        same_format(guess_list(path, b)[0], guess_list(path, b)[1]),
    ensures
        conversion(path, b) == chain(seq![guess_list(path, b)[0]], seq![], b),
{
    let gs = guess_list(path, b);
    let e = gs[0];
    let t: Seq<Format> = seq![];
    assert(!(exists|k: int| 0 <= k < t.len() && same_format(#[trigger] t[k], e)));
    assert(gs.drop_first() =~= seq![gs[1]]);
    assert(seq![e].drop_first() =~= Seq::<Format>::empty());
    let t2 = t.push(e);
    assert(same_format(t2[0], gs[1]));
    assert(seq![gs[1]].drop_first() =~= Seq::<Format>::empty());
    assert(chain(seq![gs[1]], t2, b) == chain(Seq::<Format>::empty(), t2, b));
}

} // verus!

verus! {

/// Law: converting a file named as HTML gives exactly what `html_to_md`
/// gives for its text: the chain normalises once more, and that changes
/// nothing.
pub proof fn lemma_html_file_is_html_to_md(path: Seq<char>, b: Seq<u8>)
    requires
        format_of_extension(extension(path)) == Some(Format::Html),
    ensures
        conversion(path, b) == Outcome::Markdown(html_markdown(crate::lossy_text(b))),
{
    let md = html_markdown(crate::lossy_text(b));
    lemma_html_is_normal(crate::lossy_text(b));
    lemma_normal_is_fixed(md);
    let t: Seq<Format> = seq![];
    assert(!(exists|k: int| 0 <= k < t.len() && same_format(#[trigger] t[k], Format::Html)));
}

} // verus!

verus! {

/// The format `f` has a converter (it is not a known unsupported kind).
pub open spec fn has_converter(f: Format) -> bool {
    !(f is Unsupported)
}

proof fn lemma_converter_answers(f: Format, b: Seq<u8>)
    requires
        has_converter(f),
    ensures
        attempt(f, b) is Done || (attempt(f, b) is Failed && claims(f)),
{
}

proof fn lemma_one_guess(m: Format, tried: Seq<Format>, b: Seq<u8>)
    requires
        forall|k: int| 0 <= k < tried.len() ==> !same_format(#[trigger] tried[k], m),
    ensures
        chain(seq![m], tried, b) is Unsupported <==> !has_converter(m),
{
    let gs = seq![m];
    assert(gs[0] == m);
    assert(gs.drop_first() =~= Seq::<Format>::empty());
    assert(!(exists|k: int| 0 <= k < tried.len() && same_format(#[trigger] tried[k], gs[0])));
    assert(chain(Seq::<Format>::empty(), tried.push(m), b) is Unsupported);
    if has_converter(m) {
        lemma_converter_answers(m, b);
        match attempt(m, b) {
            Step::Done(md) => {
                assert(chain(gs, tried, b) == Outcome::Markdown(normalized(md)));
            },
            Step::Failed(why) => {
                assert(chain(gs, tried, b) == Outcome::Conversion(why));
            },
            Step::Skip => {},
        }
    } else {
        assert(attempt(m, b) is Skip);
        assert(chain(gs, tried, b) == chain(Seq::<Format>::empty(), tried.push(m), b));
    }
}

/// Law: a file is reported unsupported exactly when neither its extension
/// nor its content names a format that has a converter: the extension is
/// not one of the supported ones, and the content is a PDF, a gzip stream,
/// or a zip archive without a Word document part.
pub proof fn lemma_unsupported_exactly(path: Seq<char>, b: Seq<u8>)
    ensures
        conversion(path, b) is Unsupported <==> (!(format_of_extension(extension(path)) matches Some(
            f,
        ) && has_converter(f)) && !has_converter(magic_format(b))),
{
    let m = magic_format(b);
    let gs = guess_list(path, b);
    let t: Seq<Format> = seq![];
    match format_of_extension(extension(path)) {
        None => {
            assert(gs =~= seq![m]);
            lemma_one_guess(m, t, b);
        },
        Some(e) => {
            assert(gs =~= seq![e, m]);
            assert(gs[0] == e);
            assert(gs.drop_first() =~= seq![m]);
            assert(!(exists|k: int| 0 <= k < t.len() && same_format(#[trigger] t[k], e)));
            if has_converter(e) {
                lemma_converter_answers(e, b);
                match attempt(e, b) {
                    Step::Done(md) => {
                        assert(chain(gs, t, b) == Outcome::Markdown(normalized(md)));
                    },
                    Step::Failed(why) => {
                        assert(chain(gs, t, b) == Outcome::Conversion(why));
                    },
                    Step::Skip => {},
                }
            } else {
                let t2 = t.push(e);
                assert(attempt(e, b) is Skip);
                assert(chain(gs, t, b) == chain(seq![m], t2, b));
                if same_format(e, m) {
                    assert(t2[0] == e);
                    assert(seq![m][0] == m);
                    assert(seq![m].drop_first() =~= Seq::<Format>::empty());
                    assert(exists|k: int| 0 <= k < t2.len() && same_format(#[trigger] t2[k], seq![m][0]));
                    assert(chain(seq![m], t2, b) == chain(Seq::<Format>::empty(), t2, b));
                    assert(!has_converter(m));
                } else {
                    assert forall|k: int| 0 <= k < t2.len() implies !same_format(#[trigger] t2[k], m) by {
                        assert(t2[k] == e);
                    }
                    lemma_one_guess(m, t2, b);
                }
            }
        },
    }
}

/// Law: the content guess names no converter exactly for a PDF (`%PDF`), a
/// gzip stream (`1f 8b`), or a zip archive (`PK\x03\x04`) whose first 4096
/// bytes, decoded lossily, do not mention `word/document`.
pub proof fn lemma_content_without_converter(b: Seq<u8>)
    ensures
        !has_converter(magic_format(b)) <==> (bytes_start(b, seq![0x25u8, 0x50u8, 0x44u8, 0x46u8])
            || bytes_start(b, seq![0x1fu8, 0x8bu8]) || (bytes_start(
            b,
            seq![0x50u8, 0x4bu8, 0x03u8, 0x04u8],
        ) && !contains(utf8_lossy(b.take(if b.len() < 4096 { b.len() as int } else { 4096 })), "word/document"@))),
{
    let pdf = seq![0x25u8, 0x50u8, 0x44u8, 0x46u8];
    let zip = seq![0x50u8, 0x4bu8, 0x03u8, 0x04u8];
    let gz = seq![0x1fu8, 0x8bu8];
    if bytes_start(b, zip) && bytes_start(b, gz) {
        assert(b[0] == zip[0] && b[0] == gz[0]);
    }
    if bytes_start(b, pdf) && bytes_start(b, gz) {
        assert(b[0] == pdf[0] && b[0] == gz[0]);
    }
    if bytes_start(b, pdf) && bytes_start(b, zip) {
        assert(b[0] == pdf[0] && b[0] == zip[0]);
    }
    match sniffed_text(b) {
        None => {},
        Some(text) => {
            lemma_text_format_converts(trim_start(text));
        },
    }
}

proof fn lemma_text_format_converts(t: Seq<char>)
    ensures
        has_converter(text_format(t)),
{
}

} // verus!

verus! {

proof fn lemma_trim_start_white_prefix(ws: Seq<char>, x: Seq<char>)
    requires
        forall|i: int| 0 <= i < ws.len() ==> is_white(#[trigger] ws[i]),
    ensures
        trim_start(ws + x) == trim_start(x),
    decreases ws.len(),
{
    if ws.len() == 0 {
        assert(ws + x =~= x);
    } else {
        assert((ws + x)[0] == ws[0]);
        assert((ws + x).drop_first() =~= ws.drop_first() + x);
        assert forall|i: int| 0 <= i < ws.drop_first().len() implies is_white(
            #[trigger] ws.drop_first()[i],
        ) by {
            assert(ws.drop_first()[i] == ws[i + 1]);
        }
        lemma_trim_start_white_prefix(ws.drop_first(), x);
    }
}

/// The first byte of a character's UTF-8 encoding: the character itself
/// below 0x80, else a leading byte of 0xC0 or more.
proof fn lemma_first_byte(c: char)
    ensures
        encode_scalar(c as u32).len() >= 1,
        (c as u32) < 0x80 ==> encode_scalar(c as u32)[0] as u32 == c as u32,
        (c as u32) >= 0x80 ==> encode_scalar(c as u32)[0] >= 0xC0,
{
    let u = c as u32;
    assert(u <= 0x7f ==> ((u & 0x7f) as u8) as u32 == u) by (bit_vector);
    assert(((0xC0u8 | ((u >> 6) & 0x1F) as u8) >= 0xC0u8)) by (bit_vector);
    assert(((0xE0u8 | ((u >> 12) & 0x0F) as u8) >= 0xC0u8)) by (bit_vector);
    assert(((0xF0u8 | ((u >> 18) & 0x7) as u8) >= 0xC0u8)) by (bit_vector);
    vstd::utf8::char_is_scalar(c);
}

/// The first byte of the encoding of a non-empty text is its first
/// character's first byte.
proof fn lemma_encode_first(x: Seq<char>)
    requires
        x.len() > 0,
    ensures
        encode_utf8(x) == encode_scalar(x[0] as u32) + encode_utf8(x.drop_first()),
        encode_utf8(x)[0] == encode_scalar(x[0] as u32)[0],
{
    lemma_first_byte(x[0]);
}

/// A UTF-8 text never starts with the gzip magic bytes `1f 8b`.
proof fn lemma_text_is_not_gzip(x: Seq<char>)
    ensures
        !bytes_start(encode_utf8(x), seq![0x1fu8, 0x8bu8]),
{
    let e = encode_utf8(x);
    let gz = seq![0x1fu8, 0x8bu8];
    if bytes_start(e, gz) {
        assert(e[0] == gz[0] && e[1] == gz[1]);
        lemma_encode_first(x);
        lemma_first_byte(x[0]);
        assert((x[0] as u32) < 0x80);
        assert(encode_scalar(x[0] as u32).len() == 1);
        let rest = x.drop_first();
        if rest.len() == 0 {
            assert(e.len() == 1);
        } else {
            lemma_encode_first(rest);
            lemma_first_byte(rest[0]);
            assert(e[1] == encode_utf8(rest)[0]);
        }
    }
}

/// Law: leading ASCII whitespace, and a UTF-8 byte order mark before it, do
/// not change what the content of a text looks like, for a text `x` that
/// does not itself start with a byte order mark, `%PDF` or `PK\x03\x04`.
pub proof fn lemma_magic_ignores_leading_space(ws: Seq<char>, x: Seq<char>)
    requires
        forall|i: int| 0 <= i < ws.len() ==> is_white(#[trigger] ws[i]) && (ws[i] as u32) < 0x80,
        !bytes_start(encode_utf8(x), seq![0xefu8, 0xbbu8, 0xbfu8]),
        !bytes_start(encode_utf8(x), seq![0x25u8, 0x50u8, 0x44u8, 0x46u8]),
        !bytes_start(encode_utf8(x), seq![0x50u8, 0x4bu8, 0x03u8, 0x04u8]),
    ensures
        magic_format(encode_utf8(ws + x)) == magic_format(encode_utf8(x)),
        magic_format(seq![0xefu8, 0xbbu8, 0xbfu8] + encode_utf8(ws + x)) == magic_format(
            encode_utf8(x),
        ),
{
    let bom = seq![0xefu8, 0xbbu8, 0xbfu8];
    let pdf = seq![0x25u8, 0x50u8, 0x44u8, 0x46u8];
    let zip = seq![0x50u8, 0x4bu8, 0x03u8, 0x04u8];
    let gz = seq![0x1fu8, 0x8bu8];
    vstd::utf8::encode_utf8_valid_utf8(x);
    vstd::utf8::encode_utf8_decode_utf8(x);
    vstd::utf8::encode_utf8_valid_utf8(ws + x);
    vstd::utf8::encode_utf8_decode_utf8(ws + x);
    lemma_text_is_not_gzip(x);
    lemma_trim_start_white_prefix(ws, x);
    assert(sniffed_text(encode_utf8(x)) == Some(x));
    let e = encode_utf8(ws + x);
    if ws.len() == 0 {
        assert(ws + x =~= x);
    } else {
        assert((ws + x)[0] == ws[0]);
        lemma_encode_first(ws + x);
        lemma_first_byte(ws[0]);
        let u = ws[0] as u32;
        assert(e[0] as u32 == u);
        assert((0x9 <= u <= 0xd) || u == 0x20);
        assert(!bytes_start(e, pdf)) by {
            if bytes_start(e, pdf) {
                assert(e[0] == pdf[0]);
            }
        }
        assert(!bytes_start(e, zip)) by {
            if bytes_start(e, zip) {
                assert(e[0] == zip[0]);
            }
        }
        assert(!bytes_start(e, gz)) by {
            if bytes_start(e, gz) {
                assert(e[0] == gz[0]);
            }
        }
        assert(!bytes_start(e, bom)) by {
            if bytes_start(e, bom) {
                assert(e[0] == bom[0]);
            }
        }
        assert(sniffed_text(e) == Some(ws + x));
    }
    let b = bom + e;
    assert(b.take(3) =~= bom);
    assert(b.skip(3) =~= e);
    assert(b[0] == 0xefu8);
    assert(!bytes_start(b, pdf)) by {
        if bytes_start(b, pdf) {
            assert(b[0] == pdf[0]);
        }
    }
    assert(!bytes_start(b, zip)) by {
        if bytes_start(b, zip) {
            assert(b[0] == zip[0]);
        }
    }
    assert(!bytes_start(b, gz)) by {
        if bytes_start(b, gz) {
            assert(b[0] == gz[0]);
        }
    }
    assert(sniffed_text(b) == Some(ws + x));
}

} // verus!

verus! {

/// Law: the converters for plain text and HTML never fail and an unknown
/// kind is always passed over: plain text gives its text (decoded lossily
/// where it is not UTF-8), HTML gives `html_to_md` of that text; a JSON
/// file that is not UTF-8 fails with the encoding message. What a converter
/// does depends on the bytes only, not on the file's path.
pub proof fn lemma_converter_outcomes(b: Seq<u8>, kind: &'static str)
    ensures
        attempt(Format::Plain, b) == Step::Done(crate::lossy_text(b)),
        attempt(Format::Html, b) == Step::Done(html_markdown(crate::lossy_text(b))),
        attempt(Format::Unsupported(kind), b) is Skip,
        !vstd::utf8::valid_utf8(b) ==> attempt(Format::Json, b) == Step::Failed(
            crate::not_utf8_message(),
        ),
{
}

} // verus!

verus! {

/// The archive entry `e` opens, its name reads, and it is not the document
/// part.
pub open spec fn other_entry(e: EntryView) -> bool {
    e matches Ok(f) && f.0 matches Ok(n) && n != document_part()
}

proof fn lemma_skip_other_entries(es: Seq<EntryView>, k: int, i: int)
    requires
        0 <= k <= i <= es.len(),
        forall|j: int| k <= j < i ==> other_entry(#[trigger] es[j]),
    ensures
        find_document(es, k) == find_document(es, i),
    decreases i - k,
{
    if k < i {
        assert(other_entry(es[k]));
        lemma_skip_other_entries(es, k + 1, i);
    }
}

/// Law: how converting a Word file fails. Bytes that do not open as a zip
/// archive give the archive reader's error; an archive in which every entry
/// opens and none is `word/document.xml`, or whose `word/document.xml`
/// (after entries that open and are named otherwise) is empty, gives the
/// missing-document message.
pub proof fn lemma_docx_failures(b: Seq<u8>, i: int)
    ensures
        zip_listing(b) is Err ==> docx_result(zip_listing(b)) == Err::<Seq<char>, Seq<char>>(
            zip_listing(b)->Err_0,
        ),
        zip_listing(b) is Ok && (forall|j: int|
            0 <= j < zip_listing(b)->Ok_0.len() ==> other_entry(#[trigger] zip_listing(b)->Ok_0[j]))
            ==> docx_result(zip_listing(b)) == Err::<Seq<char>, Seq<char>>(no_document_message()),
        zip_listing(b) is Ok && 0 <= i < zip_listing(b)->Ok_0.len() && (forall|j: int|
            0 <= j < i ==> other_entry(#[trigger] zip_listing(b)->Ok_0[j])) && zip_listing(b)->Ok_0[i]
            == Ok::<FileView, Seq<char>>((Ok(document_part()), Ok(Seq::<char>::empty())))
            ==> docx_result(zip_listing(b)) == Err::<Seq<char>, Seq<char>>(no_document_message()),
{
    if let Ok(es) = zip_listing(b) {
        if forall|j: int| 0 <= j < es.len() ==> other_entry(#[trigger] es[j]) {
            lemma_skip_other_entries(es, 0, es.len() as int);
        }
        if 0 <= i < es.len() && (forall|j: int| 0 <= j < i ==> other_entry(#[trigger] es[j])) {
            lemma_skip_other_entries(es, 0, i);
        }
    }
}

/// The position of the first record of `rs` that failed to read (the
/// length of `rs` when none did).
pub open spec fn first_failed(rs: Seq<RecordView>) -> int
    decreases rs.len(),
{
    if rs.len() == 0 {
        0
    } else if rs[0] is Err {
        0
    } else {
        1 + first_failed(rs.drop_first())
    }
}

proof fn lemma_first_failed(rs: Seq<RecordView>)
    ensures
        0 <= first_failed(rs) <= rs.len(),
        first_failed(rs) < rs.len() ==> rs[first_failed(rs)] is Err,
        forall|j: int| 0 <= j < first_failed(rs) ==> (#[trigger] rs[j]) is Ok,
    decreases rs.len(),
{
    if rs.len() > 0 && rs[0] is Ok {
        let tail = rs.drop_first();
        lemma_first_failed(tail);
        assert forall|j: int| 0 <= j < first_failed(rs) implies (#[trigger] rs[j]) is Ok by {
            if j > 0 {
                assert(rs[j] == tail[j - 1]);
            }
        }
        if first_failed(rs) < rs.len() {
            assert(rs[first_failed(rs)] == tail[first_failed(tail)]);
        }
    }
}

proof fn lemma_rows_first_failed(rest: Seq<RecordView>, w: nat)
    ensures
        first_failed(rest) < rest.len() ==> rows_result(rest, w) == Err::<Seq<char>, Seq<char>>(
            rest[first_failed(rest)]->Err_0,
        ),
        first_failed(rest) >= rest.len() ==> rows_result(rest, w) is Ok,
    decreases rest.len(),
{
    if rest.len() > 0 && rest[0] is Ok {
        let tail = rest.drop_first();
        lemma_rows_first_failed(tail, w);
        lemma_first_failed(tail);
        if first_failed(rest) < rest.len() {
            assert(rest[first_failed(rest)] == tail[first_failed(tail)]);
        }
    }
}

/// Law: a CSV conversion fails exactly when there is no record or some
/// record fails to read: with no record the error is the no-rows message,
/// else it is the message of the first record that failed (`first_failed`
/// is the first failed record, every record before it was read).
pub proof fn lemma_csv_failures(records: Seq<RecordView>)
    ensures
        csv_result(records) is Err <==> (records.len() == 0 || first_failed(records) < records.len()),
        records.len() == 0 ==> csv_result(records) == Err::<Seq<char>, Seq<char>>(no_rows_message()),
        records.len() > 0 && first_failed(records) < records.len() ==> csv_result(records) == Err::<
            Seq<char>,
            Seq<char>,
        >(records[first_failed(records)]->Err_0),
        first_failed(records) < records.len() ==> records[first_failed(records)] is Err,
        forall|j: int| 0 <= j < first_failed(records) ==> (#[trigger] records[j]) is Ok,
{
    lemma_first_failed(records);
    if records.len() > 0 && records[0] is Ok {
        let tail = records.drop_first();
        lemma_rows_first_failed(tail, records[0]->Ok_0.len());
        lemma_first_failed(tail);
        if first_failed(records) < records.len() {
            assert(records[first_failed(records)] == tail[first_failed(tail)]);
        }
    }
}

/// Law: a JSON conversion fails exactly when the trimmed text does not
/// parse, with the parser's message; otherwise it is the Markdown of the
/// parsed value. A top-level string is its text on one line, and an empty
/// array gives nothing.
pub proof fn lemma_json_failures(text: Seq<char>, s: Seq<char>, t: Seq<char>)
    ensures
        json_result(text) is Err <==> json_parse(trim(text)) is Err,
        json_parse(trim(text)) is Err ==> json_result(text) == Err::<Seq<char>, Seq<char>>(
            json_parse(trim(text))->Err_0,
        ),
        json_parse(trim(text)) is Ok ==> json_result(text) == Ok::<Seq<char>, Seq<char>>(
            render(json_parse(trim(text))->Ok_0, 0),
        ),
        render(JsonSpec::Str(s), 0) == s + "\n"@,
        render(JsonSpec::Array(Seq::empty(), t), 0) == Seq::<char>::empty(),
{
    assert(pad(0) =~= Seq::<char>::empty()) by {
        reveal_with_fuel(repeat, 1);
    }
    assert(render(JsonSpec::Str(s), 0) =~= s + "\n"@);
    assert(array_pieces(Seq::empty(), 0) =~= Seq::<Seq<char>>::empty());
    assert(concat_all(Seq::<Seq<char>>::empty()) =~= Seq::<char>::empty());
}

} // verus!

verus! {

/// `s` has no newline.
pub open spec fn one_line(s: Seq<char>) -> bool {
    forall|k: int| 0 <= k < s.len() ==> s[k] != '\n'
}

/// A JSON value that renders as an indented list: no table anywhere in it
/// (no non-empty array whose items are all objects), and no newline in any
/// key or scalar text.
pub open spec fn list_shaped(v: JsonSpec) -> bool
    decreases v,
{
    match v {
        JsonSpec::Object(es, _) => forall|i: int|
            0 <= i < es.len() ==> one_line(#[trigger] es[i].0) && list_shaped(es[i].1),
        JsonSpec::Array(xs, _) => !(xs.len() > 0 && all_objects(xs)) && forall|i: int|
            0 <= i < xs.len() ==> list_shaped(#[trigger] xs[i]),
        _ => one_line(scalar_text(v)),
    }
}

/// Position `i` of `s` starts a line.
pub open spec fn line_start(s: Seq<char>, i: int) -> bool {
    0 <= i < s.len() && (i == 0 || s[i - 1] == '\n')
}

/// Every line of `s` starts with `p`, and `s` is empty or ends with a
/// newline.
pub open spec fn indented(s: Seq<char>, p: Seq<char>) -> bool {
    &&& s.len() > 0 ==> s.last() == '\n'
    &&& forall|i: int| #[trigger] line_start(s, i) ==> i + p.len() <= s.len() && s.subrange(i, i + p.len()) == p
}

proof fn lemma_pad_one_line(d: nat)
    ensures
        one_line(pad(d)),
        pad(d + 1) == pad(d) + "  "@,
    decreases d,
{
    reveal_strlit("  ");
    if d > 0 {
        lemma_pad_one_line((d - 1) as nat);
    }
    assert(pad(d + 1) == repeat("  "@, d) + "  "@);
}

proof fn lemma_indented_concat(a: Seq<char>, b: Seq<char>, p: Seq<char>)
    requires
        indented(a, p),
        indented(b, p),
    ensures
        indented(a + b, p),
{
    let s = a + b;
    assert forall|i: int| #[trigger] line_start(s, i) implies i + p.len() <= s.len() && s.subrange(i, i + p.len()) == p by {
        if i < a.len() {
            if i > 0 {
                assert(s[i - 1] == a[i - 1]);
            }
            assert(line_start(a, i));
            assert(s.subrange(i, i + p.len()) =~= a.subrange(i, i + p.len()));
        } else {
            let j = i - a.len();
            if j > 0 {
                assert(s[i - 1] == b[j - 1]);
            }
            assert(line_start(b, j));
            assert(s.subrange(i, i + p.len()) =~= b.subrange(j, j + p.len()));
        }
    }
    if b.len() == 0 {
        assert(s =~= a);
    } else {
        assert(s.last() == b.last());
    }
}

proof fn lemma_indented_deeper(s: Seq<char>, d: nat)
    requires
        indented(s, pad(d + 1)),
    ensures
        indented(s, pad(d)),
{
    lemma_pad_one_line(d);
    assert forall|i: int| #[trigger] line_start(s, i) implies i + pad(d).len() <= s.len() && s.subrange(i, i + pad(d).len()) == pad(d) by {
        assert(s.subrange(i, i + pad(d + 1).len()) == pad(d + 1));
        assert(s.subrange(i, i + pad(d).len()) =~= s.subrange(i, i + pad(d + 1).len()).take(pad(d).len() as int));
        assert(pad(d + 1).take(pad(d).len() as int) =~= pad(d));
    }
}

/// A line `p + line + "\n"` followed by indented text is indented.
proof fn lemma_line_then(p: Seq<char>, line: Seq<char>, tail: Seq<char>)
    requires
        one_line(p),
        one_line(line),
        indented(tail, p),
    ensures
        indented(p + line + seq!['\n'] + tail, p),
{
    let h = p + line + seq!['\n'];
    assert(h.last() == '\n');
    assert forall|i: int| #[trigger] line_start(h, i) implies i + p.len() <= h.len() && h.subrange(i, i + p.len()) == p by {
        if i > 0 {
            if i - 1 < p.len() {
                assert(h[i - 1] == p[i - 1]);
            } else {
                assert(h[i - 1] == line[i - 1 - p.len()]);
            }
        }
        assert(h.subrange(0, p.len() as int) =~= p);
    }
    lemma_indented_concat(h, tail, p);
}

proof fn lemma_empty_indented(p: Seq<char>)
    ensures
        indented(Seq::<char>::empty(), p),
{
}

proof fn lemma_concat_indented(pieces: Seq<Seq<char>>, p: Seq<char>)
    requires
        forall|i: int| 0 <= i < pieces.len() ==> indented(#[trigger] pieces[i], p),
    ensures
        indented(concat_all(pieces), p),
    decreases pieces.len(),
{
    if pieces.len() > 0 {
        let dl = pieces.drop_last();
        assert forall|i: int| 0 <= i < dl.len() implies indented(#[trigger] dl[i], p) by {
            assert(dl[i] == pieces[i]);
        }
        lemma_concat_indented(dl, p);
        assert(indented(pieces[pieces.len() - 1], p));
        lemma_indented_concat(concat_all(dl), pieces.last(), p);
    }
}

/// Law: a JSON value rendered as a list (no table in it, no newline in its
/// keys or scalar texts) at depth `d` gives lines that each start with the
/// indentation of depth `d`, two spaces per level; nested values go deeper.
pub proof fn lemma_list_lines_indented(v: JsonSpec, d: nat)
    requires
        list_shaped(v),
    ensures
        indented(render(v, d), pad(d)),
    decreases v,
{
    lemma_pad_one_line(d);
    lemma_empty_indented(pad(d));
    match v {
        JsonSpec::Object(es, t) => {
            let ps = object_pieces(es, d);
            assert forall|i: int| 0 <= i < ps.len() implies indented(#[trigger] ps[i], pad(d)) by {
                let k = es[i].0;
                assert(one_line(k));
                if is_container(es[i].1) {
                    lemma_list_lines_indented(es[i].1, d + 1);
                    lemma_indented_deeper(render(es[i].1, d + 1), d);
                    let line = "- **"@ + k + "**"@;
                    reveal_strlit("- **");
                    reveal_strlit("**");
                    reveal_strlit("**\n");
                    assert(one_line(line));
                    assert(ps[i] =~= pad(d) + line + seq!['\n'] + render(es[i].1, d + 1));
                    lemma_line_then(pad(d), line, render(es[i].1, d + 1));
                } else {
                    let x = es[i].1;
                    assert(list_shaped(x));
                    assert(one_line(scalar_text(x)));
                    let line = "- **"@ + k + "**: "@ + scalar_text(x);
                    reveal_strlit("- **");
                    reveal_strlit("**: ");
                    reveal_strlit("\n");
                    assert(one_line(line));
                    assert(ps[i] =~= pad(d) + line + seq!['\n'] + Seq::<char>::empty());
                    lemma_line_then(pad(d), line, Seq::<char>::empty());
                }
            }
            lemma_concat_indented(ps, pad(d));
        },
        JsonSpec::Array(xs, t) => {
            let ps = array_pieces(xs, d);
            assert forall|i: int| 0 <= i < ps.len() implies indented(#[trigger] ps[i], pad(d)) by {
                let x = xs[i];
                assert(list_shaped(x));
                if is_container(x) {
                    lemma_list_lines_indented(x, d + 1);
                    lemma_indented_deeper(render(x, d + 1), d);
                    reveal_strlit("-\n");
                    let line = seq!['-'];
                    assert(ps[i] =~= pad(d) + line + seq!['\n'] + render(x, d + 1));
                    lemma_line_then(pad(d), line, render(x, d + 1));
                } else {
                    reveal_strlit("- ");
                    reveal_strlit("\n");
                    let line = "- "@ + scalar_text(x);
                    assert(one_line(line));
                    assert(ps[i] =~= pad(d) + line + seq!['\n'] + Seq::<char>::empty());
                    lemma_line_then(pad(d), line, Seq::<char>::empty());
                }
            }
            lemma_concat_indented(ps, pad(d));
        },
        _ => {
            reveal_strlit("\n");
            assert(render(v, d) =~= pad(d) + scalar_text(v) + seq!['\n'] + Seq::<char>::empty());
            lemma_line_then(pad(d), scalar_text(v), Seq::<char>::empty());
        },
    }
}

} // verus!

verus! {

/// The name of the tag whose text (between `<` and `>`) is `raw`: the
/// letters and digits after a leading `/`, lowercased.
pub open spec fn tag_name(raw: Seq<char>) -> Seq<char> {
    alnum_prefix(strip_leading(lowercase(raw), '/'))
}

proof fn lemma_tag_literals()
    ensures
        "script"@ == seq!['s', 'c', 'r', 'i', 'p', 't'],
        "style"@ == seq!['s', 't', 'y', 'l', 'e'],
        "pre"@ == seq!['p', 'r', 'e'],
        "code"@ == seq!['c', 'o', 'd', 'e'],
        "h1"@ == seq!['h', '1'],
        "h2"@ == seq!['h', '2'],
        "h3"@ == seq!['h', '3'],
        "h4"@ == seq!['h', '4'],
        "h5"@ == seq!['h', '5'],
        "h6"@ == seq!['h', '6'],
        "p"@ == seq!['p'],
        "div"@ == seq!['d', 'i', 'v'],
        "section"@ == seq!['s', 'e', 'c', 't', 'i', 'o', 'n'],
        "article"@ == seq!['a', 'r', 't', 'i', 'c', 'l', 'e'],
        "header"@ == seq!['h', 'e', 'a', 'd', 'e', 'r'],
        "footer"@ == seq!['f', 'o', 'o', 't', 'e', 'r'],
        "br"@ == seq!['b', 'r'],
        "hr"@ == seq!['h', 'r'],
        "ul"@ == seq!['u', 'l'],
        "ol"@ == seq!['o', 'l'],
        "li"@ == seq!['l', 'i'],
        "a"@ == seq!['a'],
        "strong"@ == seq!['s', 't', 'r', 'o', 'n', 'g'],
        "b"@ == seq!['b'],
        "em"@ == seq!['e', 'm'],
        "i"@ == seq!['i'],
        "table"@ == seq!['t', 'a', 'b', 'l', 'e'],
        "tr"@ == seq!['t', 'r'],
        "td"@ == seq!['t', 'd'],
        "th"@ == seq!['t', 'h'],
        "title"@ == seq!['t', 'i', 't', 'l', 'e'],
{
    reveal_strlit("script");
    reveal_strlit("style");
    reveal_strlit("pre");
    reveal_strlit("code");
    reveal_strlit("h1");
    reveal_strlit("h2");
    reveal_strlit("h3");
    reveal_strlit("h4");
    reveal_strlit("h5");
    reveal_strlit("h6");
    reveal_strlit("p");
    reveal_strlit("div");
    reveal_strlit("section");
    reveal_strlit("article");
    reveal_strlit("header");
    reveal_strlit("footer");
    reveal_strlit("br");
    reveal_strlit("hr");
    reveal_strlit("ul");
    reveal_strlit("ol");
    reveal_strlit("li");
    reveal_strlit("a");
    reveal_strlit("strong");
    reveal_strlit("b");
    reveal_strlit("em");
    reveal_strlit("i");
    reveal_strlit("table");
    reveal_strlit("tr");
    reveal_strlit("td");
    reveal_strlit("th");
    reveal_strlit("title");
}

/// Law: `<strong>` and `<b>`, opening or closing, in any letter case and
/// with any attributes, are bold: the tag writes `**` and changes nothing
/// else (it only ends a run of list-item tags).
pub proof fn lemma_bold_tags(st: HtmlState, raw: Seq<char>)
    requires
        tag_name(raw) == "strong"@ || tag_name(raw) == "b"@,
    ensures
        tag_step(st, raw) == (HtmlState { out: st.out + "**"@, last_was_li: false, ..st }),
{
    lemma_tag_literals();
    let n = tag_name(raw);
    if n == "strong"@ {
        assert(n[1] == 't');
        assert(n.len() == 6);
    } else {
        assert(n.len() == 1 && n[0] == 'b');
    }
    assert(crate::html::kind_of_tag(lowercase(raw)) == crate::html::TagKind::Strong);
}

/// Law: `<em>` and `<i>`, opening or closing, in any letter case and with
/// any attributes, are italic: the tag writes `*` and changes nothing else.
pub proof fn lemma_italic_tags(st: HtmlState, raw: Seq<char>)
    requires
        tag_name(raw) == "em"@ || tag_name(raw) == "i"@,
    ensures
        tag_step(st, raw) == (HtmlState { out: st.out.push('*'), last_was_li: false, ..st }),
{
    lemma_tag_literals();
    let n = tag_name(raw);
    if n == "em"@ {
        assert(n.len() == 2 && n[0] == 'e' && n[1] == 'm');
    } else {
        assert(n.len() == 1 && n[0] == 'i');
    }
    assert(crate::html::kind_of_tag(lowercase(raw)) == crate::html::TagKind::Em);
}

/// Law: `<h1>` to `<h6>` are headings of their level: the opening tag
/// starts a new block with as many `#` as the digit says and a space, the
/// closing tag ends the line.
pub proof fn lemma_heading_tags(st: HtmlState, raw: Seq<char>, c: char)
    requires
        tag_name(raw) == seq!['h', c],
        '1' as u32 <= c as u32 <= '6' as u32,
    ensures
        !tag_closes(lowercase(raw)) ==> tag_step(st, raw) == (HtmlState {
            out: blank_line_after(st.out) + repeat("#"@, (c as u32 - '0' as u32) as nat) + seq![' '],
            last_was_li: false,
            ..st
        }),
        tag_closes(lowercase(raw)) ==> tag_step(st, raw) == (HtmlState {
            out: st.out.push('\n'),
            last_was_li: false,
            ..st
        }),
{
    lemma_tag_literals();
    let n = seq!['h', c];
    if c == '1' {
        assert(n =~= "h1"@);
    } else if c == '2' {
        assert(n =~= "h2"@);
    } else if c == '3' {
        assert(n =~= "h3"@);
    } else if c == '4' {
        assert(n =~= "h4"@);
    } else if c == '5' {
        assert(n =~= "h5"@);
    } else {
        assert(c as u32 == '6' as u32);
        assert(n =~= "h6"@);
    }
}

/// Law: `<br>` breaks the line: it writes a newline and changes nothing
/// else.
pub proof fn lemma_line_break_tag(st: HtmlState, raw: Seq<char>)
    requires
        tag_name(raw) == "br"@,
    ensures
        tag_step(st, raw) == (HtmlState { out: st.out.push('\n'), last_was_li: false, ..st }),
{
    lemma_tag_literals();
}

} // verus!

verus! {

/// Law: a Word paragraph whose first `Heading` style marker is followed by
/// a digit `d` from 1 to 9 becomes a heading of level `d`: `d` times `#`, a
/// space, its trimmed text, and a blank line; a paragraph without such a
/// marker is its trimmed text followed by a blank line. (Blank paragraphs
/// give nothing.)
pub proof fn lemma_docx_heading_level(para: Seq<char>)
    ensures
        ({
            let p = find_seq(para, heading_mark());
            let t = trim(xml_decoded(run_texts(para)));
            let at = p + heading_mark().len();
            p >= 0 && at < para.len() && '1' as u32 <= para[at] as u32 <= '9' as u32 && t.len() > 0
                ==> paragraph_markdown(para) == repeat("#"@, (para[at] as u32 - '0' as u32) as nat)
                + seq![' '] + t + "\n\n"@
        }),
        ({
            let t = trim(xml_decoded(run_texts(para)));
            find_seq(para, heading_mark()) < 0 && t.len() > 0 ==> paragraph_markdown(para) == t
                + "\n\n"@
        }),
        trim(xml_decoded(run_texts(para))).len() == 0 ==> paragraph_markdown(para) == Seq::<
            char,
        >::empty(),
{
    reveal_strlit("\n\n");
    let t = trim(xml_decoded(run_texts(para)));
    let p = find_seq(para, heading_mark());
    if p < 0 && t.len() > 0 {
        assert(heading_level(para) == 0);
        assert(paragraph_markdown(para) =~= t + "\n\n"@);
    }
    if p >= 0 && p + heading_mark().len() < para.len() && t.len() > 0 {
        let c = para[p + heading_mark().len()];
        if '1' as u32 <= c as u32 <= '9' as u32 {
            assert(heading_level(para) == (c as u32 - '0' as u32) as nat);
            assert(heading_level(para) > 0);
            assert(paragraph_markdown(para) =~= repeat("#"@, heading_level(para)) + seq![' '] + t
                + "\n\n"@);
        }
    }
}

} // verus!

verus! {

proof fn lemma_lookup_finds(es: Seq<(Seq<char>, JsonSpec)>, c: Seq<char>, j: int)
    ensures
        0 <= j < es.len() && es[j].0 == c && (forall|m: int| 0 <= m < j ==> (#[trigger] es[m]).0 != c)
            ==> lookup(es, c) == Some(es[j].1),
        (forall|m: int| 0 <= m < es.len() ==> (#[trigger] es[m]).0 != c) ==> lookup(es, c) is None,
    decreases es.len(),
{
    if es.len() > 0 {
        let r = es.drop_first();
        lemma_lookup_finds(r, c, j - 1);
        if 0 <= j < es.len() && es[j].0 == c && (forall|m: int| 0 <= m < j ==> (#[trigger] es[m]).0 != c) {
            if j > 0 {
                assert(es[0].0 != c);
                assert(r[j - 1] == es[j]);
                assert forall|m: int| 0 <= m < j - 1 implies (#[trigger] r[m]).0 != c by {
                    assert(r[m] == es[m + 1]);
                }
            }
        }
        if forall|m: int| 0 <= m < es.len() ==> (#[trigger] es[m]).0 != c {
            assert(es[0].0 != c);
            assert forall|m: int| 0 <= m < r.len() implies (#[trigger] r[m]).0 != c by {
                assert(r[m] == es[m + 1]);
            }
        }
    }
}

/// Law: in a JSON table every cell is found by its column's key. Under
/// column `cols[k]`, a row object gives the scalar text of the value of its
/// first entry with that key, wherever that entry stands among the row's
/// entries, and an empty cell when it has no entry with that key.
pub proof fn lemma_cells_by_key(
    es: Seq<(Seq<char>, JsonSpec)>,
    t: Seq<char>,
    cols: Seq<Seq<char>>,
    k: int,
    j: int,
)
    requires
        0 <= k < cols.len(),
    ensures
        row_cells(JsonSpec::Object(es, t), cols).len() == cols.len(),
        0 <= j < es.len() && es[j].0 == cols[k] && (forall|m: int| 0 <= m < j ==> (#[trigger] es[m]).0 != cols[k])
            ==> row_cells(JsonSpec::Object(es, t), cols)[k] == scalar_text(es[j].1),
        (forall|m: int| 0 <= m < es.len() ==> (#[trigger] es[m]).0 != cols[k]) ==> row_cells(
            JsonSpec::Object(es, t),
            cols,
        )[k] == Seq::<char>::empty(),
{
    lemma_lookup_finds(es, cols[k], j);
}

} // verus!

verus! {

proof fn lemma_ext_literals()
    ensures
        "docx"@ == seq!['d', 'o', 'c', 'x'],
        "htm"@ == seq!['h', 't', 'm'],
        "html"@ == seq!['h', 't', 'm', 'l'],
        "json"@ == seq!['j', 's', 'o', 'n'],
        "csv"@ == seq!['c', 's', 'v'],
        "tsv"@ == seq!['t', 's', 'v'],
        "txt"@ == seq!['t', 'x', 't'],
        "md"@ == seq!['m', 'd'],
        "log"@ == seq!['l', 'o', 'g'],
        "pdf"@ == seq!['p', 'd', 'f'],
        "zip"@ == seq!['z', 'i', 'p'],
        "xlsx"@ == seq!['x', 'l', 's', 'x'],
        "xls"@ == seq!['x', 'l', 's'],
        "pptx"@ == seq!['p', 'p', 't', 'x'],
        "epub"@ == seq!['e', 'p', 'u', 'b'],
        "mp3"@ == seq!['m', 'p', '3'],
        "wav"@ == seq!['w', 'a', 'v'],
{
    reveal_strlit("docx");
    reveal_strlit("htm");
    reveal_strlit("html");
    reveal_strlit("json");
    reveal_strlit("csv");
    reveal_strlit("tsv");
    reveal_strlit("txt");
    reveal_strlit("md");
    reveal_strlit("log");
    reveal_strlit("pdf");
    reveal_strlit("zip");
    reveal_strlit("xlsx");
    reveal_strlit("xls");
    reveal_strlit("pptx");
    reveal_strlit("epub");
    reveal_strlit("mp3");
    reveal_strlit("wav");
}

/// What the first converter tried gives for a file, when it answers.
pub open spec fn answer_of(s: Step) -> Outcome {
    match s {
        Step::Done(md) => Outcome::Markdown(normalized(md)),
        Step::Failed(why) => Outcome::Conversion(why),
        Step::Skip => Outcome::Unsupported,
    }
}

proof fn lemma_extension_guess_answers(path: Seq<char>, b: Seq<u8>, f: Format)
    requires
        format_of_extension(extension(path)) == Some(f),
        has_converter(f),
    ensures
        conversion(path, b) == answer_of(attempt(f, b)),
{
    let gs = guess_list(path, b);
    let t: Seq<Format> = seq![];
    assert(gs[0] == f);
    assert(!(exists|k: int| 0 <= k < t.len() && same_format(#[trigger] t[k], f)));
    lemma_converter_answers(f, b);
}

/// Law: the extension decides the converter. A file named `.txt`, `.md` or
/// `.log` (in any ASCII case) is its text, decoded lossily and normalised,
/// whatever its content; `.htm`/`.html` is the HTML converter's Markdown
/// of that text; `.csv`/`.tsv` is the CSV table of that text or the CSV
/// error; `.json` fails for bytes that are not UTF-8 and otherwise is the
/// JSON converter's answer; `.docx` is the Word converter's answer. A file
/// named as a known unsupported kind (`.pdf`, `.zip`, `.xlsx`, `.xls`,
/// `.pptx`, `.epub`, `.mp3`, `.wav`) is unsupported exactly when its content
/// names no converter either.
pub proof fn lemma_extension_decides(path: Seq<char>, b: Seq<u8>)
    ensures
        ({
            let e = extension(path);
            e == "txt"@ || e == "md"@ || e == "log"@
        }) ==> conversion(path, b) == Outcome::Markdown(normalized(crate::lossy_text(b))),
        ({
            let e = extension(path);
            e == "htm"@ || e == "html"@
        }) ==> conversion(path, b) == Outcome::Markdown(html_markdown(crate::lossy_text(b))),
        ({
            let e = extension(path);
            e == "csv"@ || e == "tsv"@
        }) ==> conversion(path, b) == answer_of(crate::attempt_of(csv_result(csv_records(crate::lossy_text(b))))),
        extension(path) == "json"@ && !vstd::utf8::valid_utf8(b) ==> conversion(path, b)
            == Outcome::Conversion(crate::not_utf8_message()),
        extension(path) == "json"@ && vstd::utf8::valid_utf8(b) ==> conversion(path, b)
            == answer_of(crate::attempt_of(json_result(vstd::utf8::decode_utf8(b)))),
        extension(path) == "docx"@ ==> conversion(path, b) == answer_of(
            crate::attempt_of(docx_result(zip_listing(b))),
        ),
        ({
            let e = extension(path);
            e == "pdf"@ || e == "zip"@ || e == "xlsx"@ || e == "xls"@ || e == "pptx"@ || e == "epub"@
                || e == "mp3"@ || e == "wav"@
        }) ==> (conversion(path, b) is Unsupported <==> !has_converter(magic_format(b))),
{
    lemma_ext_literals();
    let e = extension(path);
    lemma_unsupported_exactly(path, b);
    if e == "txt"@ || e == "md"@ || e == "log"@ {
        assert(format_of_extension(e) == Some(Format::Plain));
        lemma_extension_guess_answers(path, b, Format::Plain);
    }
    if e == "htm"@ || e == "html"@ {
        assert(format_of_extension(e) == Some(Format::Html));
        lemma_html_file_is_html_to_md(path, b);
    }
    if e == "csv"@ || e == "tsv"@ {
        assert(format_of_extension(e) == Some(Format::Csv));
        lemma_extension_guess_answers(path, b, Format::Csv);
    }
    if e == "json"@ {
        assert(format_of_extension(e) == Some(Format::Json));
        lemma_extension_guess_answers(path, b, Format::Json);
    }
    if e == "docx"@ {
        assert(format_of_extension(e) == Some(Format::Docx));
        lemma_extension_guess_answers(path, b, Format::Docx);
    }
    if e == "pdf"@ || e == "zip"@ || e == "xlsx"@ || e == "xls"@ || e == "pptx"@ || e == "epub"@
        || e == "mp3"@ || e == "wav"@ {
        assert(format_of_extension(e) matches Some(f) && !has_converter(f));
    }
}

/// Law: the CSV, HTML and plain-text converters read a file only through its
/// lossily decoded text: a file converts exactly as that text, encoded as
/// UTF-8, would, and two files with the same lossily decoded text convert
/// alike. So bytes that are not UTF-8 never make them fail for their
/// encoding.
pub proof fn lemma_lossy_converters(b: Seq<u8>, b2: Seq<u8>)
    ensures
        attempt(Format::Csv, b) == attempt(Format::Csv, encode_utf8(crate::lossy_text(b))),
        attempt(Format::Html, b) == attempt(Format::Html, encode_utf8(crate::lossy_text(b))),
        attempt(Format::Plain, b) == attempt(Format::Plain, encode_utf8(crate::lossy_text(b))),
        crate::lossy_text(b) == crate::lossy_text(b2) ==> attempt(Format::Csv, b) == attempt(
            Format::Csv,
            b2,
        ) && attempt(Format::Html, b) == attempt(Format::Html, b2) && attempt(Format::Plain, b)
            == attempt(Format::Plain, b2),
{
    let x = crate::lossy_text(b);
    vstd::utf8::encode_utf8_valid_utf8(x);
    vstd::utf8::encode_utf8_decode_utf8(x);
    assert(crate::lossy_text(encode_utf8(x)) == x);
}

} // verus!

verus! {

/// Law: the block tags `p`, `div`, `section`, `article`, `header` and
/// `footer` end their block with a blank line when they close and write
/// nothing when they open.
pub proof fn lemma_block_tags(st: HtmlState, raw: Seq<char>)
    requires
        ({
            let n = tag_name(raw);
            n == "p"@ || n == "div"@ || n == "section"@ || n == "article"@ || n == "header"@
                || n == "footer"@
        }),
    ensures
        tag_closes(lowercase(raw)) ==> tag_step(st, raw) == (HtmlState {
            out: blank_line_after(st.out),
            last_was_li: false,
            ..st
        }),
        !tag_closes(lowercase(raw)) ==> tag_step(st, raw) == (HtmlState { last_was_li: false, ..st }),
{
    lemma_tag_literals();
    let n = tag_name(raw);
    assert(n.len() >= 1);
    if n == "p"@ {
        assert(n.len() == 1 && n[0] == 'p');
    } else if n == "div"@ {
        assert(n.len() == 3 && n[0] == 'd');
    } else if n == "section"@ {
        assert(n.len() == 7 && n[1] == 'e');
    } else if n == "article"@ {
        assert(n.len() == 7 && n[0] == 'a');
    } else if n == "header"@ {
        assert(n.len() == 6 && n[0] == 'h');
    } else {
        assert(n.len() == 6 && n[0] == 'f');
    }
    assert(crate::html::kind_of_tag(lowercase(raw)) == crate::html::TagKind::Block);
}

/// Law: `<hr>` is a rule: it starts a new block and writes `---` on a line
/// of its own.
pub proof fn lemma_rule_tag(st: HtmlState, raw: Seq<char>)
    requires
        tag_name(raw) == "hr"@,
    ensures
        tag_step(st, raw) == (HtmlState {
            out: blank_line_after(st.out) + "---\n"@,
            last_was_li: false,
            ..st
        }),
{
    lemma_tag_literals();
}

/// Law: `<script>` and `<style>` open a region whose text is dropped, and
/// their closing tags end it.
pub proof fn lemma_script_tags(st: HtmlState, raw: Seq<char>)
    requires
        tag_name(raw) == "script"@ || tag_name(raw) == "style"@,
    ensures
        tag_step(st, raw) == (HtmlState {
            in_script: !tag_closes(lowercase(raw)),
            last_was_li: false,
            ..st
        }),
{
    lemma_tag_literals();
}

/// Law: text inside a `<script>` or `<style>` region is dropped, and other
/// text is written out (or, inside a table cell, into the cell).
pub proof fn lemma_text_goes_out(st: HtmlState, s: Seq<char>)
    requires
        s.len() > 0,
        s[0] != '<',
    ensures
        st.in_script ==> run(st, s) == run(st, s.skip(1)),
        !st.in_script && !st.in_td ==> run(st, s) == run(HtmlState { out: st.out.push(s[0]), ..st }, s.skip(1)),
        !st.in_script && st.in_td ==> run(st, s) == run(HtmlState { cell: st.cell.push(s[0]), ..st }, s.skip(1)),
{
}

/// Law: an opening `<a>` whose attributes hold `href="u"` starts a link:
/// it writes `[` and remembers `u`; the closing `</a>` of an open link
/// writes `](u)` after the link text, and one with no open link writes
/// nothing.
pub proof fn lemma_link_tags(st: HtmlState, raw: Seq<char>)
    requires
        tag_name(raw) == "a"@,
    ensures
        !tag_closes(lowercase(raw)) ==> tag_step(st, raw) == (match crate::html::anchor_href(
            lowercase(raw),
        ) {
            Some(u) => HtmlState { out: st.out.push('['), link: Some(u), last_was_li: false, ..st },
            None => HtmlState { last_was_li: false, ..st },
        }),
        tag_closes(lowercase(raw)) ==> tag_step(st, raw) == (match st.link {
            Some(u) => HtmlState {
                out: st.out + "]("@ + u + ")"@,
                link: None,
                last_was_li: false,
                ..st
            },
            None => HtmlState { last_was_li: false, ..st },
        }),
{
    lemma_tag_literals();
    let n = tag_name(raw);
    assert(n.len() == 1 && n[0] == 'a');
    assert(crate::html::kind_of_tag(lowercase(raw)) == crate::html::TagKind::Anchor);
}

} // verus!

verus! {

/// Law: `<ul>` and `<ol>` open a bulleted and a numbered list (the innermost
/// list last) and their closing tags close the innermost list; an opening
/// `<li>` writes its marker, `1. ` in a numbered list and `- ` otherwise,
/// after two spaces for each enclosing list beyond the first, and its
/// closing tag ends the line.
pub proof fn lemma_list_tags(st: HtmlState, raw: Seq<char>)
    ensures
        tag_name(raw) == "ul"@ && !tag_closes(lowercase(raw)) ==> tag_step(st, raw) == (HtmlState {
            list_stack: st.list_stack.push('u'),
            last_was_li: false,
            ..st
        }),
        tag_name(raw) == "ol"@ && !tag_closes(lowercase(raw)) ==> tag_step(st, raw) == (HtmlState {
            list_stack: st.list_stack.push('o'),
            last_was_li: false,
            ..st
        }),
        (tag_name(raw) == "ul"@ || tag_name(raw) == "ol"@) && tag_closes(lowercase(raw))
            && st.list_stack.len() > 0 ==> tag_step(st, raw) == (HtmlState {
            list_stack: st.list_stack.drop_last(),
            last_was_li: false,
            ..st
        }),
        tag_name(raw) == "li"@ && tag_closes(lowercase(raw)) ==> tag_step(st, raw) == (HtmlState {
            out: st.out.push('\n'),
            ..st
        }),
        tag_name(raw) == "li"@ && !tag_closes(lowercase(raw)) ==> ({
            let r = tag_step(st, raw).out;
            let depth: nat = if st.list_stack.len() > 0 {
                (st.list_stack.len() - 1) as nat
            } else {
                0
            };
            let marker = if st.list_stack.len() > 0 && st.list_stack.last() == 'o' {
                "1. "@
            } else {
                "- "@
            };
            let m = repeat("  "@, depth) + marker;
            &&& tag_step(st, raw).last_was_li
            &&& r.len() >= m.len()
            &&& r.subrange(r.len() - m.len(), r.len() as int) == m
        }),
{
    lemma_tag_literals();
    let n = tag_name(raw);
    if n == "li"@ {
        assert(n.len() == 2 && n[0] == 'l' && n[1] == 'i');
        assert(crate::html::kind_of_tag(lowercase(raw)) == crate::html::TagKind::Li);
        if !tag_closes(lowercase(raw)) {
            let out1 = if st.last_was_li {
                if crate::html::ends_nl(st.out) {
                    st.out
                } else {
                    st.out.push('\n')
                }
            } else {
                blank_line_after(st.out)
            };
            let depth: nat = if st.list_stack.len() > 0 {
                (st.list_stack.len() - 1) as nat
            } else {
                0
            };
            let marker = if st.list_stack.len() > 0 && st.list_stack.last() == 'o' {
                "1. "@
            } else {
                "- "@
            };
            let m = repeat("  "@, depth) + marker;
            let r = tag_step(st, raw).out;
            assert(r == out1 + m);
            assert(r.subrange(r.len() - m.len(), r.len() as int) =~= m);
        }
    }
    if n == "ul"@ {
        assert(n.len() == 2 && n[0] == 'u');
        assert(crate::html::kind_of_tag(lowercase(raw)) == crate::html::TagKind::Ul);
    }
    if n == "ol"@ {
        assert(n.len() == 2 && n[0] == 'o' && n[1] == 'l');
        assert(crate::html::kind_of_tag(lowercase(raw)) == crate::html::TagKind::Ol);
    }
}

/// Law: how the trimmed text `t` of a file's content is guessed. Text that
/// starts with `{` or `[` is JSON. Text that starts with `<` is HTML when
/// it starts with `<!doctype html`, `<!DOCTYPE`, `<h1`, `<p>`, `<table` or
/// `<div`, or mentions `<html` in its first 512 bytes; other text starting
/// with `<` is plain. Any other text is CSV when it has more than one line
/// and its first line holds a comma but does not end with one (trailing
/// whitespace aside), and plain otherwise.
pub proof fn lemma_text_guess(t: Seq<char>)
    ensures
        t.len() > 0 && (t[0] == '{' || t[0] == '[') ==> text_format(t) == Format::Json,
        t.len() > 0 && t[0] == '<' ==> (text_format(t) == Format::Html <==> (contains(
            head(t),
            "<html"@,
        ) || starts_with(t, "<!doctype html"@) || starts_with(t, "<h1"@) || starts_with(t, "<p>"@)
            || starts_with(t, "<table"@) || starts_with(t, "<div"@) || starts_with(t, "<!DOCTYPE"@))),
        t.len() > 0 && t[0] == '<' && text_format(t) != Format::Html ==> text_format(t)
            == Format::Plain,
        !(t.len() > 0 && (t[0] == '<' || t[0] == '{' || t[0] == '[')) ==> (text_format(t)
            == Format::Csv <==> (contains(t, "\n"@) && contains(first_line(t), ","@) && !(trim_end(
            first_line(t),
        ).len() > 0 && trim_end(first_line(t)).last() == ','))),
        !(t.len() > 0 && (t[0] == '<' || t[0] == '{' || t[0] == '[')) && text_format(t)
            != Format::Csv ==> text_format(t) == Format::Plain,
{
}

} // verus!

verus! {

/// Law: how single JSON values render as list lines at depth `d`. A
/// scalar is one line: nothing for `null`, `true`/`false`, a number's JSON
/// text, a string as it is. A one-entry object is the line `- **key**:
/// value` for a scalar value, or the line `- **key**` with the value one
/// level deeper under it; a one-item array of a scalar is the line `- value`.
pub proof fn lemma_json_lines(d: nat, k: Seq<char>, x: JsonSpec, t: Seq<char>, s: Seq<char>)
    ensures
        render(JsonSpec::Null, d) == pad(d) + "\n"@,
        render(JsonSpec::Bool(true), d) == pad(d) + "true\n"@,
        render(JsonSpec::Bool(false), d) == pad(d) + "false\n"@,
        render(JsonSpec::Number(s), d) == pad(d) + s + "\n"@,
        render(JsonSpec::Str(s), d) == pad(d) + s + "\n"@,
        !is_container(x) ==> render(JsonSpec::Object(seq![(k, x)], t), d) == pad(d) + "- **"@ + k
            + "**: "@ + scalar_text(x) + "\n"@,
        is_container(x) ==> render(JsonSpec::Object(seq![(k, x)], t), d) == pad(d) + "- **"@ + k
            + "**\n"@ + render(x, d + 1),
        !is_container(x) ==> render(JsonSpec::Array(seq![x], t), d) == pad(d) + "- "@ + scalar_text(
            x,
        ) + "\n"@,
{
    reveal_strlit("true");
    reveal_strlit("false");
    reveal_strlit("\n");
    reveal_strlit("true\n");
    reveal_strlit("false\n");
    assert(render(JsonSpec::Null, d) =~= pad(d) + "\n"@);
    assert(render(JsonSpec::Bool(true), d) =~= pad(d) + "true\n"@);
    assert(render(JsonSpec::Bool(false), d) =~= pad(d) + "false\n"@);
    let ps = object_pieces(seq![(k, x)], d);
    assert(ps.len() == 1);
    assert(ps.drop_last() =~= Seq::<Seq<char>>::empty());
    assert(concat_all(ps.drop_last()) =~= Seq::<char>::empty());
    assert(ps.last() == ps[0]);
    assert(concat_all(ps) =~= ps[0]);
    let xs = seq![x];
    if !is_container(x) {
        assert(!all_objects(xs)) by {
            assert(!(xs[0] is Object));
        }
        let qs = array_pieces(xs, d);
        assert(qs.drop_last() =~= Seq::<Seq<char>>::empty());
        assert(concat_all(qs.drop_last()) =~= Seq::<char>::empty());
        assert(qs.last() == qs[0]);
        assert(concat_all(qs) =~= qs[0]);
    }
}

} // verus!
