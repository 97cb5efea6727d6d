//! CSV, JSON and DOCX to Markdown.

use vstd::prelude::*;
use crate::archive::{
    EntryView, zip_by_index, zip_entries, zip_file_name, zip_file_text, zip_len, zip_listing,
    zip_open,
};
use crate::html::escape_cell;
use crate::records::{RecordView, csv_next, csv_pending, csv_reader, csv_records, record_view};
use crate::text::{
    chars_of, find_char, find_range_from, find_seq, first_index, lemma_find_from, push_range,
    push_repeat, push_str, repeat, replace_all, replace_chars, split_pieces, string_of, trim,
    trim_end_at, trim_start_at,
};

verus! {

broadcast use vstd::string::group_string_axioms;

/// Escapes a table cell: `|` becomes `\|` and a newline becomes a space.
pub fn esc(s: &str) -> (r: String)
    ensures
        r@ == escape_cell(s@),
{
    let v = chars_of(s);
    let mut out: Vec<char> = Vec::new();
    crate::html::push_escaped(&mut out, &v, 0, v.len());
    assert(v@.subrange(0, v.len() as int) =~= v@);
    string_of(&out)
}

/// The five predefined XML entities decoded, one replacement after the
/// other (`&amp;` first).
pub open spec fn xml_decoded(s: Seq<char>) -> Seq<char> {
    replace_all(
        replace_all(
            replace_all(
                replace_all(replace_all(s, "&amp;"@, "&"@), "&lt;"@, "<"@),
                "&gt;"@,
                ">"@,
            ),
            "&quot;"@,
            "\""@,
        ),
        "&apos;"@,
        "'"@,
    )
}

/// Decodes the five predefined XML entities.
pub fn decode_xml(s: &str) -> (r: String)
    ensures
        r@ == xml_decoded(s@),
{
    proof {
        reveal_strlit("&amp;");
        reveal_strlit("&lt;");
        reveal_strlit("&gt;");
        reveal_strlit("&quot;");
        reveal_strlit("&apos;");
    }
    let v = chars_of(s);
    let v = decode_xml_chars(&v);
    string_of(&v)
}

/// `v` with the five predefined XML entities decoded.
fn decode_xml_chars(v: &Vec<char>) -> (r: Vec<char>)
    ensures
        r@ == xml_decoded(v@),
{
    proof {
        reveal_strlit("&amp;");
        reveal_strlit("&lt;");
        reveal_strlit("&gt;");
        reveal_strlit("&quot;");
        reveal_strlit("&apos;");
    }
    let v = replace_chars(v, "&amp;", "&");
    let v = replace_chars(&v, "&lt;", "<");
    let v = replace_chars(&v, "&gt;", ">");
    let v = replace_chars(&v, "&quot;", "\"");
    let v = replace_chars(&v, "&apos;", "'");
    v
}

/// Whether `c` may follow the name in a `<w:t` start tag: `>` or XML
/// whitespace.
pub open spec fn ends_run_name(c: char) -> bool {
    c == '>' || c == ' ' || c == '\t' || c == '\n' || c == '\r'
}

/// The text of the `w:t` elements in the paragraph markup `rest`: for each
/// `<w:t` followed by `>` or whitespace, what follows that tag's `>` up to
/// the next `</w:t>` (or the end). An empty element (`<w:t .../>`) gives no
/// text, and other tags whose names start with `w:t` (`w:tab`, `w:tbl`,
/// `w:tr`, `w:tc`) are passed over. A start tag that no `>` ends ends the text.
pub open spec fn run_texts(rest: Seq<char>) -> Seq<char>
    decreases rest.len(),
{
    let a = find_seq(rest, "<w:t"@);
    proof {
        reveal_strlit("<w:t");
        lemma_find_from(rest, "<w:t"@, 0);
    }
    if a < 0 {
        seq![]
    } else if !(a + 4 < rest.len() && ends_run_name(rest[a + 4])) {
        run_texts(rest.skip(a + 4))
    } else {
        let b = first_index(rest.skip(a), '>');
        proof {
            crate::text::lemma_first_index_bounds(rest.skip(a), '>');
        }
        if a + b >= rest.len() {
            seq![]
        } else if rest[a + b - 1] == '/' {
            run_texts(rest.skip(a + b + 1))
        } else {
            let start = a + b + 1;
            let e = find_seq(rest.skip(start), "</w:t>"@);
            proof {
                lemma_find_from(rest.skip(start), "</w:t>"@, 0);
            }
            let end = if e < 0 {
                rest.len() as int
            } else {
                start + e
            };
            rest.subrange(start, end) + run_texts(rest.skip(end))
        }
    }
}

/// The marker of a paragraph style: `w:pStyle w:val="Heading`.
pub open spec fn heading_mark() -> Seq<char> {
    "w:pStyle w:val=\"Heading"@
}

/// The heading level of a paragraph: the digit after its first heading
/// style marker, 0 when there is none.
pub open spec fn heading_level(para: Seq<char>) -> nat {
    let p = find_seq(para, heading_mark());
    if p < 0 || p + heading_mark().len() >= para.len() {
        0
    } else {
        let c = para[p + heading_mark().len()];
        if '0' as u32 <= c as u32 <= '9' as u32 {
            (c as u32 - '0' as u32) as nat
        } else {
            0
        }
    }
}

/// The Markdown of one paragraph's markup: nothing for a blank paragraph,
/// else its trimmed text, after `#`s for a heading level, on a line of its
/// own; a blank line follows a styled heading or a body paragraph.
pub open spec fn paragraph_markdown(para: Seq<char>) -> Seq<char> {
    let t = trim(xml_decoded(run_texts(para)));
    let level = heading_level(para);
    if t.len() == 0 {
        seq![]
    } else {
        (if level > 0 {
            repeat("#"@, level) + seq![' ']
        } else {
            seq![]
        }) + t + seq!['\n'] + (if find_seq(para, heading_mark()) >= 0 || level == 0 {
            seq!['\n']
        } else {
            seq![]
        })
    }
}

/// The Markdown of the paragraphs `paras`, one after the other.
pub open spec fn paragraphs_markdown(paras: Seq<Seq<char>>) -> Seq<char>
    decreases paras.len(),
{
    if paras.len() == 0 {
        seq![]
    } else {
        paragraph_markdown(paras[0]) + paragraphs_markdown(paras.drop_first())
    }
}

/// The Markdown of a Word `document.xml`: its `</w:p>`-ended paragraphs in order.
pub open spec fn document_markdown(xml: Seq<char>) -> Seq<char> {
    paragraphs_markdown(split_pieces(xml, "</w:p>"@))
}

} // verus!

verus! {

/// The text of the `w:t` elements of the paragraph markup `p`.
fn collect_runs(p: &Vec<char>) -> (text: Vec<char>)
    ensures
        text@ == run_texts(p@),
{
    let mut text: Vec<char> = Vec::new();
    let mut r: usize = 0;
    assert(p@.skip(0) =~= p@);
    assert(text@ + run_texts(p@) =~= run_texts(p@));
    proof {
        reveal_strlit("<w:t");
    }
    loop
        invariant_except_break
            r <= p.len(),
            text@ + run_texts(p@.skip(r as int)) == run_texts(p@),
            "<w:t"@ == seq!['<', 'w', ':', 't'],
        ensures
            text@ == run_texts(p@),
        decreases p.len() - r,
    {
        let ghost rest = p@.skip(r as int);
        if r >= p.len() {
            assert(rest =~= Seq::<char>::empty());
            assert(run_texts(rest) =~= Seq::<char>::empty()) by {
                lemma_find_from(rest, "<w:t"@, 0);
            }
            assert(text@ + run_texts(rest) =~= text@);
            break;
        }
        proof {
            lemma_find_from(rest, "<w:t"@, 0);
        }
        let a = match find_range_from(p, r, "<w:t") {
            Some(a) => a,
            None => {
                assert(text@ + run_texts(rest) =~= text@);
                break;
            },
        };
        let at = r + a;
        proof {
            assert(rest.subrange(a as int, a + 4) == "<w:t"@);
            assert(p@[at as int] == rest[a as int]);
            assert(p@[at + 3] == rest[a + 3]);
        }
        if !(at + 4 < p.len() && (p[at + 4] == '>' || p[at + 4] == ' ' || p[at + 4] == '\t'
            || p[at + 4] == '\n' || p[at + 4] == '\r')) {
            assert(rest.skip(a + 4) =~= p@.skip(at + 4));
            r = at + 4;
            continue;
        }
        let b = find_char(p, at, '>');
        proof {
            assert(rest.skip(a as int) =~= p@.skip(at as int));
            crate::text::lemma_first_index_bounds(rest.skip(a as int), '>');
        }
        if b >= p.len() {
            assert(text@ + run_texts(rest) =~= text@);
            break;
        }
        assert(b > at);
        if p[b - 1] == '/' {
            assert(rest.skip(b - r + 1) =~= p@.skip(b + 1));
            r = b + 1;
            continue;
        }
        let start = b + 1;
        let end = match find_range_from(p, start, "</w:t>") {
            Some(e) => start + e,
            None => p.len(),
        };
        proof {
            let sr = start - r;
            assert(rest.skip(sr) =~= p@.skip(start as int));
            lemma_find_from(rest.skip(sr), "</w:t>"@, 0);
            assert(rest.subrange(sr, end - r) =~= p@.subrange(start as int, end as int));
            assert(rest.skip(end - r) =~= p@.skip(end as int));
        }
        let ghost before = text@;
        push_range(&mut text, p, start, end);
        assert(text@ + run_texts(p@.skip(end as int)) =~= before + run_texts(rest));
        r = end;
    }
    text
}

/// Appends the Markdown of the paragraph markup `v[lo..hi]`.
fn push_paragraph(out: &mut Vec<char>, v: &Vec<char>, lo: usize, hi: usize)
    requires
        lo <= hi <= v.len(),
    ensures
        final(out)@ == old(out)@ + paragraph_markdown(v@.subrange(lo as int, hi as int)),
{
    let mut p: Vec<char> = Vec::new();
    push_range(&mut p, v, lo, hi);
    assert(p@ =~= v@.subrange(lo as int, hi as int));
    let mark = chars_of("w:pStyle w:val=\"Heading");
    assert(p@.skip(0) =~= p@);
    let style = find_range_from(&p, 0, "w:pStyle w:val=\"Heading");
    let level: usize = match style {
        Some(q) => {
            if q + mark.len() < p.len() {
                let c = p[q + mark.len()];
                let u = c as u32;
                if 0x30 <= u && u <= 0x39 {
                    (u - 0x30) as usize
                } else {
                    0
                }
            } else {
                0
            }
        },
        None => 0,
    };
    assert(level == heading_level(p@));
    let raw = collect_runs(&p);
    let text = decode_xml_chars(&raw);
    let a = trim_start_at(&text, 0, text.len());
    let b = trim_end_at(&text, a, text.len());
    assert(text@.subrange(0, text.len() as int) =~= text@);
    let ghost t = text@.subrange(a as int, b as int);
    assert(t == trim(xml_decoded(run_texts(p@))));
    if a == b {
        assert(final(out)@ =~= old(out)@ + paragraph_markdown(p@));
        return;
    }
    let ghost start = out@;
    if level > 0 {
        push_repeat(out, "#", level);
        out.push(' ');
    }
    push_range(out, &text, a, b);
    out.push('\n');
    if style.is_some() || level == 0 {
        out.push('\n');
    }
    assert(final(out)@ =~= start + paragraph_markdown(p@));
}

/// Converts the `word/document.xml` markup of a Word file to Markdown: each
/// paragraph's text runs, entity-decoded and trimmed, as a line of its own,
/// headings (`Heading<n>` style) after `n` `#`s; blank paragraphs dropped.
pub fn document_xml_to_md(xml: &str) -> (md: String)
    ensures
        md@ == document_markdown(xml@),
{
    let v = chars_of(xml);
    let mut out: Vec<char> = Vec::new();
    let mut pos: usize = 0;
    proof {
        reveal_strlit("</w:p>");
    }
    assert(v@.skip(0) =~= v@);
    assert(out@ + paragraphs_markdown(split_pieces(v@, "</w:p>"@)) =~= document_markdown(v@));
    loop
        invariant_except_break
            pos <= v.len(),
            out@ + paragraphs_markdown(split_pieces(v@.skip(pos as int), "</w:p>"@))
                == document_markdown(v@),
        ensures
            out@ == document_markdown(v@),
        decreases v.len() - pos,
    {
        let ghost s = v@.skip(pos as int);
        proof {
            lemma_find_from(s, "</w:p>"@, 0);
        }
        match find_range_from(&v, pos, "</w:p>") {
            Some(p) => {
                let ghost before = out@;
                push_paragraph(&mut out, &v, pos, pos + p);
                proof {
                    reveal_strlit("</w:p>");
                    assert("</w:p>"@.len() == 6);
                    assert(s.take(p as int) =~= v@.subrange(pos as int, pos + p));
                    assert(s.skip(p + 6) =~= v@.skip(pos + p + 6));
                    let ps = split_pieces(s, "</w:p>"@);
                    assert(ps.drop_first() =~= split_pieces(v@.skip(pos + p + 6), "</w:p>"@));
                }
                pos = pos + p + 6;
            },
            None => {
                push_paragraph(&mut out, &v, pos, v.len());
                proof {
                    assert(s =~= v@.subrange(pos as int, v.len() as int));
                    let ps = split_pieces(s, "</w:p>"@);
                    assert(ps =~= seq![s]);
                    assert(ps.drop_first() =~= Seq::<Seq<char>>::empty());
                    assert(paragraphs_markdown(ps) == paragraph_markdown(s) + paragraphs_markdown(
                        ps.drop_first(),
                    ));
                }
                break;
            },
        }
    }
    string_of(&out)
}

} // verus!

verus! {

/// The path of the main document part inside a `.docx` archive.
pub open spec fn document_part() -> Seq<char> {
    "word/document.xml"@
}

/// The document text found by scanning `entries` from `k` on, as the
/// conversion scans them: an entry that cannot be opened, or whose name
/// cannot be read, stops with its error; the first entry named
/// `word/document.xml` gives its text (or the error of reading it); with no
/// such entry the text is empty.
pub open spec fn find_document(entries: Seq<EntryView>, k: int) -> Result<Seq<char>, Seq<char>>
    decreases entries.len() - k,
{
    if k < 0 || k >= entries.len() {
        Ok(seq![])
    } else {
        match entries[k] {
            Err(e) => Err(e),
            Ok(file) => match file.0 {
                Err(e) => Err(e),
                Ok(name) => if name == document_part() {
                    file.1
                } else {
                    find_document(entries, k + 1)
                },
            },
        }
    }
}

/// The message for an archive without a document part.
pub open spec fn no_document_message() -> Seq<char> {
    "不是有效的 docx（缺 word/document.xml）"@
}

/// What converting a `.docx` whose archive reads as `listing` gives.
pub open spec fn docx_result(listing: Result<Seq<EntryView>, Seq<char>>) -> Result<Seq<char>, Seq<char>> {
    match listing {
        Err(e) => Err(e),
        Ok(entries) => match find_document(entries, 0) {
            Err(e) => Err(e),
            Ok(xml) => if xml.len() == 0 {
                Err(no_document_message())
            } else {
                Ok(document_markdown(xml))
            },
        },
    }
}

/// A `Result` of strings seen as character sequences.
pub open spec fn text_result(r: Result<String, String>) -> Result<Seq<char>, Seq<char>> {
    match r {
        Ok(s) => Ok(s@),
        Err(e) => Err(e@),
    }
}

/// DOCX to Markdown: opens the ZIP archive, finds `word/document.xml`, and
/// turns its paragraphs into lines, `Heading<n>`-styled ones into headings.
/// Tables, images and comments are not converted.
pub fn docx_to_md(bytes: &[u8]) -> (r: Result<String, String>)
    ensures
        text_result(r) == docx_result(zip_listing(bytes@)),
{
    let mut zip = match zip_open(bytes) {
        Ok(a) => a,
        Err(e) => {
            return Err(e);
        },
    };
    let ghost entries = zip_entries(zip);
    let n = zip_len(&zip);
    let mut xml = String::new();
    let mut i: usize = 0;
    while i < n
        invariant_except_break
            n == entries.len(),
            zip_entries(zip) == entries,
            zip_listing(bytes@) == Ok::<Seq<EntryView>, Seq<char>>(entries),
            i <= n,
            xml@ == Seq::<char>::empty(),
            find_document(entries, i as int) == find_document(entries, 0),
        ensures
            xml@ == (match find_document(entries, 0) {
                Ok(x) => x,
                Err(_) => seq![],
            }),
            find_document(entries, 0) is Ok,
        decreases n - i,
    {
        let mut f = match zip_by_index(&mut zip, i) {
            Ok(f) => f,
            Err(e) => {
                return Err(e);
            },
        };
        let name = match zip_file_name(&f) {
            Ok(s) => s,
            Err(e) => {
                return Err(e);
            },
        };
        if equals_text(&name, "word/document.xml") {
            match zip_file_text(&mut f) {
                Ok(s) => {
                    xml = s;
                },
                Err(e) => {
                    return Err(e);
                },
            }
            break;
        }
        i = i + 1;
    }
    if xml.as_str().is_empty() {
        return Err(string_of(&chars_of("不是有效的 docx（缺 word/document.xml）")));
    }
    Ok(document_xml_to_md(xml.as_str()))
}

/// Whether `s` holds exactly the characters of `lit`.
fn equals_text(s: &String, lit: &str) -> (b: bool)
    ensures
        b == (s@ == lit@),
{
    let v = chars_of(s.as_str());
    crate::text::equals_str(&v, lit)
}

} // verus!

verus! {

/// A Markdown table row of the cells `cells`, each escaped.
pub open spec fn row_text(cells: Seq<Seq<char>>) -> Seq<char> {
    "| "@ + crate::html::join(cells.map_values(|c: Seq<char>| escape_cell(c)), " | "@) + " |\n"@
}

/// The header row of a Markdown table with the cells `cells`, and the line
/// under it.
pub open spec fn header_text(cells: Seq<Seq<char>>) -> Seq<char> {
    row_text(cells) + "|"@ + repeat(" --- |"@, cells.len()) + "\n"@
}

/// `cells` filled up with empty cells to at least `w` cells.
pub open spec fn pad_to(cells: Seq<Seq<char>>, w: nat) -> Seq<Seq<char>> {
    if cells.len() >= w {
        cells
    } else {
        cells + Seq::new((w - cells.len()) as nat, |k: int| Seq::<char>::empty())
    }
}

/// The table rows for the records `rest` in a table of `w` columns, each
/// filled up with empty cells to `w`, or the error of the first record that
/// failed.
pub open spec fn rows_result(rest: Seq<RecordView>, w: nat) -> Result<Seq<char>, Seq<char>>
    decreases rest.len(),
{
    if rest.len() == 0 {
        Ok(seq![])
    } else {
        match rest[0] {
            Err(e) => Err(e),
            Ok(cells) => match rows_result(rest.drop_first(), w) {
                Ok(t) => Ok(row_text(pad_to(cells, w)) + t),
                Err(e) => Err(e),
            },
        }
    }
}

/// The message for a CSV text without any record.
pub open spec fn no_rows_message() -> Seq<char> {
    "csv 没有数据行"@
}

/// The Markdown table for the CSV records `records`: the first is the
/// header, a shorter record is filled up with empty cells to the header's
/// width; any failed record makes the whole conversion fail.
pub open spec fn csv_result(records: Seq<RecordView>) -> Result<Seq<char>, Seq<char>> {
    if records.len() == 0 {
        Err(no_rows_message())
    } else {
        match records[0] {
            Err(e) => Err(e),
            Ok(h) => match rows_result(records.drop_first(), h.len()) {
                Ok(t) => Ok(header_text(h) + t),
                Err(e) => Err(e),
            },
        }
    }
}

/// Appends the row text of `cells` filled up with empty cells to `w`.
fn push_row_text(out: &mut Vec<char>, cells: &Vec<String>, w: usize)
    ensures
        final(out)@ == old(out)@ + row_text(pad_to(cells.deep_view(), w as nat)),
{
    let ghost start = out@;
    let ghost padded = pad_to(cells.deep_view(), w as nat);
    let ghost esc_cells = padded.map_values(|c: Seq<char>| escape_cell(c));
    let n = if cells.len() >= w {
        cells.len()
    } else {
        w
    };
    assert(padded.len() == n);
    push_str(out, "| ");
    let ghost head = out@;
    let mut k: usize = 0;
    assert(esc_cells.take(0) =~= Seq::<Seq<char>>::empty());
    while k < n
        invariant
            k <= n,
            n == padded.len(),
            padded == pad_to(cells.deep_view(), w as nat),
            esc_cells == padded.map_values(|c: Seq<char>| escape_cell(c)),
            out@ == head + crate::html::join(esc_cells.take(k as int), " | "@),
        decreases n - k,
    {
        if k > 0 {
            push_str(out, " | ");
        }
        if k < cells.len() {
            let v = chars_of(cells[k].as_str());
            crate::html::push_escaped(out, &v, 0, v.len());
            assert(v@.subrange(0, v.len() as int) =~= v@);
            assert(padded[k as int] == cells.deep_view()[k as int]);
            assert(esc_cells[k as int] == escape_cell(v@));
        } else {
            assert(padded[k as int] =~= Seq::<char>::empty());
            assert(esc_cells[k as int] =~= Seq::<char>::empty());
        }
        assert(esc_cells.take(k + 1).drop_last() =~= esc_cells.take(k as int));
        assert(out@ =~= head + crate::html::join(esc_cells.take(k + 1), " | "@));
        k = k + 1;
    }
    assert(esc_cells.take(k as int) =~= esc_cells);
    push_str(out, " |\n");
    assert(final(out)@ =~= start + row_text(pad_to(cells.deep_view(), w as nat)));
}

proof fn lemma_pad_nothing(cells: Seq<Seq<char>>)
    ensures
        pad_to(cells, 0) == cells,
{
}

/// The Markdown table row for the cells of one record: `| a | b |`, each
/// cell escaped.
pub fn row_to_md(cells: &Vec<String>) -> (r: String)
    ensures
        r@ == row_text(cells.deep_view()),
{
    let mut out: Vec<char> = Vec::new();
    push_row_text(&mut out, cells, 0);
    proof {
        lemma_pad_nothing(cells.deep_view());
    }
    assert(out@ =~= row_text(cells.deep_view()));
    string_of(&out)
}

/// The Markdown table header for the cells of the first record: the row
/// and the `| --- |` line under it, one `---` per cell.
pub fn header_to_md(cells: &Vec<String>) -> (r: String)
    ensures
        r@ == header_text(cells.deep_view()),
{
    let mut out: Vec<char> = Vec::new();
    push_row_text(&mut out, cells, 0);
    proof {
        lemma_pad_nothing(cells.deep_view());
    }
    push_str(&mut out, "|");
    push_repeat(&mut out, " --- |", cells.len());
    push_str(&mut out, "\n");
    assert(out@ =~= header_text(cells.deep_view()));
    string_of(&out)
}

/// The records `rs` seen as character sequences.
pub open spec fn records_view(rs: Seq<Result<Vec<String>, String>>) -> Seq<RecordView> {
    rs.map_values(|r: Result<Vec<String>, String>| record_view(r))
}

/// The Markdown table for CSV records already read: the first is the
/// header, a shorter record is filled up with empty cells to the header's
/// width; the first failed record's message is the error, and with no
/// record at all the error says so.
pub fn records_to_md(records: &Vec<Result<Vec<String>, String>>) -> (r: Result<String, String>)
    ensures
        text_result(r) == csv_result(records_view(records@)),
{
    let ghost rv = records_view(records@);
    if records.len() == 0 {
        return Err(string_of(&chars_of("csv 没有数据行")));
    }
    let header = match &records[0] {
        Err(e) => {
            return Err(e.clone());
        },
        Ok(h) => h,
    };
    assert(rv[0] == record_view(records@[0]));
    let w = header.len();
    let h = header_to_md(header);
    let mut out = chars_of(h.as_str());
    let ghost head = out@;
    let ghost hl = head.len() as int;
    let ghost rest = rv.drop_first();
    let mut i: usize = 1;
    assert(out@.skip(hl) =~= Seq::<char>::empty());
    assert(out@.take(hl) =~= head);
    assert(rest.skip(0) =~= rest);
    while i < records.len()
        invariant
            1 <= i <= records.len(),
            rv == records_view(records@),
            rv.len() == records.len(),
            rest == rv.drop_first(),
            rv[0] == Ok::<Seq<Seq<char>>, Seq<char>>(header.deep_view()),
            w == header.len(),
            head == header_text(header.deep_view()),
            hl == head.len(),
            hl <= out@.len(),
            out@.take(hl) == head,
            match rows_result(rest.skip(i - 1), w as nat) {
                Ok(t) => rows_result(rest, w as nat) == Ok::<Seq<char>, Seq<char>>(out@.skip(hl) + t),
                Err(e) => rows_result(rest, w as nat) == Err::<Seq<char>, Seq<char>>(e),
            },
        decreases records.len() - i,
    {
        let ghost before = out@;
        let ghost tail = rest.skip(i - 1);
        assert(tail[0] == record_view(records@[i as int]));
        assert(tail.drop_first() =~= rest.skip(i as int));
        match &records[i] {
            Err(e) => {
                return Err(e.clone());
            },
            Ok(cells) => {
                push_row_text(&mut out, cells, w);
                assert(out@.skip(hl) =~= before.skip(hl) + row_text(pad_to(cells.deep_view(), w as nat)));
                assert(out@.take(hl) =~= head);
                proof {
                    match rows_result(rest.skip(i as int), w as nat) {
                        Ok(t) => {
                            assert(before.skip(hl) + (row_text(pad_to(cells.deep_view(), w as nat)) + t)
                                =~= out@.skip(hl) + t);
                        },
                        Err(e) => {},
                    }
                }
            },
        }
        i = i + 1;
    }
    assert(rest.skip(i - 1) =~= Seq::<RecordView>::empty());
    assert(out@.skip(hl) + Seq::<char>::empty() =~= out@.skip(hl));
    assert(out@ =~= head + out@.skip(hl));
    Ok(string_of(&out))
}

proof fn lemma_rows_stop_at_error(rest: Seq<RecordView>, i: int, w: nat)
    requires
        0 <= i < rest.len(),
        rest[i] is Err,
    ensures
        rows_result(rest, w) == rows_result(rest.take(i + 1), w),
    decreases i,
{
    if i > 0 {
        lemma_rows_stop_at_error(rest.drop_first(), i - 1, w);
        assert(rest.take(i + 1).drop_first() =~= rest.drop_first().take(i));
    } else {
        assert(rest.take(1).drop_first() =~= Seq::<RecordView>::empty());
    }
}

/// CSV to a Markdown table; the first row is the header. Rows may have any
/// number of fields, a shorter row is filled up with empty cells, and
/// fields are trimmed. Reading stops at the first record that fails.
pub fn csv_to_md(text: &str) -> (r: Result<String, String>)
    ensures
        text_result(r) == csv_result(csv_records(text@)),
        text@.len() == 0 ==> text_result(r) == Err::<Seq<char>, Seq<char>>(no_rows_message()),
{
    let mut rdr = csv_reader(text);
    let ghost records = csv_records(text@);
    let mut recs: Vec<Result<Vec<String>, String>> = Vec::new();
    let mut failed = false;
    assert(records_view(recs@) + records =~= records);
    loop
        invariant_except_break
            records == csv_records(text@),
            !failed,
            records_view(recs@) + csv_pending(rdr) == records,
            forall|j: int| 0 <= j < recs.len() ==> recs@[j] is Ok,
        ensures
            records == csv_records(text@),
            records_view(recs@).len() <= records.len(),
            records_view(recs@) == records.take(recs.len() as int),
            forall|j: int| 0 <= j < recs.len() - 1 ==> recs@[j] is Ok,
            failed ==> recs.len() > 0 && recs@[recs.len() - 1] is Err,
            !failed ==> recs.len() == records.len(),
        decreases csv_pending(rdr).len(),
    {
        let ghost before = recs@;
        let ghost pending = csv_pending(rdr);
        match csv_next(&mut rdr) {
            None => {
                assert(records_view(recs@) + pending =~= records_view(recs@));
                break;
            },
            Some(rec) => {
                let stop = match &rec {
                    Ok(_) => false,
                    Err(_) => true,
                };
                recs.push(rec);
                assert(records_view(recs@) =~= records_view(before).push(pending[0]));
                assert(records_view(recs@) + csv_pending(rdr) =~= records);
                if stop {
                    failed = true;
                    assert(records_view(recs@) =~= records.take(recs.len() as int));
                    break;
                }
            },
        }
    }
    proof {
        if failed {
            let n = recs.len() as int;
            let rv = records_view(recs@);
            assert(rv[n - 1] == record_view(recs@[n - 1]));
            assert(rv[n - 1] == records.take(n)[n - 1]);
            assert(records[n - 1] is Err);
            if n > 1 {
                assert(rv[0] == record_view(recs@[0]));
                assert(rv[0] == records.take(n)[0]);
                assert(records[0] is Ok);
                lemma_rows_stop_at_error(records.drop_first(), n - 2, records[0]->Ok_0.len());
                assert(records.drop_first().take(n - 1) =~= rv.drop_first());
            }
        } else {
            assert(records.take(recs.len() as int) =~= records);
        }
    }
    records_to_md(&recs)
}

} // verus!
