//! HTML to Markdown with a small state machine over the common subset of tags
//! (headings, paragraphs, lists, links, emphasis, tables, code blocks), and the
//! whole-document normalisation applied to every conversion.

use vstd::prelude::*;
use crate::text::{
    alnum_end, alnum_prefix, chars_of, find_char, find_range, find_seq, first_index,
    lemma_first_index_bounds, lowercase, push_range, push_repeat, push_str, range_is, repeat,
    strip_leading, strip_leading_at, strip_trailing, strip_trailing_at, string_of,
    to_lowercase, trim, trim_end, trim_end_at, trim_start_at,
};

verus! {

/// The lines of `s` as `str::lines` yields them, before any trimming: the
/// pieces between `'\n'` characters, without an empty piece after a final
/// `'\n'`. (A `'\r'` before the `'\n'` is kept here; every use trims it.)
pub open spec fn raw_lines(s: Seq<char>) -> Seq<Seq<char>>
    decreases s.len(),
{
    if s.len() == 0 {
        seq![]
    } else {
        let j = first_index(s, '\n');
        proof {
            lemma_first_index_bounds(s, '\n');
        }
        if j < s.len() {
            seq![s.take(j)] + raw_lines(s.skip(j + 1))
        } else {
            seq![s]
        }
    }
}

/// The body that `normalize` builds from the lines `ls`: each line without
/// trailing whitespace and followed by `'\n'`, where a run of blank lines
/// gives a single `'\n'`. `prev_blank` says whether the line before `ls` was blank.
pub open spec fn squeeze_lines(ls: Seq<Seq<char>>, prev_blank: bool) -> Seq<char>
    decreases ls.len(),
{
    if ls.len() == 0 {
        seq![]
    } else {
        let t = trim_end(ls[0]);
        if t.len() == 0 {
            (if prev_blank { seq![] } else { seq!['\n'] }) + squeeze_lines(ls.drop_first(), true)
        } else {
            t + seq!['\n'] + squeeze_lines(ls.drop_first(), false)
        }
    }
}

/// The normalised form of `s`: trailing whitespace removed from every line,
/// runs of blank lines squeezed to one, and no blank line at either end.
pub open spec fn normalized(s: Seq<char>) -> Seq<char> {
    strip_trailing(strip_leading(squeeze_lines(raw_lines(s), false), '\n'), '\n')
}

proof fn lemma_raw_lines_step(v: Seq<char>, i: int, j: int)
    requires
        0 <= i < v.len(),
        i <= j <= v.len(),
        j == i + first_index(v.skip(i), '\n'),
    ensures
        j < v.len() ==> raw_lines(v.skip(i)) == seq![v.subrange(i, j)] + raw_lines(v.skip(j + 1)),
        j == v.len() ==> raw_lines(v.skip(i)) == seq![v.subrange(i, j)],
{
    let s = v.skip(i);
    assert(s.take(j - i) =~= v.subrange(i, j));
    if j < v.len() {
        assert(s.skip(j - i + 1) =~= v.skip(j + 1));
    }
    if j == v.len() {
        assert(s =~= v.subrange(i, j));
    }
}

/// Global normalisation of a converted document: trailing whitespace is
/// removed from each line, runs of blank lines become one blank line, and
/// leading and trailing newlines are dropped.
pub fn normalize(s: &str) -> (r: String)
    ensures
        r@ == normalized(s@),
{
    let v = chars_of(s);
    let mut out: Vec<char> = Vec::new();
    let mut prev_blank = false;
    let mut i: usize = 0;
    let n = v.len();
    assert(v@.skip(0) =~= v@);
    assert(out@ + squeeze_lines(raw_lines(v@), false) =~= squeeze_lines(raw_lines(v@), false));
    while i < n
        invariant
            n == v.len(),
            i <= n,
            v@ == s@,
            out@ + squeeze_lines(raw_lines(v@.skip(i as int)), prev_blank) == squeeze_lines(
                raw_lines(v@),
                false,
            ),
        decreases n - i,
    {
        let j = find_char(&v, i, '\n');
        proof {
            lemma_raw_lines_step(v@, i as int, j as int);
        }
        let ghost rest = if j < n { raw_lines(v@.skip(j + 1)) } else { seq![] };
        let ghost ls = raw_lines(v@.skip(i as int));
        assert(ls.drop_first() =~= rest);
        let e = trim_end_at(&v, i, j);
        if e == i {
            if !prev_blank {
                out.push('\n');
            }
            prev_blank = true;
        } else {
            push_range(&mut out, &v, i, e);
            out.push('\n');
            prev_blank = false;
        }
        proof {
            let t = v@.subrange(i as int, e as int);
            assert(t == trim_end(ls[0]));
        }
        assert(out@ + squeeze_lines(rest, prev_blank) =~= squeeze_lines(raw_lines(v@), false));
        if j < n {
            i = j + 1;
        } else {
            i = n;
            assert(v@.skip(n as int) =~= Seq::<char>::empty());
        }
    }
    assert(v@.skip(i as int) =~= Seq::<char>::empty());
    assert(v@.skip(0) =~= v@);
    let a = strip_leading_at(&out, '\n');
    let b = strip_trailing_at(&out, a, '\n');
    let mut res: Vec<char> = Vec::new();
    push_range(&mut res, &out, a, b);
    assert(res@ =~= out@.subrange(a as int, b as int));
    string_of(&res)
}

} // verus!

verus! {

/// What the converter has built so far and the context it is in.
pub struct HtmlState {
    /// The Markdown written so far.
    pub out: Seq<char>,
    /// Inside `<script>` or `<style>`: text is dropped.
    pub in_script: bool,
    /// Inside `<pre>`.
    pub in_pre: bool,
    /// The open lists, innermost last: `'u'` for `<ul>`, `'o'` for `<ol>`.
    pub list_stack: Seq<char>,
    /// Inside a table cell: text goes to `cell`.
    pub in_td: bool,
    /// The previous tag was an opening `<li>`.
    pub last_was_li: bool,
    /// The finished rows of the current table.
    pub table_rows: Seq<Seq<Seq<char>>>,
    /// The finished cells of the current row.
    pub cur_row: Seq<Seq<char>>,
    /// The text of the current cell.
    pub cell: Seq<char>,
    /// The target of the link whose text is being written, if one is open.
    pub link: Option<Seq<char>>,
}

/// The state before the first character.
pub open spec fn initial_state() -> HtmlState {
    HtmlState {
        out: seq![],
        in_script: false,
        in_pre: false,
        list_stack: seq![],
        in_td: false,
        last_was_li: false,
        table_rows: seq![],
        cur_row: seq![],
        cell: seq![],
        link: None,
    }
}

/// The tags the converter tells apart, by their lowercase name.
#[derive(PartialEq, Eq, Structural, Clone, Copy, Debug)]
pub enum TagKind {
    /// `script`, `style`
    Script,
    /// `pre`
    Pre,
    /// `code`
    Code,
    /// `h1` to `h6`, with the level
    Heading(usize),
    /// `p`, `div`, `section`, `article`, `header`, `footer`
    Block,
    /// `br`
    Br,
    /// `hr`
    Hr,
    /// `ul`
    Ul,
    /// `ol`
    Ol,
    /// `li`
    Li,
    /// `a`
    Anchor,
    /// `strong`, `b`
    Strong,
    /// `em`, `i`
    Em,
    /// `table`
    Table,
    /// `tr`
    Tr,
    /// `td`, `th`
    Cell,
    /// `title`
    Title,
    /// any other name
    Other,
}

/// The kind of tag that the name `n` denotes.
pub open spec fn tag_kind(n: Seq<char>) -> TagKind {
    if n == "script"@ || n == "style"@ {
        TagKind::Script
    } else if n == "pre"@ {
        TagKind::Pre
    } else if n == "code"@ {
        TagKind::Code
    } else if n == "h1"@ {
        TagKind::Heading(1)
    } else if n == "h2"@ {
        TagKind::Heading(2)
    } else if n == "h3"@ {
        TagKind::Heading(3)
    } else if n == "h4"@ {
        TagKind::Heading(4)
    } else if n == "h5"@ {
        TagKind::Heading(5)
    } else if n == "h6"@ {
        TagKind::Heading(6)
    } else if n == "p"@ || n == "div"@ || n == "section"@ || n == "article"@ || n == "header"@
        || n == "footer"@ {
        TagKind::Block
    } else if n == "br"@ {
        TagKind::Br
    } else if n == "hr"@ {
        TagKind::Hr
    } else if n == "ul"@ {
        TagKind::Ul
    } else if n == "ol"@ {
        TagKind::Ol
    } else if n == "li"@ {
        TagKind::Li
    } else if n == "a"@ {
        TagKind::Anchor
    } else if n == "strong"@ || n == "b"@ {
        TagKind::Strong
    } else if n == "em"@ || n == "i"@ {
        TagKind::Em
    } else if n == "table"@ {
        TagKind::Table
    } else if n == "tr"@ {
        TagKind::Tr
    } else if n == "td"@ || n == "th"@ {
        TagKind::Cell
    } else if n == "title"@ {
        TagKind::Title
    } else {
        TagKind::Other
    }
}

/// `s` ends with `'\n'`.
pub open spec fn ends_nl(s: Seq<char>) -> bool {
    s.len() > 0 && s.last() == '\n'
}

/// `s` ends with a blank line (`"\n\n"`).
pub open spec fn ends_blank(s: Seq<char>) -> bool {
    s.len() >= 2 && s[s.len() - 1] == '\n' && s[s.len() - 2] == '\n'
}

/// `out` completed so that the next block starts after a blank line;
/// nothing is added to an empty `out`.
pub open spec fn blank_line_after(out: Seq<char>) -> Seq<char> {
    if out.len() != 0 && !ends_blank(out) {
        if ends_nl(out) {
            out.push('\n')
        } else {
            out + seq!['\n', '\n']
        }
    } else {
        out
    }
}

/// `out` with a fence line: an opening fence starts a new block, a closing
/// fence goes on a line of its own.
pub open spec fn fence_after(out: Seq<char>, open: bool, fence: Seq<char>) -> Seq<char> {
    if open {
        blank_line_after(out) + fence + seq!['\n']
    } else {
        (if ends_nl(out) { out } else { out.push('\n') }) + fence + seq!['\n']
    }
}

/// The Markdown form of a table cell's text: `|` escaped, newlines as spaces.
pub open spec fn escape_cell(s: Seq<char>) -> Seq<char>
    decreases s.len(),
{
    if s.len() == 0 {
        seq![]
    } else {
        escape_cell(s.drop_last()) + (if s.last() == '|' {
            seq!['\\', '|']
        } else if s.last() == '\n' {
            seq![' ']
        } else {
            seq![s.last()]
        })
    }
}

/// The number of cells of the longest row.
pub open spec fn max_width(rows: Seq<Seq<Seq<char>>>) -> nat
    decreases rows.len(),
{
    if rows.len() == 0 {
        0
    } else {
        let w = max_width(rows.drop_last());
        if rows.last().len() > w {
            rows.last().len()
        } else {
            w
        }
    }
}

/// `row` filled up with empty cells to `w` cells (or cut to `w` cells).
pub open spec fn pad_row(row: Seq<Seq<char>>, w: nat) -> Seq<Seq<char>> {
    Seq::new(w, |k: int| if k < row.len() { row[k] } else { seq![] })
}

/// The cells of `cells` joined by `sep`.
pub open spec fn join(cells: Seq<Seq<char>>, sep: Seq<char>) -> Seq<char>
    decreases cells.len(),
{
    if cells.len() == 0 {
        seq![]
    } else if cells.len() == 1 {
        cells[0]
    } else {
        join(cells.drop_last(), sep) + sep + cells.last()
    }
}

/// A Markdown table row of `w` cells.
pub open spec fn row_line(row: Seq<Seq<char>>, w: nat) -> Seq<char> {
    "| "@ + join(pad_row(row, w), " | "@) + " |\n"@
}

/// The line under a Markdown table header of `w` columns.
pub open spec fn separator_line(w: nat) -> Seq<char> {
    "|"@ + repeat(" --- |"@, w) + "\n"@
}

/// The lines of the rows `rows` of a table of width `w`, the header
/// separator after the first.
pub open spec fn table_lines(rows: Seq<Seq<Seq<char>>>, w: nat) -> Seq<char>
    decreases rows.len(),
{
    if rows.len() == 0 {
        seq![]
    } else {
        table_lines(rows.drop_last(), w) + row_line(rows.last(), w) + (if rows.len() == 1 {
            separator_line(w)
        } else {
            seq![]
        })
    }
}

/// The Markdown text of a table with the rows `rows`.
pub open spec fn render_table(rows: Seq<Seq<Seq<char>>>) -> Seq<char> {
    table_lines(rows, max_width(rows))
}

/// The target of an opening `<a ...>` tag `tag`: the text after its first
/// `href="` up to the next `"` (or to the end), if it has that attribute.
pub open spec fn anchor_href(tag: Seq<char>) -> Option<Seq<char>> {
    let p = find_seq(tag, "href=\""@);
    if p < 0 {
        None
    } else {
        let rest = tag.skip(p + 6);
        Some(rest.take(first_index(rest, '"')))
    }
}

/// Whether the tag text `tag` (lowercase, between `<` and `>`) closes.
pub open spec fn tag_closes(tag: Seq<char>) -> bool {
    tag.len() > 0 && tag[0] == '/'
}

/// The kind of the tag text `tag`: its name is the run of ASCII letters and
/// digits after a leading `/`.
pub open spec fn kind_of_tag(tag: Seq<char>) -> TagKind {
    tag_kind(alnum_prefix(strip_leading(tag, '/')))
}

/// What a tag of kind `k` does to the state `st`. `closing` says whether
/// it is a closing tag and `tag` is its lowercase text.
pub open spec fn apply_kind(st: HtmlState, k: TagKind, closing: bool, tag: Seq<char>) -> HtmlState {
    match k {
        TagKind::Script => HtmlState { in_script: !closing, ..st },
        TagKind::Pre => HtmlState {
            in_pre: !closing,
            out: fence_after(st.out, !closing, "```"@),
            ..st
        },
        TagKind::Code => if !st.in_pre {
            HtmlState { out: fence_after(st.out, !closing, "`"@), ..st }
        } else {
            st
        },
        TagKind::Heading(level) => if closing {
            HtmlState { out: st.out.push('\n'), ..st }
        } else {
            HtmlState {
                out: blank_line_after(st.out) + repeat("#"@, level as nat) + seq![' '],
                ..st
            }
        },
        TagKind::Block => if closing {
            HtmlState { out: blank_line_after(st.out), ..st }
        } else {
            st
        },
        TagKind::Br => HtmlState { out: st.out.push('\n'), ..st },
        TagKind::Hr => HtmlState { out: blank_line_after(st.out) + "---\n"@, ..st },
        TagKind::Ul => if closing {
            HtmlState {
                list_stack: if st.list_stack.len() > 0 {
                    st.list_stack.drop_last()
                } else {
                    st.list_stack
                },
                ..st
            }
        } else {
            HtmlState { list_stack: st.list_stack.push('u'), ..st }
        },
        TagKind::Ol => if closing {
            HtmlState {
                list_stack: if st.list_stack.len() > 0 {
                    st.list_stack.drop_last()
                } else {
                    st.list_stack
                },
                ..st
            }
        } else {
            HtmlState { list_stack: st.list_stack.push('o'), ..st }
        },
        TagKind::Li => if closing {
            HtmlState { out: st.out.push('\n'), ..st }
        } else {
            let out1 = if st.last_was_li {
                if ends_nl(st.out) {
                    st.out
                } else {
                    st.out.push('\n')
                }
            } else {
                blank_line_after(st.out)
            };
            let depth: nat = if st.list_stack.len() > 0 {
                (st.list_stack.len() - 1) as nat
            } else {
                0
            };
            let marker = if st.list_stack.len() > 0 && st.list_stack.last() == 'o' {
                "1. "@
            } else {
                "- "@
            };
            HtmlState { out: out1 + repeat("  "@, depth) + marker, last_was_li: true, ..st }
        },
        TagKind::Anchor => if closing {
            match st.link {
                Some(h) => HtmlState { out: st.out + "]("@ + h + ")"@, link: None, ..st },
                None => st,
            }
        } else {
            match anchor_href(tag) {
                Some(h) => HtmlState { out: st.out.push('['), link: Some(h), ..st },
                None => st,
            }
        },
        TagKind::Strong => HtmlState { out: st.out + "**"@, ..st },
        TagKind::Em => HtmlState { out: st.out.push('*'), ..st },
        TagKind::Table => if closing {
            let out1 = if st.table_rows.len() > 0 {
                st.out + render_table(st.table_rows)
            } else {
                st.out
            };
            HtmlState { out: blank_line_after(out1), table_rows: seq![], ..st }
        } else {
            HtmlState { table_rows: seq![], ..st }
        },
        TagKind::Tr => if closing && st.cur_row.len() > 0 {
            HtmlState { table_rows: st.table_rows.push(st.cur_row), cur_row: seq![], ..st }
        } else {
            st
        },
        TagKind::Cell => if closing {
            HtmlState {
                cur_row: st.cur_row.push(escape_cell(trim(st.cell))),
                cell: seq![],
                in_td: false,
                ..st
            }
        } else {
            HtmlState { in_td: true, ..st }
        },
        TagKind::Title => if !closing {
            HtmlState { out: blank_line_after(st.out) + "# "@, ..st }
        } else {
            HtmlState { out: blank_line_after(st.out.push('\n')), ..st }
        },
        TagKind::Other => st,
    }
}

/// What the tag with the text `raw` (between `<` and `>`) does to `st`.
pub open spec fn tag_step(st: HtmlState, raw: Seq<char>) -> HtmlState {
    let tag = lowercase(raw);
    let closing = tag_closes(tag);
    let k = kind_of_tag(tag);
    let st1 = if k == TagKind::Li { st } else { HtmlState { last_was_li: false, ..st } };
    apply_kind(st1, k, closing, tag)
}

/// What a character of text outside any tag does to `st`.
pub open spec fn text_step(st: HtmlState, c: char) -> HtmlState {
    if st.in_td {
        HtmlState { cell: st.cell.push(c), ..st }
    } else {
        HtmlState { out: st.out.push(c), ..st }
    }
}

/// The state after reading `s` from `st`. Reading stops at a `<` that no
/// `>` closes.
pub open spec fn run(st: HtmlState, s: Seq<char>) -> HtmlState
    decreases s.len(),
{
    if s.len() == 0 {
        st
    } else if s[0] == '<' {
        let e = first_index(s, '>');
        proof {
            lemma_first_index_bounds(s, '>');
        }
        if e >= s.len() {
            st
        } else {
            run(tag_step(st, s.subrange(1, e)), s.skip(e + 1))
        }
    } else if st.in_script {
        run(st, s.skip(1))
    } else {
        run(text_step(st, s[0]), s.skip(1))
    }
}

/// The Markdown that `html_to_md` gives for the characters `html`.
pub open spec fn html_markdown(html: Seq<char>) -> Seq<char> {
    normalized(run(initial_state(), html).out)
}

} // verus!

verus! {

/// Starts a new block: makes `out` end with a blank line unless it is empty
/// or already does.
fn newline_blank(out: &mut Vec<char>)
    ensures
        final(out)@ == blank_line_after(old(out)@),
{
    let n = out.len();
    if n != 0 && !(n >= 2 && out[n - 1] == '\n' && out[n - 2] == '\n') {
        if out[n - 1] == '\n' {
            out.push('\n');
        } else {
            out.push('\n');
            out.push('\n');
        }
    }
    assert(final(out)@ =~= blank_line_after(old(out)@));
}

/// Writes an opening or a closing code fence.
fn fenced(out: &mut Vec<char>, open: bool, fence: &str)
    ensures
        final(out)@ == fence_after(old(out)@, open, fence@),
{
    if open {
        newline_blank(out);
        push_str(out, fence);
        out.push('\n');
    } else {
        let n = out.len();
        if !(n > 0 && out[n - 1] == '\n') {
            out.push('\n');
        }
        push_str(out, fence);
        out.push('\n');
    }
}

/// The kind of tag named `v[lo..hi]`.
pub fn classify(v: &Vec<char>, lo: usize, hi: usize) -> (k: TagKind)
    requires
        lo <= hi <= v.len(),
    ensures
        k == tag_kind(v@.subrange(lo as int, hi as int)),
{
    if range_is(v, lo, hi, "script") || range_is(v, lo, hi, "style") {
        TagKind::Script
    } else if range_is(v, lo, hi, "pre") {
        TagKind::Pre
    } else if range_is(v, lo, hi, "code") {
        TagKind::Code
    } else if range_is(v, lo, hi, "h1") {
        TagKind::Heading(1)
    } else if range_is(v, lo, hi, "h2") {
        TagKind::Heading(2)
    } else if range_is(v, lo, hi, "h3") {
        TagKind::Heading(3)
    } else if range_is(v, lo, hi, "h4") {
        TagKind::Heading(4)
    } else if range_is(v, lo, hi, "h5") {
        TagKind::Heading(5)
    } else if range_is(v, lo, hi, "h6") {
        TagKind::Heading(6)
    } else if range_is(v, lo, hi, "p") || range_is(v, lo, hi, "div") || range_is(
        v,
        lo,
        hi,
        "section",
    ) || range_is(v, lo, hi, "article") || range_is(v, lo, hi, "header") || range_is(
        v,
        lo,
        hi,
        "footer",
    ) {
        TagKind::Block
    } else if range_is(v, lo, hi, "br") {
        TagKind::Br
    } else if range_is(v, lo, hi, "hr") {
        TagKind::Hr
    } else if range_is(v, lo, hi, "ul") {
        TagKind::Ul
    } else if range_is(v, lo, hi, "ol") {
        TagKind::Ol
    } else if range_is(v, lo, hi, "li") {
        TagKind::Li
    } else if range_is(v, lo, hi, "a") {
        TagKind::Anchor
    } else if range_is(v, lo, hi, "strong") || range_is(v, lo, hi, "b") {
        TagKind::Strong
    } else if range_is(v, lo, hi, "em") || range_is(v, lo, hi, "i") {
        TagKind::Em
    } else if range_is(v, lo, hi, "table") {
        TagKind::Table
    } else if range_is(v, lo, hi, "tr") {
        TagKind::Tr
    } else if range_is(v, lo, hi, "td") || range_is(v, lo, hi, "th") {
        TagKind::Cell
    } else if range_is(v, lo, hi, "title") {
        TagKind::Title
    } else {
        TagKind::Other
    }
}

/// Appends the Markdown form of the cell text `v[lo..hi]` to `out`.
pub(crate) fn push_escaped(out: &mut Vec<char>, v: &Vec<char>, lo: usize, hi: usize)
    requires
        lo <= hi <= v.len(),
    ensures
        final(out)@ == old(out)@ + escape_cell(v@.subrange(lo as int, hi as int)),
{
    let ghost start = out@;
    let mut k = lo;
    assert(escape_cell(v@.subrange(lo as int, lo as int)) =~= seq![]);
    assert(out@ =~= start + escape_cell(v@.subrange(lo as int, lo as int)));
    while k < hi
        invariant
            lo <= k <= hi <= v.len(),
            out@ == start + escape_cell(v@.subrange(lo as int, k as int)),
        decreases hi - k,
    {
        let c = v[k];
        if c == '|' {
            out.push('\\');
            out.push('|');
        } else if c == '\n' {
            out.push(' ');
        } else {
            out.push(c);
        }
        assert(v@.subrange(lo as int, k + 1).drop_last() =~= v@.subrange(lo as int, k as int));
        k = k + 1;
        assert(out@ =~= start + escape_cell(v@.subrange(lo as int, k as int)));
    }
}

} // verus!

verus! {

/// The row lengths' maximum, as `max_width`.
fn table_width(rows: &Vec<Vec<Vec<char>>>) -> (w: usize)
    ensures
        w == max_width(rows.deep_view()),
{
    let ghost dv = rows.deep_view();
    let mut w: usize = 0;
    let mut r: usize = 0;
    assert(dv.take(0) =~= Seq::<Seq<Seq<char>>>::empty());
    while r < rows.len()
        invariant
            r <= rows.len(),
            dv == rows.deep_view(),
            w == max_width(dv.take(r as int)),
        decreases rows.len() - r,
    {
        assert(dv.take(r + 1).drop_last() =~= dv.take(r as int));
        assert(dv[r as int].len() == rows[r as int].len());
        if rows[r].len() > w {
            w = rows[r].len();
        }
        r = r + 1;
    }
    assert(dv.take(r as int) =~= dv);
    w
}

/// Appends the Markdown line of `row` in a table of width `w`.
fn push_row(out: &mut Vec<char>, row: &Vec<Vec<char>>, w: usize)
    ensures
        final(out)@ == old(out)@ + row_line(row.deep_view(), w as nat),
{
    let ghost start = out@;
    let ghost cells = pad_row(row.deep_view(), w as nat);
    push_str(out, "| ");
    let ghost head = out@;
    let mut k: usize = 0;
    assert(cells.take(0) =~= Seq::<Seq<char>>::empty());
    while k < w
        invariant
            k <= w,
            cells == pad_row(row.deep_view(), w as nat),
            out@ == head + join(cells.take(k as int), " | "@),
        decreases w - k,
    {
        if k > 0 {
            push_str(out, " | ");
        }
        if k < row.len() {
            let cell = &row[k];
            assert(cells[k as int] == row[k as int].deep_view());
            assert(row[k as int].deep_view() =~= cell@);
            push_range(out, cell, 0, cell.len());
            assert(cell@.subrange(0, cell.len() as int) =~= cell@);
        } else {
            assert(cells[k as int] =~= Seq::<char>::empty());
        }
        assert(cells.take(k + 1).drop_last() =~= cells.take(k as int));
        assert(out@ =~= head + join(cells.take(k + 1), " | "@));
        k = k + 1;
    }
    assert(cells.take(w as int) =~= cells);
    push_str(out, " |\n");
    assert(final(out)@ =~= start + row_line(row.deep_view(), w as nat));
}

/// Appends the Markdown text of the table `rows`.
fn push_table(out: &mut Vec<char>, rows: &Vec<Vec<Vec<char>>>)
    ensures
        final(out)@ == old(out)@ + render_table(rows.deep_view()),
{
    let ghost start = out@;
    let ghost dv = rows.deep_view();
    let width = table_width(rows);
    let mut ri: usize = 0;
    assert(dv.take(0) =~= Seq::<Seq<Seq<char>>>::empty());
    while ri < rows.len()
        invariant
            ri <= rows.len(),
            dv == rows.deep_view(),
            width == max_width(dv),
            out@ == start + table_lines(dv.take(ri as int), width as nat),
        decreases rows.len() - ri,
    {
        push_row(out, &rows[ri], width);
        if ri == 0 {
            push_str(out, "|");
            push_repeat(out, " --- |", width);
            push_str(out, "\n");
        }
        assert(dv.take(ri + 1).drop_last() =~= dv.take(ri as int));
        assert(dv.take(ri + 1).last() == rows[ri as int].deep_view());
        assert(out@ =~= start + table_lines(dv.take(ri + 1), width as nat));
        ri = ri + 1;
    }
    assert(dv.take(ri as int) =~= dv);
}

} // verus!

verus! {

/// The converter's running state.
struct Converter {
    out: Vec<char>,
    in_script: bool,
    in_pre: bool,
    list_stack: Vec<char>,
    in_td: bool,
    last_was_li: bool,
    table_rows: Vec<Vec<Vec<char>>>,
    cur_row: Vec<Vec<char>>,
    cell: Vec<char>,
    link: Option<Vec<char>>,
}

/// The view of an optional character vector.
spec fn opt_chars(o: Option<Vec<char>>) -> Option<Seq<char>> {
    match o {
        Some(v) => Some(v@),
        None => None,
    }
}

impl Converter {
    /// The state this converter stands for.
    spec fn state(&self) -> HtmlState {
        HtmlState {
            out: self.out@,
            in_script: self.in_script,
            in_pre: self.in_pre,
            list_stack: self.list_stack@,
            in_td: self.in_td,
            last_was_li: self.last_was_li,
            table_rows: self.table_rows.deep_view(),
            cur_row: self.cur_row.deep_view(),
            cell: self.cell@,
            link: opt_chars(self.link),
        }
    }
}

/// Applies a tag of kind `k` that works on the output text only.
fn apply_out_kind(c: &mut Converter, k: TagKind, closing: bool)
    requires
        k != TagKind::Anchor,
        k != TagKind::Table,
        k != TagKind::Tr,
        k != TagKind::Cell,
        k != TagKind::Li,
        k != TagKind::Ul,
        k != TagKind::Ol,
        k != TagKind::Script,
        k is Heading ==> 1 <= k->0 <= 6,
    ensures
        final(c).state() == apply_kind(old(c).state(), k, closing, seq![]),
{
    match k {
        TagKind::Pre => {
            let open = !closing;
            c.in_pre = open;
            fenced(&mut c.out, open, "```");
        },
        TagKind::Code => {
            if !c.in_pre {
                fenced(&mut c.out, !closing, "`");
            }
        },
        TagKind::Heading(level) => {
            if closing {
                c.out.push('\n');
            } else {
                newline_blank(&mut c.out);
                push_repeat(&mut c.out, "#", level);
                let ghost before = c.out@;
                c.out.push(' ');
                assert(c.out@ =~= before + seq![' ']);
            }
        },
        TagKind::Block => {
            if closing {
                newline_blank(&mut c.out);
            }
        },
        TagKind::Br => {
            c.out.push('\n');
        },
        TagKind::Hr => {
            newline_blank(&mut c.out);
            push_str(&mut c.out, "---\n");
        },
        TagKind::Strong => {
            push_str(&mut c.out, "**");
        },
        TagKind::Em => {
            c.out.push('*');
        },
        TagKind::Title => {
            if !closing {
                newline_blank(&mut c.out);
                push_str(&mut c.out, "# ");
            } else {
                c.out.push('\n');
                newline_blank(&mut c.out);
            }
        },
        _ => {},
    }
}

/// Applies a list tag (`ul`, `ol`, `li`).
fn apply_list_kind(c: &mut Converter, k: TagKind, closing: bool)
    requires
        k == TagKind::Li || k == TagKind::Ul || k == TagKind::Ol,
    ensures
        final(c).state() == apply_kind(old(c).state(), k, closing, seq![]),
{
    match k {
        TagKind::Ul => {
            if closing {
                c.list_stack.pop();
            } else {
                c.list_stack.push('u');
            }
        },
        TagKind::Ol => {
            if closing {
                c.list_stack.pop();
            } else {
                c.list_stack.push('o');
            }
        },
        _ => {
            if closing {
                c.out.push('\n');
            } else {
                if c.last_was_li {
                    let n = c.out.len();
                    if !(n > 0 && c.out[n - 1] == '\n') {
                        c.out.push('\n');
                    }
                } else {
                    newline_blank(&mut c.out);
                }
                let n = c.list_stack.len();
                let depth = if n > 0 {
                    n - 1
                } else {
                    0
                };
                push_repeat(&mut c.out, "  ", depth);
                if n > 0 && c.list_stack[n - 1] == 'o' {
                    push_str(&mut c.out, "1. ");
                } else {
                    push_str(&mut c.out, "- ");
                }
                c.last_was_li = true;
            }
        },
    }
}

/// Applies a table tag (`table`, `tr`, `td`, `th`).
fn apply_table_kind(c: &mut Converter, k: TagKind, closing: bool)
    requires
        k == TagKind::Table || k == TagKind::Tr || k == TagKind::Cell,
    ensures
        final(c).state() == apply_kind(old(c).state(), k, closing, seq![]),
{
    match k {
        TagKind::Table => {
            if closing {
                if c.table_rows.len() > 0 {
                    push_table(&mut c.out, &c.table_rows);
                }
                newline_blank(&mut c.out);
            }
            c.table_rows.clear();
            assert(c.table_rows.deep_view() =~= Seq::<Seq<Seq<char>>>::empty());
        },
        TagKind::Tr => {
            if closing && c.cur_row.len() > 0 {
                let ghost old_rows = c.table_rows.deep_view();
                let ghost old_row = c.cur_row.deep_view();
                let mut row: Vec<Vec<char>> = Vec::new();
                std::mem::swap(&mut row, &mut c.cur_row);
                c.table_rows.push(row);
                assert(c.table_rows.deep_view() =~= old_rows.push(old_row));
                assert(c.cur_row.deep_view() =~= Seq::<Seq<char>>::empty());
            }
        },
        _ => {
            if closing {
                let ghost old_row = c.cur_row.deep_view();
                let ghost old_cell = c.cell@;
                let n = c.cell.len();
                let a = trim_start_at(&c.cell, 0, n);
                let b = trim_end_at(&c.cell, a, n);
                assert(c.cell@.subrange(0, n as int) =~= c.cell@);
                let mut text: Vec<char> = Vec::new();
                push_escaped(&mut text, &c.cell, a, b);
                assert(text@ =~= escape_cell(trim(c.cell@)));
                assert(text.deep_view() =~= text@);
                c.cur_row.push(text);
                assert(c.cur_row.deep_view() =~= old_row.push(escape_cell(trim(old_cell))));
                c.cell.clear();
                c.in_td = false;
            } else {
                c.in_td = true;
            }
        },
    }
}

} // verus!

verus! {

/// Reads the lowercase tag text `tag` (between `<` and `>`): whether it is a
/// closing tag, and the kind of tag it names.
pub fn read_tag(tag: &Vec<char>) -> (r: (bool, TagKind))
    ensures
        r.0 == tag_closes(tag@),
        r.1 == kind_of_tag(tag@),
{
    let closing = tag.len() > 0 && tag[0] == '/';
    let s = strip_leading_at(tag, '/');
    let e = alnum_end(tag, s);
    let k = classify(tag, s, e);
    (closing, k)
}

/// The target of the opening `<a ...>` tag text `tag`, as `anchor_href`.
pub fn href_of(tag: &Vec<char>) -> (r: Option<Vec<char>>)
    ensures
        match r {
            Some(h) => anchor_href(tag@) == Some(h@),
            None => anchor_href(tag@) is None,
        },
{
    match find_range(tag, "href=\"") {
        Some(p) => {
            proof {
                reveal_strlit("href=\"");
            }
            let start = p + 6;
            let q = find_char(tag, start, '"');
            let mut h: Vec<char> = Vec::new();
            push_range(&mut h, tag, start, q);
            proof {
                let rest = tag@.skip(start as int);
                assert(rest.take(first_index(rest, '"')) =~= h@);
            }
            Some(h)
        },
        None => None,
    }
}

/// Applies the tag whose text (between `<` and `>`) is `v[lo..hi]`.
fn apply_tag(c: &mut Converter, v: &Vec<char>, lo: usize, hi: usize)
    requires
        lo <= hi <= v.len(),
    ensures
        final(c).state() == tag_step(old(c).state(), v@.subrange(lo as int, hi as int)),
{
    let tag = to_lowercase(v, lo, hi);
    let (closing, k) = read_tag(&tag);
    if k != TagKind::Li {
        c.last_was_li = false;
    }
    let ghost st1 = c.state();
    match k {
        TagKind::Script => {
            c.in_script = !closing;
        },
        TagKind::Anchor => {
            if closing {
                let ghost before = c.out@;
                match &c.link {
                    Some(h) => {
                        push_str(&mut c.out, "](");
                        push_range(&mut c.out, h, 0, h.len());
                        push_str(&mut c.out, ")");
                        assert(h@.subrange(0, h.len() as int) =~= h@);
                    },
                    None => {},
                }
                c.link = None;
            } else {
                match href_of(&tag) {
                    Some(h) => {
                        c.out.push('[');
                        c.link = Some(h);
                    },
                    None => {},
                }
            }
        },
        TagKind::Table | TagKind::Tr | TagKind::Cell => {
            apply_table_kind(c, k, closing);
        },
        TagKind::Li | TagKind::Ul | TagKind::Ol => {
            apply_list_kind(c, k, closing);
        },
        _ => {
            apply_out_kind(c, k, closing);
        },
    }
    assert(final(c).state() == apply_kind(st1, k, closing, tag@));
}

/// Converts HTML to Markdown.
///
/// A state machine over the common subset of HTML: headings, paragraphs,
/// lists, links (`[text](url)`), bold and italic, tables and code blocks;
/// other tags are dropped and their text kept. Text between an opening
/// `<script>` or `<style>` tag and the next closing one is dropped. Reading
/// stops at a `<` that no `>` closes. The result is normalised.
pub fn html_to_md(html: &str) -> (md: String)
    ensures
        md@ == html_markdown(html@),
{
    let v = chars_of(html);
    let mut c = Converter {
        out: Vec::new(),
        in_script: false,
        in_pre: false,
        list_stack: Vec::new(),
        in_td: false,
        last_was_li: false,
        table_rows: Vec::new(),
        cur_row: Vec::new(),
        cell: Vec::new(),
        link: None,
    };
    assert(c.state() == initial_state()) by {
        assert(c.table_rows.deep_view() =~= Seq::<Seq<Seq<char>>>::empty());
        assert(c.cur_row.deep_view() =~= Seq::<Seq<char>>::empty());
    }
    let n = v.len();
    let mut i: usize = 0;
    assert(v@.skip(0) =~= v@);
    while i < n
        invariant_except_break
            n == v.len(),
            i <= n,
            run(c.state(), v@.skip(i as int)) == run(initial_state(), html@),
        ensures
            c.state() == run(initial_state(), html@),
        decreases n - i,
    {
        let ghost s = v@.skip(i as int);
        if v[i] == '<' {
            let end = find_char(&v, i, '>');
            proof {
                lemma_first_index_bounds(s, '>');
            }
            if end >= n {
                break;
            }
            apply_tag(&mut c, &v, i + 1, end);
            proof {
                assert(s.subrange(1, end - i) =~= v@.subrange(i + 1, end as int));
                assert(s.skip(end - i + 1) =~= v@.skip(end + 1));
            }
            i = end + 1;
            continue;
        }
        assert(s.skip(1) =~= v@.skip(i + 1));
        if !c.in_script {
            let ch = v[i];
            if c.in_td {
                c.cell.push(ch);
            } else {
                c.out.push(ch);
            }
        }
        i = i + 1;
    }
    let text = string_of(&c.out);
    normalize(text.as_str())
}

} // verus!
