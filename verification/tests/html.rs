use mdcore::html::{href_of, html_to_md, normalize, read_tag, TagKind};

#[test]
fn heading_paragraph_and_bold() {
    assert_eq!(html_to_md("<h1>Title</h1><p>Hello <b>world</b></p>"), "# Title\nHello **world**");
}

#[test]
fn uppercase_tags_are_recognised() {
    assert_eq!(html_to_md("<H2>T</H2><EM>x</EM>"), "## T\n*x*");
}

#[test]
fn nested_lists() {
    let md = html_to_md("<ul><li>a</li><li>b<ol><li>c</li></ol></li></ul>");
    assert_eq!(md, "- a\n- b\n\n  1. c");
}

#[test]
fn link_becomes_text_in_brackets_then_url() {
    assert_eq!(html_to_md("<a href=\"http://x.y\">t</a>"), "[t](http://x.y)");
    assert_eq!(html_to_md("<a href=\"u\">x</a>"), "[x](u)");
    assert_eq!(html_to_md("<p>see <A HREF=\"a.html\" class=\"k\">doc <b>one</b></A>.</p>"), "see [doc **one**](a.html).");
}

#[test]
fn anchor_without_href_keeps_only_its_text() {
    assert_eq!(html_to_md("<a name=\"n\">t</a>"), "t");
}

#[test]
fn table_is_padded_and_escaped() {
    let md = html_to_md("<table><tr><th>A</th><th>B|C</th></tr><tr><td> 1 </td></tr></table>");
    assert_eq!(md, "| A | B\\|C |\n| --- | --- |\n| 1 |  |");
}

#[test]
fn pre_and_code_fences() {
    assert_eq!(html_to_md("<p>x</p><pre>code</pre>"), "x\n\n```\ncode\n```");
    assert_eq!(html_to_md("<code>c</code>"), "`\nc\n`");
}

#[test]
fn br_and_hr() {
    assert_eq!(html_to_md("a<br>b<hr>c"), "a\nb\n\n---\nc");
}

#[test]
fn title_becomes_heading() {
    assert_eq!(html_to_md("<title>T</title>body"), "# T\n\nbody");
}

#[test]
fn script_and_style_content_is_dropped() {
    assert_eq!(html_to_md("<p>a</p><script>x</script><p>b</p>"), "a\n\nb");
    assert_eq!(html_to_md("<script>var a=1;</script><p>y</p>"), "y");
    assert_eq!(html_to_md("<style>p{}</style>z"), "z");
}

#[test]
fn unclosed_tag_stops_reading() {
    assert_eq!(html_to_md("abc<def"), "abc");
}

#[test]
fn unknown_tags_dropped_text_kept() {
    assert_eq!(html_to_md("<span>one</span> <form>two</form>"), "one two");
}

#[test]
fn untagged_text_is_normalised_only() {
    assert_eq!(html_to_md("x  \n\n\n\ny"), "x\n\ny");
}

#[test]
fn normalize_examples() {
    assert_eq!(normalize("hello \nworld\n\n\n\nend\n"), "hello\nworld\n\nend");
    assert_eq!(normalize("\n\n a\r\nb\t\n"), " a\nb");
    assert_eq!(normalize(""), "");
    assert_eq!(normalize("\n \n\t\n"), "");
}

#[test]
fn normalize_twice_is_normalize_once() {
    for s in ["a \n\n\n b\n", "\n\nx\r\n\r\n\r\ny  ", "", "  \n", "<p>\n\n\n</p>"] {
        let once = normalize(s);
        assert_eq!(normalize(&once), once);
    }
}

#[test]
fn normal_form_facts_hold_on_examples() {
    for s in ["a \n\n\n b\n", "\n\nx\r\n\r\n\r\ny  ", "  \u{a0}\n q \u{3000}\n"] {
        let n = normalize(s);
        assert!(!n.starts_with('\n') && !n.ends_with('\n'));
        assert!(!n.contains("\n\n\n"));
        for line in n.split('\n') {
            assert_eq!(line, line.trim_end());
        }
    }
}

#[test]
fn reading_tag_text() {
    let v = |s: &str| s.chars().collect::<Vec<char>>();
    assert_eq!(read_tag(&v("/h3")), (true, TagKind::Heading(3)));
    assert_eq!(read_tag(&v("a href=\"x\"")), (false, TagKind::Anchor));
    assert_eq!(read_tag(&v("td class=\"c\"")), (false, TagKind::Cell));
    assert_eq!(read_tag(&v("//p")), (true, TagKind::Block));
    assert_eq!(read_tag(&v("span")), (false, TagKind::Other));
    assert_eq!(read_tag(&v("")), (false, TagKind::Other));
    assert_eq!(href_of(&v("a class=\"k\" href=\"u.html\" id=\"i\"")), Some(v("u.html")));
    assert_eq!(href_of(&v("a href=\"open")), Some(v("open")));
    assert_eq!(href_of(&v("a name=\"n\"")), None);
}

#[test]
fn normalize_keeps_every_non_blank_line() {
    for s in ["a \n\n\n b\n", "\n\nx\r\n\r\n\r\ny  ", "", " \t\n", "p\n  q\t\n\n\nr"] {
        let n = normalize(s);
        let got: Vec<&str> = n.split('\n').filter(|l| !l.is_empty()).collect();
        let want: Vec<&str> = s.split('\n').map(|l| l.trim_end()).filter(|l| !l.is_empty()).collect();
        assert_eq!(got, want, "{s:?}");
    }
}

#[test]
fn normalize_is_the_collapsed_lines_joined() {
    for s in ["a \n\n\n b\n", "\n\nx\r\n\r\n\r\ny  ", "", " \t\n\n", "p\n  q\t\n\n\nr\n\n", "one"] {
        let mut lines: Vec<&str> = Vec::new();
        for l in s.lines().map(|l| l.trim_end()) {
            if !(l.is_empty() && lines.last() == Some(&"")) {
                lines.push(l);
            }
        }
        while lines.first() == Some(&"") {
            lines.remove(0);
        }
        while lines.last() == Some(&"") {
            lines.pop();
        }
        assert_eq!(normalize(s), lines.join("\n"), "{s:?}");
    }
}
