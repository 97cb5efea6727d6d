use mdcore::converters::{
    csv_to_md, decode_xml, document_xml_to_md, docx_to_md, esc, header_to_md, records_to_md,
    row_to_md,
};
use std::io::Write;

fn zip_of(entries: &[(&str, &str)]) -> Vec<u8> {
    let mut buf = std::io::Cursor::new(Vec::new());
    {
        let mut w = zip::ZipWriter::new(&mut buf);
        let opts = zip::write::SimpleFileOptions::default();
        for (name, content) in entries {
            w.start_file(*name, opts).unwrap();
            w.write_all(content.as_bytes()).unwrap();
        }
        w.finish().unwrap();
    }
    buf.into_inner()
}

#[test]
fn esc_escapes_pipes_and_newlines() {
    assert_eq!(esc("a|b\nc"), "a\\|b c");
    assert_eq!(esc("plain"), "plain");
}

#[test]
fn decode_xml_in_sequence() {
    assert_eq!(decode_xml("&lt;a&gt; &quot;q&quot; &apos;s&apos; &amp;"), "<a> \"q\" 's' &");
    assert_eq!(decode_xml("&amp;lt;"), "<");
}

#[test]
fn csv_table() {
    assert_eq!(
        csv_to_md("name,age\n\"a,b\",3\n").unwrap(),
        "| name | age |\n| --- | --- |\n| a,b | 3 |\n"
    );
}

#[test]
fn csv_ragged_rows_trimmed_fields_and_pipes() {
    assert_eq!(
        csv_to_md(" x , y \n1\n2,3,4|5\n").unwrap(),
        "| x | y |\n| --- | --- |\n| 1 |  |\n| 2 | 3 | 4\\|5 |\n"
    );
}

#[test]
fn csv_short_row_is_padded_to_the_header() {
    assert_eq!(csv_to_md("a,b\n1\n").unwrap(), "| a | b |\n| --- | --- |\n| 1 |  |\n");
}

#[test]
fn records_to_table() {
    let s = |v: &[&str]| v.iter().map(|x| x.to_string()).collect::<Vec<String>>();
    let ok = vec![Ok(s(&["h1", "h2", "h3"])), Ok(s(&["x"])), Ok(s(&["p", "q|r", "s", "t"]))];
    assert_eq!(
        records_to_md(&ok).unwrap(),
        "| h1 | h2 | h3 |\n| --- | --- | --- |\n| x |  |  |\n| p | q\\|r | s | t |\n"
    );
    let bad = vec![Ok(s(&["h"])), Err("broken".to_string()), Ok(s(&["y"]))];
    assert_eq!(records_to_md(&bad).unwrap_err(), "broken");
    assert_eq!(records_to_md(&vec![Err("first".to_string())]).unwrap_err(), "first");
    assert_eq!(records_to_md(&vec![]).unwrap_err(), "csv 没有数据行");
}

#[test]
fn csv_without_rows_fails() {
    assert_eq!(csv_to_md("").unwrap_err(), "csv 没有数据行");
}

#[test]
fn header_and_row_lines() {
    let cells = vec!["a".to_string(), "b|c".to_string()];
    assert_eq!(header_to_md(&cells), "| a | b\\|c |\n| --- | --- |\n");
    assert_eq!(row_to_md(&cells), "| a | b\\|c |\n");
    assert_eq!(row_to_md(&vec![]), "|  |\n");
}

#[test]
fn word_document_paragraphs() {
    let xml = "<w:body>\
        <w:p><w:pPr><w:pStyle w:val=\"Heading2\"/></w:pPr><w:r><w:t>Title &amp; more</w:t></w:r></w:p>\
        <w:p><w:r><w:t xml:space=\"preserve\"> one </w:t></w:r><w:r><w:t>two</w:t></w:r></w:p>\
        <w:p><w:r><w:t>   </w:t></w:r></w:p>\
        <w:p><w:pPr><w:pStyle w:val=\"Quote\"/></w:pPr><w:r><w:t>q</w:t></w:r></w:p>\
        </w:body>";
    assert_eq!(document_xml_to_md(xml), "## Title & more\n\none two\n\nq\n\n");
}

#[test]
fn docx_reads_the_document_part() {
    let bytes = zip_of(&[
        ("[Content_Types].xml", "<Types/>"),
        ("word/document.xml", "<w:p><w:r><w:t>Hi</w:t></w:r></w:p>"),
    ]);
    assert_eq!(docx_to_md(&bytes).unwrap(), "Hi\n\n");
}

#[test]
fn docx_takes_only_text_elements() {
    let bytes = zip_of(&[(
        "word/document.xml",
        "<w:p><w:r><w:t>a</w:t></w:r><w:r><w:tab/></w:r><w:r><w:t>b</w:t></w:r></w:p>",
    )]);
    assert_eq!(docx_to_md(&bytes).unwrap(), "ab\n\n");
}

#[test]
fn text_elements_only_not_other_w_t_names() {
    let xml = "<w:tbl><w:tr><w:tc><w:p><w:r><w:t>x</w:t></w:r></w:p></w:tc></w:tr></w:tbl>\
        <w:p><w:r><w:t\txml:space=\"preserve\">y</w:t><w:t/><w:t xml:space=\"preserve\"/></w:r></w:p>";
    assert_eq!(document_xml_to_md(xml), "x\n\ny\n\n");
}

#[test]
fn docx_with_empty_document_part() {
    let bytes = zip_of(&[("a.xml", "<a/>"), ("word/document.xml", "")]);
    assert_eq!(docx_to_md(&bytes).unwrap_err(), "不是有效的 docx（缺 word/document.xml）");
}

#[test]
fn docx_without_document_part() {
    let bytes = zip_of(&[("other.xml", "<x/>")]);
    assert_eq!(docx_to_md(&bytes).unwrap_err(), "不是有效的 docx（缺 word/document.xml）");
}

#[test]
fn docx_that_is_not_a_zip() {
    assert!(docx_to_md(b"not a zip at all").is_err());
}
