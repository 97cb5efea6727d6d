use mdcore::{convert_bytes, Error};
use std::io::Write;

fn docx_bytes(document_xml: &str) -> Vec<u8> {
    let mut buf = std::io::Cursor::new(Vec::new());
    {
        let mut w = zip::ZipWriter::new(&mut buf);
        let opts = zip::write::SimpleFileOptions::default();
        w.start_file("[Content_Types].xml", opts).unwrap();
        w.write_all(b"<Types/>").unwrap();
        w.start_file("word/document.xml", opts).unwrap();
        w.write_all(document_xml.as_bytes()).unwrap();
        w.finish().unwrap();
    }
    buf.into_inner()
}

#[test]
fn plain_txt() {
    let md = convert_bytes("/tmp/mdcore_test_a.txt", b"hello \nworld\n\n\n\nend\n").unwrap();
    assert_eq!(md, "hello\nworld\n\nend");
}

#[test]
fn csv_becomes_table() {
    let md = convert_bytes("/tmp/mdcore_test_a.csv", b"name,age\n\"a,b\",3\n").unwrap();
    assert!(md.contains("| name | age |"), "{md:?}");
    assert!(md.contains("| a,b | 3 |"), "{md:?}");
}

#[test]
fn json_array_becomes_table() {
    let md = convert_bytes("/tmp/mdcore_test_a.json", br#"[{"n":"x","v":1},{"n":"y","v":2}]"#).unwrap();
    assert!(md.contains("| n | v |"));
    assert!(md.contains("| x | 1 |"));
}

#[test]
fn html_headings_and_list() {
    let md = convert_bytes(
        "/tmp/mdcore_test_a.html",
        b"<html><body><h2>T</h2><ul><li>i1</li><li>i2</li></ul></body></html>",
    )
    .unwrap();
    assert!(md.contains("## T"));
    assert!(md.contains("- i1\n- i2"));
}

#[test]
fn renamed_png_still_rejected_not_garbled() {
    let err = convert_bytes("/tmp/mdcore_test_fake.docx", b"\x89PNG\r\n\x1a\x00rest-is-binary\x00\xff").unwrap_err();
    assert!(matches!(err, Error::Conversion(_) | Error::Unsupported), "{err:?}");
}

#[test]
fn docx_fixture() {
    let xml = "<w:document><w:body>\
        <w:p><w:pPr><w:pStyle w:val=\"Heading1\"/></w:pPr><w:r><w:t>标题一</w:t></w:r></w:p>\
        <w:p><w:r><w:t>正文段落内容。</w:t></w:r></w:p>\
        </w:body></w:document>";
    let bytes = docx_bytes(xml);
    let md = convert_bytes("/tmp/sample.docx", &bytes).unwrap();
    assert!(md.contains("# 标题一"), "{md}");
    assert!(md.contains("正文段落内容。"), "{md}");
}

#[test]
fn pdf_says_unsupported_in_chinese() {
    let err = convert_bytes("/tmp/mdcore_test_a.pdf", b"%PDF-1.4\nnothing else").unwrap_err();
    assert!(err.message().contains("不支持"), "{err:?}");
}

#[test]
fn zip_without_document_is_unsupported() {
    let mut fake = b"PK\x03\x04".to_vec();
    fake.extend_from_slice(b"nothing here");
    let err = convert_bytes("/tmp/a.zip", &fake).unwrap_err();
    assert!(matches!(err, Error::Unsupported), "{err:?}");
}

#[test]
fn json_that_is_not_utf8_fails_with_reason() {
    let err = convert_bytes("/tmp/a.json", b"\xff\xfe{}").unwrap_err();
    match err {
        Error::Conversion(why) => assert_eq!(why, "文件编码不是 UTF-8"),
        other => panic!("{other:?}"),
    }
}

#[test]
fn unknown_extension_falls_back_to_content() {
    assert_eq!(convert_bytes("/tmp/data.bin", b"a,b\n1,2\n").unwrap(), "| a | b |\n| --- | --- |\n| 1 | 2 |");
}

#[test]
fn invalid_utf8_plain_text_is_decoded_lossily() {
    assert_eq!(convert_bytes("/tmp/a.txt", b"ab\xffcd").unwrap(), "ab\u{fffd}cd");
}

#[test]
fn error_messages() {
    assert_eq!(Error::Unsupported.message(), "这个文件暂时不支持，目前认识：Word、网页、CSV、JSON、纯文本");
    assert_eq!(Error::Conversion("x".to_string()).message(), "文件读取出错：x");
    let io: Error = std::io::Error::new(std::io::ErrorKind::NotFound, "gone").into();
    assert!(io.message().starts_with("文件打不开："));
    assert!(io.message().contains("gone"));
}

#[test]
fn try_convert_refuses_a_split_character() {
    let mut s = String::from("<");
    s.push_str(&"a".repeat(510));
    s.push('é');
    assert!(mdcore::try_convert_bytes("/tmp/a.txt", s.as_bytes()).is_none());
    assert_eq!(mdcore::try_convert_bytes("/tmp/a.txt", b"x").unwrap().unwrap(), "x");
}

#[test]
fn html_file_converts_as_html_to_md() {
    let html = "<h1>A</h1>\n\n\n<p>b  </p><ul><li>x</li></ul>";
    assert_eq!(
        convert_bytes("/tmp/page.HTML", html.as_bytes()).unwrap(),
        mdcore::html::html_to_md(html)
    );
}

#[test]
fn converted_markdown_is_already_normal() {
    for (path, bytes) in [
        ("/tmp/a.txt", &b"  x  \n\n\n\ny\t\n"[..]),
        ("/tmp/a.csv", &b"a,b\n1,2\n"[..]),
        ("/tmp/a.json", &br#"{"k":[1,2]}"#[..]),
    ] {
        let md = convert_bytes(path, bytes).unwrap();
        assert_eq!(mdcore::html::normalize(&md), md);
    }
}

#[test]
fn same_guess_twice_converts_once() {
    assert_eq!(
        convert_bytes("/tmp/t.csv", b"a,b\n1,2\n").unwrap(),
        "| a | b |\n| --- | --- |\n| 1 | 2 |"
    );
}

#[test]
fn unsupported_exactly_when_no_guess_has_a_converter() {
    let unsupported = |p: &str, b: &[u8]| matches!(convert_bytes(p, b), Err(Error::Unsupported));
    assert!(unsupported("/tmp/a.bin", b"%PDF-1.4 x"));
    assert!(unsupported("/tmp/a.pdf", b"%PDF-1.4 x"));
    assert!(unsupported("/tmp/a.mp3", b"\x1f\x8b\x08\x00"));
    assert!(unsupported("/tmp/a.xlsx", b"PK\x03\x04 xl/workbook.xml"));
    assert!(!unsupported("/tmp/a.pdf", b"hello"));
    assert_eq!(convert_bytes("/tmp/a.pdf", b"hello").unwrap(), "hello");
    assert_eq!(convert_bytes("/tmp/a.txt", b"%PDF-1.4 x").unwrap(), "%PDF-1.4 x");
    assert!(!unsupported("/tmp/a.zip", b"PK\x03\x04 word/document.xml"));
}
