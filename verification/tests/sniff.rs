use mdcore::sniff::{guesses, looks_like_json_object_array, sniff_safe};
use mdcore::Format;

fn by_ext(path: &str) -> Option<Format> {
    guesses(path, b"").0
}

fn by_magic(bytes: &[u8]) -> Format {
    guesses("x", bytes).1.unwrap()
}

#[test]
fn extension_guesses() {
    assert_eq!(by_ext("a.docx"), Some(Format::Docx));
    assert_eq!(by_ext("a.HTM"), Some(Format::Html));
    assert_eq!(by_ext("dir/a.b.Json"), Some(Format::Json));
    assert_eq!(by_ext("t.tsv"), Some(Format::Csv));
    assert_eq!(by_ext("notes.md"), Some(Format::Plain));
    assert_eq!(by_ext("a.pdf"), Some(Format::Unsupported("pdf")));
    assert_eq!(by_ext("a.pptx"), Some(Format::Unsupported("office-other")));
    assert_eq!(by_ext("a.wav"), Some(Format::Unsupported("audio")));
    assert_eq!(by_ext("README"), None);
    assert_eq!(by_ext("a.rs"), None);
    assert_eq!(by_ext("txt"), Some(Format::Plain));
}

#[test]
fn extension_ignores_ascii_case() {
    assert_eq!(by_ext("A.DOCX"), by_ext("a.docx"));
    assert_eq!(by_ext("X.CsV"), by_ext("x.csv"));
}

#[test]
fn magic_numbers() {
    assert_eq!(by_magic(b"%PDF-1.7"), Format::Unsupported("pdf"));
    assert_eq!(by_magic(b"PK\x03\x04....word/document.xml"), Format::Docx);
    assert_eq!(by_magic(b"PK\x03\x04\xff\xfe other"), Format::Unsupported("zip"));
    assert_eq!(by_magic(b"\x1f\x8b\x08"), Format::Unsupported("gz"));
}

#[test]
fn text_features() {
    assert_eq!(by_magic(b"  <!DOCTYPE html><p>x"), Format::Html);
    assert_eq!(by_magic(b"<div>x</div>"), Format::Html);
    assert_eq!(by_magic(b"<x><html>"), Format::Html);
    assert_eq!(by_magic(b"<?xml version=\"1.0\"?><a/>"), Format::Plain);
    assert_eq!(by_magic(b"[{\"a\":1}]"), Format::Json);
    assert_eq!(by_magic(b"[1,2]"), Format::Json);
    assert_eq!(by_magic(b"\n {\"a\":1}"), Format::Json);
    assert_eq!(by_magic(b"a,b\n1,2"), Format::Csv);
    assert_eq!(by_magic(b"a,b,\n1,2"), Format::Plain);
    assert_eq!(by_magic(b"a,b"), Format::Plain);
    assert_eq!(by_magic(b"just words"), Format::Plain);
    assert_eq!(by_magic(b"\xff\xfe\x00bad"), Format::Plain);
    assert_eq!(by_magic(b"\xef\xbb\xbf<html>"), Format::Html);
}

#[test]
fn json_object_array_hint() {
    assert!(looks_like_json_object_array("[{"));
    assert!(looks_like_json_object_array("[{\"a\":1}]"));
    assert!(looks_like_json_object_array("[\t{\"a\":1}]"));
    assert!(looks_like_json_object_array("[ \r\n {}]"));
    assert!(!looks_like_json_object_array("[ 1]"));
    assert!(!looks_like_json_object_array("[ 1, 2]"));
    assert!(!looks_like_json_object_array("[1,2]"));
    assert!(!looks_like_json_object_array("[\n"));
    assert!(!looks_like_json_object_array("[1"));
    assert!(!looks_like_json_object_array("["));
    assert!(!looks_like_json_object_array("{\"a\":[{}]}"));
}

#[test]
fn sniffing_that_would_split_a_character() {
    let mut s = String::from("<");
    s.push_str(&"a".repeat(510));
    s.push('é');
    assert!(!sniff_safe(s.as_bytes()));
    assert!(sniff_safe(b"<p>short</p>"));
    assert!(sniff_safe(b"\xff not utf8"));
}

#[test]
fn format_equality() {
    assert_eq!(Format::Unsupported("zip"), Format::Unsupported("zip"));
    assert_ne!(Format::Unsupported("zip"), Format::Unsupported("gz"));
    assert_ne!(Format::Html, Format::Plain);
}

#[test]
fn supported_extensions() {
    assert!(mdcore::sniff::is_supported("docx"));
    assert!(mdcore::sniff::is_supported("md"));
    assert!(!mdcore::sniff::is_supported("DOCX"));
    assert!(!mdcore::sniff::is_supported("pdf"));
}

#[test]
fn leading_space_and_bom_do_not_change_the_guess() {
    for x in ["<html><body>x</body></html>", "[{\"a\":1}]", "a,b\n1,2\n", "plain words", "<p>hi</p>", ""] {
        let plain = by_magic(x.as_bytes());
        for w in ["", " ", "\n\t\r ", "\u{c}\u{b}"] {
            let spaced = format!("{w}{x}");
            assert_eq!(by_magic(spaced.as_bytes()), plain, "{spaced:?}");
            let mut with_bom = b"\xef\xbb\xbf".to_vec();
            with_bom.extend_from_slice(spaced.as_bytes());
            assert_eq!(by_magic(&with_bom), plain, "{spaced:?}");
        }
    }
}

#[test]
fn content_without_converter() {
    assert_eq!(by_magic(b"%PDF-1.7"), Format::Unsupported("pdf"));
    assert_eq!(by_magic(b"\x1f\x8b\x08"), Format::Unsupported("gz"));
    assert_eq!(by_magic(b"PK\x03\x04 just a zip"), Format::Unsupported("zip"));
    assert_eq!(by_magic(b"PK\x03\x04 ... word/document.xml ..."), Format::Docx);
    assert_eq!(by_magic(b" %PDF-1.7"), Format::Plain);
}
