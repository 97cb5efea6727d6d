//! A small document-to-Markdown engine. A file's format is guessed from its
//! extension and from its content; the guesses are tried in turn (a chain
//! of responsibility) and the first converter that claims the file gives
//! the Markdown, which is then normalised.

pub mod text;
pub mod html;
pub mod sniff;
pub mod converters;
pub mod archive;
pub mod records;
pub mod json;
pub mod normal_form;
pub mod laws;
pub mod browser;

pub use sniff::Format;

use vstd::prelude::*;
use vstd::utf8::{decode_utf8, valid_utf8};
use crate::archive::zip_listing;
use crate::converters::{csv_result, csv_to_md, docx_result, docx_to_md, text_result};
use crate::html::{html_markdown, html_to_md, normalize, normalized};
use crate::json::{json_result, json_to_md};
use crate::records::csv_records;
use crate::sniff::{extension, format_of_extension, guesses, magic_format, same_format, sniff_ok};
use crate::text::{chars_of, lossy_chars, push_str, string_of, utf8_chars, utf8_lossy};

verus! {

broadcast use vstd::string::group_string_axioms;

/// `std::io::Error`, as an opaque type.
#[verifier::external_type_specification]
#[verifier::external_body]
pub struct ExIoError(std::io::Error);

/// Why a file was not converted.
#[derive(Debug)]
pub enum Error {
    /// No converter claimed the file.
    Unsupported,
    /// A converter claimed the file and failed; the reason, in words.
    Conversion(String),
    /// The file could not be read.
    Io(std::io::Error),
}

impl From<std::io::Error> for Error {
    fn from(e: std::io::Error) -> (r: Self) {
        Error::Io(e)
    }
}

impl vstd::std_specs::convert::FromSpecImpl<std::io::Error> for Error {
    open spec fn obeys_from_spec() -> bool {
        true
    }

    open spec fn from_spec(e: std::io::Error) -> Self {
        Error::Io(e)
    }
}

/// The user-facing text of an unsupported file.
pub open spec fn unsupported_message() -> Seq<char> {
    "这个文件暂时不支持，目前认识：Word、网页、CSV、JSON、纯文本"@
}

/// The prefix of the text of a failed conversion.
pub open spec fn conversion_prefix() -> Seq<char> {
    "文件读取出错："@
}

/// The prefix of the text of an unreadable file.
pub open spec fn io_prefix() -> Seq<char> {
    "文件打不开："@
}

/// The text of an I/O error (`Display` of `std::io::Error`); it depends on
/// the system, so nothing is claimed of it.
#[verifier::external_body]
fn io_error_text(e: &std::io::Error) -> String {
    e.to_string()
}

impl Error {
    /// The user-facing text of the error (shared with the app's front end).
    pub fn message(&self) -> (m: String)
        ensures
            self is Unsupported ==> m@ == unsupported_message(),
            self matches Error::Conversion(s) ==> m@ == conversion_prefix() + s@,
            self is Io ==> m@.len() >= io_prefix().len() && m@.take(io_prefix().len() as int)
                == io_prefix(),
    {
        match self {
            Error::Unsupported => string_of(&chars_of("这个文件暂时不支持，目前认识：Word、网页、CSV、JSON、纯文本")),
            Error::Conversion(s) => {
                let mut v = chars_of("文件读取出错：");
                push_str(&mut v, s.as_str());
                string_of(&v)
            },
            Error::Io(e) => {
                let mut v = chars_of("文件打不开：");
                let ghost p = v@;
                let t = io_error_text(e);
                push_str(&mut v, t.as_str());
                assert(v@.take(p.len() as int) =~= p);
                string_of(&v)
            },
        }
    }
}

/// What a conversion ends in.
pub enum Outcome {
    /// The normalised Markdown.
    Markdown(Seq<char>),
    /// No converter claimed the file.
    Unsupported,
    /// A converter claimed the file and failed with this reason.
    Conversion(Seq<char>),
    /// The file could not be read.
    Io,
}

/// The outcome that `r` reports.
pub open spec fn outcome(r: Result<String, Error>) -> Outcome {
    match r {
        Ok(s) => Outcome::Markdown(s@),
        Err(Error::Unsupported) => Outcome::Unsupported,
        Err(Error::Conversion(s)) => Outcome::Conversion(s@),
        Err(Error::Io(_)) => Outcome::Io,
    }
}

/// What one converter does with a file.
pub enum Step {
    /// It converted the file.
    Done(Seq<char>),
    /// It claimed the file and failed.
    Failed(Seq<char>),
    /// It does not handle the file.
    Skip,
}

/// The text of `b`: decoded when it is valid UTF-8, else decoded lossily.
pub open spec fn lossy_text(b: Seq<u8>) -> Seq<char> {
    if valid_utf8(b) {
        decode_utf8(b)
    } else {
        utf8_lossy(b)
    }
}

/// The reason given for a JSON file that is not UTF-8.
pub open spec fn not_utf8_message() -> Seq<char> {
    "文件编码不是 UTF-8"@
}

/// A converter's result as an attempt.
pub open spec fn attempt_of(r: Result<Seq<char>, Seq<char>>) -> Step {
    match r {
        Ok(md) => Step::Done(md),
        Err(e) => Step::Failed(e),
    }
}

/// What the converter for the format `f` does with the bytes `b`.
pub open spec fn attempt(f: Format, b: Seq<u8>) -> Step {
    match f {
        Format::Docx => attempt_of(docx_result(zip_listing(b))),
        Format::Html => Step::Done(html_markdown(lossy_text(b))),
        Format::Json => if valid_utf8(b) {
            attempt_of(json_result(decode_utf8(b)))
        } else {
            Step::Failed(not_utf8_message())
        },
        Format::Csv => attempt_of(csv_result(csv_records(lossy_text(b)))),
        Format::Plain => Step::Done(lossy_text(b)),
        Format::Unsupported(_) => Step::Skip,
    }
}

/// A format whose converter's failure ends the chain.
pub open spec fn claims(f: Format) -> bool {
    f is Docx || f is Html || f is Json || f is Csv
}

/// Tries the guesses `gs` in order, skipping one already tried (in
/// `tried`): the first conversion that succeeds gives the normalised
/// Markdown, the first failure of a claiming converter gives its reason.
pub open spec fn chain(gs: Seq<Format>, tried: Seq<Format>, b: Seq<u8>) -> Outcome
    decreases gs.len(),
{
    if gs.len() == 0 {
        Outcome::Unsupported
    } else {
        let g = gs[0];
        if exists|k: int| 0 <= k < tried.len() && same_format(#[trigger] tried[k], g) {
            chain(gs.drop_first(), tried, b)
        } else {
            match attempt(g, b) {
                Step::Done(md) => Outcome::Markdown(normalized(md)),
                Step::Failed(why) => if claims(g) {
                    Outcome::Conversion(why)
                } else {
                    chain(gs.drop_first(), tried.push(g), b)
                },
                Step::Skip => chain(gs.drop_first(), tried.push(g), b),
            }
        }
    }
}

/// The guesses for a file, the one by extension first.
pub open spec fn guess_list(path: Seq<char>, b: Seq<u8>) -> Seq<Format> {
    match format_of_extension(extension(path)) {
        Some(e) => seq![e, magic_format(b)],
        None => seq![magic_format(b)],
    }
}

/// The outcome of converting the file at `path` with the content `b`.
pub open spec fn conversion(path: Seq<char>, b: Seq<u8>) -> Outcome {
    chain(guess_list(path, b), seq![], b)
}

/// What one converter did with a file.
enum Attempt {
    Converted(String),
    Failed(String),
    Skip,
}

/// The step an attempt stands for.
spec fn step_of(a: Attempt) -> Step {
    match a {
        Attempt::Converted(s) => Step::Done(s@),
        Attempt::Failed(s) => Step::Failed(s@),
        Attempt::Skip => Step::Skip,
    }
}

/// A converter's result as an attempt.
fn to_attempt(r: Result<String, String>) -> (a: Attempt)
    ensures
        step_of(a) == attempt_of(text_result(r)),
{
    match r {
        Ok(md) => Attempt::Converted(md),
        Err(e) => Attempt::Failed(e),
    }
}

/// The text of `bytes`, decoded lossily where it is not valid UTF-8.
fn text_lossy(bytes: &[u8]) -> (t: String)
    ensures
        t@ == lossy_text(bytes@),
{
    let n = bytes.len();
    assert(bytes@.subrange(0, n as int) =~= bytes@);
    match utf8_chars(bytes, 0, n) {
        Some(v) => string_of(&v),
        None => string_of(&lossy_chars(bytes, 0, n)),
    }
}

/// Runs the converter for `fmt_` on the file's bytes.
fn dispatch(fmt_: Format, _path: &str, bytes: &[u8]) -> (a: Attempt)
    ensures
        step_of(a) == attempt(fmt_, bytes@),
{
    match fmt_ {
        Format::Docx => to_attempt(docx_to_md(bytes)),
        Format::Html => {
            let t = text_lossy(bytes);
            Attempt::Converted(html_to_md(t.as_str()))
        },
        Format::Json => {
            let n = bytes.len();
            assert(bytes@.subrange(0, n as int) =~= bytes@);
            match utf8_chars(bytes, 0, n) {
                Some(v) => {
                    let t = string_of(&v);
                    to_attempt(json_to_md(t.as_str()))
                },
                None => Attempt::Failed(string_of(&chars_of("文件编码不是 UTF-8"))),
            }
        },
        Format::Csv => {
            let t = text_lossy(bytes);
            to_attempt(csv_to_md(t.as_str()))
        },
        Format::Plain => Attempt::Converted(text_lossy(bytes)),
        Format::Unsupported(_) => Attempt::Skip,
    }
}

/// Whether `g` is among `tried`.
fn was_tried(tried: &Vec<Format>, g: Format) -> (b: bool)
    ensures
        b == exists|k: int| 0 <= k < tried@.len() && same_format(#[trigger] tried@[k], g),
{
    let mut k: usize = 0;
    while k < tried.len()
        invariant
            k <= tried.len(),
            forall|m: int| 0 <= m < k ==> !same_format(#[trigger] tried@[m], g),
        decreases tried.len() - k,
    {
        if tried[k] == g {
            return true;
        }
        k = k + 1;
    }
    false
}

/// Converts a file's content to Markdown. The guesses by extension and by
/// content are tried in turn (a guess already tried is skipped): the first
/// converter that succeeds gives the Markdown, normalised; a DOCX, HTML,
/// JSON or CSV converter that fails ends the chain with its reason; when
/// every guess is passed over the file is unsupported.
pub fn convert_bytes(path: &str, bytes: &[u8]) -> (r: Result<String, Error>)
    requires
        sniff_ok(bytes@),
    ensures
        outcome(r) == conversion(path@, bytes@),
{
    let (by_ext, by_magic) = guesses(path, bytes);
    let mut list: Vec<Format> = Vec::new();
    if let Some(g) = by_ext {
        list.push(g);
    }
    if let Some(g) = by_magic {
        list.push(g);
    }
    assert(list@ =~= guess_list(path@, bytes@));
    let mut tried: Vec<Format> = Vec::new();
    let mut i: usize = 0;
    assert(list@.skip(0) =~= list@);
    while i < list.len()
        invariant
            i <= list.len(),
            chain(list@.skip(i as int), tried@, bytes@) == conversion(path@, bytes@),
        decreases list.len() - i,
    {
        let guess = list[i];
        assert(list@.skip(i as int).drop_first() =~= list@.skip(i + 1));
        if was_tried(&tried, guess) {
            i = i + 1;
            continue;
        }
        tried.push(guess);
        match dispatch(guess, path, bytes) {
            Attempt::Converted(md) => {
                return Ok(normalize(md.as_str()));
            },
            Attempt::Failed(why) => {
                if matches!(guess, Format::Docx | Format::Html | Format::Json | Format::Csv) {
                    return Err(Error::Conversion(why));
                }
            },
            Attempt::Skip => {},
        }
        i = i + 1;
    }
    assert(list@.skip(i as int) =~= Seq::<Format>::empty());
    Err(Error::Unsupported)
}

} // verus!

verus! {

/// Converts a file's content as `convert_bytes` does, where content
/// sniffing can read it; `None` where sniffing would have to cut the text
/// inside a character at byte 512 (`convert_bytes` refuses such content).
pub fn try_convert_bytes(path: &str, bytes: &[u8]) -> (r: Option<Result<String, Error>>)
    ensures
        r is None <==> !sniff_ok(bytes@),
        r matches Some(res) ==> outcome(res) == conversion(path@, bytes@),
{
    if crate::sniff::sniff_safe(bytes) {
        Some(convert_bytes(path, bytes))
    } else {
        None
    }
}

} // verus!
