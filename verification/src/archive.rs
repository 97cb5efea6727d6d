//! Reading the entries of a ZIP archive (a `.docx` file) through the `zip`
//! crate. What the crate reads is named, not restated: the contracts say how
//! the results of the calls relate to one another and to the bytes.

use vstd::prelude::*;

verus! {

/// `std::io::Cursor`, as an opaque type.
#[verifier::external_type_specification]
#[verifier::external_body]
#[verifier::reject_recursive_types(T)]
pub struct ExCursor<T>(std::io::Cursor<T>);

/// `zip::ZipArchive`, as an opaque type.
#[verifier::external_type_specification]
#[verifier::external_body]
#[verifier::reject_recursive_types(R)]
pub struct ExZipArchive<R>(zip::ZipArchive<R>);

/// An entry opened for reading: a `zip::read::ZipFile` over the archive's
/// cursor, kept in a private field of an opaque struct because the type
/// parameter of `ZipFile` carries a `std::io::Read` bound.
#[verifier::external_body]
pub struct OpenEntry<'a> {
    file: zip::read::ZipFile<'a, std::io::Cursor<Vec<u8>>>,
}

/// What one opened entry gives: the outcome of reading its name, and the
/// outcome of reading its content as UTF-8 text (an error as its message).
pub type FileView = (Result<Seq<char>, Seq<char>>, Result<Seq<char>, Seq<char>>);

/// What opening entry `i` of an archive gives: the entry, or the message of
/// the error.
pub type EntryView = Result<FileView, Seq<char>>;

/// A name for what `zip::ZipArchive::new` makes of the bytes `b`: the
/// message of its error, or the entries of the archive, in index order.
pub uninterp spec fn zip_listing(b: Seq<u8>) -> Result<Seq<EntryView>, Seq<char>>;

/// A name for the entries, in index order, that the archive `a` holds.
pub uninterp spec fn zip_entries(a: zip::ZipArchive<std::io::Cursor<Vec<u8>>>) -> Seq<EntryView>;

/// A name for what the opened entry `f` holds.
pub uninterp spec fn zip_file(f: OpenEntry) -> FileView;


/// Opens the archive in `bytes` with `zip::ZipArchive::new` (over a
/// `Cursor` on a copy of the bytes). The outcome is `zip_listing(bytes)`:
/// its error message, or an archive whose entries it lists.
#[verifier::external_body]
pub(crate) fn zip_open(bytes: &[u8]) -> (r: Result<zip::ZipArchive<std::io::Cursor<Vec<u8>>>, String>)
    ensures
        match r {
            Ok(a) => zip_listing(bytes@) == Ok::<Seq<EntryView>, Seq<char>>(zip_entries(a)),
            Err(e) => zip_listing(bytes@) == Err::<Seq<EntryView>, Seq<char>>(e@),
        },
{
    zip::ZipArchive::new(std::io::Cursor::new(bytes.to_vec())).map_err(|e| e.to_string())
}

/// The number of entries of the archive (`zip::ZipArchive::len`).
#[verifier::external_body]
pub(crate) fn zip_len(a: &zip::ZipArchive<std::io::Cursor<Vec<u8>>>) -> (n: usize)
    ensures
        n == zip_entries(*a).len(),
{
    a.len()
}

/// Opens entry `i` (`zip::ZipArchive::by_index`): the entry that the
/// archive lists at `i`, or the message of the error it lists there.
/// Opening leaves the entries as they were.
#[verifier::external_body]
pub(crate) fn zip_by_index<'a>(a: &'a mut zip::ZipArchive<std::io::Cursor<Vec<u8>>>, i: usize) -> (r: Result<OpenEntry<'a>, String>)
    requires
        i < zip_entries(*old(a)).len(),
    ensures
        zip_entries(*final(a)) == zip_entries(*old(a)),
        match r {
            Ok(f) => zip_entries(*old(a))[i as int] == Ok::<FileView, Seq<char>>(zip_file(f)),
            Err(e) => zip_entries(*old(a))[i as int] == Err::<FileView, Seq<char>>(e@),
        },
{
    a.by_index(i).map(|file| OpenEntry { file }).map_err(|e| e.to_string())
}

/// The name of an opened entry (`zip::read::ZipFile::name`), an error as
/// its message.
#[verifier::external_body]
pub(crate) fn zip_file_name(f: &OpenEntry<'_>) -> (r: Result<String, String>)
    ensures
        match r {
            Ok(s) => zip_file(*f).0 == Ok::<Seq<char>, Seq<char>>(s@),
            Err(e) => zip_file(*f).0 == Err::<Seq<char>, Seq<char>>(e@),
        },
{
    f.file.name().map(|n| n.to_string()).map_err(|e| e.to_string())
}

/// The content of an opened entry as text (`std::io::Read::read_to_string`
/// on the `ZipFile`), an error as its message.
#[verifier::external_body]
pub(crate) fn zip_file_text(f: &mut OpenEntry<'_>) -> (r: Result<String, String>)
    ensures
        match r {
            Ok(s) => zip_file(*old(f)).1 == Ok::<Seq<char>, Seq<char>>(s@),
            Err(e) => zip_file(*old(f)).1 == Err::<Seq<char>, Seq<char>>(e@),
        },
{
    let mut s = String::new();
    match std::io::Read::read_to_string(&mut f.file, &mut s) {
        Ok(_) => Ok(s),
        Err(e) => Err(e.to_string()),
    }
}

} // verus!
