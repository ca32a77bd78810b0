//! Taking one file out of a zip archive held in memory.

use vstd::prelude::*;

verus! {

/// Why a file could not be taken out of an archive.
#[derive(Debug, Clone, PartialEq)]
pub enum ZipFailure {
    /// The bytes are not a readable zip archive; the message says why.
    Archive(String),
    /// The archive has no file by that name.
    Missing,
    /// The file is there but could not be read as UTF-8 text; the message says why.
    Read(String),
}

/// What `zip::ZipArchive::new`, `ZipArchive::by_name` and `Read::read_to_string`
/// make of an archive and a file name inside it.
pub uninterp spec fn zip_entry_text(archive: Seq<u8>, name: Seq<char>) -> Result<Seq<char>, ZipFailure>;

/// The text of the file `name` inside the zip archive `archive`
/// (`ZipArchive::new` over a cursor, `by_name`, `read_to_string`), with the
/// failing step's error turned into a message.
#[verifier::external_body]
pub(crate) fn read_zip_entry(archive: &[u8], name: &str) -> (r: Result<String, ZipFailure>)
    ensures
        match (r, zip_entry_text(archive@, name@)) {
            (Ok(s), Ok(t)) => s@ == t,
            (Err(e), Err(f)) => e == f,
            _ => false,
        },
{
    let mut zip = zip::ZipArchive::new(std::io::Cursor::new(archive))
        .map_err(|e| ZipFailure::Archive(e.to_string()))?;
    let mut entry = zip.by_name(name).map_err(|_| ZipFailure::Missing)?;
    let mut text = String::new();
    std::io::Read::read_to_string(&mut entry, &mut text).map_err(|e| ZipFailure::Read(e.to_string()))?;
    Ok(text)
}

} // verus!
