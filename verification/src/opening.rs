//! Opening a file: from its path and size, what has to be read; from what was
//! read, which of the document forms it becomes. The reading itself (the disk,
//! the spreadsheet reader) happens outside; every decision is made here.

use vstd::prelude::*;
use crate::doc::{
    Doc, Limits, Route, RouteModel, route_of, route, path_ext, ext_of, oversize_document,
    text_document, text_document_of,
};
use crate::strs::{decimal, owned};
use crate::text::{decode_text, decoded_text};
use crate::formats::markdown::{render, markdown_html};
use crate::formats::table::{from_delimited, delimited_table};
use crate::formats::tree::{from_json, json_document};
use crate::formats::data::{from_yaml, from_toml, from_xml, yaml_document, toml_document, xml_document};
use crate::formats::excel::{Workbook, workbook_document};
use crate::formats::word::word_document;
use crate::formats::data::xml_root;
use crate::xmlread::xml_events;
use crate::doc::law_extensions_pick_their_parser;

verus! {

/// What has to be read from a file before its document can be made.
#[derive(Debug)]
pub enum Reading {
    /// Nothing: the document follows from the path and the size alone.
    Nothing,
    /// The start of the file as text: the bytes up to this limit and one more,
    /// so that a cut can be told from a file that just fits.
    Text(usize),
    /// The workbook, as the spreadsheet reader opens it.
    Workbook,
    /// The whole file, which is a zip archive.
    Archive,
}

/// What has to be read for a file at `path` of `size` bytes: nothing for a
/// file over the size limit, a pdf or a picture; all of a csv or tsv file;
/// the workbook of a spreadsheet; the archive of a docx or odt file; and up to
/// `max_text_bytes` of anything else.
pub open spec fn reading_of(path: Seq<char>, size: u64, limits: Limits) -> Reading {
    if size > limits.max_file_bytes {
        Reading::Nothing
    } else {
        match route_of(path_ext(path)) {
            RouteModel::Delimited => Reading::Text(usize::MAX),
            RouteModel::Pdf => Reading::Nothing,
            RouteModel::Image(_) => Reading::Nothing,
            RouteModel::Spreadsheet => Reading::Workbook,
            RouteModel::Word => Reading::Archive,
            _ => Reading::Text(limits.max_text_bytes),
        }
    }
}

/// What was read from a file, as `reading_for` asked.
pub enum Contents {
    /// Nothing was read.
    Nothing,
    /// The bytes read from the start of the file.
    Bytes(Vec<u8>),
    /// The workbook, or why it could not be opened.
    Book(Result<Workbook, String>),
    /// All bytes of the file, or why they could not be read.
    File(Result<Vec<u8>, String>),
}

/// `c` is what reading `r` gives.
pub open spec fn fits(r: Reading, c: Contents) -> bool {
    match r {
        Reading::Nothing => c is Nothing,
        Reading::Text(_) => c is Bytes,
        Reading::Workbook => c is Book,
        Reading::Archive => c is File,
    }
}

/// `d` is the document of a file at `path` of `size` bytes (`size_mb` being
/// that size in megabytes as printed), given what was read from it: a file
/// over the size limit is refused; otherwise its extension picks the parser,
/// and text is decoded as `decode_text` does.
pub open spec fn opened(path: Seq<char>, size: u64, size_mb: Seq<char>, limits: Limits, c: Contents, d: Doc) -> bool {
    let ext = path_ext(path);
    let t = limits.max_text_bytes;
    if size > limits.max_file_bytes {
        d matches Doc::Unsupported { ext: e, message } && e@ == ext && message@
            == "Файл слишком большой: "@ + size_mb + " МБ. Предел — "@ + decimal(
            (limits.max_file_bytes / 1048576) as nat,
        ) + " МБ."@
    } else {
        match (route_of(ext), c) {
            (RouteModel::Markdown, Contents::Bytes(b)) => d matches Doc::Html { html } && html@
                == markdown_html(decoded_text(b@, t)),
            (RouteModel::Delimited, Contents::Bytes(b)) => delimited_table(
                decoded_text(b@, usize::MAX),
                ext,
                limits.max_rows,
                d,
            ),
            (RouteModel::Json, Contents::Bytes(b)) => json_document(decoded_text(b@, t), d),
            (RouteModel::Yaml, Contents::Bytes(b)) => yaml_document(decoded_text(b@, t), d),
            (RouteModel::Toml, Contents::Bytes(b)) => toml_document(decoded_text(b@, t), d),
            (RouteModel::Xml, Contents::Bytes(b)) => xml_document(decoded_text(b@, t), d),
            (RouteModel::Pdf, _) => d matches Doc::Page { note } && note@.len() == 0,
            (RouteModel::Spreadsheet, Contents::Book(book)) => workbook_document(
                ext,
                book,
                limits.max_rows,
                d,
            ),
            (RouteModel::Word, Contents::File(file)) => word_document(
                ext,
                match file {
                    Ok(bytes) => Ok(bytes@),
                    Err(m) => Err(m@),
                },
                d,
            ),
            (RouteModel::Image(m), _) => d matches Doc::Image { mime } && mime@ == m,
            (RouteModel::PlainText, Contents::Bytes(b)) => text_document_of(
                ext,
                decoded_text(b@, t),
                b@.len() > t,
                d,
            ),
            _ => false,
        }
    }
}

/// What has to be read from the file at `path`, of `size` bytes, before
/// `open_document` can make its document.
pub fn reading_for(path: &str, size: u64, limits: Limits) -> (r: Reading)
    ensures
        r == reading_of(path@, size, limits),
{
    if size > limits.max_file_bytes {
        return Reading::Nothing;
    }
    let ext = ext_of(path);
    match route(ext.as_str()) {
        Route::Delimited => Reading::Text(usize::MAX),
        Route::Pdf => Reading::Nothing,
        Route::Image(_) => Reading::Nothing,
        Route::Spreadsheet => Reading::Workbook,
        Route::Word => Reading::Archive,
        _ => Reading::Text(limits.max_text_bytes),
    }
}

/// Opens a file in one of the document forms. The dispatch is deliberately
/// flat: this is the one place where an extension turns into a parser.
/// `contents` is what `reading_for` said to read; `size_mb` is the size in
/// megabytes as the refusal of a too-large file prints it.
pub fn open_document(path: &str, size: u64, size_mb: &str, limits: Limits, contents: Contents) -> (r: Doc)
    requires
        fits(reading_of(path@, size, limits), contents),
    ensures
        opened(path@, size, size_mb@, limits, contents, r),
{
    let ext = ext_of(path);
    if size > limits.max_file_bytes {
        return oversize_document(ext, size_mb, limits);
    }
    let t = limits.max_text_bytes;
    match (route(ext.as_str()), contents) {
        (Route::Markdown, Contents::Bytes(b)) => {
            let (s, _) = decode_text(b, t);
            render(s.as_str())
        },
        (Route::Delimited, Contents::Bytes(b)) => {
            let (s, _) = decode_text(b, usize::MAX);
            from_delimited(s.as_str(), ext.as_str(), limits.max_rows)
        },
        (Route::Json, Contents::Bytes(b)) => {
            let (s, _) = decode_text(b, t);
            from_json(s.as_str())
        },
        (Route::Yaml, Contents::Bytes(b)) => {
            let (s, _) = decode_text(b, t);
            from_yaml(s.as_str())
        },
        (Route::Toml, Contents::Bytes(b)) => {
            let (s, _) = decode_text(b, t);
            from_toml(s.as_str())
        },
        (Route::Xml, Contents::Bytes(b)) => {
            let (s, _) = decode_text(b, t);
            from_xml(s.as_str())
        },
        (Route::Pdf, _) => Doc::Page { note: String::new() },
        (Route::Spreadsheet, Contents::Book(book)) => crate::formats::excel::read(
            path,
            book,
            limits.max_rows,
        ),
        (Route::Word, Contents::File(file)) => crate::formats::word::read(path, file),
        (Route::Image(m), _) => Doc::Image { mime: owned(m) },
        (Route::PlainText, Contents::Bytes(b)) => {
            let (s, truncated) = decode_text(b, t);
            text_document(ext, s, truncated)
        },
        (_, other) => {
            proof {
                assert(false);
            }
            Doc::Page { note: String::new() }
        },
    }
}

/// An `.xml` file within the size limit whose text the reader gets through,
/// finding a tag, opens as a tree; json, yaml and toml files that parse do too.
pub proof fn law_data_files_open_as_trees(path: Seq<char>, size: u64, size_mb: Seq<char>, limits: Limits, b: Vec<u8>, d: Doc)
    requires
        size <= limits.max_file_bytes,
        opened(path, size, size_mb, limits, Contents::Bytes(b), d),
    ensures
        path_ext(path) == "xml"@ && (xml_root(xml_events(decoded_text(b@, limits.max_text_bytes), true))
            matches Ok(Some(_))) ==> d is Tree,
        path_ext(path) == "json"@ ==> json_document(decoded_text(b@, limits.max_text_bytes), d),
        path_ext(path) == "yaml"@ || path_ext(path) == "yml"@ ==> yaml_document(
            decoded_text(b@, limits.max_text_bytes),
            d,
        ),
        path_ext(path) == "toml"@ ==> toml_document(decoded_text(b@, limits.max_text_bytes), d),
{
    law_extensions_pick_their_parser(path_ext(path));
}

} // verus!
