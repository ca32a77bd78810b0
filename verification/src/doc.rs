//! The document forms, the limits that keep the window responsive, and the
//! decisions made from a file's extension: its category, its picture type,
//! and which parser turns it into a document.

use vstd::prelude::*;
use crate::strs::{chars_of, is_word, ascii_lower, ascii_lower_char, lower_ascii_chars, string_of};
use crate::formats::code::{lang_for, language_of};
use crate::strs::{owned, decimal, decimal_string};
use crate::text::{looks_binary, binary_prefix};
use vstd::string::StringSliceAdditionalSpecFns;


verus! {

/// The forms in which a document reaches the interface.
#[derive(Debug, Clone, PartialEq)]
pub enum Doc {
    /// Plain text: logs, configs, source code.
    Text {
        text: String,
        /// Highlighting hint such as "rust", "python", "yaml".
        lang: Option<String>,
        truncated: bool,
    },
    /// Ready markup: markdown, docx, odt.
    Html { html: String },
    /// A table: csv, tsv, spreadsheets.
    Table {
        columns: Vec<String>,
        rows: Vec<Vec<String>>,
        total_rows: usize,
        truncated: bool,
        /// The delimiter the file turned out to use (or, for a workbook, the sheet).
        delimiter: String,
    },
    /// A tree: json, yaml, toml, xml.
    Tree { json: serde_json::Value },
    /// Pages: pdf. The bytes travel separately.
    Page { note: String },
    /// A picture. The bytes travel separately.
    Image { mime: String },
    /// The format is known but cannot be shown; the message says why.
    Unsupported { ext: String, message: String },
}

/// Limits that keep the window from hanging on a huge file.
#[derive(Debug, Clone, Copy)]
pub struct Limits {
    /// At most this many bytes are read from a text file.
    pub max_text_bytes: usize,
    /// At most this many table rows are returned at once.
    pub max_rows: usize,
    /// Files larger than this are not opened at all.
    pub max_file_bytes: u64,
}

impl Default for Limits {
    fn default() -> (r: Self)
        ensures
            r.max_text_bytes == 2 * 1024 * 1024,
            r.max_rows == 5000,
            r.max_file_bytes == 512 * 1024 * 1024,
    {
        Limits { max_text_bytes: 2 * 1024 * 1024, max_rows: 5000, max_file_bytes: 512 * 1024 * 1024 }
    }
}

/// Index of the last occurrence of `c` in `s`, or -1.
pub open spec fn last_index_of(s: Seq<char>, c: char) -> int
    decreases s.len(),
{
    if s.len() == 0 {
        -1
    } else if s.last() == c {
        s.len() - 1
    } else {
        last_index_of(s.drop_last(), c)
    }
}

/// The path separator: `/`, the only one `Path` knows on Unix. (Paths from a
/// Windows disk are handed over with `/` in place of `\`.)
pub open spec fn is_separator(c: char) -> bool {
    c == '/'
}

/// Index of the last separator in `s`, or -1.
pub open spec fn last_separator(s: Seq<char>) -> int
    decreases s.len(),
{
    if s.len() == 0 {
        -1
    } else if is_separator(s.last()) {
        s.len() - 1
    } else {
        last_separator(s.drop_last())
    }
}

pub proof fn lemma_last_separator_bounds(s: Seq<char>)
    ensures
        -1 <= last_separator(s) < s.len(),
        last_separator(s) >= 0 ==> is_separator(s[last_separator(s)]),
        forall|i: int| last_separator(s) < i < s.len() ==> !is_separator(#[trigger] s[i]),
    decreases s.len(),
{
    if s.len() > 0 && !is_separator(s.last()) {
        lemma_last_separator_bounds(s.drop_last());
        assert forall|i: int| last_separator(s) < i < s.len() implies !is_separator(#[trigger] s[i]) by {
            if i < s.len() - 1 {
                assert(s[i] == s.drop_last()[i]);
            }
        }
    }
}

/// The name of the last component of a `/`-separated path, read as
/// `Path::file_name` documents it: repeated separators and
/// `.` components are skipped, and a path that ends in `..` (or has no
/// component at all) has no name.
pub open spec fn file_name_of(p: Seq<char>) -> Option<Seq<char>>
    decreases p.len(),
{
    let k = last_separator(p);
    let piece = p.skip(k + 1);
    if piece.len() == 0 || piece == "."@ {
        if k < 0 {
            None
        } else {
            proof {
                lemma_last_separator_bounds(p);
            }
            file_name_of(p.take(k))
        }
    } else if piece == ".."@ {
        None
    } else {
        Some(piece)
    }
}

/// The extension of a file name, as `Path::extension` documents it: the part
/// after the last `.`, unless there is no `.` or the only one starts the name.
pub open spec fn extension_of(name: Seq<char>) -> Option<Seq<char>> {
    let k = last_index_of(name, '.');
    if k <= 0 {
        None
    } else {
        Some(name.skip(k + 1))
    }
}

/// The lower-case extension of a path, without the dot; empty when it has none.
pub open spec fn path_ext(p: Seq<char>) -> Seq<char> {
    match file_name_of(p) {
        Some(name) => match extension_of(name) {
            Some(e) => ascii_lower(e),
            None => Seq::empty(),
        },
        None => Seq::empty(),
    }
}

pub proof fn lemma_last_index_bounds(s: Seq<char>, c: char)
    ensures
        -1 <= last_index_of(s, c) < s.len(),
        last_index_of(s, c) >= 0 ==> s[last_index_of(s, c)] == c,
        forall|i: int| last_index_of(s, c) < i < s.len() ==> s[i] != c,
    decreases s.len(),
{
    if s.len() > 0 && s.last() != c {
        lemma_last_index_bounds(s.drop_last(), c);
        assert forall|i: int| last_index_of(s, c) < i < s.len() implies s[i] != c by {
            if i < s.len() - 1 {
                assert(s[i] == s.drop_last()[i]);
            }
        }
    }
}

/// Finds the last occurrence of `c` in `v[..end]`.
pub fn find_last(v: &Vec<char>, end: usize, c: char) -> (r: Option<usize>)
    requires
        end <= v.len(),
    ensures
        match r {
            Some(k) => k < end && last_index_of(v@.take(end as int), c) == k as int,
            None => last_index_of(v@.take(end as int), c) == -1,
        },
{
    let mut i: usize = end;
    while i > 0
        invariant
            i <= end <= v.len(),
            last_index_of(v@.take(end as int), c) == last_index_of(v@.take(i as int), c),
        decreases i,
    {
        if v[i - 1] == c {
            assert(v@.take(i as int).last() == c);
            return Some(i - 1);
        }
        assert(v@.take(i as int).drop_last() =~= v@.take(i - 1));
        i = i - 1;
    }
    None
}

/// Finds the last separator in `v[..end]`.
fn find_last_separator(v: &Vec<char>, end: usize) -> (r: Option<usize>)
    requires
        end <= v.len(),
    ensures
        match r {
            Some(k) => k < end && last_separator(v@.take(end as int)) == k as int,
            None => last_separator(v@.take(end as int)) == -1,
        },
{
    let mut i: usize = end;
    while i > 0
        invariant
            i <= end <= v.len(),
            last_separator(v@.take(end as int)) == last_separator(v@.take(i as int)),
        decreases i,
    {
        if v[i - 1] == '/' {
            assert(is_separator(v@.take(i as int).last()));
            return Some(i - 1);
        }
        assert(v@.take(i as int).drop_last() =~= v@.take(i - 1));
        i = i - 1;
    }
    None
}

/// Copies `v[from..to]`.
pub fn slice_chars(v: &Vec<char>, from: usize, to: usize) -> (r: Vec<char>)
    requires
        from <= to <= v.len(),
    ensures
        r@ == v@.subrange(from as int, to as int),
{
    let mut r: Vec<char> = Vec::new();
    let mut i: usize = from;
    while i < to
        invariant
            from <= i <= to <= v.len(),
            r@ == v@.subrange(from as int, i as int),
        decreases to - i,
    {
        r.push(v[i]);
        assert(v@.subrange(from as int, i + 1) =~= v@.subrange(from as int, i as int).push(v@[i as int]));
        i = i + 1;
    }
    r
}

/// The name of the last component of the path `p` (see `file_name_of`).
pub fn file_name_chars(p: &Vec<char>) -> (r: Option<Vec<char>>)
    ensures
        match r {
            Some(n) => file_name_of(p@) == Some(n@),
            None => file_name_of(p@) is None,
        },
{
    let mut end: usize = p.len();
    assert(p@.take(end as int) =~= p@);
    loop
        invariant
            end <= p.len(),
            file_name_of(p@) == file_name_of(p@.take(end as int)),
        decreases end,
    {
        let ghost q = p@.take(end as int);
        let k = find_last_separator(p, end);
        let start: usize = match k {
            Some(k) => k + 1,
            None => 0,
        };
        proof {
            lemma_last_separator_bounds(q);
        }
        let piece = slice_chars(p, start, end);
        assert(piece@ =~= q.skip(last_separator(q) + 1));
        if piece.len() == 0 || is_word(&piece, ".") {
            match k {
                None => {
                    return None;
                },
                Some(k) => {
                    assert(q.take(k as int) =~= p@.take(k as int));
                    end = k;
                },
            }
        } else if is_word(&piece, "..") {
            return None;
        } else {
            return Some(piece);
        }
    }
}

/// Lower-case extension of a path, without the dot: `"docs/План.MD"` gives `"md"`,
/// a name without an extension gives `""`.
pub fn ext_of(path: &str) -> (r: String)
    ensures
        r@ == path_ext(path@),
{
    let p = chars_of(path);
    match file_name_chars(&p) {
        None => String::new(),
        Some(n) => {
            let k = find_last(&n, n.len(), '.');
            assert(n@.take(n.len() as int) =~= n@);
            match k {
                Some(k) if k > 0 => {
                    let e = slice_chars(&n, k + 1, n.len());
                    assert(e@ =~= n@.skip(k + 1));
                    let l = lower_ascii_chars(&e);
                    string_of(&l)
                },
                _ => String::new(),
            }
        },
    }
}

/// The extension of a path is lower-case and holds no dot: whatever the case of
/// the name on disk, `ext_of` gives the same extension.
pub proof fn law_extension_lower_case_without_dot(p: Seq<char>)
    ensures
        forall|i: int|
            0 <= i < path_ext(p).len() ==> #[trigger] path_ext(p)[i] != '.' && !('A' <= path_ext(
                p,
            )[i] && path_ext(p)[i] <= 'Z'),
{
    match file_name_of(p) {
        Some(name) => match extension_of(name) {
            Some(e) => {
                let k = last_index_of(name, '.');
                lemma_last_index_bounds(name, '.');
                assert forall|i: int| 0 <= i < e.len() implies e[i] != '.' by {
                    assert(e[i] == name[k + 1 + i]);
                }
                assert forall|i: int| 0 <= i < path_ext(p).len() implies #[trigger] path_ext(p)[i]
                    != '.' && !('A' <= path_ext(p)[i] && path_ext(p)[i] <= 'Z') by {
                    assert(path_ext(p)[i] == ascii_lower_char(e[i]));
                }
            },
            None => {},
        },
        None => {},
    }
}

/// The picture type of an image extension, `None` when it is not a picture.
pub open spec fn image_type(e: Seq<char>) -> Option<Seq<char>> {
    if e == "png"@ {
        Some("image/png"@)
    } else if e == "jpg"@ || e == "jpeg"@ {
        Some("image/jpeg"@)
    } else if e == "gif"@ {
        Some("image/gif"@)
    } else if e == "webp"@ {
        Some("image/webp"@)
    } else if e == "avif"@ {
        Some("image/avif"@)
    } else if e == "bmp"@ {
        Some("image/bmp"@)
    } else if e == "ico"@ {
        Some("image/x-icon"@)
    } else if e == "svg"@ {
        Some("image/svg+xml"@)
    } else {
        None
    }
}

/// Picture type by extension; `None` means the file is not a picture.
pub fn mime_of(ext: &str) -> (r: Option<&'static str>)
    ensures
        match r {
            Some(s) => image_type(ext@) == Some(s@),
            None => image_type(ext@) is None,
        },
{
    let e = chars_of(ext);
    if is_word(&e, "png") {
        Some("image/png")
    } else if is_word(&e, "jpg") || is_word(&e, "jpeg") {
        Some("image/jpeg")
    } else if is_word(&e, "gif") {
        Some("image/gif")
    } else if is_word(&e, "webp") {
        Some("image/webp")
    } else if is_word(&e, "avif") {
        Some("image/avif")
    } else if is_word(&e, "bmp") {
        Some("image/bmp")
    } else if is_word(&e, "ico") {
        Some("image/x-icon")
    } else if is_word(&e, "svg") {
        Some("image/svg+xml")
    } else {
        None
    }
}

/// The category shown in the file list for an extension.
pub open spec fn category_of(e: Seq<char>) -> Seq<char> {
    if e == "md"@ || e == "markdown"@ || e == "mdown"@ || e == "mkd"@ {
        "doc"@
    } else if e == "pdf"@ || e == "docx"@ || e == "odt"@ || e == "rtf"@ || e == "epub"@ {
        "doc"@
    } else if e == "csv"@ || e == "tsv"@ || e == "xlsx"@ || e == "xlsm"@ || e == "xls"@ || e
        == "xlsb"@ || e == "ods"@ || e == "parquet"@ {
        "table"@
    } else if e == "json"@ || e == "yaml"@ || e == "yml"@ || e == "toml"@ || e == "xml"@ || e
        == "ini"@ || e == "conf"@ {
        "data"@
    } else if e == "txt"@ || e == "log"@ || e.len() == 0 {
        "text"@
    } else if image_type(e) is Some {
        "image"@
    } else if language_of(e) is Some {
        "code"@
    } else {
        "other"@
    }
}

/// Category of a file for the list on the left:
/// doc | table | data | text | image | code | other.
pub fn category(ext: &str) -> (r: &'static str)
    ensures
        r@ == category_of(ext@),
{
    let e = chars_of(ext);
    if is_word(&e, "md") || is_word(&e, "markdown") || is_word(&e, "mdown") || is_word(&e, "mkd") {
        "doc"
    } else if is_word(&e, "pdf") || is_word(&e, "docx") || is_word(&e, "odt") || is_word(&e, "rtf")
        || is_word(&e, "epub") {
        "doc"
    } else if is_word(&e, "csv") || is_word(&e, "tsv") || is_word(&e, "xlsx") || is_word(&e, "xlsm")
        || is_word(&e, "xls") || is_word(&e, "xlsb") || is_word(&e, "ods") || is_word(
        &e,
        "parquet",
    ) {
        "table"
    } else if is_word(&e, "json") || is_word(&e, "yaml") || is_word(&e, "yml") || is_word(&e, "toml")
        || is_word(&e, "xml") || is_word(&e, "ini") || is_word(&e, "conf") {
        "data"
    } else if is_word(&e, "txt") || is_word(&e, "log") || e.len() == 0 {
        "text"
    } else if mime_of(ext).is_some() {
        "image"
    } else if lang_for(ext).is_some() {
        "code"
    } else {
        "other"
    }
}

/// Which parser a file goes to, decided by its extension alone.
#[derive(Debug, PartialEq)]
pub enum Route {
    /// md, markdown, mdown, mkd → `Html`.
    Markdown,
    /// csv, tsv → `Table`.
    Delimited,
    /// json → `Tree`.
    Json,
    /// yaml, yml → `Tree`.
    Yaml,
    /// toml → `Tree`.
    Toml,
    /// xml → `Tree`.
    Xml,
    /// pdf → `Page`.
    Pdf,
    /// xlsx, xlsm, xls, xlsb, ods → `Table`.
    Spreadsheet,
    /// docx, odt → `Html`.
    Word,
    /// A picture of the given type → `Image`.
    Image(&'static str),
    /// Anything else is read as text.
    PlainText,
}

/// The parser for an extension, as a plain tag (pictures carry their type).
pub enum RouteModel {
    Markdown,
    Delimited,
    Json,
    Yaml,
    Toml,
    Xml,
    Pdf,
    Spreadsheet,
    Word,
    Image(Seq<char>),
    PlainText,
}

/// The parser for an extension: one flat list, the one place where an
/// extension turns into a parser.
pub open spec fn route_of(e: Seq<char>) -> RouteModel {
    if e == "md"@ || e == "markdown"@ || e == "mdown"@ || e == "mkd"@ {
        RouteModel::Markdown
    } else if e == "csv"@ || e == "tsv"@ {
        RouteModel::Delimited
    } else if e == "json"@ {
        RouteModel::Json
    } else if e == "yaml"@ || e == "yml"@ {
        RouteModel::Yaml
    } else if e == "toml"@ {
        RouteModel::Toml
    } else if e == "xml"@ {
        RouteModel::Xml
    } else if e == "pdf"@ {
        RouteModel::Pdf
    } else if e == "xlsx"@ || e == "xlsm"@ || e == "xls"@ || e == "xlsb"@ || e == "ods"@ {
        RouteModel::Spreadsheet
    } else if e == "docx"@ || e == "odt"@ {
        RouteModel::Word
    } else if image_type(e) is Some {
        RouteModel::Image(image_type(e)->0)
    } else {
        RouteModel::PlainText
    }
}

/// The model of a route.
pub open spec fn route_model(r: Route) -> RouteModel {
    match r {
        Route::Markdown => RouteModel::Markdown,
        Route::Delimited => RouteModel::Delimited,
        Route::Json => RouteModel::Json,
        Route::Yaml => RouteModel::Yaml,
        Route::Toml => RouteModel::Toml,
        Route::Xml => RouteModel::Xml,
        Route::Pdf => RouteModel::Pdf,
        Route::Spreadsheet => RouteModel::Spreadsheet,
        Route::Word => RouteModel::Word,
        Route::Image(m) => RouteModel::Image(m@),
        Route::PlainText => RouteModel::PlainText,
    }
}

/// The parser a file with extension `ext` (lower-case, no dot) goes to.
pub fn route(ext: &str) -> (r: Route)
    ensures
        route_model(r) == route_of(ext@),
{
    let e = chars_of(ext);
    if is_word(&e, "md") || is_word(&e, "markdown") || is_word(&e, "mdown") || is_word(&e, "mkd") {
        Route::Markdown
    } else if is_word(&e, "csv") || is_word(&e, "tsv") {
        Route::Delimited
    } else if is_word(&e, "json") {
        Route::Json
    } else if is_word(&e, "yaml") || is_word(&e, "yml") {
        Route::Yaml
    } else if is_word(&e, "toml") {
        Route::Toml
    } else if is_word(&e, "xml") {
        Route::Xml
    } else if is_word(&e, "pdf") {
        Route::Pdf
    } else if is_word(&e, "xlsx") || is_word(&e, "xlsm") || is_word(&e, "xls") || is_word(&e, "xlsb")
        || is_word(&e, "ods") {
        Route::Spreadsheet
    } else if is_word(&e, "docx") || is_word(&e, "odt") {
        Route::Word
    } else {
        match mime_of(ext) {
            Some(m) => Route::Image(m),
            None => Route::PlainText,
        }
    }
}

/// A picture is listed as an image exactly when it opens as one: the file list
/// puts an extension under "image" if and only if it has a picture type, and
/// such a file goes to the image form with that type.
pub proof fn law_pictures_list_and_open_as_images(e: Seq<char>)
    ensures
        (category_of(e) == "image"@) <==> (image_type(e) is Some),
        image_type(e) is Some ==> route_of(e) == RouteModel::Image(image_type(e)->0),
{
    reveal_strlit("md");
    reveal_strlit("markdown");
    reveal_strlit("mdown");
    reveal_strlit("mkd");
    reveal_strlit("pdf");
    reveal_strlit("docx");
    reveal_strlit("odt");
    reveal_strlit("rtf");
    reveal_strlit("epub");
    reveal_strlit("csv");
    reveal_strlit("tsv");
    reveal_strlit("xlsx");
    reveal_strlit("xlsm");
    reveal_strlit("xls");
    reveal_strlit("xlsb");
    reveal_strlit("ods");
    reveal_strlit("parquet");
    reveal_strlit("json");
    reveal_strlit("yaml");
    reveal_strlit("yml");
    reveal_strlit("toml");
    reveal_strlit("xml");
    reveal_strlit("ini");
    reveal_strlit("conf");
    reveal_strlit("txt");
    reveal_strlit("log");
    reveal_strlit("png");
    reveal_strlit("jpg");
    reveal_strlit("jpeg");
    reveal_strlit("gif");
    reveal_strlit("webp");
    reveal_strlit("avif");
    reveal_strlit("bmp");
    reveal_strlit("ico");
    reveal_strlit("svg");
    reveal_strlit("doc");
    reveal_strlit("table");
    reveal_strlit("data");
    reveal_strlit("text");
    reveal_strlit("image");
    reveal_strlit("code");
    reveal_strlit("other");
    assert("table"@[0] != "image"@[0]);
    assert("other"@[0] != "image"@[0]);
    if e == "png"@ {
        assert(e.len() == 3 && e[0] == 'p' && e[1] == 'n' && e[2] == 'g');
    }
    if e == "jpg"@ {
        assert(e.len() == 3 && e[0] == 'j' && e[1] == 'p' && e[2] == 'g');
    }
    if e == "jpeg"@ {
        assert(e.len() == 4 && e[0] == 'j' && e[1] == 'p' && e[2] == 'e' && e[3] == 'g');
    }
    if e == "gif"@ {
        assert(e.len() == 3 && e[0] == 'g' && e[1] == 'i' && e[2] == 'f');
    }
    if e == "webp"@ {
        assert(e.len() == 4 && e[0] == 'w' && e[1] == 'e' && e[2] == 'b' && e[3] == 'p');
    }
    if e == "avif"@ {
        assert(e.len() == 4 && e[0] == 'a' && e[1] == 'v' && e[2] == 'i' && e[3] == 'f');
    }
    if e == "bmp"@ {
        assert(e.len() == 3 && e[0] == 'b' && e[1] == 'm' && e[2] == 'p');
    }
    if e == "ico"@ {
        assert(e.len() == 3 && e[0] == 'i' && e[1] == 'c' && e[2] == 'o');
    }
    if e == "svg"@ {
        assert(e.len() == 3 && e[0] == 's' && e[1] == 'v' && e[2] == 'g');
    }
}

/// Every extension the viewer knows goes to its own parser: markdown to html,
/// csv and tsv to a table, json, yaml, toml and xml to a tree, pdf to pages,
/// spreadsheets to a table and docx / odt to html. The tree parsers and pdf
/// take exactly their own extensions.
pub proof fn law_extensions_pick_their_parser(e: Seq<char>)
    ensures
        route_of("md"@) == RouteModel::Markdown,
        route_of("markdown"@) == RouteModel::Markdown,
        route_of("mdown"@) == RouteModel::Markdown,
        route_of("mkd"@) == RouteModel::Markdown,
        route_of("csv"@) == RouteModel::Delimited,
        route_of("tsv"@) == RouteModel::Delimited,
        route_of("json"@) == RouteModel::Json,
        route_of("yaml"@) == RouteModel::Yaml,
        route_of("yml"@) == RouteModel::Yaml,
        route_of("toml"@) == RouteModel::Toml,
        route_of("xml"@) == RouteModel::Xml,
        route_of("pdf"@) == RouteModel::Pdf,
        route_of("xlsx"@) == RouteModel::Spreadsheet,
        route_of("xlsm"@) == RouteModel::Spreadsheet,
        route_of("xls"@) == RouteModel::Spreadsheet,
        route_of("xlsb"@) == RouteModel::Spreadsheet,
        route_of("ods"@) == RouteModel::Spreadsheet,
        route_of("docx"@) == RouteModel::Word,
        route_of("odt"@) == RouteModel::Word,
        route_of(e) is Json <==> e == "json"@,
        route_of(e) is Yaml <==> e == "yaml"@ || e == "yml"@,
        route_of(e) is Toml <==> e == "toml"@,
        route_of(e) is Xml <==> e == "xml"@,
        route_of(e) is Pdf <==> e == "pdf"@,
{
    reveal_strlit("md");
    reveal_strlit("markdown");
    reveal_strlit("mdown");
    reveal_strlit("mkd");
    reveal_strlit("csv");
    reveal_strlit("tsv");
    reveal_strlit("json");
    reveal_strlit("yaml");
    reveal_strlit("yml");
    reveal_strlit("toml");
    reveal_strlit("xml");
    reveal_strlit("pdf");
    reveal_strlit("xlsx");
    reveal_strlit("xlsm");
    reveal_strlit("xls");
    reveal_strlit("xlsb");
    reveal_strlit("ods");
    reveal_strlit("docx");
    reveal_strlit("odt");
    let e = "md"@;
    assert(e.len() == 2 && e[0] == 'm' && e[1] == 'd');
    let e = "markdown"@;
    assert(e.len() == 8 && e[0] == 'm' && e[1] == 'a' && e[2] == 'r' && e[3] == 'k' && e[4] == 'd' && e[5] == 'o' && e[6] == 'w' && e[7] == 'n');
    let e = "mdown"@;
    assert(e.len() == 5 && e[0] == 'm' && e[1] == 'd' && e[2] == 'o' && e[3] == 'w' && e[4] == 'n');
    let e = "mkd"@;
    assert(e.len() == 3 && e[0] == 'm' && e[1] == 'k' && e[2] == 'd');
    let e = "csv"@;
    assert(e.len() == 3 && e[0] == 'c' && e[1] == 's' && e[2] == 'v');
    let e = "tsv"@;
    assert(e.len() == 3 && e[0] == 't' && e[1] == 's' && e[2] == 'v');
    let e = "json"@;
    assert(e.len() == 4 && e[0] == 'j' && e[1] == 's' && e[2] == 'o' && e[3] == 'n');
    let e = "yaml"@;
    assert(e.len() == 4 && e[0] == 'y' && e[1] == 'a' && e[2] == 'm' && e[3] == 'l');
    let e = "yml"@;
    assert(e.len() == 3 && e[0] == 'y' && e[1] == 'm' && e[2] == 'l');
    let e = "toml"@;
    assert(e.len() == 4 && e[0] == 't' && e[1] == 'o' && e[2] == 'm' && e[3] == 'l');
    let e = "xml"@;
    assert(e.len() == 3 && e[0] == 'x' && e[1] == 'm' && e[2] == 'l');
    let e = "pdf"@;
    assert(e.len() == 3 && e[0] == 'p' && e[1] == 'd' && e[2] == 'f');
    let e = "xlsx"@;
    assert(e.len() == 4 && e[0] == 'x' && e[1] == 'l' && e[2] == 's' && e[3] == 'x');
    let e = "xlsm"@;
    assert(e.len() == 4 && e[0] == 'x' && e[1] == 'l' && e[2] == 's' && e[3] == 'm');
    let e = "xls"@;
    assert(e.len() == 3 && e[0] == 'x' && e[1] == 'l' && e[2] == 's');
    let e = "xlsb"@;
    assert(e.len() == 4 && e[0] == 'x' && e[1] == 'l' && e[2] == 's' && e[3] == 'b');
    let e = "ods"@;
    assert(e.len() == 3 && e[0] == 'o' && e[1] == 'd' && e[2] == 's');
    let e = "docx"@;
    assert(e.len() == 4 && e[0] == 'd' && e[1] == 'o' && e[2] == 'c' && e[3] == 'x');
    let e = "odt"@;
    assert(e.len() == 3 && e[0] == 'o' && e[1] == 'd' && e[2] == 't');
}

/// Files larger than the limit are not opened at all.
pub fn is_too_large(size: u64, limits: Limits) -> (r: bool)
    ensures
        r == (size > limits.max_file_bytes),
{
    size > limits.max_file_bytes
}

/// The refusal for a file over the size limit. `size_mb` is the file's size in
/// megabytes as the interface prints it (one decimal place).
pub fn oversize_document(ext: String, size_mb: &str, limits: Limits) -> (r: Doc)
    ensures
        r matches Doc::Unsupported { ext: e, message } && e == ext && message@
            == "Файл слишком большой: "@ + size_mb@ + " МБ. Предел — "@ + decimal(
            (limits.max_file_bytes / 1048576) as nat,
        ) + " МБ."@,
{
    let mut message = owned("Файл слишком большой: ");
    message.append(size_mb);
    message.append(" МБ. Предел — ");
    message.append(decimal_string(limits.max_file_bytes / 1048576).as_str());
    message.append(" МБ.");
    Doc::Unsupported { ext, message }
}

/// `d` is the document for a file read as text: binary-looking text is refused,
/// anything else is shown as text with its language hint.
pub open spec fn text_document_of(ext: Seq<char>, text: Seq<char>, truncated: bool, d: Doc) -> bool {
    if binary_prefix(vstd::utf8::encode_utf8(text)).contains(0u8) {
        d matches Doc::Unsupported { ext: e, message } && e@ == ext && message@
            == "Похоже на двоичный файл — показывать нечего"@
    } else {
        &&& d matches Doc::Text { text: t, lang, truncated: tr }
        &&& t@ == text
        &&& tr == truncated
        &&& match (lang, language_of(ext)) {
            (Some(l), Some(lv)) => l@ == lv,
            (None, None) => true,
            _ => false,
        }
    }
}

/// A file read as text → `Text`, or `Unsupported` when it looks binary.
pub fn text_document(ext: String, text: String, truncated: bool) -> (r: Doc)
    ensures
        text_document_of(ext@, text@, truncated, r),
{
    if looks_binary(text.as_str().as_bytes()) {
        return Doc::Unsupported { ext, message: owned("Похоже на двоичный файл — показывать нечего") };
    }
    let lang = match lang_for(ext.as_str()) {
        Some(l) => Some(owned(l)),
        None => None,
    };
    Doc::Text { text, lang, truncated }
}

} // verus!
