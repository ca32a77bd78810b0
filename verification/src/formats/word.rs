//! docx / odt → the `Html` form.
//!
//! Both formats are zip archives with XML inside, so no heavy converter is
//! needed: the archive gives up the one file that matters, and the XML events
//! are walked once. What makes sense in a viewer is kept: headings, paragraphs,
//! bold and italic, lists and tables. Headers, footers, fields and styles are not.

use vstd::prelude::*;
use crate::doc::Doc;
use crate::strs::{chars_of, is_word, ascii_lower, lower_ascii, owned};
use crate::xmlread::{XmlEvent, XmlTag, xml_events, read_all_xml};
use crate::ziparch::{ZipFailure, zip_entry_text, read_zip_entry};
use crate::doc::{ext_of, path_ext};
use crate::formats::table::{blank, is_blank_text};
use crate::formats::markup::{PageModel, Page, with_raw, with_block, closed_list, escaped, esc, attr, attr_value, heading_of, heading_tag, has_piece, contains_chars, level_tag, level_tag_of, parse_u8, parsed_u8};

verus! {

/// The end of the document or a reader error: nothing after it is read.
pub open spec fn is_last_event(e: XmlEvent) -> bool {
    e is Eof || e is Error
}

/// The value of a `w:val` switch: present and not `0`/`false`, or absent.
pub open spec fn switch_on(v: Option<Seq<char>>) -> bool {
    match v {
        Some(v) => v != "0"@ && v != "false"@,
        None => true,
    }
}

/// Where the walk through a docx body stands.
pub struct DocxState {
    pub page: PageModel,
    /// The paragraph being collected.
    pub para: Seq<char>,
    /// Its style name.
    pub style: Seq<char>,
    pub bold: bool,
    pub italic: bool,
    /// Inside `w:t`, where the text is.
    pub in_text: bool,
    /// The paragraph carries list numbering.
    pub numbered: bool,
}

/// The state before the first event.
pub open spec fn docx_start() -> DocxState {
    DocxState {
        page: PageModel { html: Seq::empty(), cell: None, list_open: false },
        para: Seq::empty(),
        style: Seq::empty(),
        bold: false,
        italic: false,
        in_text: false,
        numbered: false,
    }
}

/// A start (or empty-element) tag in a docx body.
pub open spec fn docx_open(st: DocxState, tag: XmlTag) -> DocxState {
    let n = tag.name@;
    if n == "w:p"@ {
        DocxState { para: Seq::empty(), style: Seq::empty(), numbered: false, ..st }
    } else if n == "w:pStyle"@ {
        DocxState {
            style: match attr_value(tag.attrs@, "w:val"@) {
                Some(v) => v,
                None => Seq::empty(),
            },
            ..st
        }
    } else if n == "w:numPr"@ {
        DocxState { numbered: true, ..st }
    } else if n == "w:r"@ {
        DocxState { bold: false, italic: false, ..st }
    } else if n == "w:b"@ {
        DocxState { bold: switch_on(attr_value(tag.attrs@, "w:val"@)), ..st }
    } else if n == "w:i"@ {
        DocxState { italic: switch_on(attr_value(tag.attrs@, "w:val"@)), ..st }
    } else if n == "w:t"@ {
        DocxState { in_text: true, ..st }
    } else if n == "w:br"@ || n == "w:cr"@ {
        DocxState { para: st.para + "<br>"@, ..st }
    } else if n == "w:tbl"@ {
        DocxState { page: with_raw(st.page, "<table><tbody>"@), ..st }
    } else if n == "w:tr"@ {
        DocxState { page: with_raw(st.page, "<tr>"@), ..st }
    } else if n == "w:tc"@ {
        DocxState { page: PageModel { cell: Some(Seq::empty()), ..st.page }, ..st }
    } else {
        st
    }
}

/// A piece of run text: escaped, then wrapped in `<em>` when italic and in
/// `<strong>` when bold.
pub open spec fn run_piece(st: DocxState, t: Seq<char>) -> Seq<char> {
    let p = escaped(t);
    let p1 = if st.italic {
        "<em>"@ + p + "</em>"@
    } else {
        p
    };
    if st.bold {
        "<strong>"@ + p1 + "</strong>"@
    } else {
        p1
    }
}

/// The block tag a finished paragraph becomes: its heading tag when the style is
/// a heading, a list item when numbered or styled as a list, else a paragraph.
pub open spec fn docx_block_tag(st: DocxState) -> Seq<char> {
    match heading_of(st.style) {
        Some(h) => h,
        None => if st.numbered || has_piece(ascii_lower(st.style), "list"@) {
            "li"@
        } else {
            "p"@
        },
    }
}

/// The cell's content, closed as a `<td>`.
pub open spec fn close_cell(p: PageModel) -> PageModel {
    let c = match p.cell {
        Some(c) => c,
        None => Seq::empty(),
    };
    with_raw(PageModel { cell: None, ..p }, "<td>"@ + c + "</td>"@)
}

/// An end tag in a docx body.
pub open spec fn docx_close(st: DocxState, n: Seq<char>) -> DocxState {
    if n == "w:t"@ {
        DocxState { in_text: false, ..st }
    } else if n == "w:p"@ {
        DocxState { para: Seq::empty(), page: with_block(st.page, docx_block_tag(st), st.para), ..st }
    } else if n == "w:tc"@ {
        DocxState { page: close_cell(st.page), ..st }
    } else if n == "w:tr"@ {
        DocxState { page: with_raw(st.page, "</tr>"@), ..st }
    } else if n == "w:tbl"@ {
        DocxState { page: with_raw(st.page, "</tbody></table>"@), ..st }
    } else {
        st
    }
}

/// One event of a docx body.
pub open spec fn docx_step(st: DocxState, e: XmlEvent) -> DocxState {
    match e {
        XmlEvent::Start(t) => docx_open(st, t),
        XmlEvent::Empty(t) => docx_open(st, t),
        XmlEvent::Text(t) => if st.in_text {
            DocxState { para: st.para + run_piece(st, t@), ..st }
        } else {
            st
        },
        XmlEvent::End(n) => docx_close(st, n@),
        _ => st,
    }
}

/// The walk over the events, stopping at the end of the document or an error.
pub open spec fn docx_run(st: DocxState, evs: Seq<XmlEvent>) -> DocxState
    decreases evs.len(),
{
    if evs.len() == 0 || is_last_event(evs[0]) {
        st
    } else {
        docx_run(docx_step(st, evs[0]), evs.drop_first())
    }
}

/// The HTML of a docx body given its XML events.
pub open spec fn docx_page(evs: Seq<XmlEvent>) -> Seq<char> {
    closed_list(docx_run(docx_start(), evs).page).html
}

/// Each docx paragraph starts afresh: whatever paragraph came before (a list
/// item, a heading, bold text), opening a `w:p` empties the text collected and
/// forgets the style and the list numbering, so the paragraph is a plain `<p>`
/// until its own properties say otherwise. Only its own `w:numPr` makes it a
/// list item.
pub proof fn law_paragraph_starts_plain(st: DocxState, tag: XmlTag)
    requires
        tag.name@ == "w:p"@,
    ensures
        docx_step(st, XmlEvent::Start(tag)).para.len() == 0,
        docx_block_tag(docx_step(st, XmlEvent::Start(tag))) == "p"@,
        docx_block_tag(DocxState { numbered: true, ..docx_step(st, XmlEvent::Start(tag)) }) == "li"@,
        docx_step(st, XmlEvent::Start(tag)).page == st.page,
{
    reveal_strlit("list");
    reveal_strlit("heading");
    let e = Seq::<char>::empty();
    assert(ascii_lower(e) =~= e);
    assert(crate::formats::markup::without_dashes(e) =~= e);
    assert(heading_of(e) is None);
    assert(!has_piece(ascii_lower(e), "list"@));
}

struct DocxWalk {
    page: Page,
    para: String,
    style: String,
    bold: bool,
    italic: bool,
    in_text: bool,
    numbered: bool,
}

impl DocxWalk {
    spec fn model(&self) -> DocxState {
        DocxState {
            page: self.page.model(),
            para: self.para@,
            style: self.style@,
            bold: self.bold,
            italic: self.italic,
            in_text: self.in_text,
            numbered: self.numbered,
        }
    }

    fn open(&mut self, tag: &XmlTag)
        ensures
            final(self).model() == docx_open(old(self).model(), *tag),
    {
        let n = chars_of(tag.name.as_str());
        if is_word(&n, "w:p") {
            self.para = String::new();
            self.style = String::new();
            self.numbered = false;
        } else if is_word(&n, "w:pStyle") {
            self.style = match attr(tag, "w:val") {
                Some(v) => v,
                None => String::new(),
            };
        } else if is_word(&n, "w:numPr") {
            self.numbered = true;
        } else if is_word(&n, "w:r") {
            self.bold = false;
            self.italic = false;
        } else if is_word(&n, "w:b") {
            self.bold = switch_value(attr(tag, "w:val"));
        } else if is_word(&n, "w:i") {
            self.italic = switch_value(attr(tag, "w:val"));
        } else if is_word(&n, "w:t") {
            self.in_text = true;
        } else if is_word(&n, "w:br") || is_word(&n, "w:cr") {
            self.para.append("<br>");
        } else if is_word(&n, "w:tbl") {
            self.page.raw("<table><tbody>");
        } else if is_word(&n, "w:tr") {
            self.page.raw("<tr>");
        } else if is_word(&n, "w:tc") {
            self.page.cell = Some(String::new());
        }
    }

    fn close(&mut self, name: &String)
        ensures
            final(self).model() == docx_close(old(self).model(), name@),
    {
        let n = chars_of(name.as_str());
        if is_word(&n, "w:t") {
            self.in_text = false;
        } else if is_word(&n, "w:p") {
            let style_low = lower_ascii(self.style.as_str());
            let listy = self.numbered || contains_chars(&chars_of(style_low.as_str()), &chars_of("list"));
            let tag = match heading_tag(self.style.as_str()) {
                Some(h) => h,
                None => if listy {
                    "li"
                } else {
                    "p"
                },
            };
            let mut body = String::new();
            std::mem::swap(&mut body, &mut self.para);
            self.page.block(tag, body.as_str());
        } else if is_word(&n, "w:tc") {
            let c = match self.page.cell.take() {
                Some(c) => c,
                None => String::new(),
            };
            let mut td = owned("<td>");
            td.append(c.as_str());
            td.append("</td>");
            self.page.raw(td.as_str());
        } else if is_word(&n, "w:tr") {
            self.page.raw("</tr>");
        } else if is_word(&n, "w:tbl") {
            self.page.raw("</tbody></table>");
        }
    }

    fn text(&mut self, t: &String)
        ensures
            final(self).model() == (if old(self).model().in_text {
                DocxState { para: old(self).model().para + run_piece(old(self).model(), t@), ..old(self).model() }
            } else {
                old(self).model()
            }),
    {
        if self.in_text {
            let mut piece = esc(t.as_str());
            if self.italic {
                let mut w = owned("<em>");
                w.append(piece.as_str());
                w.append("</em>");
                piece = w;
            }
            if self.bold {
                let mut w = owned("<strong>");
                w.append(piece.as_str());
                w.append("</strong>");
                piece = w;
            }
            self.para.append(piece.as_str());
        }
    }
}

/// `w:val` of a bold/italic switch, as a flag.
fn switch_value(v: Option<String>) -> (r: bool)
    ensures
        r == switch_on(
            match v {
                Some(s) => Some(s@),
                None => None,
            },
        ),
{
    match v {
        Some(s) => {
            let c = chars_of(s.as_str());
            !is_word(&c, "0") && !is_word(&c, "false")
        },
        None => true,
    }
}

/// The HTML of a docx body (`word/document.xml`) given its XML events.
pub fn docx_html(events: &Vec<XmlEvent>) -> (r: String)
    ensures
        r@ == docx_page(events@),
{
    let mut w = DocxWalk {
        page: Page::new(),
        para: String::new(),
        style: String::new(),
        bold: false,
        italic: false,
        in_text: false,
        numbered: false,
    };
    let mut i: usize = 0;
    assert(events@.skip(0) =~= events@);
    loop
        invariant
            i <= events.len(),
            docx_run(docx_start(), events@) == docx_run(w.model(), events@.skip(i as int)),
        ensures
            docx_run(docx_start(), events@) == w.model(),
        decreases events.len() - i,
    {
        if i >= events.len() {
            assert(events@.skip(i as int) =~= Seq::<XmlEvent>::empty());
            break;
        }
        let ghost rest = events@.skip(i as int);
        assert(rest[0] == events@[i as int]);
        assert(rest.drop_first() =~= events@.skip(i + 1));
        match &events[i] {
            XmlEvent::Start(t) => w.open(t),
            XmlEvent::Empty(t) => w.open(t),
            XmlEvent::Text(t) => w.text(t),
            XmlEvent::End(n) => w.close(n),
            XmlEvent::Eof => {
                break;
            },
            XmlEvent::Error(_) => {
                break;
            },
            XmlEvent::Other => {},
        }
        i = i + 1;
    }
    w.page.close_list();
    w.page.html
}

/// docx body XML → HTML: headings, paragraphs with bold and italic, bullet
/// lists, tables.
pub fn docx(xml: &str) -> (r: String)
    ensures
        r@ == docx_page(xml_events(xml@, false)),
{
    let events = read_all_xml(xml, false);
    docx_html(&events)
}

/// Where the walk through an odt body stands.
pub struct OdtState {
    pub page: PageModel,
    /// The paragraph or heading being collected.
    pub para: Seq<char>,
    /// The outline level of the current heading.
    pub level: u8,
    pub in_text: bool,
    pub is_head: bool,
    pub is_list: bool,
}

/// The state before the first event.
pub open spec fn odt_start() -> OdtState {
    OdtState {
        page: PageModel { html: Seq::empty(), cell: None, list_open: false },
        para: Seq::empty(),
        level: 1,
        in_text: false,
        is_head: false,
        is_list: false,
    }
}

/// The outline level of a heading tag: its `text:outline-level` read as a
/// byte, or 1.
pub open spec fn outline_level(tag: XmlTag) -> u8 {
    match attr_value(tag.attrs@, "text:outline-level"@) {
        Some(v) => match parsed_u8(v) {
            Some(n) => n,
            None => 1,
        },
        None => 1,
    }
}

/// A start (or empty-element) tag in an odt body.
pub open spec fn odt_open(st: OdtState, tag: XmlTag) -> OdtState {
    let n = tag.name@;
    if n == "text:h"@ {
        OdtState { para: Seq::empty(), is_head: true, level: outline_level(tag), in_text: true, ..st }
    } else if n == "text:p"@ {
        OdtState { para: Seq::empty(), is_head: false, in_text: true, ..st }
    } else if n == "text:list"@ {
        OdtState { is_list: true, ..st }
    } else if n == "text:line-break"@ {
        OdtState { para: st.para + "<br>"@, ..st }
    } else if n == "table:table"@ {
        OdtState { page: with_raw(st.page, "<table><tbody>"@), ..st }
    } else if n == "table:table-row"@ {
        OdtState { page: with_raw(st.page, "<tr>"@), ..st }
    } else if n == "table:table-cell"@ {
        OdtState { page: PageModel { cell: Some(Seq::empty()), ..st.page }, ..st }
    } else {
        st
    }
}

/// The block tag of a finished odt paragraph or heading.
pub open spec fn odt_block_tag(st: OdtState) -> Seq<char> {
    if st.is_head {
        level_tag(st.level)
    } else if st.is_list {
        "li"@
    } else {
        "p"@
    }
}

/// An end tag in an odt body.
pub open spec fn odt_close(st: OdtState, n: Seq<char>) -> OdtState {
    if n == "text:h"@ || n == "text:p"@ {
        OdtState {
            in_text: false,
            para: Seq::empty(),
            page: with_block(st.page, odt_block_tag(st), st.para),
            ..st
        }
    } else if n == "text:list"@ {
        OdtState { is_list: false, page: closed_list(st.page), ..st }
    } else if n == "table:table-cell"@ {
        OdtState { page: close_cell(st.page), ..st }
    } else if n == "table:table-row"@ {
        OdtState { page: with_raw(st.page, "</tr>"@), ..st }
    } else if n == "table:table"@ {
        OdtState { page: with_raw(st.page, "</tbody></table>"@), ..st }
    } else {
        st
    }
}

/// One event of an odt body.
pub open spec fn odt_step(st: OdtState, e: XmlEvent) -> OdtState {
    match e {
        XmlEvent::Start(t) => odt_open(st, t),
        XmlEvent::Empty(t) => odt_open(st, t),
        XmlEvent::Text(t) => if st.in_text {
            OdtState { para: st.para + escaped(t@), ..st }
        } else {
            st
        },
        XmlEvent::End(n) => odt_close(st, n@),
        _ => st,
    }
}

/// The walk over the events, stopping at the end of the document or an error.
pub open spec fn odt_run(st: OdtState, evs: Seq<XmlEvent>) -> OdtState
    decreases evs.len(),
{
    if evs.len() == 0 || is_last_event(evs[0]) {
        st
    } else {
        odt_run(odt_step(st, evs[0]), evs.drop_first())
    }
}

/// The HTML of an odt body given its XML events.
pub open spec fn odt_page(evs: Seq<XmlEvent>) -> Seq<char> {
    closed_list(odt_run(odt_start(), evs).page).html
}

struct OdtWalk {
    page: Page,
    para: String,
    level: u8,
    in_text: bool,
    is_head: bool,
    is_list: bool,
}

impl OdtWalk {
    spec fn model(&self) -> OdtState {
        OdtState {
            page: self.page.model(),
            para: self.para@,
            level: self.level,
            in_text: self.in_text,
            is_head: self.is_head,
            is_list: self.is_list,
        }
    }

    fn open(&mut self, tag: &XmlTag)
        ensures
            final(self).model() == odt_open(old(self).model(), *tag),
    {
        let n = chars_of(tag.name.as_str());
        if is_word(&n, "text:h") {
            self.para = String::new();
            self.is_head = true;
            self.level = match attr(tag, "text:outline-level") {
                Some(v) => match parse_u8(&chars_of(v.as_str()), 0) {
                    Some(x) => x,
                    None => 1,
                },
                None => 1,
            };
            proof {
                assert forall|v: Seq<char>| v.skip(0) == v by {
                    assert(v.skip(0) =~= v);
                }
            }
            self.in_text = true;
        } else if is_word(&n, "text:p") {
            self.para = String::new();
            self.is_head = false;
            self.in_text = true;
        } else if is_word(&n, "text:list") {
            self.is_list = true;
        } else if is_word(&n, "text:line-break") {
            self.para.append("<br>");
        } else if is_word(&n, "table:table") {
            self.page.raw("<table><tbody>");
        } else if is_word(&n, "table:table-row") {
            self.page.raw("<tr>");
        } else if is_word(&n, "table:table-cell") {
            self.page.cell = Some(String::new());
        }
    }

    fn close(&mut self, name: &String)
        ensures
            final(self).model() == odt_close(old(self).model(), name@),
    {
        let n = chars_of(name.as_str());
        if is_word(&n, "text:h") || is_word(&n, "text:p") {
            self.in_text = false;
            let tag = if self.is_head {
                level_tag_of(self.level)
            } else if self.is_list {
                "li"
            } else {
                "p"
            };
            let mut body = String::new();
            std::mem::swap(&mut body, &mut self.para);
            self.page.block(tag, body.as_str());
        } else if is_word(&n, "text:list") {
            self.is_list = false;
            self.page.close_list();
        } else if is_word(&n, "table:table-cell") {
            let c = match self.page.cell.take() {
                Some(c) => c,
                None => String::new(),
            };
            let mut td = owned("<td>");
            td.append(c.as_str());
            td.append("</td>");
            self.page.raw(td.as_str());
        } else if is_word(&n, "table:table-row") {
            self.page.raw("</tr>");
        } else if is_word(&n, "table:table") {
            self.page.raw("</tbody></table>");
        }
    }

    fn text(&mut self, t: &String)
        ensures
            final(self).model() == (if old(self).model().in_text {
                OdtState { para: old(self).model().para + escaped(t@), ..old(self).model() }
            } else {
                old(self).model()
            }),
    {
        if self.in_text {
            let piece = esc(t.as_str());
            self.para.append(piece.as_str());
        }
    }
}

/// The HTML of an odt body (`content.xml`) given its XML events.
pub fn odt_html(events: &Vec<XmlEvent>) -> (r: String)
    ensures
        r@ == odt_page(events@),
{
    let mut w = OdtWalk {
        page: Page::new(),
        para: String::new(),
        level: 1,
        in_text: false,
        is_head: false,
        is_list: false,
    };
    let mut i: usize = 0;
    assert(events@.skip(0) =~= events@);
    loop
        invariant
            i <= events.len(),
            odt_run(odt_start(), events@) == odt_run(w.model(), events@.skip(i as int)),
        ensures
            odt_run(odt_start(), events@) == w.model(),
        decreases events.len() - i,
    {
        if i >= events.len() {
            assert(events@.skip(i as int) =~= Seq::<XmlEvent>::empty());
            break;
        }
        let ghost rest = events@.skip(i as int);
        assert(rest[0] == events@[i as int]);
        assert(rest.drop_first() =~= events@.skip(i + 1));
        match &events[i] {
            XmlEvent::Start(t) => w.open(t),
            XmlEvent::Empty(t) => w.open(t),
            XmlEvent::Text(t) => w.text(t),
            XmlEvent::End(n) => w.close(n),
            XmlEvent::Eof => {
                break;
            },
            XmlEvent::Error(_) => {
                break;
            },
            XmlEvent::Other => {},
        }
        i = i + 1;
    }
    w.page.close_list();
    w.page.html
}

/// odt body XML → HTML: headings by outline level, paragraphs, lists, tables.
pub fn odt(xml: &str) -> (r: String)
    ensures
        r@ == odt_page(xml_events(xml@, false)),
{
    let events = read_all_xml(xml, false);
    odt_html(&events)
}

/// Why the archive gave up nothing, as shown to the reader.
pub open spec fn unzip_message(f: ZipFailure, inner: Seq<char>) -> Seq<char> {
    match f {
        ZipFailure::Archive(m) => m@,
        ZipFailure::Missing => "нет "@ + inner,
        ZipFailure::Read(m) => m@,
    }
}

/// The file inside the archive that holds the body: `word/document.xml` for
/// docx, `content.xml` for odt.
pub open spec fn body_file(ext: Seq<char>) -> Seq<char> {
    if ext == "docx"@ {
        "word/document.xml"@
    } else {
        "content.xml"@
    }
}

/// `d` is the document for a word-processor file with extension `ext` whose
/// bytes were read as `file` (or failed to read with that message).
pub open spec fn word_document(ext: Seq<char>, file: Result<Seq<u8>, Seq<char>>, d: Doc) -> bool {
    let inner = body_file(ext);
    let unzipped: Result<Seq<char>, Seq<char>> = match file {
        Err(m) => Err(m),
        Ok(bytes) => match zip_entry_text(bytes, inner) {
            Ok(t) => Ok(t),
            Err(f) => Err(unzip_message(f, inner)),
        },
    };
    match unzipped {
        Err(m) => d matches Doc::Unsupported { ext: e, message } && e@ == ext && message@
            == "Не удалось распаковать: "@ + m,
        Ok(xml) => {
            let html = if ext == "docx"@ {
                docx_page(xml_events(xml, false))
            } else {
                odt_page(xml_events(xml, false))
            };
            if blank(html) {
                d matches Doc::Unsupported { ext: e, message } && e@ == ext && message@
                    == "Документ пуст или размечен непривычно"@
            } else {
                d matches Doc::Html { html: h } && h@ == html
            }
        },
    }
}

/// A docx or odt file at `path` → `Html`. `file` holds its bytes, or the
/// message of the error that kept them from being read.
pub fn read(path: &str, file: Result<Vec<u8>, String>) -> (r: Doc)
    ensures
        word_document(
            path_ext(path@),
            match file {
                Ok(b) => Ok(b@),
                Err(m) => Err(m@),
            },
            r,
        ),
{
    let ext = ext_of(path);
    let is_docx = is_word(&chars_of(ext.as_str()), "docx");
    let inner = if is_docx {
        "word/document.xml"
    } else {
        "content.xml"
    };
    let unzipped: Result<String, String> = match file {
        Err(m) => Err(m),
        Ok(bytes) => match read_zip_entry(bytes.as_slice(), inner) {
            Ok(t) => Ok(t),
            Err(ZipFailure::Archive(m)) => Err(m),
            Err(ZipFailure::Missing) => {
                let mut m = owned("нет ");
                m.append(inner);
                Err(m)
            },
            Err(ZipFailure::Read(m)) => Err(m),
        },
    };
    match unzipped {
        Err(m) => {
            let mut message = owned("Не удалось распаковать: ");
            message.append(m.as_str());
            Doc::Unsupported { ext, message }
        },
        Ok(xml) => {
            let html = if is_docx {
                docx(xml.as_str())
            } else {
                odt(xml.as_str())
            };
            if is_blank_text(html.as_str()) {
                Doc::Unsupported { ext, message: owned("Документ пуст или размечен непривычно") }
            } else {
                Doc::Html { html }
            }
        },
    }
}

} // verus!
