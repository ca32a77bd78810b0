use prosmotr_core::doc::Doc;
use prosmotr_core::formats::markup::{esc, heading_tag};
use prosmotr_core::formats::word::{docx, odt, read};

const DOC: &str = r#"<w:document xmlns:w="x"><w:body>
  <w:p><w:pPr><w:pStyle w:val="Heading1"/></w:pPr><w:r><w:t>Заголовок</w:t></w:r></w:p>
  <w:p><w:r><w:rPr><w:b/></w:rPr><w:t>жирно</w:t></w:r><w:r><w:t> и обычно</w:t></w:r></w:p>
  <w:p><w:pPr><w:numPr/></w:pPr><w:r><w:t>пункт один</w:t></w:r></w:p>
  <w:p><w:pPr><w:numPr/></w:pPr><w:r><w:t>пункт два</w:t></w:r></w:p>
  <w:tbl><w:tr><w:tc><w:p><w:r><w:t>ячейка</w:t></w:r></w:p></w:tc></w:tr></w:tbl>
  <w:p><w:r><w:t></w:t></w:r></w:p>
</w:body></w:document>"#;

#[test]
fn docx_headings_and_bold() {
    let h = docx(DOC);
    assert!(h.contains("<h1>Заголовок</h1>"));
    assert!(h.contains("<strong>жирно</strong> и обычно"));
}

#[test]
fn docx_list_items_share_one_ul() {
    let h = docx(DOC);
    assert_eq!(h.matches("<ul>").count(), 1);
    assert_eq!(h.matches("<li>").count(), 2);
}

#[test]
fn docx_tables_survive() {
    let h = docx(DOC);
    assert!(h.contains("<table><tbody><tr><td>ячейка</td></tr></tbody></table>"));
}

#[test]
fn docx_skips_empty_paragraphs() {
    assert!(!docx(DOC).contains("<p></p>"));
}

#[test]
fn docx_escapes_html_in_text() {
    let x = r#"<w:document xmlns:w="x"><w:p><w:r><w:t>&lt;script&gt;</w:t></w:r></w:p></w:document>"#;
    let h = docx(x);
    assert!(h.contains("&lt;script&gt;"));
    assert!(!h.contains("<script>"));
}

#[test]
fn docx_italic_and_switched_off_bold() {
    let x = r#"<w:document xmlns:w="x"><w:p><w:r><w:rPr><w:i/><w:b w:val="0"/></w:rPr><w:t>курсив</w:t></w:r></w:p></w:document>"#;
    assert_eq!(docx(x), "<p><em>курсив</em></p>");
}

#[test]
fn odt_headings_and_tables() {
    let x = r#"<office xmlns:text="t" xmlns:table="b">
      <text:h text:outline-level="2">Раздел</text:h>
      <text:p>абзац</text:p>
      <table:table><table:table-row><table:table-cell><text:p>я</text:p></table:table-cell></table:table-row></table:table>
    </office>"#;
    let h = odt(x);
    assert!(h.contains("<h2>Раздел</h2>"));
    assert!(h.contains("<p>абзац</p>"));
    assert!(h.contains("<td>я</td>"));
}

#[test]
fn odt_lists_close_their_ul() {
    let x = r#"<o xmlns:text="t"><text:list><text:list-item><text:p>один</text:p></text:list-item></text:list><text:p>после</text:p></o>"#;
    assert_eq!(odt(x), "<ul><li>один</li></ul><p>после</p>");
}

#[test]
fn heading_style_names() {
    assert_eq!(heading_tag("Heading1"), Some("h1"));
    assert_eq!(heading_tag("heading 3"), Some("h3"));
    assert_eq!(heading_tag("Normal"), None);
}

#[test]
fn heading_levels_past_five() {
    assert_eq!(heading_tag("Heading-9"), Some("h6"));
    assert_eq!(heading_tag("Heading0"), Some("h6"));
    assert_eq!(heading_tag("Heading+2"), Some("h2"));
    assert_eq!(heading_tag("Heading300"), None);
    assert_eq!(heading_tag("Heading"), None);
}

#[test]
fn escaping_covers_markup_characters() {
    assert_eq!(esc("a<b>&c"), "a&lt;b&gt;&amp;c");
}

#[test]
fn unreadable_archive_is_reported() {
    match read("/tmp/x.docx", Ok(b"not a zip".to_vec())) {
        Doc::Unsupported { ext, message } => {
            assert_eq!(ext, "docx");
            assert!(message.starts_with("Не удалось распаковать: "));
        }
        other => panic!("expected Unsupported, got {other:?}"),
    }
    match read("/tmp/x.odt", Err("нет доступа".to_string())) {
        Doc::Unsupported { ext, message } => {
            assert_eq!(ext, "odt");
            assert_eq!(message, "Не удалось распаковать: нет доступа");
        }
        other => panic!("expected Unsupported, got {other:?}"),
    }
}

/// A zip archive holding one file, built in memory.
fn archive(name: &str, body: &str) -> Vec<u8> {
    let mut w = zip::ZipWriter::new(std::io::Cursor::new(Vec::new()));
    w.start_file(name, zip::write::SimpleFileOptions::default()).unwrap();
    std::io::Write::write_all(&mut w, body.as_bytes()).unwrap();
    w.finish().unwrap().into_inner()
}

#[test]
fn docx_archive_is_read() {
    match read("/tmp/letter.docx", Ok(archive("word/document.xml", DOC))) {
        Doc::Html { html } => {
            assert!(html.contains("<h1>Заголовок</h1>"));
            assert!(html.contains("<li>пункт один</li>"));
            assert!(html.contains("<td>ячейка</td>"));
        }
        other => panic!("expected Html, got {other:?}"),
    }
}

#[test]
fn archive_without_the_body_is_reported() {
    match read("/tmp/letter.odt", Ok(archive("word/document.xml", DOC))) {
        Doc::Unsupported { ext, message } => {
            assert_eq!(ext, "odt");
            assert_eq!(message, "Не удалось распаковать: нет content.xml");
        }
        other => panic!("expected Unsupported, got {other:?}"),
    }
}

#[test]
fn empty_document_is_reported() {
    let body = r#"<office xmlns:text="t"><text:p>   </text:p></office>"#;
    match read("/tmp/blank.odt", Ok(archive("content.xml", body))) {
        Doc::Unsupported { message, .. } => {
            assert_eq!(message, "Документ пуст или размечен непривычно");
        }
        other => panic!("expected Unsupported, got {other:?}"),
    }
}
