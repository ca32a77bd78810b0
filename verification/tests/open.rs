use prosmotr_core::formats::excel::Workbook;
use prosmotr_core::{open_document, reading_for, Contents, Doc, Limits, Reading};

/// Opens an in-memory file the way the application does: asks what to read,
/// reads that much of `body`, and hands it over.
fn open(name: &str, body: &[u8], limits: Limits) -> Doc {
    let size = body.len() as u64;
    let contents = match reading_for(name, size, limits) {
        Reading::Nothing => Contents::Nothing,
        Reading::Text(max) => {
            let n = body.len().min(max.saturating_add(1));
            Contents::Bytes(body[..n].to_vec())
        }
        Reading::Workbook => Contents::Book(Err("no workbook here".to_string())),
        Reading::Archive => Contents::File(Ok(body.to_vec())),
    };
    let size_mb = format!("{:.1}", size as f64 / 1_048_576.0);
    open_document(name, size, &size_mb, limits, contents)
}

#[test]
fn markdown_goes_to_html() {
    match open("t1.md", b"# Cabecera\n\ntext", Limits::default()) {
        Doc::Html { html } => assert!(html.contains("<h1>")),
        other => panic!("expected Html, got {other:?}"),
    }
}

#[test]
fn csv_goes_to_table() {
    match open("t2.csv", "a,b\n1,2\n3,4\n".as_bytes(), Limits::default()) {
        Doc::Table { columns, rows, total_rows, .. } => {
            assert_eq!(columns, vec!["a", "b"]);
            assert_eq!(total_rows, 2);
            assert_eq!(rows[1], vec!["3", "4"]);
        }
        other => panic!("expected Table, got {other:?}"),
    }
}

#[test]
fn json_goes_to_tree() {
    assert!(matches!(open("t3.json", br#"{"a":[1,2]}"#, Limits::default()), Doc::Tree { .. }));
}

#[test]
fn unknown_text_goes_to_text() {
    assert!(matches!(
        open("t4.log", "2026-08-19 запуск\n".as_bytes(), Limits::default()),
        Doc::Text { .. }
    ));
}

#[test]
fn yaml_and_toml_go_to_tree() {
    assert!(matches!(open("t7.yaml", "часы: 475\n".as_bytes(), Limits::default()), Doc::Tree { .. }));
    assert!(matches!(open("t8.toml", "hours = 475\n".as_bytes(), Limits::default()), Doc::Tree { .. }));
}

#[test]
fn images_go_to_image_form() {
    match open("t9.png", &[0x89, 0x50, 0x4E, 0x47], Limits::default()) {
        Doc::Image { mime } => assert_eq!(mime, "image/png"),
        other => panic!("expected Image, got {other:?}"),
    }
}

#[test]
fn pdf_goes_to_page_form() {
    assert!(matches!(open("t10.pdf", b"%PDF-1.7", Limits::default()), Doc::Page { .. }));
}

#[test]
fn binary_is_refused_politely() {
    assert!(matches!(open("t5.bin", &[0u8, 1, 2, 3, 0, 9], Limits::default()), Doc::Unsupported { .. }));
}

#[test]
fn oversized_file_is_refused() {
    let limits = Limits { max_file_bytes: 1, ..Default::default() };
    match open("t6.txt", b"hello", limits) {
        Doc::Unsupported { message, .. } => assert!(message.contains("большой")),
        other => panic!("expected a refusal, got {other:?}"),
    }
}

#[test]
fn what_to_read_follows_the_extension() {
    let l = Limits::default();
    assert!(matches!(reading_for("a/b.CSV", 10, l), Reading::Text(n) if n == usize::MAX));
    assert!(matches!(reading_for("notes.txt", 10, l), Reading::Text(n) if n == l.max_text_bytes));
    assert!(matches!(reading_for("book.xlsx", 10, l), Reading::Workbook));
    assert!(matches!(reading_for("letter.docx", 10, l), Reading::Archive));
    assert!(matches!(reading_for("scan.pdf", 10, l), Reading::Nothing));
    assert!(matches!(reading_for("photo.JPG", 10, l), Reading::Nothing));
    assert!(matches!(reading_for("huge.txt", l.max_file_bytes + 1, l), Reading::Nothing));
}

#[test]
fn oversize_message_names_both_sizes() {
    let limits = Limits { max_file_bytes: 3 * 1_048_576, ..Default::default() };
    let contents = Contents::Nothing;
    match open_document("big.log", 5 * 1_048_576, "5.0", limits, contents) {
        Doc::Unsupported { ext, message } => {
            assert_eq!(ext, "log");
            assert_eq!(message, "Файл слишком большой: 5.0 МБ. Предел — 3 МБ.");
        }
        other => panic!("expected a refusal, got {other:?}"),
    }
}

#[test]
fn a_workbook_that_does_not_open_is_reported() {
    let book: Result<Workbook, String> = Err("broken".to_string());
    match open_document("t.xlsx", 10, "0.0", Limits::default(), Contents::Book(book)) {
        Doc::Unsupported { ext, message } => {
            assert_eq!(ext, "xlsx");
            assert_eq!(message, "Не удалось открыть книгу: broken");
        }
        other => panic!("expected a refusal, got {other:?}"),
    }
}

#[test]
fn a_truncated_text_file_says_so() {
    let limits = Limits { max_text_bytes: 4, ..Default::default() };
    match open("notes.txt", b"abcdefgh", limits) {
        Doc::Text { text, lang, truncated } => {
            assert_eq!(text, "abcd");
            assert_eq!(lang, None);
            assert!(truncated);
        }
        other => panic!("expected Text, got {other:?}"),
    }
}
