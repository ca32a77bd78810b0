use prosmotr_core::doc::{category, ext_of, mime_of, route, text_document, oversize_document, is_too_large, Doc, Limits, Route};
use prosmotr_core::formats::code::lang_for;

#[test]
fn knows_rust_and_python() {
    assert_eq!(lang_for("rs"), Some("rust"));
    assert_eq!(lang_for("py"), Some("python"));
}

#[test]
fn unknown_returns_none() {
    assert_eq!(lang_for("qwerty"), None);
}

#[test]
fn ext_is_lowercase_without_dot() {
    assert_eq!(ext_of("docs/План.MD"), "md");
    assert_eq!(ext_of("/tmp/archive.tar.GZ"), "gz");
    assert_eq!(ext_of("Makefile"), "");
    assert_eq!(ext_of(".bashrc"), "");
    assert_eq!(ext_of("dir.d/file"), "");
    assert_eq!(ext_of("a/b.txt/"), "txt");
    assert_eq!(ext_of("a/b.txt/."), "txt");
    assert_eq!(ext_of("a/.."), "");
    assert_eq!(ext_of("name."), "");
}

#[test]
fn mime_by_extension() {
    assert_eq!(mime_of("png"), Some("image/png"));
    assert_eq!(mime_of("jpeg"), Some("image/jpeg"));
    assert_eq!(mime_of("svg"), Some("image/svg+xml"));
    assert_eq!(mime_of("txt"), None);
}

#[test]
fn categories_for_the_list() {
    assert_eq!(category("md"), "doc");
    assert_eq!(category("xlsx"), "table");
    assert_eq!(category("yaml"), "data");
    assert_eq!(category(""), "text");
    assert_eq!(category("png"), "image");
    assert_eq!(category("rs"), "code");
    assert_eq!(category("svg"), "image");
    assert_eq!(category("bin"), "other");
}

#[test]
fn routes_follow_the_extension() {
    assert_eq!(route("md"), Route::Markdown);
    assert_eq!(route("tsv"), Route::Delimited);
    assert_eq!(route("yml"), Route::Yaml);
    assert_eq!(route("xls"), Route::Spreadsheet);
    assert_eq!(route("odt"), Route::Word);
    assert_eq!(route("png"), Route::Image("image/png"));
    assert_eq!(route("log"), Route::PlainText);
    assert_eq!(route("pdf"), Route::Pdf);
}

#[test]
fn default_limits() {
    let l = Limits::default();
    assert_eq!(l.max_text_bytes, 2 * 1024 * 1024);
    assert_eq!(l.max_rows, 5000);
    assert_eq!(l.max_file_bytes, 512 * 1024 * 1024);
    assert!(is_too_large(l.max_file_bytes + 1, l));
    assert!(!is_too_large(l.max_file_bytes, l));
}

#[test]
fn text_gets_language_hint() {
    match text_document("rs".to_string(), "fn main() {}".to_string(), false) {
        Doc::Text { text, lang, truncated } => {
            assert_eq!(text, "fn main() {}");
            assert_eq!(lang.as_deref(), Some("rust"));
            assert!(!truncated);
        }
        other => panic!("expected Text, got {other:?}"),
    }
}

#[test]
fn binary_text_is_refused() {
    match text_document("bin".to_string(), "a\u{0}b".to_string(), true) {
        Doc::Unsupported { ext, message } => {
            assert_eq!(ext, "bin");
            assert_eq!(message, "Похоже на двоичный файл — показывать нечего");
        }
        other => panic!("expected Unsupported, got {other:?}"),
    }
}

#[test]
fn oversize_message_names_the_limit() {
    let limits = Limits { max_file_bytes: 1, ..Default::default() };
    match oversize_document("txt".to_string(), "0.0", limits) {
        Doc::Unsupported { message, .. } => {
            assert!(message.contains("большой"));
            assert_eq!(message, "Файл слишком большой: 0.0 МБ. Предел — 0 МБ.");
        }
        other => panic!("expected Unsupported, got {other:?}"),
    }
    let d = oversize_document("log".to_string(), "600.5", Limits::default());
    assert_eq!(
        d,
        Doc::Unsupported {
            ext: "log".to_string(),
            message: "Файл слишком большой: 600.5 МБ. Предел — 512 МБ.".to_string()
        }
    );
}

#[test]
fn backslash_is_part_of_a_name() {
    // as `Path` reads it on Unix: only `/` separates components
    assert_eq!(ext_of("dir.v2\\README"), "v2\\readme");
    assert_eq!(ext_of("C:/proj.v2/README"), "");
    assert_eq!(category(&ext_of("C:/proj.v2/README")), "text");
    assert_eq!(ext_of("C:/notes.v1/plan.MD"), "md");
    assert!(matches!(route(&ext_of("D:/a.b/readme.md")), Route::Markdown));
}
