use prosmotr_core::doc::Doc;
use prosmotr_core::formats::excel::{read, sheet_label, Workbook};

fn s(v: &[&str]) -> Vec<String> {
    v.iter().map(|x| x.to_string()).collect()
}

#[test]
fn sheet_caption_counts_sheets() {
    assert_eq!(sheet_label("Лист1", &s(&["Лист1"])), "лист «Лист1»");
    assert_eq!(sheet_label("Лист1", &s(&["Лист1", "Лист2", "Лист3"])), "лист «Лист1» из 3");
}

#[test]
fn first_sheet_becomes_table() {
    let book = Workbook {
        sheet_names: s(&["Данные", "Итог"]),
        first_sheet: Ok(vec![s(&["Файл", "Часы"]), s(&["01-devops", "475"]), s(&["02"]), s(&["03", "1", "x"])]),
    };
    match read("/tmp/book.XLSX", Ok(book), 2) {
        Doc::Table { columns, rows, total_rows, truncated, delimiter } => {
            assert_eq!(columns, s(&["Файл", "Часы"]));
            assert_eq!(total_rows, 3);
            assert_eq!(rows.len(), 2);
            assert_eq!(rows[0], s(&["01-devops", "475"]));
            assert_eq!(rows[1], s(&["02", ""]));
            assert!(truncated);
            assert_eq!(delimiter, "лист «Данные» из 2");
        }
        other => panic!("expected Table, got {other:?}"),
    }
}

#[test]
fn workbook_errors() {
    match read("/tmp/b.ods", Err("сломан".to_string()), 10) {
        Doc::Unsupported { ext, message } => {
            assert_eq!(ext, "ods");
            assert_eq!(message, "Не удалось открыть книгу: сломан");
        }
        other => panic!("expected Unsupported, got {other:?}"),
    }
    let empty = Workbook { sheet_names: vec![], first_sheet: Ok(vec![]) };
    assert_eq!(
        read("b.xls", Ok(empty), 10),
        Doc::Unsupported { ext: "xls".to_string(), message: "В книге нет ни одного листа".to_string() }
    );
    let bad = Workbook { sheet_names: s(&["A"]), first_sheet: Err("битый".to_string()) };
    assert_eq!(
        read("b.xlsx", Ok(bad), 10),
        Doc::Unsupported { ext: "xlsx".to_string(), message: "Лист «A» не читается: битый".to_string() }
    );
    let blank = Workbook { sheet_names: s(&["A"]), first_sheet: Ok(vec![]) };
    match read("b.xlsx", Ok(blank), 10) {
        Doc::Table { columns, rows, total_rows, truncated, delimiter } => {
            assert!(columns.is_empty() && rows.is_empty());
            assert_eq!(total_rows, 0);
            assert!(!truncated);
            assert_eq!(delimiter, "лист «A»");
        }
        other => panic!("expected Table, got {other:?}"),
    }
}
