use prosmotr_core::doc::Doc;
use prosmotr_core::formats::table::{from_delimited, sniff_delimiter};

fn table(src: &str, ext: &str) -> (Vec<String>, Vec<Vec<String>>, usize, String) {
    match from_delimited(src, ext, 1000) {
        Doc::Table { columns, rows, total_rows, delimiter, .. } => (columns, rows, total_rows, delimiter),
        other => panic!("expected Table, got {other:?}"),
    }
}

#[test]
fn detects_semicolon() {
    let (cols, rows, _, d) = table("имя;возраст\nИван;30\n", "csv");
    assert_eq!(d, ";");
    assert_eq!(cols, vec!["имя", "возраст"]);
    assert_eq!(rows[0], vec!["Иван", "30"]);
}

#[test]
fn ignores_delimiter_inside_quotes() {
    // more commas inside the quotes than semicolons outside
    let d = sniff_delimiter("\"Иванов, Иван, Иванович\";30", "csv");
    assert_eq!(d as char, ';');
}

#[test]
fn tsv_by_extension() {
    let (cols, _, _, d) = table("a\tb\n1\t2\n", "tsv");
    assert_eq!(d, "TAB");
    assert_eq!(cols.len(), 2);
}

#[test]
fn counts_all_rows_but_returns_limit() {
    let mut src = String::from("a\n");
    for i in 0..50 {
        src.push_str(&format!("{i}\n"));
    }
    match from_delimited(&src, "csv", 10) {
        Doc::Table { rows, total_rows, truncated, .. } => {
            assert_eq!(rows.len(), 10);
            assert_eq!(total_rows, 50);
            assert!(truncated);
        }
        other => panic!("expected Table, got {other:?}"),
    }
}

#[test]
fn survives_ragged_rows() {
    let (_, rows, total, _) = table("a,b,c\n1,2\n1,2,3,4\n", "csv");
    assert_eq!(total, 2);
    assert_eq!(rows[0].len(), 3); // the short row is padded with empty fields
    assert_eq!(rows[1].len(), 4); // a long row is kept whole
    assert_eq!(rows[0][2], "");
}

#[test]
fn sniffing_rules() {
    assert_eq!(sniff_delimiter("", "csv"), b',');
    assert_eq!(sniff_delimiter("no delimiters here", "csv"), b',');
    assert_eq!(sniff_delimiter("a|b|c", "txt"), b'|');
    assert_eq!(sniff_delimiter("a;b,c", "csv"), b',');
    assert_eq!(sniff_delimiter("\n   \n a;b;c\nx,y,z,w", "csv"), b';');
    assert_eq!(sniff_delimiter("a,b,c", "TSV"), b'\t');
}

#[test]
fn exact_row_count_is_not_truncated() {
    match from_delimited("h\n1\n2\n", "csv", 2) {
        Doc::Table { rows, total_rows, truncated, delimiter, .. } => {
            assert_eq!(rows.len(), 2);
            assert_eq!(total_rows, 2);
            assert!(!truncated);
            assert_eq!(delimiter, ",");
        }
        other => panic!("expected Table, got {other:?}"),
    }
}
