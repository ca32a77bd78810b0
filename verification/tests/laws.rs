use prosmotr_core::doc::{category, ext_of, mime_of, route, Route};
use prosmotr_core::formats::excel::{read as read_workbook, Workbook};
use prosmotr_core::formats::markup::{esc, Page};
use prosmotr_core::formats::table::{from_delimited, sniff_delimiter};
use prosmotr_core::natural::natural_cmp;
use prosmotr_core::scan::{collect_entries, FoundFile};
use prosmotr_core::text::decode_text;
use prosmotr_core::Doc;
use std::cmp::Ordering;

#[test]
fn pictures_are_listed_and_opened_as_images() {
    for ext in ["png", "jpg", "jpeg", "gif", "webp", "avif", "bmp", "ico", "svg"] {
        assert_eq!(category(ext), "image");
        match route(ext) {
            Route::Image(m) => assert_eq!(Some(m), mime_of(ext)),
            other => panic!("{ext}: expected Image, got {other:?}"),
        }
    }
    for ext in ["md", "csv", "txt", "rs", "", "bin"] {
        assert_ne!(category(ext), "image");
        assert_eq!(mime_of(ext), None);
    }
}

#[test]
fn extensions_come_lower_case_without_dot() {
    for p in ["a/B.PnG", "x.Tar.GZ", "ДОК.DOCX", "noext", "dir/.hidden"] {
        let e = ext_of(p);
        assert!(!e.contains('.'));
        assert!(!e.chars().any(|c| c.is_ascii_uppercase()));
    }
}

#[test]
fn sniffed_delimiter_is_a_candidate() {
    for (src, ext) in [("", "csv"), ("a|b|c", "csv"), ("x;y", "txt"), ("\"a,b\"", "csv"), ("q", "TSV")] {
        let d = sniff_delimiter(src, ext);
        assert!([b',', b';', b'\t', b'|'].contains(&d), "{src:?} gave {d}");
    }
}

#[test]
fn escaped_text_has_no_tags() {
    let e = esc("<b>a & b</b> > <script>");
    assert!(!e.contains('<') && !e.contains('>'));
    assert_eq!(e, "&lt;b&gt;a &amp; b&lt;/b&gt; &gt; &lt;script&gt;");
}

#[test]
fn list_items_in_a_row_share_one_list() {
    let mut p = Page::new();
    p.block("p", "intro");
    p.block("li", "one");
    let after_first = p.html.clone();
    p.block("li", "two");
    assert_eq!(p.html, format!("{after_first}<li>two</li>"));
    assert!(p.list_open);
    p.close_list();
    assert_eq!(p.html, "<p>intro</p><ul><li>one</li><li>two</li></ul>");
}

#[test]
fn cut_utf8_stays_a_prefix_of_the_text() {
    let full = "añb€c𝄞d";
    let bytes = full.as_bytes();
    for max in 0..=bytes.len() + 1 {
        let (s, truncated) = decode_text(bytes.to_vec(), max);
        assert!(full.starts_with(&s), "max {max}: {s:?}");
        assert_eq!(truncated, bytes.len() > max);
        if truncated {
            assert!(s.len() <= max && s.len() + 3 >= max);
        }
    }
}

fn table_is_consistent(d: &Doc) {
    match d {
        Doc::Table { columns, rows, total_rows, truncated, .. } => {
            assert!(rows.len() <= *total_rows);
            assert_eq!(*truncated, rows.len() < *total_rows);
            assert!(rows.iter().all(|r| r.len() >= columns.len()));
        }
        other => panic!("expected Table, got {other:?}"),
    }
}

#[test]
fn delimited_tables_are_consistent() {
    for max in [0, 1, 2, 5] {
        let d = from_delimited("a,b,c\n1\n1,2,3,4\n5,6\n", "csv", max);
        table_is_consistent(&d);
        if let Doc::Table { rows, .. } = &d {
            assert!(rows.len() <= max);
        }
    }
}

#[test]
fn workbook_tables_are_consistent() {
    let cells: Vec<Vec<String>> = vec![
        vec!["h1".into(), "h2".into()],
        vec!["x".into()],
        vec!["y".into(), "z".into(), "w".into()],
    ];
    for max in [0, 1, 3] {
        let book = Workbook { sheet_names: vec!["Лист1".into()], first_sheet: Ok(cells.clone()) };
        let d = read_workbook("b.xlsx", Ok(book), max);
        table_is_consistent(&d);
        if let Doc::Table { rows, .. } = &d {
            assert!(rows.len() <= max);
        }
    }
}

#[test]
fn numbers_compare_by_value_and_ignore_leading_zeros() {
    assert_eq!(natural_cmp("9-b", "10-a"), Ordering::Less);
    assert_eq!(natural_cmp("99.txt", "100.txt"), Ordering::Less);
    assert_eq!(natural_cmp("007x", "7x"), Ordering::Equal);
    assert_eq!(natural_cmp("0", "00"), Ordering::Equal);
}

#[test]
fn equal_folders_stay_together() {
    let rels = ["b/2.md", "a.md", "b/10.md", "B/c/1.md", "c.md", "b/1.md", "02/x.md", "2/y.md"];
    let found: Vec<FoundFile> = rels
        .iter()
        .map(|r| FoundFile {
            path: format!("/r/{r}"),
            rel: r.to_string(),
            name: r.rsplit('/').next().unwrap().to_string(),
            size: 1,
        })
        .collect();
    let list = collect_entries(&found);
    let dirs: Vec<&str> = list.iter().map(|e| e.dir.as_str()).collect();
    for i in 0..dirs.len() {
        for k in i..dirs.len() {
            if natural_cmp(dirs[i], dirs[k]) == Ordering::Equal {
                for j in i..=k {
                    assert_eq!(natural_cmp(dirs[i], dirs[j]), Ordering::Equal, "{dirs:?}");
                }
            }
        }
    }
}

#[test]
fn ascii_case_does_not_change_the_order() {
    let names = ["Data.CSV", "data.csv", "zzz.md", "ZZZ.MD", "10-B", "9-a", ""];
    for a in names {
        for b in names {
            assert_eq!(natural_cmp(&a.to_ascii_lowercase(), b), natural_cmp(a, b));
            assert_eq!(natural_cmp(a, &b.to_ascii_lowercase()), natural_cmp(a, b));
        }
    }
    assert_eq!(natural_cmp("A", "a"), Ordering::Equal);
    assert_eq!(natural_cmp("data.csv", "zzz.md"), Ordering::Less);
}

#[test]
fn documents_can_be_cloned() {
    let d = from_delimited("a,b\n1,2\n", "csv", 10);
    assert_eq!(d.clone(), d);
}

#[test]
fn every_listed_entry_describes_itself() {
    let rels = ["x/B.MD", "a.csv", "x/y/c.txt", "photo.bin", "z.RS"];
    let found: Vec<FoundFile> = rels
        .iter()
        .map(|r| FoundFile {
            path: format!("/r/{r}"),
            rel: r.to_string(),
            name: r.rsplit('/').next().unwrap().to_string(),
            size: 1,
        })
        .collect();
    let list = collect_entries(&found);
    assert_eq!(list.len(), 4);
    for e in &list {
        assert_eq!(e.category, category(&e.ext));
        assert_ne!(e.category, "other");
        assert_eq!(e.ext, ext_of(&e.path));
        assert_eq!(e.dir, e.rel.rsplit_once('/').map(|(d, _)| d).unwrap_or(""));
    }
    for i in 0..list.len() {
        for j in i..list.len() {
            let o = natural_cmp(&list[i].dir, &list[j].dir).then_with(|| natural_cmp(&list[i].name, &list[j].name));
            assert_ne!(o, Ordering::Greater);
        }
    }
}
