use prosmotr_core::natural::natural_cmp;
use prosmotr_core::scan::{collect_entries, file_entry, walk_admits, FoundFile, MAX_ENTRIES};
use std::cmp::Ordering;

#[test]
fn numbers_sort_naturally() {
    let mut v = vec!["10-b.md", "2-a.md", "1-c.md"];
    v.sort_by(|a, b| natural_cmp(a, b));
    assert_eq!(v, vec!["1-c.md", "2-a.md", "10-b.md"]);
}

#[test]
fn zero_padded_equals_plain() {
    assert_eq!(natural_cmp("02-a", "2-a"), Ordering::Equal);
}

#[test]
fn case_insensitive() {
    assert_eq!(natural_cmp("План.md", "план.md"), Ordering::Equal);
}

#[test]
fn natural_order_laws_on_examples() {
    let names = ["a", "A1", "a01", "a2", "a10", "b", "", "9", "10", ":", "Z"];
    for x in names {
        assert_eq!(natural_cmp(x, x), Ordering::Equal);
        for y in names {
            assert_eq!(natural_cmp(x, y), natural_cmp(y, x).reverse());
            for z in names {
                if natural_cmp(x, y) != Ordering::Greater && natural_cmp(y, z) != Ordering::Greater {
                    assert_ne!(natural_cmp(x, z), Ordering::Greater);
                }
            }
        }
    }
}

#[test]
fn shorter_name_comes_first() {
    assert_eq!(natural_cmp("a", "ab"), Ordering::Less);
    assert_eq!(natural_cmp("9", "10"), Ordering::Less);
    assert_eq!(natural_cmp("99999999999999999999", "99999999999999999998"), Ordering::Equal);
}

#[test]
fn hidden_and_junk_are_skipped() {
    assert!(walk_admits(".", 0, true));
    assert!(!walk_admits(".hidden.md", 1, false));
    assert!(!walk_admits("node_modules", 1, true));
    assert!(walk_admits("node_modules", 1, false));
    assert!(!walk_admits("target", 3, true));
    assert!(walk_admits("sub", 1, true));
}

fn found(rel: &str, size: u64) -> FoundFile {
    let name = rel.rsplit(['/', '\\']).next().unwrap().to_string();
    FoundFile { path: format!("/root/{rel}"), rel: rel.to_string(), name, size }
}

#[test]
fn entries_carry_folder_and_category() {
    let e = file_entry(&found("sub\\data.CSV", 3)).unwrap();
    assert_eq!(e.rel, "sub/data.CSV");
    assert_eq!(e.dir, "sub");
    assert_eq!(e.ext, "csv");
    assert_eq!(e.category, "table");
    assert_eq!(e.size, 3);
    assert!(file_entry(&found("photo.bin", 2)).is_none());
}

#[test]
fn folders_stay_together() {
    let walk = vec![
        found("10-b.md", 1),
        found("2-a.md", 1),
        found("sub/data.csv", 1),
        found("photo.bin", 1),
        found("sub/zzz.md", 1),
        found("sub/deep/inner.md", 1),
    ];
    let list = collect_entries(&walk);
    let rels: Vec<&str> = list.iter().map(|e| e.rel.as_str()).collect();
    assert_eq!(rels, vec!["2-a.md", "10-b.md", "sub/data.csv", "sub/zzz.md", "sub/deep/inner.md"]);
    assert_eq!(list[2].category, "table");
    assert_eq!(list[2].dir, "sub");
}

#[test]
fn list_is_capped() {
    let walk: Vec<FoundFile> = (0..MAX_ENTRIES + 5).map(|i| found(&format!("{i}.txt"), 0)).collect();
    let list = collect_entries(&walk);
    assert_eq!(list.len(), MAX_ENTRIES);
    assert_eq!(list[0].name, "0.txt");
    assert_eq!(list[MAX_ENTRIES - 1].name, format!("{}.txt", MAX_ENTRIES - 1));
}

/// The walk as the application performs it, over a list of relative paths:
/// a file is met when every folder on its way and the file itself are admitted.
fn walk(files: &[&str]) -> Vec<FoundFile> {
    files
        .iter()
        .filter(|rel| {
            let parts: Vec<&str> = rel.split('/').collect();
            parts.iter().enumerate().all(|(i, p)| walk_admits(p, i + 1, i + 1 < parts.len()))
        })
        .map(|rel| found(rel, 1))
        .collect()
}

#[test]
fn scans_and_filters() {
    let files = [
        "10-b.md",
        "2-a.md",
        "sub/data.csv",
        "node_modules/junk.md",
        ".hidden.md",
        "photo.bin",
        "sub/zzz.md",
        "sub/deep/inner.md",
    ];
    let found = collect_entries(&walk(&files));
    let names: Vec<&str> = found.iter().map(|f| f.rel.as_str()).collect();
    assert_eq!(
        names,
        vec!["2-a.md", "10-b.md", "sub/data.csv", "sub/zzz.md", "sub/deep/inner.md"]
    );
    assert_eq!(found[2].category, "table");
    assert_eq!(found[2].dir, "sub");
}

#[test]
fn ties_keep_walk_order() {
    for walk_order in [["A.md", "a.md", "02.md", "2.md"], ["a.md", "A.md", "2.md", "02.md"]] {
        let walk: Vec<FoundFile> = walk_order.iter().map(|r| found(r, 1)).collect();
        let list = collect_entries(&walk);
        let names: Vec<&str> = list.iter().map(|e| e.name.as_str()).collect();
        let expected = vec![walk_order[2], walk_order[3], walk_order[0], walk_order[1]];
        assert_eq!(names, expected);
    }
}

#[test]
fn unicode_letters_never_meet_digits() {
    // the Kelvin sign lower-cases to an ASCII 'k'
    assert_eq!(natural_cmp("\u{212A}8", "k8"), Ordering::Equal);
    assert_eq!(natural_cmp("\u{2167}", "8"), Ordering::Greater);
    assert_eq!(natural_cmp("7", "\u{0661}"), Ordering::Less);
}
