use prosmotr_core::text::{decode_text, looks_binary, source_view};

#[test]
fn reads_utf8() {
    let (s, tr) = decode_text("привет".as_bytes().to_vec(), 1024);
    assert_eq!(s, "привет");
    assert!(!tr);
}

#[test]
fn falls_back_to_cp1251() {
    // «Дата» in windows-1251
    let bytes = vec![0xC4u8, 0xE0, 0xF2, 0xE0];
    let (s, _) = decode_text(bytes, 1024);
    assert_eq!(s, "Дата");
}

#[test]
fn truncates_without_breaking_utf8() {
    let (s, tr) = decode_text("ααααα".as_bytes().to_vec(), 5); // two bytes per character
    assert!(tr);
    assert_eq!(s, "αα"); // the fifth byte is dropped, no character is cut
}

#[test]
fn truncated_utf8_does_not_become_cp1251() {
    let (s, tr) = decode_text("привет мир".as_bytes().to_vec(), 7);
    assert!(tr);
    assert_eq!(s, "при");
}

#[test]
fn detects_binary() {
    assert!(looks_binary(&[1, 2, 0, 3]));
    assert!(!looks_binary("обычный текст".as_bytes()));
}

#[test]
fn zero_past_the_probe_is_not_binary() {
    let mut bytes = vec![b'a'; 8192];
    bytes.push(0);
    assert!(!looks_binary(&bytes));
    bytes[8191] = 0;
    assert!(looks_binary(&bytes));
}

#[test]
fn exact_limit_is_not_truncated() {
    let (s, tr) = decode_text(b"hello".to_vec(), 5);
    assert_eq!(s, "hello");
    assert!(!tr);
    let (s, tr) = decode_text(b"hello".to_vec(), 0);
    assert_eq!(s, "");
    assert!(tr);
}

#[test]
fn invalid_byte_in_the_middle_is_cp1251() {
    // 0xC4 ('Д') is not a valid UTF-8 lead byte followed by 'a'
    let (s, tr) = decode_text(vec![0xC4, b'a', b'b'], 10);
    assert_eq!(s, "\u{414}ab");
    assert!(!tr);
}

#[test]
fn source_view_marks_cut_files() {
    assert_eq!(source_view("abc".to_string(), false), "abc");
    assert_eq!(source_view("abc".to_string(), true), "abc\n\n… файл обрезан на 2 МБ");
}

#[test]
fn unfinished_last_character_of_an_uncut_file_is_cp1251() {
    let (s, tr) = decode_text(vec![0x41, 0xC4], 1024);
    assert!(!tr);
    assert_eq!(s, "AД");
}
