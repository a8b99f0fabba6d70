use photo_sort::walker::{candidate_for, classify_entry, has_photo_extension, is_photo_file_name, EntryKind};

#[test]
fn photo_extensions_ignore_case() {
    assert!(is_photo_file_name("a.jpg"));
    assert!(is_photo_file_name("b.jpeg"));
    assert!(is_photo_file_name("C.JPG"));
    assert!(is_photo_file_name("d.JpEg"));
}

#[test]
fn other_extensions_rejected() {
    assert!(!is_photo_file_name("a.png"));
    assert!(!is_photo_file_name("jpg"));
    assert!(!is_photo_file_name("a.jpg.txt"));
    assert!(!is_photo_file_name("a.jpe"));
    assert!(!is_photo_file_name(""));
}

#[test]
fn lowered_extension_check() {
    let v: Vec<char> = "photo.jpeg".chars().collect();
    assert!(has_photo_extension(&v));
    let v: Vec<char> = "photo.JPEG".chars().collect();
    assert!(!has_photo_extension(&v));
    let v: Vec<char> = ".jpg".chars().collect();
    assert!(has_photo_extension(&v));
}

#[test]
fn classify_entries() {
    assert_eq!(classify_entry(true, false, "x.JPG"), EntryKind::Photo);
    assert_eq!(classify_entry(true, false, "x.txt"), EntryKind::Other);
    assert_eq!(classify_entry(false, true, "dir.jpg"), EntryKind::Directory);
    assert_eq!(classify_entry(false, false, "dev.jpg"), EntryKind::Other);
}

#[test]
fn candidate_for_files() {
    assert_eq!(
        candidate_for("a.JPG", Some(b"2020:01:02 03:04:05")),
        Some("2020-01-02_03_04_05".to_string())
    );
    assert_eq!(candidate_for("a.png", Some(b"2020:01:02 03:04:05")), None);
    assert_eq!(candidate_for("a.jpg", None), None);
    assert_eq!(candidate_for("a.jpg", Some(b"no date here")), None);
}
