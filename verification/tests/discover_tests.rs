use aspen::discover::{extension_lower, is_raw_ext, is_supported_ext, should_skip_path, wants_file};
use aspen::settings::default_extensions;

#[test]
fn raw_ext_detection() {
    assert!(is_raw_ext("arw"));
    assert!(is_raw_ext("dng"));
    assert!(!is_raw_ext("jpg"));
}

#[test]
fn raw_ext_is_case_sensitive_on_lowered_input() {
    assert!(!is_raw_ext("ARW"));
    assert!(is_raw_ext("cr3"));
    assert!(!is_raw_ext(""));
}

#[test]
fn supported_extensions_ignore_case() {
    let enabled = vec!["jpg".to_string(), "PNG".to_string()];
    assert!(is_supported_ext("JPG", &enabled));
    assert!(is_supported_ext("png", &enabled));
    assert!(!is_supported_ext("txt", &enabled));
    assert!(!is_supported_ext("", &enabled));
}

#[test]
fn output_folders_are_skipped() {
    assert!(should_skip_path(Some("Images-Good/a.jpg")));
    assert!(should_skip_path(Some("day1/Rejected/b.jpg")));
    assert!(!should_skip_path(Some("Images-Good-old/a.jpg")));
    assert!(!should_skip_path(Some("a.jpg")));
    assert!(!should_skip_path(None));
}

#[test]
fn extension_is_lowered() {
    assert_eq!(extension_lower("/x/IMG_1.JPG"), "jpg");
    assert_eq!(extension_lower("/x/archive.tar.GZ"), "gz");
    assert_eq!(extension_lower("/x/.hidden"), "");
    assert_eq!(extension_lower("/x/noext"), "");
}

#[test]
fn discovers_jpeg_and_skips_good_folder_by_rules() {
    let enabled = default_extensions();
    assert!(wants_file("/shoot/a.jpg", Some("a.jpg"), &enabled));
    assert!(wants_file("/shoot/b.png", Some("b.png"), &enabled));
    assert!(!wants_file("/shoot/skip.txt", Some("skip.txt"), &enabled));
    assert!(!wants_file("/shoot/Images-Good/c.jpg", Some("Images-Good/c.jpg"), &enabled));
    assert!(wants_file("/shoot/IMG.ARW", Some("IMG.ARW"), &enabled));
}
