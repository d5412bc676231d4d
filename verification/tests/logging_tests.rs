use aspen::logging::{
    is_log_file_name, log_file_name, needs_rotation, progress_level, rotation_plan, ui_level, EventRing, LogLevel,
    MAX_FILES, MAX_FILE_BYTES, MAX_UI_EVENTS,
};
use std::collections::BTreeMap;

fn rotate_names(files: &mut BTreeMap<String, String>) {
    let (oldest, moves) = rotation_plan();
    files.remove(&oldest);
    for (from, to) in moves {
        if let Some(content) = files.remove(&from) {
            files.insert(to, content);
        }
    }
}

#[test]
fn rotation_keeps_bounded_number_of_files() {
    let mut files: BTreeMap<String, String> = BTreeMap::new();
    files.insert("aspen.log".to_string(), "current".to_string());
    for index in 1..MAX_FILES {
        files.insert(format!("aspen.log.{index}"), index.to_string());
    }
    rotate_names(&mut files);
    assert_eq!(files.len(), MAX_FILES - 1);
    assert!(files.contains_key(&format!("aspen.log.{}", MAX_FILES - 1)));
    assert_eq!(files.get("aspen.log.1").map(String::as_str), Some("current"));
    assert_eq!(files.get("aspen.log.4").map(String::as_str), Some("3"));
    assert!(!files.contains_key("aspen.log"));
}

#[test]
fn rotation_plan_moves_each_log_one_place_older() {
    let (oldest, moves) = rotation_plan();
    assert_eq!(oldest, "aspen.log.4");
    assert_eq!(
        moves,
        vec![
            ("aspen.log.3".to_string(), "aspen.log.4".to_string()),
            ("aspen.log.2".to_string(), "aspen.log.3".to_string()),
            ("aspen.log.1".to_string(), "aspen.log.2".to_string()),
            ("aspen.log".to_string(), "aspen.log.1".to_string()),
        ]
    );
}

#[test]
fn log_file_names() {
    assert_eq!(log_file_name(0), "aspen.log");
    assert_eq!(log_file_name(3), "aspen.log.3");
    assert_eq!(log_file_name(12), "aspen.log.12");
    assert!(is_log_file_name("aspen.log.2"));
    assert!(is_log_file_name("aspen.log"));
    assert!(!is_log_file_name("other.log"));
}

#[test]
fn rotation_starts_at_the_size_limit() {
    assert!(!needs_rotation(None));
    assert!(!needs_rotation(Some(MAX_FILE_BYTES - 1)));
    assert!(needs_rotation(Some(MAX_FILE_BYTES)));
    assert_eq!(MAX_FILE_BYTES, 5 * 1024 * 1024);
}

#[test]
fn levels_from_text() {
    assert_eq!(ui_level("error"), LogLevel::Error);
    assert_eq!(ui_level("warn"), LogLevel::Warn);
    assert_eq!(ui_level("debug"), LogLevel::Debug);
    assert_eq!(ui_level("loud"), LogLevel::Info);
    assert_eq!(progress_level("warn"), LogLevel::Warn);
    assert_eq!(progress_level("error"), LogLevel::Info);
}

#[test]
fn event_ring_keeps_the_most_recent() {
    let mut ring = EventRing::new(3);
    for i in 0..5 {
        ring.push(i);
    }
    assert_eq!(ring.events().iter().copied().collect::<Vec<_>>(), vec![2, 3, 4]);
    ring.clear();
    assert!(ring.events().is_empty());
    ring.push(9);
    assert_eq!(ring.events().len(), 1);
}

#[test]
fn event_ring_never_exceeds_the_ui_limit() {
    let mut ring = EventRing::new(MAX_UI_EVENTS);
    for i in 0..(MAX_UI_EVENTS + 10) {
        ring.push(i);
        assert!(ring.events().len() <= MAX_UI_EVENTS);
    }
    assert_eq!(ring.events().front(), Some(&10));
}
