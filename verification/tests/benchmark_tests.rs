use aspen::benchmark::{
    benchmark_dir, csv_field, decision_path, folder_label, group_pairs, label_row, member_names, PairDistance,
    WinnerDecision, LABEL_HEADER, MAX_RUN_FILES, SCHEMA_VERSION,
};
use aspen::dedupe::ImageRecord;

fn rec(path: &str, blake: &str, phash: Option<u64>, dhash: Option<u64>) -> ImageRecord {
    ImageRecord {
        path: path.to_string(),
        blake3: blake.to_string(),
        phash,
        dhash,
        preview_w: 120,
        preview_h: 80,
        size: 1024,
        is_raw_or_dng: false,
    }
}

#[test]
fn csv_fields_with_commas_are_quoted() {
    assert_eq!(csv_field("a,b"), "\"a,b\"");
    assert_eq!(csv_field("say \"hi\""), "\"say \"\"hi\"\"\"");
    assert_eq!(csv_field("plain.jpg"), "plain.jpg");
}

#[test]
fn csv_fields_with_newlines_are_quoted() {
    assert_eq!(csv_field("two\nlines"), "\"two\nlines\"");
    assert_eq!(csv_field(""), "");
}

#[test]
fn label_rows_leave_the_answer_columns_blank() {
    assert_eq!(label_row(0, "burst-01.jpg | burst-02.jpg", "burst-02.jpg"), "0,burst-01.jpg | burst-02.jpg,burst-02.jpg,,,\n");
    assert_eq!(label_row(12, "a,b.jpg", "a,b.jpg"), "12,\"a,b.jpg\",\"a,b.jpg\",,,\n");
    assert!(LABEL_HEADER.starts_with("group,files_in_group,aspen_picked,your_pick"));
}

#[test]
fn member_names_join_file_names() {
    let records = vec![rec("/s/burst-01.jpg", "x", None, None), rec("/s/burst-02.jpg", "y", None, None)];
    assert_eq!(member_names(&[0, 1], &records), "burst-01.jpg | burst-02.jpg");
    assert_eq!(member_names(&[1], &records), "burst-02.jpg");
    assert_eq!(member_names(&[], &records), "");
}

#[test]
fn decision_paths() {
    assert_eq!(decision_path(WinnerDecision { algo: 1, ai: Some(2), final_pick: 2 }), "ai-override");
    assert_eq!(decision_path(WinnerDecision { algo: 1, ai: Some(1), final_pick: 1 }), "ai-agreed");
    assert_eq!(decision_path(WinnerDecision { algo: 1, ai: None, final_pick: 1 }), "algorithm");
}

#[test]
fn group_pairs_cover_each_unordered_pair_once() {
    let records = vec![
        rec("a", "same", Some(0x00ff_00ff_00ff_00ff), Some(0)),
        rec("b", "same", Some(0x00ff_00ff_00ff_00fe), None),
        rec("c", "other", None, Some(3)),
    ];
    let pairs = group_pairs(&[0, 1, 2], &records);
    assert_eq!(
        pairs,
        vec![
            PairDistance { a: 0, b: 1, phash_distance: Some(1), dhash_distance: None, identical_blake3: true },
            PairDistance { a: 0, b: 2, phash_distance: None, dhash_distance: Some(2), identical_blake3: false },
            PairDistance { a: 1, b: 2, phash_distance: None, dhash_distance: None, identical_blake3: false },
        ]
    );
    assert!(group_pairs(&[2], &records).is_empty());
}

#[test]
fn full_paths_are_only_logged_when_the_user_opts_in_by_label() {
    assert_eq!(folder_label(true, "/root/shoot/burst-01.jpg", Some("burst-01.jpg")), "/root/shoot/burst-01.jpg");
    assert_eq!(folder_label(false, "/root/shoot/day/burst-01.jpg", Some("day/burst-01.jpg")), "day/burst-01.jpg");
    assert_eq!(folder_label(false, "/elsewhere/burst-01.jpg", None), "burst-01.jpg");
}

#[test]
fn benchmark_folder_is_inside_the_logs_folder() {
    assert_eq!(benchmark_dir(Some("/logs")), Some("/logs/benchmark".to_string()));
    assert_eq!(benchmark_dir(None), None);
    assert_eq!(SCHEMA_VERSION, 1);
    assert_eq!(MAX_RUN_FILES, 20);
}
