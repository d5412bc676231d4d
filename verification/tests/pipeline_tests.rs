use aspen::dedupe::{cluster_duplicates, ImageRecord};
use aspen::pipeline::{
    count_outcomes, file_name_str, lowercase_name_looks_vision, model_name_looks_vision, ollama_model_supports_vision,
    parse_vision_answer, pick_answered_file, placement_plan, unique_indices, Placement,
};

#[test]
fn vision_heuristic_recognizes_known_families() {
    assert!(model_name_looks_vision("qwen2.5vl:7b"));
    assert!(model_name_looks_vision("llama3.2-vision:11b"));
    assert!(model_name_looks_vision("llava:13b"));
    assert!(model_name_looks_vision("moondream:1.8b"));
    assert!(model_name_looks_vision("minicpm-v:8b"));
    assert!(model_name_looks_vision("gemma3:4b"));
    assert!(model_name_looks_vision("bakllava:7b"));
}

#[test]
fn vision_heuristic_rejects_text_models() {
    assert!(!model_name_looks_vision("qwen3:1.7b"));
    assert!(!model_name_looks_vision("qwen3:8b"));
    assert!(!model_name_looks_vision("llama3.2:3b"));
    assert!(!model_name_looks_vision("llama3.3:70b"));
    assert!(!model_name_looks_vision("mistral:7b"));
    assert!(!model_name_looks_vision("phi3.5:3.8b"));
    assert!(!model_name_looks_vision(""));
}

#[test]
fn vision_heuristic_ignores_case() {
    assert!(model_name_looks_vision("LLaVA:13B"));
    assert!(model_name_looks_vision("Qwen2.5VL:7b"));
}

#[test]
fn parse_vision_answer_leading_number() {
    let map = vec![(10, "a.jpg".to_string()), (20, "b.jpg".to_string()), (30, "c.jpg".to_string())];
    assert_eq!(parse_vision_answer("2 — eyes open", &map), Some(20));
    assert_eq!(parse_vision_answer("1", &map), Some(10));
    assert_eq!(parse_vision_answer("3 - best expression", &map), Some(30));
}

#[test]
fn parse_vision_answer_filename_fallback() {
    let map = vec![(10, "IMG_0001.jpg".to_string()), (20, "IMG_0002.jpg".to_string())];
    assert_eq!(parse_vision_answer("The best is IMG_0002.jpg", &map), Some(20));
}

#[test]
fn parse_vision_answer_out_of_range() {
    let map = vec![(10, "a.jpg".to_string())];
    assert_eq!(parse_vision_answer("5 — bad answer", &map), None);
    assert_eq!(parse_vision_answer("garbage response", &map), None);
}

#[test]
fn parse_vision_answer_zero_falls_back_to_names() {
    let map = vec![(10, "a.jpg".to_string()), (20, "0.jpg".to_string())];
    assert_eq!(parse_vision_answer("0.jpg is best", &map), Some(20));
    assert_eq!(parse_vision_answer("0", &map), None);
}

#[test]
fn parse_vision_answer_huge_number_is_rejected() {
    let map = vec![(10, "a.jpg".to_string())];
    assert_eq!(parse_vision_answer("99999999999999999999999999 a.jpg", &map), Some(10));
    assert_eq!(parse_vision_answer("99999999999999999999999999", &map), None);
}

#[test]
fn supports_vision_prefers_the_api_answer() {
    assert!(ollama_model_supports_vision("qwen3:1.7b", |_| Some(true)));
    // A negative or missing API answer falls back to the name heuristic.
    assert!(ollama_model_supports_vision("llava:13b", |_| Some(false)));
    assert!(!ollama_model_supports_vision("qwen3:1.7b", |_| Some(false)));
    assert!(!ollama_model_supports_vision("", |_| Some(true)));
    assert!(ollama_model_supports_vision("llava:13b", |_| None));
    assert!(!ollama_model_supports_vision("qwen3:1.7b", |_| None));
}

fn rec(path: &str) -> ImageRecord {
    ImageRecord {
        path: path.to_string(),
        blake3: String::new(),
        phash: None,
        dhash: None,
        preview_w: 0,
        preview_h: 0,
        size: 0,
        is_raw_or_dng: false,
    }
}

#[test]
fn answered_file_matches_names_in_the_group() {
    let records = vec![rec("/shoot/IMG_1.jpg"), rec("/shoot/IMG_2.jpg"), rec("/shoot/IMG_3.jpg")];
    assert_eq!(pick_answered_file("IMG_3.jpg", &[0, 2], &records), Some(2));
    assert_eq!(pick_answered_file("IMG_2.jpg", &[0, 2], &records), None);
    assert_eq!(pick_answered_file("I pick IMG_1.jpg", &[0, 2], &records), Some(0));
}

#[test]
fn display_names_are_the_last_component() {
    assert_eq!(file_name_str("/a/b/c.jpg"), "c.jpg");
    assert_eq!(file_name_str("c.jpg"), "c.jpg");
}

#[test]
fn unique_files_are_those_in_no_group() {
    let groups = vec![vec![0, 3], vec![2, 5]];
    assert_eq!(unique_indices(7, &groups), vec![1, 4, 6]);
    assert_eq!(unique_indices(3, &vec![]), vec![0, 1, 2]);
}

#[test]
fn placement_keeps_one_winner_per_group() {
    let groups = vec![vec![0, 1], vec![2, 4, 5]];
    let winners = vec![1, 4];
    let unique = vec![3];
    let plan = placement_plan(&groups, &winners, &unique);
    assert_eq!(
        plan,
        vec![
            (0, Placement::Rejected),
            (1, Placement::Kept),
            (2, Placement::Rejected),
            (4, Placement::Kept),
            (5, Placement::Rejected),
            (3, Placement::Unique),
        ]
    );
    let kept = plan.iter().filter(|(_, p)| *p == Placement::Kept).count();
    assert_eq!(kept, groups.len());
}

#[test]
fn placement_labels_and_destinations() {
    assert!(Placement::Kept.is_good());
    assert!(Placement::Unique.is_good());
    assert!(!Placement::Rejected.is_good());
    assert_eq!(Placement::Kept.label(), "kept");
    assert_eq!(Placement::Rejected.label(), "rejected");
    assert_eq!(Placement::Unique.label(), "unique");
}

#[test]
fn outcomes_count_only_successful_moves() {
    let outcomes = vec![
        (Placement::Kept, true),
        (Placement::Rejected, true),
        (Placement::Rejected, false),
        (Placement::Unique, true),
        (Placement::Kept, false),
    ];
    assert_eq!(count_outcomes(&outcomes), (2, 1));
    assert_eq!(count_outcomes(&[]), (0, 0));
}

#[test]
fn every_record_is_placed_exactly_once() {
    let mut records: Vec<ImageRecord> = (0..6).map(|i| rec(&format!("/s/{i}.jpg"))).collect();
    for (i, r) in records.iter_mut().enumerate() {
        r.blake3 = format!("b{i}");
        r.phash = Some(if i < 3 { 0 } else { u64::MAX << (i * 8) });
    }
    records[5].blake3 = "b3".to_string();
    let groups = cluster_duplicates(&records, 2, false);
    let unique = unique_indices(records.len(), &groups);
    let winners: Vec<usize> = groups.iter().map(|g| g[g.len() - 1]).collect();
    let plan = placement_plan(&groups, &winners, &unique);
    for i in 0..records.len() {
        assert_eq!(plan.iter().filter(|(j, _)| *j == i).count(), 1, "record {i}");
    }
    for (g, w) in groups.iter().zip(&winners) {
        let kept: Vec<usize> =
            plan.iter().filter(|(j, p)| *p == Placement::Kept && g.contains(j)).map(|(j, _)| *j).collect();
        assert_eq!(kept, vec![*w]);
    }
}

#[test]
fn lowercased_names_are_matched_against_the_families() {
    assert!(lowercase_name_looks_vision("llava:13b"));
    assert!(lowercase_name_looks_vision("qwen2.5vl:7b"));
    assert!(!lowercase_name_looks_vision("LLAVA:13B"));
    assert!(!lowercase_name_looks_vision("qwen3:8b"));
    assert!(!lowercase_name_looks_vision(""));
}

#[test]
fn a_run_whose_moves_all_succeed_tallies_every_record() {
    let mut records: Vec<ImageRecord> = (0..6).map(|i| rec(&format!("/s/{i}.jpg"))).collect();
    for (i, r) in records.iter_mut().enumerate() {
        r.blake3 = format!("b{i}");
        r.phash = Some(if i < 3 { 0 } else { u64::MAX << (i * 8) });
    }
    records[5].blake3 = "b3".to_string();
    let groups = cluster_duplicates(&records, 2, false);
    let unique = unique_indices(records.len(), &groups);
    let winners: Vec<usize> = groups.iter().map(|g| g[0]).collect();
    let plan = placement_plan(&groups, &winners, &unique);
    let outcomes: Vec<(Placement, bool)> = plan.iter().map(|(_, p)| (*p, true)).collect();
    let (kept, rejected) = count_outcomes(&outcomes);
    assert_eq!(groups, vec![vec![0, 1, 2], vec![3, 5]]);
    assert_eq!(kept, groups.len() + unique.len());
    assert_eq!(kept, 3);
    assert_eq!(rejected, 3);
    assert_eq!(kept + rejected, records.len());
}
