use aspen::benchmark::MAX_RUN_FILES;
use aspen::run_files::{is_run_file_name, labels_file_name, runs_to_prune, str_lex_le};

#[test]
fn prune_keeps_newest_runs() {
    let names: Vec<String> = (0..MAX_RUN_FILES + 3).map(|i| format!("aspen-benchmark-{i:04}-run.jsonl")).collect();
    let pruned = runs_to_prune(&names);
    let remaining = names.len() - pruned.len();
    assert_eq!(remaining, MAX_RUN_FILES - 1);
    assert_eq!(pruned[0], "aspen-benchmark-0000-run.jsonl");
    assert_eq!(pruned[3], "aspen-benchmark-0003-run.jsonl");
}

#[test]
fn prune_ignores_unrelated_files() {
    let names = vec!["aspen.log".to_string()];
    assert!(runs_to_prune(&names).is_empty());
}

#[test]
fn prune_selects_oldest_by_name_whatever_the_listing_order() {
    let mut names: Vec<String> = (0..MAX_RUN_FILES).map(|i| format!("aspen-benchmark-{:04}.jsonl", 100 - i)).collect();
    names.push("aspen-labels-0001.csv".to_string());
    names.push("notes.txt".to_string());
    let pruned = runs_to_prune(&names);
    assert_eq!(pruned, vec!["aspen-benchmark-0081.jsonl".to_string()]);
}

#[test]
fn below_the_limit_nothing_is_pruned() {
    let names: Vec<String> = (0..MAX_RUN_FILES - 1).map(|i| format!("aspen-benchmark-{i}.jsonl")).collect();
    assert!(runs_to_prune(&names).is_empty());
}

#[test]
fn run_file_names() {
    assert!(is_run_file_name("aspen-benchmark-2024-run.jsonl"));
    assert!(!is_run_file_name("aspen-benchmark-2024-run.csv"));
    assert!(!is_run_file_name("aspen-labels-2024.jsonl"));
}

#[test]
fn labels_belong_to_their_run() {
    assert_eq!(labels_file_name("aspen-benchmark-20240101-abc.jsonl"), "aspen-labels-20240101-abc.csv");
    assert_eq!(labels_file_name("aspen-benchmark-x.jsonl.jsonl"), "aspen-labels-x.csv.jsonl");
    assert_eq!(labels_file_name("aspen-benchmark-.jsonl"), "aspen-labels-.csv");
}

#[test]
fn names_compare_like_str() {
    let words = ["", "a", "ab", "b", "B", "é", "aa", "a-b", "a_b"];
    for a in words {
        for b in words {
            assert_eq!(str_lex_le(a, b), a <= b, "{a:?} <= {b:?}");
        }
    }
}
