use aspen::dedupe::{cluster_duplicates, hamming, pair_is_near, ImageRecord};

fn record(name: &str, blake: &str, phash: Option<u64>, dhash: Option<u64>, raw: bool) -> ImageRecord {
    ImageRecord {
        path: name.to_string(),
        blake3: blake.to_string(),
        phash,
        dhash,
        preview_w: 10,
        preview_h: 10,
        size: 1,
        is_raw_or_dng: raw,
    }
}

fn hashed(name: &str, blake: &str, phash: u64) -> ImageRecord {
    record(name, blake, Some(phash), None, true)
}

fn base_name(path: &str) -> String {
    path.rsplit('/').next().unwrap_or(path).to_string()
}

fn sorted_groups(records: &[ImageRecord], threshold: u32) -> Vec<Vec<String>> {
    let mut groups: Vec<Vec<String>> = cluster_duplicates(records, threshold, false)
        .into_iter()
        .map(|g| {
            let mut names: Vec<String> = g.into_iter().map(|i| base_name(&records[i].path)).collect();
            names.sort();
            names
        })
        .collect();
    groups.sort();
    groups
}

#[test]
fn exact_blake3_clusters() {
    let records = vec![
        record("a.jpg", "aaa", Some(0), None, false),
        record("b.jpg", "aaa", Some(0), None, false),
        record("c.jpg", "bbb", Some(u64::MAX), None, false),
    ];
    let groups = cluster_duplicates(&records, 3, false);
    assert_eq!(groups.len(), 1);
    assert_eq!(groups[0].len(), 2);
}

#[test]
fn chain_of_near_matches_does_not_merge_distant_endpoints() {
    // A-B=5, B-C=5, A-C=10. Single-linkage would make one group of three.
    let records = vec![
        hashed("a.arw", "a", 0),
        hashed("b.arw", "b", 0b1_1111),
        hashed("c.arw", "c", 0b1_1111 | (0b1_1111 << 5)),
    ];
    assert_eq!(hamming(records[0].phash.unwrap(), records[1].phash.unwrap()), 5);
    assert_eq!(hamming(records[1].phash.unwrap(), records[2].phash.unwrap()), 5);
    assert_eq!(hamming(records[0].phash.unwrap(), records[2].phash.unwrap()), 10);
    let groups = sorted_groups(&records, 7);
    assert_eq!(groups.len(), 1);
    assert!(
        groups[0] == ["a.arw", "b.arw"] || groups[0] == ["b.arw", "c.arw"],
        "expected a tight pair, got {groups:?}"
    );
}

#[test]
fn mutual_near_matches_still_form_one_group() {
    let records = vec![
        hashed("a.arw", "a", 0),
        hashed("b.arw", "b", 0b111),
        hashed("c.arw", "c", 0b1_1000),
    ];
    assert_eq!(hamming(0, 0b111), 3);
    assert_eq!(hamming(0, 0b1_1000), 2);
    assert_eq!(hamming(0b111, 0b1_1000), 5);
    let groups = sorted_groups(&records, 7);
    assert_eq!(groups, vec![vec!["a.arw", "b.arw", "c.arw"]]);
}

#[test]
fn client_burst_does_not_absorb_the_sharper_different_frame() {
    let records = vec![
        hashed("_ANI7997.ARW", "7997", 0x4402_8d16_73e9_06f1),
        hashed("_ANI7998.ARW", "7998", 0x4400_8d16_13c9_02fd),
        hashed("_ANI7999.ARW", "7999", 0x4000_4d16_13c9_02fd),
        hashed("_ANI8000.ARW", "8000", 0x0400_0d16_13e9_027d),
    ];
    let groups = sorted_groups(&records, 7);
    assert_eq!(
        groups,
        vec![vec![
            "_ANI7998.ARW".to_string(),
            "_ANI7999.ARW".to_string(),
            "_ANI8000.ARW".to_string()
        ]]
    );
}

#[test]
fn hamming_counts_differing_bits() {
    assert_eq!(hamming(0, 0), 0);
    assert_eq!(hamming(0, u64::MAX), 64);
    assert_eq!(hamming(0b1010, 0b0101), 4);
    assert_eq!(hamming(0x8000_0000_0000_0001, 1), 1);
}

#[test]
fn hamming_is_symmetric_on_examples() {
    let samples = [0u64, 1, 0xdead_beef, u64::MAX, 0x0123_4567_89ab_cdef];
    for &a in &samples {
        for &b in &samples {
            assert_eq!(hamming(a, b), hamming(b, a));
        }
    }
}

#[test]
fn pair_needs_both_phashes() {
    let records = vec![record("a.jpg", "a", None, None, false), record("b.jpg", "b", Some(0), None, false)];
    assert!(!pair_is_near(&records, 0, 1, 64, false));
    assert!(!pair_is_near(&records, 1, 0, 64, false));
}

#[test]
fn dhash_confirmation_allows_four_extra_bits() {
    // pHash distance 0, dHash distance 7 with threshold 3: 7 <= 3 + 4.
    let records = vec![
        record("a.jpg", "a", Some(0), Some(0), false),
        record("b.jpg", "b", Some(0), Some(0b111_1111), false),
        record("c.jpg", "c", Some(0), Some(0b1111_1111), false),
    ];
    assert!(pair_is_near(&records, 0, 1, 3, true));
    assert!(!pair_is_near(&records, 0, 2, 3, true));
    // Without confirmation the dHash is ignored.
    assert!(pair_is_near(&records, 0, 2, 3, false));
}

#[test]
fn groups_are_increasing_disjoint_and_ordered_by_smallest_member() {
    let records = vec![
        hashed("0", "x", 0xffff_0000_0000_0000),
        hashed("1", "y", 0),
        hashed("2", "x", 0xffff_0000_0000_0000),
        hashed("3", "z", 1),
        hashed("4", "w", 0x0f0f_0f0f_0f0f_0f0f),
    ];
    let groups = cluster_duplicates(&records, 2, false);
    assert_eq!(groups, vec![vec![0, 2], vec![1, 3]]);
    let mut seen = std::collections::HashSet::new();
    for g in &groups {
        assert!(g.len() >= 2);
        assert!(g.windows(2).all(|w| w[0] < w[1]));
        for &i in g {
            assert!(seen.insert(i));
        }
    }
}

#[test]
fn identical_content_groups_even_without_hashes() {
    let records = vec![
        record("a.jpg", "same", None, None, false),
        record("b.jpg", "other", None, None, false),
        record("c.jpg", "same", None, None, false),
    ];
    assert_eq!(cluster_duplicates(&records, 0, true), vec![vec![0, 2]]);
}

#[test]
fn members_of_each_group_are_pairwise_close() {
    let records = vec![
        hashed("a", "a", 0),
        hashed("b", "b", 0b11),
        hashed("c", "c", 0b1111),
        hashed("d", "d", 0b11_1111),
        hashed("e", "e", 0b1111_1111),
    ];
    let groups = cluster_duplicates(&records, 3, false);
    for g in &groups {
        for &i in g {
            for &j in g {
                if i != j {
                    assert!(pair_is_near(&records, i, j, 3, false));
                }
            }
        }
    }
    assert!(!groups.is_empty());
}

#[test]
fn empty_and_single_inputs_give_no_groups() {
    assert!(cluster_duplicates(&[], 7, false).is_empty());
    assert!(cluster_duplicates(&[hashed("a", "a", 0)], 7, false).is_empty());
}
