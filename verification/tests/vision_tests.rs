use aspen::vision::{vision_candidates, vision_prompt, VISION_PROMPT_HEAD, VISION_PROMPT_TAIL};

#[test]
fn base64_matches_published_vectors() {
    let cases: [(&[u8], &str); 7] = [
        (b"", ""),
        (b"f", "Zg=="),
        (b"fo", "Zm8="),
        (b"foo", "Zm9v"),
        (b"foob", "Zm9vYg=="),
        (b"fooba", "Zm9vYmE="),
        (b"foobar", "Zm9vYmFy"),
    ];
    for (raw, encoded) in cases {
        let loaded = vec![(0usize, "a".to_string(), raw.to_vec()), (1usize, "b".to_string(), vec![0xff, 0xfe])];
        let (_, images) = vision_candidates(&loaded).unwrap();
        assert_eq!(images[0], encoded);
        assert_eq!(images[1], "//4=");
    }
}

#[test]
fn fewer_than_two_candidates_make_no_request() {
    assert!(vision_candidates(&[]).is_none());
    assert!(vision_candidates(&[(3, "a.jpg".to_string(), vec![1, 2, 3])]).is_none());
}

#[test]
fn candidates_keep_their_order_and_names() {
    let loaded = vec![
        (7, "b.jpg".to_string(), vec![0xFF, 0xD8]),
        (2, "a.jpg".to_string(), vec![]),
        (9, "c.jpg".to_string(), b"Man".to_vec()),
    ];
    let (map, images) = vision_candidates(&loaded).unwrap();
    assert_eq!(map, vec![(7, "b.jpg".to_string()), (2, "a.jpg".to_string()), (9, "c.jpg".to_string())]);
    assert_eq!(images, vec!["/9g=".to_string(), String::new(), "TWFu".to_string()]);
}

#[test]
fn prompt_numbers_candidates_from_one() {
    let map = vec![(10, "a.jpg".to_string()), (20, "b.jpg".to_string())];
    let notes = vec![Some("algo scores: expression=0.50".to_string()), None];
    let prompt = vision_prompt(&map, &notes);
    let expected = format!(
        "{VISION_PROMPT_HEAD}1. a.jpg (algo scores: expression=0.50)\n2. b.jpg\n{VISION_PROMPT_TAIL}"
    );
    assert_eq!(prompt, expected);
    assert!(prompt.starts_with("You are an expert photo curator comparing near-duplicate photos. The images"));
    assert!(prompt.contains("HARD RULES (in priority order):\n1. REJECT"));
    assert!(prompt.ends_with("Example: \"2 — eyes fully open, natural smile\""));
}

#[test]
fn prompt_without_candidates_is_head_and_tail() {
    assert_eq!(vision_prompt(&[], &[]), format!("{VISION_PROMPT_HEAD}{VISION_PROMPT_TAIL}"));
}
