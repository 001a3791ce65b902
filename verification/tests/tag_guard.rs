use simaris::tag_guard::{classify_noise, levenshtein, normalize_tags, suggest_neighbors, tag_verdict};

fn classify_pass(t: &str) {
    assert_eq!(classify_noise(t), None, "expected `{t}` to pass");
}

#[test]
fn normalize_lowercases_trims_dedupes() {
    let input = vec![
        "  Aspect ".to_string(),
        "aspect".to_string(),
        "BANSHEE".to_string(),
        "".to_string(),
        "banshee".to_string(),
    ];
    let out = normalize_tags(&input);
    assert_eq!(out, vec!["aspect".to_string(), "banshee".to_string()]);
}

#[test]
fn normalize_drops_whitespace_only() {
    let input = vec!["   ".to_string(), "\tRust\n".to_string()];
    assert_eq!(normalize_tags(&input), vec!["rust".to_string()]);
}

#[test]
fn classify_noise_catches_obvious() {
    assert_eq!(classify_noise("task:yvck"), Some("namespace-prefix"));
    assert_eq!(classify_noise("item:a"), Some("namespace-prefix"));
    assert_eq!(classify_noise("event:pretooluse"), Some("namespace-prefix"));
    assert_eq!(classify_noise("phase-1"), Some("phase-X"));
    assert_eq!(classify_noise("gate-2.5"), Some("gate-N"));
    assert_eq!(classify_noise("priority-3"), Some("priority-N"));
    assert_eq!(classify_noise("v02"), Some("version-tag"));
    classify_pass("rust");
    classify_pass("simaris");
    classify_pass("aspect-v2");
}

#[test]
fn classify_noise_other_classes() {
    assert_eq!(classify_noise(""), Some("empty"));
    assert_eq!(classify_noise("x"), Some("single-char"));
    assert_eq!(classify_noise("story-12"), Some("story-N"));
    assert_eq!(classify_noise("deadbeef"), Some("hex-uuid-fragment"));
    assert_eq!(classify_noise("gate-"), None);
    assert_eq!(classify_noise("deadbee"), None);
}

#[test]
fn classify_real_2char_tags_pass() {
    for t in &["pm", "ui", "ci", "qa", "ux", "go", "pr", "jq", "gh"] {
        assert_eq!(classify_noise(t), None, "expected `{t}` to pass");
    }
}

#[test]
fn levenshtein_basic() {
    assert_eq!(levenshtein("aspect", "aspects"), 1);
    assert_eq!(levenshtein("aspect", "aspect"), 0);
    assert_eq!(levenshtein("rust", "rusty"), 1);
    assert_eq!(levenshtein("cat", "dog"), 3);
}

#[test]
fn levenshtein_symmetric_and_empty() {
    assert_eq!(levenshtein("kitten", "sitting"), 3);
    assert_eq!(levenshtein("sitting", "kitten"), 3);
    assert_eq!(levenshtein("", "abc"), 3);
    assert_eq!(levenshtein("abc", ""), 3);
}

#[test]
fn tag_verdict_refuses_noise_without_force() {
    let tags = vec!["task:x".to_string(), "rust".to_string(), "newtag".to_string()];
    let known = vec![false, true, false];
    let v = tag_verdict(&tags, &known, false);
    assert_eq!(v.rejected, vec![("task:x".to_string(), "namespace-prefix")]);
    assert_eq!(v.novel, vec!["newtag".to_string()]);
    assert!(v.refused);
    let v = tag_verdict(&tags, &known, true);
    assert!(!v.refused);
}

#[test]
fn tag_verdict_clean_list_passes() {
    let tags = vec!["rust".to_string()];
    let v = tag_verdict(&tags, &vec![true], false);
    assert!(v.rejected.is_empty());
    assert!(v.novel.is_empty());
    assert!(!v.refused);
}

#[test]
fn suggest_neighbors_ranks_by_distance_then_uses() {
    let rows = vec![
        ("aspects".to_string(), 2),
        ("aspect".to_string(), 9),
        ("zzz".to_string(), 50),
        ("asp".to_string(), 1),
        ("aspex".to_string(), 4),
    ];
    let out = suggest_neighbors("aspectt", &rows);
    assert_eq!(
        out,
        vec![("aspect".to_string(), 9), ("aspects".to_string(), 2), ("aspex".to_string(), 4)]
    );
}
