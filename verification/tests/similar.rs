use simaris::similar::{
    content_overlap_counts, content_preview, content_tokens, strip_leading_frontmatter,
    tag_overlap_counts,
};

fn strings(v: &[&str]) -> Vec<String> {
    v.iter().map(|s| s.to_string()).collect()
}

#[test]
fn tag_jaccard_basic() {
    let a = strings(&["x", "y", "z"]);
    let b = strings(&["y", "z", "w"]);
    // intersect = 2 (y, z), union = 4 (x, y, z, w) → 0.5
    assert_eq!(tag_overlap_counts(&a, &b), (2, 4));
}

#[test]
fn tag_jaccard_empty_both() {
    assert_eq!(tag_overlap_counts(&vec![], &vec![]), (0, 0));
}

#[test]
fn tag_jaccard_empty_one_side() {
    assert_eq!(tag_overlap_counts(&strings(&["x"]), &vec![]), (0, 1));
}

#[test]
fn tag_jaccard_identical() {
    assert_eq!(tag_overlap_counts(&strings(&["x", "y"]), &strings(&["y", "x"])), (2, 2));
}

#[test]
fn tag_overlap_treats_duplicates_as_one() {
    assert_eq!(tag_overlap_counts(&strings(&["x", "x"]), &strings(&["x"])), (1, 1));
}

#[test]
fn content_preview_truncates_to_80() {
    let body = "a".repeat(200);
    assert_eq!(content_preview(&body).chars().count(), 80);
}

#[test]
fn content_preview_first_line_only() {
    let body = "first line\nsecond line";
    assert_eq!(content_preview(body), "first line");
}

#[test]
fn strip_leading_frontmatter_block() {
    let body = "---\ntype: lesson\nrefs:\n---\nactual body here";
    assert_eq!(strip_leading_frontmatter(body), "actual body here");
}

#[test]
fn strip_leading_frontmatter_passthrough() {
    let body = "no frontmatter here";
    assert_eq!(strip_leading_frontmatter(body), body);
}

#[test]
fn strip_leading_frontmatter_drops_bom() {
    assert_eq!(strip_leading_frontmatter("\u{feff}\u{feff}plain"), "plain");
}

#[test]
fn content_tokens_filter_short_and_lowercase() {
    let toks = content_tokens("Foo Bar a IS the_KEY x");
    // a/is/the/x dropped (len<3), foo/bar/the_key kept (case-folded).
    assert!(toks.contains(&"foo".to_string()));
    assert!(toks.contains(&"bar".to_string()));
    assert!(toks.contains(&"the_key".to_string()));
    assert!(!toks.contains(&"is".to_string()));
    assert!(!toks.contains(&"a".to_string()));
    assert!(!toks.contains(&"x".to_string()));
}

#[test]
fn content_tokens_each_once_in_first_order() {
    assert_eq!(content_tokens("beta alpha BETA"), strings(&["beta", "alpha"]));
}

#[test]
fn content_overlap_jaccard_basic() {
    assert_eq!(content_overlap_counts("alpha beta gamma", "alpha beta gamma"), (3, 3));
    assert_eq!(content_overlap_counts("alpha beta gamma", "delta epsilon zeta"), (0, 6));
}

#[test]
fn content_overlap_jaccard_handles_frontmatter() {
    let a = "---\nshared:\n  - tag-a\n  - tag-b\n---\nactual body here";
    let b = "---\nshared:\n  - tag-c\n  - tag-d\n---\nactual body here";
    assert_eq!(content_overlap_counts(a, b), (3, 3));
}

#[test]
fn content_overlap_jaccard_empty_both() {
    assert_eq!(content_overlap_counts("---\n---\n", "---\n---\n"), (0, 0));
}
