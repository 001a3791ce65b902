use simaris::display::{
    derive_headline, first_line_preview, identifying_text, short_id, truncate_content,
    truncate_owner,
};
use simaris::model::LinkedUnit;

#[test]
fn headline_prose_uses_first_line() {
    assert_eq!(derive_headline("first line of prose\n\nsecond para\n"), "first line of prose");
}

#[test]
fn headline_prose_skips_blank_lines() {
    assert_eq!(derive_headline("\n\n  real content here\n"), "real content here");
}

#[test]
fn headline_structured_skips_fence_picks_body_heading() {
    let c = "---\nrole: \"r\"\n---\n\n# Body Heading\n\nparagraph\n";
    assert_eq!(derive_headline(c), "# Body Heading");
}

#[test]
fn headline_structured_no_body_falls_back_to_role() {
    let c = "---\nrole: \"skeptical critic\"\n---\n";
    assert_eq!(derive_headline(c), "skeptical critic");
}

#[test]
fn headline_structured_no_body_falls_back_to_trigger() {
    let c = "---\ntrigger: \"new target found\"\n---\n";
    assert_eq!(derive_headline(c), "new target found");
}

#[test]
fn headline_structured_no_body_no_fallback_key_returns_empty() {
    let c = "---\nfoo: bar\n---\n";
    assert_eq!(derive_headline(c), "");
}

#[test]
fn headline_truncates_at_120_chars() {
    let long: String = "x".repeat(150);
    let out = derive_headline(&long);
    assert_eq!(out.chars().count(), 123);
    assert!(out.ends_with("..."));
}

#[test]
fn first_line_preview_skips_frontmatter() {
    let with_fm = "---\nrole: \"r\"\n---\n\nfirst body line\n\nsecond para\n";
    assert_eq!(first_line_preview(with_fm), "first body line");

    let heading_first = "---\ntags: [x]\n---\n\n# Body Heading\n\npara\n";
    assert_eq!(first_line_preview(heading_first), "Body Heading");

    let plain = "\n\n  plain start\nrest\n";
    assert_eq!(first_line_preview(plain), "plain start");
}

#[test]
fn short_id_takes_eight() {
    assert_eq!(short_id("019dbb6e-1887-7383-b2a8-de22b7a2eb56"), "019dbb6e");
    assert_eq!(short_id("abc"), "abc");
}

#[test]
fn truncate_content_appends_ellipsis() {
    let long = "y".repeat(81);
    let out = truncate_content(&long);
    assert_eq!(out.chars().count(), 83);
    assert!(out.ends_with("..."));
    assert_eq!(truncate_content("short"), "short");
}

#[test]
fn truncate_owner_keeps_width() {
    assert_eq!(truncate_owner("abcdef", 4), "abc…");
    assert_eq!(truncate_owner("abc", 3), "abc");
    assert_eq!(truncate_owner("abc", 0), "…");
}

#[test]
fn identifying_text_prefers_slug() {
    let mut l = LinkedUnit {
        from_id: "a".into(),
        to_id: "b".into(),
        relationship: "part_of".into(),
        slug: Some("the-slug".into()),
        headline: "Headline".into(),
    };
    assert_eq!(identifying_text(&l), "the-slug");
    l.slug = None;
    assert_eq!(identifying_text(&l), "Headline");
}
